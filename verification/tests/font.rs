use esox::font::{
    eq_ignore_ascii_case, monospace_fallbacks, nerd_font_to_query, resolve_family, resolve_plan, style_query,
    well_known_fallbacks, FontCandidate, FontError, FontMatch, FontStyle,
};

#[test]
fn style_weights() {
    assert_eq!(style_query(FontStyle::Regular), (400, false));
    assert_eq!(style_query(FontStyle::Bold), (700, false));
    assert_eq!(style_query(FontStyle::Italic), (400, true));
    assert_eq!(style_query(FontStyle::BoldItalic), (700, true));
}

#[test]
fn plans() {
    let mono = resolve_plan("MonoSpace");
    assert_eq!(mono[0], FontCandidate::GenericMonospace);
    assert_eq!(mono[1], FontCandidate::Family("DejaVu Sans Mono"));
    assert_eq!(mono.len(), 1 + monospace_fallbacks().len());
    let named = resolve_plan("Fira Sans");
    assert_eq!(named[0], FontCandidate::Requested);
    assert_eq!(named[1], FontCandidate::GenericMonospace);
    assert_eq!(named.last(), Some(&FontCandidate::Family("Courier New")));
}

#[test]
fn resolution_answers() {
    let found = FontMatch { data: vec![1, 2, 3], family: "Inter".to_string() };
    match resolve_family("Inter", Some(found)) {
        Ok(d) => assert_eq!(d, vec![1, 2, 3]),
        Err(e) => panic!("unexpected {:?}", e),
    }
    match resolve_family("Nope", None) {
        Err(FontError::Load(m)) => assert_eq!(m, "font family 'Nope' not found on system"),
        Ok(_) => panic!("expected an error"),
    }
}

#[test]
fn ascii_case_and_fallbacks() {
    assert!(eq_ignore_ascii_case("Hello", "hELLO"));
    assert!(!eq_ignore_ascii_case("Hello", "Hell"));
    assert_eq!(well_known_fallbacks()[0], "Symbols Nerd Font Mono");
    assert_eq!(well_known_fallbacks().len(), 6);
}

#[test]
fn nerd_font_choice() {
    let families = vec!["Hack".to_string(), "Hack Nerd Font".to_string(), "Hack Nerd Font Mono".to_string()];
    assert_eq!(nerd_font_to_query(&families, &Vec::new()), Some(1));
    assert_eq!(nerd_font_to_query(&families, &vec!["Hack Nerd Font".to_string()]), Some(2));
    let seen = vec!["Hack Nerd Font".to_string(), "Hack Nerd Font Mono".to_string()];
    assert_eq!(nerd_font_to_query(&families, &seen), None);
}
