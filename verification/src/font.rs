//! System font resolution: the order in which font families are tried, and
//! what a resolution answers.

use vstd::prelude::*;
use vstd::string::{StrSliceExecFns, StringExecFns};
use crate::sdf::{occurs, str_contains};

verus! {

/// Font style variant for queries.
#[derive(Debug, Clone, Copy, PartialEq, Eq, Structural)]
pub enum FontStyle {
    /// Normal weight, upright.
    Regular,
    /// Bold weight, upright.
    Bold,
    /// Normal weight, italic.
    Italic,
    /// Bold weight, italic.
    BoldItalic,
}

/// Result of a system font query — the raw font file bytes.
#[derive(Debug)]
pub struct FontMatch {
    /// The raw font file data.
    pub data: Vec<u8>,
    /// The family name that matched.
    pub family: String,
}

/// Errors of font resolution.
#[derive(Debug)]
pub enum FontError {
    /// A font could not be found or loaded; the message says which.
    Load(String),
}

/// One thing to ask the font database for.
#[derive(Debug, Clone, Copy, PartialEq, Eq)]
pub enum FontCandidate {
    /// A family by name.
    Family(&'static str),
    /// The family the caller asked for.
    Requested,
    /// The database's generic monospace family.
    GenericMonospace,
}

/// The weight (CSS scale) and italic flag a style queries.
pub fn style_query(style: FontStyle) -> (r: (u16, bool))
    ensures
        r.0 == (if style == FontStyle::Bold || style == FontStyle::BoldItalic { 700u16 } else { 400u16 }),
        r.1 == (style == FontStyle::Italic || style == FontStyle::BoldItalic),
{
    let weight: u16 = match style {
        FontStyle::Regular | FontStyle::Italic => 400,
        FontStyle::Bold | FontStyle::BoldItalic => 700,
    };
    let italic = match style {
        FontStyle::Regular | FontStyle::Bold => false,
        FontStyle::Italic | FontStyle::BoldItalic => true,
    };
    (weight, italic)
}

/// The monospace fallback families, in the order they are tried.
pub open spec fn monospace_fallbacks_spec() -> Seq<&'static str> {
    seq![
        "DejaVu Sans Mono",
        "Noto Sans Mono",
        "Liberation Mono",
        "Fira Code",
        "Source Code Pro",
        "Inconsolata",
        "Droid Sans Mono",
        "Cascadia Code",
        "Consolas",
        "Menlo",
        "Courier New",
    ]
}

/// Common monospace fallback families, tried in order.
pub fn monospace_fallbacks() -> (r: Vec<&'static str>)
    ensures
        r@ == monospace_fallbacks_spec(),
{
    let v = vec![
        "DejaVu Sans Mono",
        "Noto Sans Mono",
        "Liberation Mono",
        "Fira Code",
        "Source Code Pro",
        "Inconsolata",
        "Droid Sans Mono",
        "Cascadia Code",
        "Consolas",
        "Menlo",
        "Courier New",
    ];
    assert(v@ =~= monospace_fallbacks_spec());
    v
}

/// The code of `c` with ASCII letters lowercased.
pub open spec fn ascii_lower(c: char) -> int {
    if 'A' <= c && c <= 'Z' { (c as u32) + 32 } else { c as u32 as int }
}

/// Equal up to ASCII case (what `str::eq_ignore_ascii_case` answers).
pub open spec fn eq_ignore_ascii_case_spec(a: Seq<char>, b: Seq<char>) -> bool {
    a.len() == b.len() && forall|i: int| 0 <= i < a.len() ==> ascii_lower(#[trigger] a[i]) == ascii_lower(b[i])
}

fn lower_char(c: char) -> (r: u32)
    ensures
        r == ascii_lower(c),
{
    if 'A' <= c && c <= 'Z' {
        (c as u32) + 32
    } else {
        c as u32
    }
}

/// Whether two strings are equal up to ASCII case.
pub fn eq_ignore_ascii_case(a: &str, b: &str) -> (r: bool)
    ensures
        r == eq_ignore_ascii_case_spec(a@, b@),
{
    let n = a.unicode_len();
    if n != b.unicode_len() {
        return false;
    }
    let mut i: usize = 0;
    while i < n
        invariant
            n == a@.len(),
            n == b@.len(),
            i <= n,
            forall|j: int| 0 <= j < i ==> ascii_lower(#[trigger] a@[j]) == ascii_lower(b@[j]),
        decreases n - i,
    {
        if lower_char(a.get_char(i)) != lower_char(b.get_char(i)) {
            return false;
        }
        i = i + 1;
    }
    true
}

/// The candidates `query_monospace` tries, in order: the generic monospace
/// family, then the fallback list.
pub open spec fn monospace_plan(fallbacks: Seq<&'static str>) -> Seq<FontCandidate> {
    seq![FontCandidate::GenericMonospace] + fallbacks.map_values(|f: &'static str| FontCandidate::Family(f))
}

/// The candidates tried for `family`, in order: the monospace plan when
/// `family` names monospace (any ASCII case), otherwise the family itself
/// and then the monospace plan. The first candidate found answers.
pub fn resolve_plan(family: &str) -> (r: Vec<FontCandidate>)
    ensures
        eq_ignore_ascii_case_spec(family@, "monospace"@) ==> r@ == monospace_plan(monospace_fallbacks_spec()),
        !eq_ignore_ascii_case_spec(family@, "monospace"@) ==> r@ == seq![FontCandidate::Requested] + monospace_plan(monospace_fallbacks_spec()),
{
    let mut plan: Vec<FontCandidate> = Vec::new();
    let alias = eq_ignore_ascii_case(family, "monospace");
    if !alias {
        plan.push(FontCandidate::Requested);
    }
    plan.push(FontCandidate::GenericMonospace);
    let fallbacks = monospace_fallbacks();
    assert(fallbacks@ == monospace_fallbacks_spec());
    let ghost start = plan@;
    let mut i: usize = 0;
    while i < fallbacks.len()
        invariant
            i <= fallbacks@.len(),
            plan@ == start + fallbacks@.take(i as int).map_values(|f: &'static str| FontCandidate::Family(f)),
        decreases fallbacks@.len() - i,
    {
        plan.push(FontCandidate::Family(fallbacks[i]));
        proof {
            assert(fallbacks@.take(i + 1).map_values(|f: &'static str| FontCandidate::Family(f))
                =~= fallbacks@.take(i as int).map_values(|f: &'static str| FontCandidate::Family(f)).push(FontCandidate::Family(fallbacks@[i as int])));
        }
        i = i + 1;
    }
    assert(fallbacks@.take(fallbacks@.len() as int) =~= fallbacks@);
    if alias {
        assert(plan@ =~= monospace_plan(monospace_fallbacks_spec()));
    } else {
        assert(plan@ =~= seq![FontCandidate::Requested] + monospace_plan(monospace_fallbacks_spec()));
    }
    plan
}


/// The answer of a family resolution: the matched font's data, or the
/// error naming the family.
pub fn resolve_family(family: &str, found: Option<FontMatch>) -> (r: Result<Vec<u8>, FontError>)
    ensures
        match found {
            Some(m) => r matches Ok(d) && d@ == m.data@,
            None => r matches Err(FontError::Load(msg))
                && msg@ == "font family '"@ + family@ + "' not found on system"@,
        },
{
    match found {
        Some(m) => Ok(m.data),
        None => {
            let mut msg = "font family '".to_owned();
            msg.append(family);
            msg.append("' not found on system");
            Err(FontError::Load(msg))
        },
    }
}

/// The well-known symbol, emoji and CJK fallback families, in priority order.
pub open spec fn well_known_fallbacks_spec() -> Seq<&'static str> {
    seq![
        "Symbols Nerd Font Mono",
        "Symbols Nerd Font",
        "Noto Color Emoji",
        "Noto Sans Symbols",
        "Noto Sans Symbols2",
        "Noto Sans CJK",
    ]
}

/// Well-known symbol, emoji and CJK fallback families, in priority order.
pub fn well_known_fallbacks() -> (r: Vec<&'static str>)
    ensures
        r@ == well_known_fallbacks_spec(),
{
    let v = vec![
        "Symbols Nerd Font Mono",
        "Symbols Nerd Font",
        "Noto Color Emoji",
        "Noto Sans Symbols",
        "Noto Sans Symbols2",
        "Noto Sans CJK",
    ];
    assert(v@ =~= well_known_fallbacks_spec());
    v
}

/// Whether `names` contains `name`.
fn contains_name(names: &Vec<String>, name: &str) -> (r: bool)
    ensures
        r == exists|k: int| 0 <= k < names@.len() && (#[trigger] names@[k])@ == name@,
{
    let mut i: usize = 0;
    while i < names.len()
        invariant
            i <= names@.len(),
            forall|k: int| 0 <= k < i ==> (#[trigger] names@[k])@ != name@,
        decreases names@.len() - i,
    {
        if crate::dispatch::str_eq(names[i].as_str(), name) {
            return true;
        }
        i = i + 1;
    }
    false
}

/// Among a face's family names, the first that is a Nerd Font (contains
/// `"Nerd Font"`) not yet among `seen`: the one to query for that face.
pub fn nerd_font_to_query(face_families: &Vec<String>, seen: &Vec<String>) -> (r: Option<usize>)
    ensures
        match r {
            Some(i) => {
                &&& i < face_families@.len()
                &&& occurs(face_families@[i as int]@, "Nerd Font"@)
                &&& !exists|k: int| 0 <= k < seen@.len() && (#[trigger] seen@[k])@ == face_families@[i as int]@
                &&& forall|j: int| 0 <= j < i ==> !(occurs((#[trigger] face_families@[j])@, "Nerd Font"@)
                    && !exists|k: int| 0 <= k < seen@.len() && (#[trigger] seen@[k])@ == face_families@[j]@)
            },
            None => forall|j: int| 0 <= j < face_families@.len() ==> !(occurs((#[trigger] face_families@[j])@, "Nerd Font"@)
                && !exists|k: int| 0 <= k < seen@.len() && (#[trigger] seen@[k])@ == face_families@[j]@),
        },
{
    let mut i: usize = 0;
    while i < face_families.len()
        invariant
            i <= face_families@.len(),
            forall|j: int| 0 <= j < i ==> !(occurs((#[trigger] face_families@[j])@, "Nerd Font"@)
                && !exists|k: int| 0 <= k < seen@.len() && (#[trigger] seen@[k])@ == face_families@[j]@),
        decreases face_families@.len() - i,
    {
        let name = face_families[i].as_str();
        if str_contains(name, "Nerd Font") && !contains_name(seen, name) {
            return Some(i);
        }
        i = i + 1;
    }
    None
}

} // verus!
