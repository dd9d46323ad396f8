use esox::sdf::{
    register_outcome, SdfEffects, ShaderCheck,
    compose_shader, str_contains, SdfBlendMode, SdfEffectHandle, SDF_FRAGMENT_DEFAULT, SDF_FRAGMENT_MATERIAL,
    SDF_FRAGMENT_NO_DEPTH_DEFAULT, SDF_FRAGMENT_NO_DEPTH_MATERIAL, SDF_PREAMBLE,
};

#[test]
fn sdf_effect_handle_equality() {
    let a = SdfEffectHandle(0);
    let b = SdfEffectHandle(0);
    let c = SdfEffectHandle(1);
    assert_eq!(a, b);
    assert_ne!(a, c);
}

#[test]
fn sdf_blend_mode_equality() {
    assert_eq!(SdfBlendMode::AlphaBlend, SdfBlendMode::AlphaBlend);
    assert_eq!(SdfBlendMode::Additive, SdfBlendMode::Additive);
    assert_ne!(SdfBlendMode::AlphaBlend, SdfBlendMode::Additive);
}

#[test]
fn compose_detects_material() {
    let body_no_mat = "fn sdf_scene(p: vec3<f32>) -> f32 { return 1.0; }";
    let body_with_mat = "fn sdf_scene(p: vec3<f32>) -> f32 { return 1.0; }\nfn sdf_material(p: vec3<f32>, n: vec3<f32>) -> vec4<f32> { return vec4<f32>(1.0); }";

    let no_mat = compose_shader(body_no_mat, true);
    let with_mat = compose_shader(body_with_mat, true);

    // The material variant calls sdf_material in the fragment shader.
    assert!(!no_mat.contains("sdf_material(hit_pos"));
    assert!(with_mat.contains("sdf_material(hit_pos"));
}

#[test]
fn compose_keeps_body_and_depth_choice() {
    let body = "fn sdf_scene(p: vec3<f32>) -> f32 { return length(p) - 1.0; }";
    let with_depth = compose_shader(body, true);
    let without_depth = compose_shader(body, false);
    assert!(with_depth.contains(body));
    assert!(without_depth.contains(body));
    assert_eq!(with_depth, format!("{}\n{}\n{}", SDF_PREAMBLE, body, SDF_FRAGMENT_DEFAULT));
    assert_eq!(without_depth, format!("{}\n{}\n{}", SDF_PREAMBLE, body, SDF_FRAGMENT_NO_DEPTH_DEFAULT));
    let mat = "fn sdf_material(p: vec3<f32>, n: vec3<f32>) -> vec4<f32> { return vec4<f32>(1.0); }";
    assert_eq!(compose_shader(mat, true), format!("{}\n{}\n{}", SDF_PREAMBLE, mat, SDF_FRAGMENT_MATERIAL));
    assert_eq!(compose_shader(mat, false), format!("{}\n{}\n{}", SDF_PREAMBLE, mat, SDF_FRAGMENT_NO_DEPTH_MATERIAL));
}

#[test]
fn str_contains_cases() {
    assert!(str_contains("abcdef", "cde"));
    assert!(str_contains("abc", ""));
    assert!(!str_contains("abc", "abcd"));
    assert!(!str_contains("abc", "ac"));
}

#[test]
fn register_outcome_numbers_and_messages() {
    assert_eq!(register_outcome(3, &ShaderCheck::Valid), Ok(SdfEffectHandle(3)));
    assert_eq!(
        register_outcome(0, &ShaderCheck::ParseError("expected ';'".to_string())),
        Err("SDF WGSL parse error: expected ';'".to_string())
    );
    assert_eq!(
        register_outcome(1, &ShaderCheck::ValidationError("bad type".to_string())),
        Err("SDF WGSL validation error: bad type".to_string())
    );
}

#[test]
fn effect_list_registers_enabled_effects() {
    let mut fx = SdfEffects::new();
    assert_eq!(fx.register(&ShaderCheck::Valid), Ok(SdfEffectHandle(0)));
    let err = fx.register(&ShaderCheck::ParseError("oops".to_string()));
    assert_eq!(err, Err("SDF WGSL parse error: oops".to_string()));
    assert_eq!(fx.len(), 1);
    assert_eq!(fx.register(&ShaderCheck::Valid), Ok(SdfEffectHandle(1)));
    assert_eq!(fx.enabled_effects(), vec![SdfEffectHandle(0), SdfEffectHandle(1)]);
    fx.set_enabled(SdfEffectHandle(0), false);
    fx.set_enabled(SdfEffectHandle(7), false);
    assert_eq!(fx.enabled_effects(), vec![SdfEffectHandle(1)]);
    assert_eq!(fx.len(), 2);
}
