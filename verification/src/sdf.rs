//! SDF (signed distance field) effects: blend modes, effect handles, and
//! composition of a user's SDF shader body with the framework's WGSL.
//!
//! The user supplies `fn sdf_scene(p: vec3<f32>) -> f32` and optionally
//! `fn sdf_material(p: vec3<f32>, n: vec3<f32>) -> vec4<f32>`.

use vstd::prelude::*;
use vstd::string::{StrSliceExecFns, StringExecFns};

verus! {

/// Blend mode for compositing an SDF effect with the scene.
#[derive(Debug, Clone, Copy, PartialEq, Eq, Structural)]
pub enum SdfBlendMode {
    /// Normal alpha blending over the scene.
    AlphaBlend,
    /// Additive blending (for glows, fog).
    Additive,
}

/// Opaque handle to a registered SDF effect.
#[derive(Debug, Clone, Copy, PartialEq, Eq, Hash, Structural)]
pub struct SdfEffectHandle(pub u32);

/// WGSL preamble injected before every SDF effect shader.
///
/// Provides bindings, the fullscreen vertex shader, ray generation,
/// SDF normal computation, and scene-depth readback.
pub const SDF_PREAMBLE: &'static str = r#"
struct SdfParams {
    inv_view_projection: mat4x4<f32>,
    camera_position: vec4<f32>,
    viewport: vec4<f32>,
    time: vec4<f32>,
}

@group(0) @binding(0) var depth_tex: texture_depth_2d;
@group(0) @binding(1) var depth_sampler: sampler;
@group(0) @binding(2) var<uniform> sdf: SdfParams;

// Fullscreen triangle vertex shader
struct VertexOutput {
    @builtin(position) position: vec4<f32>,
    @location(0) uv: vec2<f32>,
}

@vertex
fn vs_main(@builtin(vertex_index) vi: u32) -> VertexOutput {
    var out: VertexOutput;
    let x = f32(i32(vi & 1u) * 4 - 1);
    let y = f32(i32(vi & 2u) * 2 - 1);
    out.position = vec4<f32>(x, y, 0.0, 1.0);
    out.uv = vec2<f32>((x + 1.0) * 0.5, (1.0 - y) * 0.5);
    return out;
}

// Generate ray from screen UV
fn generate_ray(uv: vec2<f32>) -> vec3<f32> {
    let ndc = vec2<f32>(uv.x * 2.0 - 1.0, (1.0 - uv.y) * 2.0 - 1.0);
    let world_far = sdf.inv_view_projection * vec4<f32>(ndc, 1.0, 1.0);
    let world_near = sdf.inv_view_projection * vec4<f32>(ndc, 0.0, 1.0);
    let far = world_far.xyz / world_far.w;
    let near = world_near.xyz / world_near.w;
    return normalize(far - near);
}

// Compute normal from SDF gradient
fn sdf_normal(p: vec3<f32>) -> vec3<f32> {
    let e = 0.001;
    let n = vec3<f32>(
        sdf_scene(p + vec3<f32>(e, 0.0, 0.0)) - sdf_scene(p - vec3<f32>(e, 0.0, 0.0)),
        sdf_scene(p + vec3<f32>(0.0, e, 0.0)) - sdf_scene(p - vec3<f32>(0.0, e, 0.0)),
        sdf_scene(p + vec3<f32>(0.0, 0.0, e)) - sdf_scene(p - vec3<f32>(0.0, 0.0, e)),
    );
    return normalize(n);
}

// Read scene depth and convert to linear distance
fn scene_depth_at(uv: vec2<f32>) -> f32 {
    let d = textureSample(depth_tex, depth_sampler, uv);
    // Reconstruct world position from depth
    let ndc = vec2<f32>(uv.x * 2.0 - 1.0, (1.0 - uv.y) * 2.0 - 1.0);
    let world = sdf.inv_view_projection * vec4<f32>(ndc, d, 1.0);
    let world_pos = world.xyz / world.w;
    return length(world_pos - sdf.camera_position.xyz);
}
"#;

/// Fragment shader template for SDF effects WITHOUT user material: default
/// directional lighting, composited against scene depth.
pub const SDF_FRAGMENT_DEFAULT: &'static str = r#"
@fragment
fn fs_main(in: VertexOutput) -> @location(0) vec4<f32> {
    let ray_dir = generate_ray(in.uv);
    let ray_origin = sdf.camera_position.xyz;
    let max_dist = sdf.time.z;
    let max_steps = i32(sdf.time.w);

    var t = 0.0;
    var hit = false;
    for (var i = 0; i < max_steps; i = i + 1) {
        let p = ray_origin + ray_dir * t;
        let d = sdf_scene(p);
        if d < 0.001 {
            hit = true;
            break;
        }
        t += d;
        if t > max_dist {
            break;
        }
    }

    if !hit {
        discard;
    }

    // Depth compositing
    let scene_dist = scene_depth_at(in.uv);
    if t > scene_dist {
        discard;
    }

    let hit_pos = ray_origin + ray_dir * t;
    let normal = sdf_normal(hit_pos);

    // Default material: basic directional lighting
    let color = vec4<f32>(0.8, 0.8, 0.8, 1.0);
    let light_dir = normalize(vec3<f32>(0.3, 1.0, 0.5));
    let ndotl = max(dot(normal, light_dir), 0.0);
    let lit = color.rgb * (0.2 + 0.8 * ndotl);

    return vec4<f32>(lit, color.a);
}
"#;

/// Fragment shader template for SDF effects WITH user-supplied `sdf_material`,
/// composited against scene depth.
pub const SDF_FRAGMENT_MATERIAL: &'static str = r#"
@fragment
fn fs_main(in: VertexOutput) -> @location(0) vec4<f32> {
    let ray_dir = generate_ray(in.uv);
    let ray_origin = sdf.camera_position.xyz;
    let max_dist = sdf.time.z;
    let max_steps = i32(sdf.time.w);

    var t = 0.0;
    var hit = false;
    for (var i = 0; i < max_steps; i = i + 1) {
        let p = ray_origin + ray_dir * t;
        let d = sdf_scene(p);
        if d < 0.001 {
            hit = true;
            break;
        }
        t += d;
        if t > max_dist {
            break;
        }
    }

    if !hit {
        discard;
    }

    // Depth compositing
    let scene_dist = scene_depth_at(in.uv);
    if t > scene_dist {
        discard;
    }

    let hit_pos = ray_origin + ray_dir * t;
    let normal = sdf_normal(hit_pos);

    // User-supplied material
    let color = sdf_material(hit_pos, normal);
    let light_dir = normalize(vec3<f32>(0.3, 1.0, 0.5));
    let ndotl = max(dot(normal, light_dir), 0.0);
    let lit = color.rgb * (0.2 + 0.8 * ndotl);

    return vec4<f32>(lit, color.a);
}
"#;

/// Fragment shader template WITHOUT depth compositing and WITHOUT user material.
pub const SDF_FRAGMENT_NO_DEPTH_DEFAULT: &'static str = r#"
@fragment
fn fs_main(in: VertexOutput) -> @location(0) vec4<f32> {
    let ray_dir = generate_ray(in.uv);
    let ray_origin = sdf.camera_position.xyz;
    let max_dist = sdf.time.z;
    let max_steps = i32(sdf.time.w);

    var t = 0.0;
    var hit = false;
    for (var i = 0; i < max_steps; i = i + 1) {
        let p = ray_origin + ray_dir * t;
        let d = sdf_scene(p);
        if d < 0.001 {
            hit = true;
            break;
        }
        t += d;
        if t > max_dist {
            break;
        }
    }

    if !hit {
        discard;
    }

    let hit_pos = ray_origin + ray_dir * t;
    let normal = sdf_normal(hit_pos);

    // Default material: basic directional lighting
    let color = vec4<f32>(0.8, 0.8, 0.8, 1.0);
    let light_dir = normalize(vec3<f32>(0.3, 1.0, 0.5));
    let ndotl = max(dot(normal, light_dir), 0.0);
    let lit = color.rgb * (0.2 + 0.8 * ndotl);

    return vec4<f32>(lit, color.a);
}
"#;

/// Fragment shader template WITHOUT depth compositing but WITH user material.
pub const SDF_FRAGMENT_NO_DEPTH_MATERIAL: &'static str = r#"
@fragment
fn fs_main(in: VertexOutput) -> @location(0) vec4<f32> {
    let ray_dir = generate_ray(in.uv);
    let ray_origin = sdf.camera_position.xyz;
    let max_dist = sdf.time.z;
    let max_steps = i32(sdf.time.w);

    var t = 0.0;
    var hit = false;
    for (var i = 0; i < max_steps; i = i + 1) {
        let p = ray_origin + ray_dir * t;
        let d = sdf_scene(p);
        if d < 0.001 {
            hit = true;
            break;
        }
        t += d;
        if t > max_dist {
            break;
        }
    }

    if !hit {
        discard;
    }

    let hit_pos = ray_origin + ray_dir * t;
    let normal = sdf_normal(hit_pos);

    // User-supplied material
    let color = sdf_material(hit_pos, normal);
    let light_dir = normalize(vec3<f32>(0.3, 1.0, 0.5));
    let ndotl = max(dot(normal, light_dir), 0.0);
    let lit = color.rgb * (0.2 + 0.8 * ndotl);

    return vec4<f32>(lit, color.a);
}
"#;

/// Whether `pat` occurs in `s` at position `i`.
pub open spec fn occurs_at(s: Seq<char>, pat: Seq<char>, i: int) -> bool {
    0 <= i && i + pat.len() <= s.len() && s.subrange(i, i + pat.len()) == pat
}

/// Whether `pat` occurs in `s`.
pub open spec fn occurs(s: Seq<char>, pat: Seq<char>) -> bool {
    exists|i: int| occurs_at(s, pat, i)
}

/// Whether `pat` occurs in `s` (what `str::contains` answers for a string pattern).
pub fn str_contains(s: &str, pat: &str) -> (r: bool)
    ensures
        r == occurs(s@, pat@),
{
    let n = s.unicode_len();
    let m = pat.unicode_len();
    if m > n {
        proof {
            assert forall|i: int| !occurs_at(s@, pat@, i) by {}
        }
        return false;
    }
    let mut i: usize = 0;
    while i <= n - m
        invariant
            n == s@.len(),
            m == pat@.len(),
            m <= n,
            i <= n - m + 1,
            forall|k: int| 0 <= k < i ==> !occurs_at(s@, pat@, k),
        decreases n - m + 1 - i,
    {
        let mut j: usize = 0;
        while j < m && s.get_char(i + j) == pat.get_char(j)
            invariant
                n == s@.len(),
                m == pat@.len(),
                i + m <= n,
                j <= m,
                forall|q: int| 0 <= q < j ==> s@[i + q] == pat@[q],
            decreases m - j,
        {
            j = j + 1;
        }
        if j == m {
            assert(s@.subrange(i as int, i + m) =~= pat@);
            assert(occurs_at(s@, pat@, i as int));
            return true;
        }
        proof {
            assert(s@.subrange(i as int, i + m)[j as int] != pat@[j as int]);
        }
        i = i + 1;
    }
    proof {
        assert forall|k: int| !occurs_at(s@, pat@, k) by {
            if 0 <= k && k + m <= n {
                assert(k < i);
            }
        }
    }
    false
}

/// The fragment template for the given options.
pub open spec fn fragment_template(depth_composite: bool, has_material: bool) -> Seq<char> {
    if depth_composite {
        if has_material { SDF_FRAGMENT_MATERIAL@ } else { SDF_FRAGMENT_DEFAULT@ }
    } else {
        if has_material { SDF_FRAGMENT_NO_DEPTH_MATERIAL@ } else { SDF_FRAGMENT_NO_DEPTH_DEFAULT@ }
    }
}

/// The full WGSL source of an SDF effect: preamble, the user's body, then
/// the fragment template chosen by depth compositing and by whether the body
/// defines `fn sdf_material`, joined by newlines.
pub fn compose_shader(shader_body: &str, depth_composite: bool) -> (r: String)
    ensures
        r@ == SDF_PREAMBLE@ + "\n"@ + shader_body@ + "\n"@
            + fragment_template(depth_composite, occurs(shader_body@, "fn sdf_material"@)),
{
    let has_material = str_contains(shader_body, "fn sdf_material");
    let fragment_template: &'static str = if depth_composite {
        if has_material { SDF_FRAGMENT_MATERIAL } else { SDF_FRAGMENT_DEFAULT }
    } else {
        if has_material { SDF_FRAGMENT_NO_DEPTH_MATERIAL } else { SDF_FRAGMENT_NO_DEPTH_DEFAULT }
    };
    let mut out = SDF_PREAMBLE.to_owned();
    out.append("\n");
    out.append(shader_body);
    out.append("\n");
    out.append(fragment_template);
    out
}

/// How checking a composed shader came out.
#[derive(Debug, Clone)]
pub enum ShaderCheck {
    /// The shader parsed and validated.
    Valid,
    /// The WGSL did not parse; the parser's message.
    ParseError(String),
    /// The module did not validate; the validator's message.
    ValidationError(String),
}

/// What registering an effect answers once its shader was checked: the
/// handle numbered after the `effect_count` effects registered before it, or
/// the error, prefixed by which check failed.
pub fn register_outcome(effect_count: usize, check: &ShaderCheck) -> (r: Result<SdfEffectHandle, String>)
    ensures
        match check {
            ShaderCheck::Valid => r == Ok::<SdfEffectHandle, String>(SdfEffectHandle(effect_count as u32)),
            ShaderCheck::ParseError(e) => r is Err && r->Err_0@ == "SDF WGSL parse error: "@ + e@,
            ShaderCheck::ValidationError(e) => r is Err && r->Err_0@ == "SDF WGSL validation error: "@ + e@,
        },
{
    match check {
        ShaderCheck::Valid => Ok(SdfEffectHandle(effect_count as u32)),
        ShaderCheck::ParseError(e) => {
            let mut m = String::from_str("SDF WGSL parse error: ");
            m.append(e.as_str());
            Err(m)
        },
        ShaderCheck::ValidationError(e) => {
            let mut m = String::from_str("SDF WGSL validation error: ");
            m.append(e.as_str());
            Err(m)
        },
    }
}

/// The registered SDF effects, by handle: whether each is enabled. (The GPU
/// objects of an effect are kept beside this list, at the same position.)
pub struct SdfEffects {
    enabled: Vec<bool>,
}

/// The positions of the enabled effects, in order.
pub open spec fn enabled_positions(flags: Seq<bool>) -> Seq<int>
    decreases flags.len(),
{
    if flags.len() == 0 {
        Seq::empty()
    } else {
        let prev = enabled_positions(flags.drop_last());
        if flags.last() { prev.push(flags.len() - 1) } else { prev }
    }
}

impl SdfEffects {
    /// Whether each registered effect is enabled, by handle number.
    pub closed spec fn flags(&self) -> Seq<bool> {
        self.enabled@
    }

    /// No effect registered.
    pub fn new() -> (e: Self)
        ensures
            e.flags() == Seq::<bool>::empty(),
    {
        SdfEffects { enabled: Vec::new() }
    }

    /// How many effects are registered.
    pub fn len(&self) -> (n: usize)
        ensures
            n == self.flags().len(),
    {
        self.enabled.len()
    }

    /// Register an effect once its shader was checked: a valid shader adds
    /// an enabled effect under the next handle number; a failed check adds
    /// nothing and answers the error.
    pub fn register(&mut self, check: &ShaderCheck) -> (r: Result<SdfEffectHandle, String>)
        ensures
            match check {
                ShaderCheck::Valid => {
                    &&& r == Ok::<SdfEffectHandle, String>(SdfEffectHandle(old(self).flags().len() as u32))
                    &&& final(self).flags() == old(self).flags().push(true)
                },
                ShaderCheck::ParseError(e) => {
                    &&& r is Err && r->Err_0@ == "SDF WGSL parse error: "@ + e@
                    &&& final(self).flags() == old(self).flags()
                },
                ShaderCheck::ValidationError(e) => {
                    &&& r is Err && r->Err_0@ == "SDF WGSL validation error: "@ + e@
                    &&& final(self).flags() == old(self).flags()
                },
            },
    {
        let r = register_outcome(self.enabled.len(), check);
        if r.is_ok() {
            self.enabled.push(true);
        }
        r
    }

    /// Enable or disable an effect; an unknown handle changes nothing.
    pub fn set_enabled(&mut self, handle: SdfEffectHandle, enabled: bool)
        ensures
            (handle.0 as int) < old(self).flags().len() ==> final(self).flags() == old(self).flags().update(handle.0 as int, enabled),
            (handle.0 as int) >= old(self).flags().len() ==> final(self).flags() == old(self).flags(),
    {
        let i = handle.0 as usize;
        if i < self.enabled.len() {
            self.enabled.set(i, enabled);
        }
    }

    /// The effects drawn in a frame: the enabled ones, in registration order.
    pub fn enabled_effects(&self) -> (r: Vec<SdfEffectHandle>)
        ensures
            r@.len() == enabled_positions(self.flags()).len(),
            forall|k: int| 0 <= k < r@.len() ==> (#[trigger] r@[k]).0 == enabled_positions(self.flags())[k] as u32,
    {
        let mut r: Vec<SdfEffectHandle> = Vec::new();
        let mut i: usize = 0;
        while i < self.enabled.len()
            invariant
                i <= self.enabled@.len(),
                r@.len() == enabled_positions(self.enabled@.take(i as int)).len(),
                forall|k: int| 0 <= k < r@.len() ==> (#[trigger] r@[k]).0 == enabled_positions(self.enabled@.take(i as int))[k] as u32,
            decreases self.enabled@.len() - i,
        {
            let ghost before = enabled_positions(self.enabled@.take(i as int));
            assert(self.enabled@.take(i as int + 1).drop_last() =~= self.enabled@.take(i as int));
            if self.enabled[i] {
                r.push(SdfEffectHandle(i as u32));
                assert(enabled_positions(self.enabled@.take(i as int + 1)) == before.push(i as int));
            }
            i = i + 1;
        }
        assert(self.enabled@.take(self.enabled@.len() as int) =~= self.enabled@);
        r
    }
}

} // verus!
