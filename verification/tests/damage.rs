use esox::damage::DamageTracker;

/// A screen rectangle, as the renderer keeps damage.
#[derive(Debug, Clone, Copy, PartialEq)]
struct DamageRect {
    x: f32,
    y: f32,
    w: f32,
    h: f32,
}

impl DamageRect {
    fn new(x: f32, y: f32, w: f32, h: f32) -> Self {
        DamageRect { x, y, w, h }
    }
}

#[test]
fn tracker_starts_empty() {
    let t: DamageTracker<DamageRect> = DamageTracker::new();
    assert!(!t.is_full_invalidation());
    assert_eq!(t.regions().unwrap().len(), 0);
}

#[test]
fn tracker_add_regions() {
    let mut t = DamageTracker::new();
    t.add(DamageRect::new(0.0, 0.0, 10.0, 10.0));
    t.add(DamageRect::new(5.0, 5.0, 10.0, 10.0));
    assert_eq!(t.regions().unwrap().len(), 2);
}

#[test]
fn tracker_full_invalidation() {
    let mut t = DamageTracker::new();
    t.add(DamageRect::new(0.0, 0.0, 10.0, 10.0));
    t.invalidate_all();
    assert!(t.is_full_invalidation());
    assert!(t.regions().is_none());
}

#[test]
fn tracker_add_after_invalidation_is_ignored() {
    let mut t = DamageTracker::new();
    t.invalidate_all();
    t.add(DamageRect::new(0.0, 0.0, 10.0, 10.0));
    // Region was not added because we're in full invalidation.
    assert!(t.regions().is_none());
}

#[test]
fn tracker_reset_clears_state() {
    let mut t: DamageTracker<DamageRect> = DamageTracker::new();
    t.invalidate_all();
    t.reset();
    assert!(!t.is_full_invalidation());
    assert_eq!(t.regions().unwrap().len(), 0);
}

#[test]
fn tracker_keeps_regions_in_order() {
    let mut t = DamageTracker::default();
    let a = DamageRect::new(1.0, 2.0, 3.0, 4.0);
    let b = DamageRect::new(5.0, 6.0, 7.0, 8.0);
    t.add(a);
    t.add(b);
    assert_eq!(t.regions().unwrap(), &[a, b]);
    t.reset();
    assert_eq!(t.regions().unwrap().len(), 0);
}
