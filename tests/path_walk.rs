use pathtrace::path::{choose_bounce, extra_samples, Bounce, PathState};

#[test]
fn bounce_choice() {
    assert_eq!(choose_bounce(true, true), Bounce::Refract);
    assert_eq!(choose_bounce(true, false), Bounce::Reflect);
    assert_eq!(choose_bounce(false, true), Bounce::Reflect);
    assert_eq!(choose_bounce(false, false), Bounce::Reflect);
}

#[test]
fn extra_sample_counts() {
    assert_eq!(extra_samples(false, false, 4, 4), 0);
    assert_eq!(extra_samples(true, false, 4, 5), 4);
    assert_eq!(extra_samples(false, true, 4, 5), 5);
    assert_eq!(extra_samples(true, true, 4, 5), 9);
    assert_eq!(extra_samples(true, true, u16::MAX, u16::MAX), 2 * 65535);
}

#[test]
fn fresh_path() {
    let s = PathState::new(8);
    assert_eq!(s.remaining(), 8);
    assert!(!s.did_reflect());
    assert!(!s.did_refract());
}

#[test]
fn budget_ends_path() {
    let mut s = PathState::new(3);
    assert!(s.spend_bounce());
    assert!(!s.did_reflect());
    assert_eq!(s.scatter(true, false), Bounce::Reflect);
    assert_eq!(s.remaining(), 2);
    assert!(s.did_reflect());
    assert!(!s.did_refract());
    assert!(s.spend_bounce());
    assert_eq!(s.scatter(true, true), Bounce::Refract);
    assert!(s.did_refract());
    assert_eq!(s.remaining(), 1);
    assert!(!s.spend_bounce());
    assert_eq!(s.remaining(), 0);
}

#[test]
fn refract_then_miss_is_not_reflected() {
    let mut s = PathState::new(8);
    assert!(s.spend_bounce());
    assert_eq!(s.scatter(true, true), Bounce::Refract);
    // The path now leaves the scene.
    assert!(!s.did_reflect());
    assert!(s.did_refract());
    assert_eq!(extra_samples(s.did_reflect(), s.did_refract(), 4, 5), 5);
}

#[test]
fn exhausted_budget_counts_as_reflected() {
    let mut s = PathState::new(2);
    assert!(s.spend_bounce());
    assert_eq!(s.scatter(true, true), Bounce::Refract);
    assert!(!s.did_reflect());
    assert!(!s.spend_bounce());
    assert!(s.did_reflect());
    assert!(s.did_refract());
    assert_eq!(extra_samples(s.did_reflect(), s.did_refract(), 4, 5), 9);
}

#[test]
fn single_bounce_budget() {
    let mut s = PathState::new(1);
    assert!(!s.spend_bounce());
    assert!(s.did_reflect());
    assert!(!s.did_refract());
}

#[test]
fn empty_budget_ends_at_first_hit() {
    let mut s = PathState::new(0);
    assert!(!s.spend_bounce());
    assert_eq!(s.remaining(), 0);
    assert!(s.did_reflect());
}

#[test]
fn default_budget_allows_seven_bounces() {
    let mut s = PathState::new(8);
    for _ in 0..7 {
        assert!(s.spend_bounce());
        assert_eq!(s.scatter(false, false), Bounce::Reflect);
    }
    assert!(!s.spend_bounce());
    assert!(!s.did_refract());
}

#[test]
fn scatter_keeps_budget() {
    let mut s = PathState::new(5);
    assert_eq!(s.scatter(false, true), Bounce::Reflect);
    assert_eq!(s.remaining(), 5);
    assert!(!s.did_refract());
    assert!(s.did_reflect());
}

#[test]
fn hit_without_scatter_marks_nothing() {
    let mut s = PathState::new(5);
    assert!(s.spend_bounce());
    assert_eq!(s.remaining(), 4);
    assert!(!s.did_reflect());
    assert!(!s.did_refract());
}
