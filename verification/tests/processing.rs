use mixed_signals::processing::{Abs, Invert, Normalized, Quantize};
use mixed_signals::types::{default_levels, default_octaves};

struct BipolarConstant(f32);

#[test]
fn test_inner_access() {
    let inner = BipolarConstant(0.5);
    let normalized = Normalized::new(inner);
    assert_eq!(normalized.inner().0, 0.5);
}

#[test]
fn normalized_into_inner_returns_wrapped_signal() {
    let normalized = Normalized::new(BipolarConstant(-0.25));
    assert_eq!(normalized.into_inner().0, -0.25);
}

#[test]
fn quantize_keeps_at_least_two_levels() {
    assert_eq!(Quantize::new(BipolarConstant(0.0), 0).levels, 2);
    assert_eq!(Quantize::new(BipolarConstant(0.0), 1).levels, 2);
    assert_eq!(Quantize::new(BipolarConstant(0.0), 2).levels, 2);
    assert_eq!(Quantize::new(BipolarConstant(0.0), 8).levels, 8);
}

#[test]
fn wrappers_keep_their_signal() {
    assert_eq!(Abs::new(BipolarConstant(-1.0)).signal.0, -1.0);
    assert_eq!(Invert::new(BipolarConstant(0.75)).signal.0, 0.75);
}

#[test]
fn spec_defaults() {
    assert_eq!(default_octaves(), 1);
    assert_eq!(default_levels(), 4);
}
