//! Tests of the fixed-point scalar type: arithmetic, saturation, the
//! hyperbolic tangent, and text rendering.

use micrograd::fixed::{MyF64, SCALE};
use micrograd::render::fmt_fixed;

#[test]
fn arithmetic_is_exact_in_range() {
    assert_eq!(MyF64(20_000).add(MyF64(30_000)), MyF64(50_000));
    assert_eq!(MyF64(20_000).sub(MyF64(30_000)), MyF64(-10_000));
    assert_eq!(MyF64(20_000).mul(MyF64(-30_000)), MyF64(-60_000));
    assert_eq!(MyF64(15_000).mul(MyF64(15_000)), MyF64(22_500));
    assert_eq!(MyF64(10_000).div(MyF64(40_000)), MyF64(2_500));
    assert_eq!(MyF64::one(), MyF64(SCALE));
    assert_eq!(MyF64::zero(), MyF64(0));
}

#[test]
fn multiplication_truncates_toward_zero() {
    assert_eq!(MyF64(1).mul(MyF64(1)), MyF64(0));
    assert_eq!(MyF64(-1).mul(MyF64(1)), MyF64(0));
    assert_eq!(MyF64(9_999).mul(MyF64(9_999)), MyF64(9_998));
    assert_eq!(MyF64(-9_999).mul(MyF64(9_999)), MyF64(-9_998));
}

#[test]
fn arithmetic_saturates_at_the_range_ends() {
    assert_eq!(MyF64(i64::MAX).add(MyF64(1)), MyF64(i64::MAX));
    assert_eq!(MyF64(i64::MIN).sub(MyF64(1)), MyF64(i64::MIN));
    assert_eq!(MyF64(i64::MAX).mul(MyF64(i64::MAX)), MyF64(i64::MAX));
    assert_eq!(MyF64(i64::MAX).mul(MyF64(i64::MIN)), MyF64(i64::MIN));
}

#[test]
fn tanh_matches_reference_values() {
    // tanh(0) = 0, tanh is odd, and tanh(0.5) = 0.4621... at four decimals.
    assert_eq!(MyF64(0).tanh(), MyF64(0));
    assert_eq!(MyF64(5_000).tanh(), MyF64(4_621));
    assert_eq!(MyF64(-5_000).tanh(), MyF64(-4_621));
}

#[test]
fn tanh_saturates_far_from_zero() {
    assert_eq!(MyF64(69_999).tanh(), MyF64(9_999));
    assert_eq!(MyF64(70_000).tanh(), MyF64(9_999));
    assert_eq!(MyF64(-70_000).tanh(), MyF64(-9_999));
    assert_eq!(MyF64(i64::MAX).tanh(), MyF64(9_999));
    assert_eq!(MyF64(i64::MIN).tanh(), MyF64(-9_999));
}

#[test]
fn formatting_shows_four_decimals() {
    assert_eq!(fmt_fixed(MyF64(0)), "0.0000");
    assert_eq!(fmt_fixed(MyF64(-60_000)), "-6.0000");
    assert_eq!(fmt_fixed(MyF64(12_345)), "1.2345");
    assert_eq!(fmt_fixed(MyF64(4_621)), "0.4621");
    assert_eq!(fmt_fixed(MyF64(-1)), "-0.0001");
    assert_eq!(fmt_fixed(MyF64(1_234_567_890)), "123456.7890");
}
