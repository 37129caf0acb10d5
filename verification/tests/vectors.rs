use boids::vec2::{div_round, div_trunc, isqrt, Vec2};

#[test]
fn isqrt_exact_values() {
    assert_eq!(isqrt(0), 0);
    assert_eq!(isqrt(1), 1);
    assert_eq!(isqrt(2), 1);
    assert_eq!(isqrt(3), 1);
    assert_eq!(isqrt(4), 2);
    assert_eq!(isqrt(99), 9);
    assert_eq!(isqrt(100), 10);
    assert_eq!(isqrt(49_999 * 49_999), 49_999);
    assert_eq!(isqrt(i64::MAX), 3_037_000_499);
}

#[test]
fn div_round_half_away() {
    assert_eq!(div_round(17_500, 35_000), 1);
    assert_eq!(div_round(17_499, 35_000), 0);
    assert_eq!(div_round(-17_500, 35_000), -1);
    assert_eq!(div_round(-17_499, 35_000), 0);
    assert_eq!(div_round(52_500, 35_000), 2);
}

#[test]
fn div_trunc_toward_zero() {
    assert_eq!(div_trunc(7, 2), 3);
    assert_eq!(div_trunc(-7, 2), -3);
    assert_eq!(div_trunc(999_000, 10_001), 99);
}

#[test]
fn clamp_within_limit() {
    // A 3-4-5 vector of length 50 units clamped to a tiny force.
    let v = Vec2 { x: 30_000, y: 40_000 };
    let c = v.clamp_len(2_500);
    assert!(c.x * c.x + c.y * c.y <= 2_500 * 2_500);
    assert!(c.x > 0 && c.y > 0);
    // A huge vector is also brought inside the limit.
    let big = Vec2 { x: 1_000_000_000, y: -1_000_000_000 };
    let cb = big.clamp_len(2_500);
    assert!(cb.x * cb.x + cb.y * cb.y <= 2_500 * 2_500);
    assert!(cb.x > 0 && cb.y < 0);
}

#[test]
fn clamp_no_change_when_short() {
    let v = Vec2 { x: 30, y: -40 };
    assert_eq!(v.clamp_len(2_500), v);
}

#[test]
fn scaled_to_magnitude() {
    let v = Vec2 { x: 10_000, y: 0 };
    let s = v.scaled_to(1_000);
    // x * m / (len + 1) with len 10000.
    assert_eq!(s, Vec2 { x: 999, y: 0 });
    let z = Vec2 { x: 0, y: 0 }.scaled_to(1_000);
    assert_eq!(z, Vec2 { x: 0, y: 0 });
}
