//! Tests of the fixed-point scalar helpers and the density projection.

use nbody::body::Body;
use nbody::math::{iabs, isqrt, muldiv};
use nbody::project::{bounding_box, project_points};
use nbody::vec3::Vec3;

fn v3(x: i128, y: i128, z: i128) -> Vec3 {
    Vec3 { x, y, z }
}

#[test]
fn isqrt_small_values() {
    assert_eq!(isqrt(0), 0);
    assert_eq!(isqrt(1), 1);
    assert_eq!(isqrt(2), 1);
    assert_eq!(isqrt(3), 1);
    assert_eq!(isqrt(4), 2);
    assert_eq!(isqrt(8), 2);
    assert_eq!(isqrt(9), 3);
    assert_eq!(isqrt(15), 3);
    assert_eq!(isqrt(16), 4);
}

#[test]
fn isqrt_large_values() {
    assert_eq!(isqrt(u128::MAX), (1u128 << 64) - 1);
    assert_eq!(isqrt(1_000_000_000_000_000_000_000_000), 1_000_000_000_000);
    let r = 123_456_789_012_345u128;
    assert_eq!(isqrt(r * r), r);
    assert_eq!(isqrt(r * r + 1), r);
    assert_eq!(isqrt(r * r - 1), r - 1);
}

#[test]
fn muldiv_truncates_toward_zero_in_all_sign_cases() {
    assert_eq!(muldiv(7, 3, 2), 10);
    assert_eq!(muldiv(-7, 3, 2), -10);
    assert_eq!(muldiv(7, -3, 2), -10);
    assert_eq!(muldiv(-7, -3, 2), 10);
    assert_eq!(muldiv(0, 55, 9), 0);
    assert_eq!(muldiv(1, 1, 1_000_000), 0);
    assert_eq!(muldiv(-1, 1, 1_000_000), 0);
}

#[test]
fn iabs_handles_the_extremes() {
    assert_eq!(iabs(0), 0);
    assert_eq!(iabs(-5), 5);
    assert_eq!(iabs(5), 5);
    assert_eq!(iabs(i128::MIN), (i128::MAX as u128) + 1);
    assert_eq!(iabs(i128::MAX), i128::MAX as u128);
}

#[test]
fn projection_selects_the_right_axes() {
    let bodies = vec![
        Body::new(1, v3(10, 20, 30), v3(0, 0, 0)),
        Body::new(2, v3(-1, -2, -3), v3(0, 0, 0)),
    ];
    assert_eq!(project_points(&bodies, 'x', 'y'), vec![(10, 20), (-1, -2)]);
    assert_eq!(project_points(&bodies, 'x', 'z'), vec![(10, 30), (-1, -3)]);
    assert_eq!(project_points(&bodies, 'y', 'z'), vec![(20, 30), (-2, -3)]);
}

#[test]
fn bounding_box_of_empty_list_is_none() {
    let points: Vec<(i128, i128)> = Vec::new();
    assert_eq!(bounding_box(&points), None);
}

#[test]
fn bounding_box_finds_attained_extremes() {
    let points = vec![(3, -7), (-10, 4), (5, 0), (0, 12)];
    assert_eq!(bounding_box(&points), Some(((-10, -7), (5, 12))));
    let single = vec![(9, -9)];
    assert_eq!(bounding_box(&single), Some(((9, -9), (9, -9))));
}
