use bluenoise::geometry::{isqrt, toroidal_delta, toroidal_distance, toroidal_distance_squared, wrap, Point};

#[test]
fn wrap_folds_negative_coordinates() {
    assert_eq!(wrap(-1, 16), 15);
    assert_eq!(wrap(-16, 16), 0);
    assert_eq!(wrap(-17, 16), 15);
    assert_eq!(wrap(16, 16), 0);
    assert_eq!(wrap(35, 16), 3);
    assert_eq!(wrap(7, 16), 7);
    assert_eq!(wrap(i64::MIN, 10), 2);
    assert_eq!(wrap(i64::MAX, 10), 7);
}

#[test]
fn delta_takes_the_short_way_round() {
    assert_eq!(toroidal_delta(1, 15, 16), -2);
    assert_eq!(toroidal_delta(15, 1, 16), 2);
    assert_eq!(toroidal_delta(3, 7, 16), 4);
    assert_eq!(toroidal_delta(0, 8, 16), 8);
    assert_eq!(toroidal_delta(8, 0, 16), -8);
    assert_eq!(toroidal_delta(0, 9, 16), -7);
}

#[test]
fn distance_crosses_the_seam() {
    let p = Point { x: 0, y: 0 };
    let q = Point { x: 15, y: 15 };
    assert_eq!(toroidal_distance_squared(p, q, 16, 16), 2);
    assert_eq!(toroidal_distance(p, q, 16, 16), 1);
    let far = Point { x: 8, y: 8 };
    assert_eq!(toroidal_distance_squared(p, far, 16, 16), 128);
    assert_eq!(toroidal_distance(p, far, 16, 16), 11);
}

#[test]
fn isqrt_rounds_down() {
    assert_eq!(isqrt(0), 0);
    assert_eq!(isqrt(1), 1);
    assert_eq!(isqrt(3), 1);
    assert_eq!(isqrt(4), 2);
    assert_eq!(isqrt(99), 9);
    assert_eq!(isqrt(100), 10);
    assert_eq!(isqrt(u64::MAX), 4_294_967_295);
}
