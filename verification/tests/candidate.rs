use bluenoise::candidate::{candidate, cosine, half_wave, scaled, seed_point, sine, HALF_TURN, QUARTER_TURN, TURN, UNIT};
use bluenoise::domain::Domain;
use bluenoise::geometry::Point;

#[test]
fn half_wave_exact_values() {
    assert_eq!(half_wave(0), 0);
    assert_eq!(half_wave(QUARTER_TURN), UNIT);
    assert_eq!(half_wave(HALF_TURN), 0);
    assert_eq!(half_wave(8192), 11565);
    assert_eq!(half_wave(24576), 11565);
}

#[test]
fn half_wave_follows_the_sine() {
    let mut angle: u64 = 0;
    while angle <= HALF_TURN {
        let exact = (std::f64::consts::PI * angle as f64 / HALF_TURN as f64).sin() * UNIT as f64;
        let got = half_wave(angle) as f64;
        assert!((got - exact).abs() <= 0.002 * UNIT as f64, "angle {}", angle);
        angle += 64;
    }
}

#[test]
fn sine_and_cosine_by_quadrant() {
    assert_eq!(sine(0), 0);
    assert_eq!(sine(16384), 16384);
    assert_eq!(sine(32768), 0);
    assert_eq!(sine(49152), -16384);
    assert_eq!(sine(40960), -11565);
    assert_eq!(cosine(0), 16384);
    assert_eq!(cosine(16384), 0);
    assert_eq!(cosine(32768), -16384);
    assert_eq!(cosine(49152), 0);
    assert_eq!(cosine(TURN - 1), sine(QUARTER_TURN - 1));
}

#[test]
fn scaled_rounds_toward_zero() {
    assert_eq!(scaled(10, 16384), 10);
    assert_eq!(scaled(10, -16384), -10);
    assert_eq!(scaled(3, 11565), 2);
    assert_eq!(scaled(3, -11565), -2);
    assert_eq!(scaled(0, 16384), 0);
    assert_eq!(scaled(0x1_ffff_ffff, -16384), -0x1_ffff_ffff);
}

#[test]
fn seed_point_takes_remainders() {
    let domain = Domain { width: 16, height: 9, min_distance: 2 };
    assert_eq!(seed_point(&domain, 35, 18), Point { x: 3, y: 0 });
    assert_eq!(seed_point(&domain, 15, 8), Point { x: 15, y: 8 });
    assert_eq!(seed_point(&domain, u64::MAX, u64::MAX), Point { x: 15, y: 6 });
}

#[test]
fn candidate_exact_values() {
    let domain = Domain { width: 16, height: 16, min_distance: 2 };
    let origin = Point { x: 0, y: 0 };
    // angle zero, shortest reach
    assert_eq!(candidate(&domain, origin, 0), Point { x: 2, y: 0 });
    // half a turn: to the left, across the seam
    assert_eq!(candidate(&domain, origin, 32768), Point { x: 14, y: 0 });
    // a quarter turn, reach three
    assert_eq!(candidate(&domain, origin, 65536 + 16384), Point { x: 0, y: 3 });
    // three quarters of a turn, reach three: down across the seam
    assert_eq!(candidate(&domain, origin, 65536 + 49152), Point { x: 0, y: 13 });
    assert_eq!(candidate(&domain, Point { x: 15, y: 15 }, 0), Point { x: 1, y: 15 });
}

#[test]
fn candidates_stay_in_the_domain_and_in_the_ring() {
    let domain = Domain { width: 1000, height: 700, min_distance: 50 };
    let from = Point { x: 500, y: 350 };
    let mut raw: u64 = 1;
    for _ in 0..2000 {
        raw = raw.wrapping_mul(6364136223846793005).wrapping_add(1442695040888963407);
        let c = candidate(&domain, from, raw);
        assert!(c.x < 1000 && c.y < 700);
        let dx = c.x as i64 - 500;
        let dy = c.y as i64 - 350;
        let squared = dx * dx + dy * dy;
        // one unit of slack on either side for rounding toward zero
        assert!(squared >= 48 * 48 && squared < 100 * 100, "raw {}", raw);
    }
}
