use bluenoise::domain::{ConfigError, Domain};
use bluenoise::geometry::{toroidal_distance_squared, Point};
use bluenoise::sampler::{Phase, Sampler, DEFAULT_SAMPLES};

fn sampler(width: u32, height: u32, min_distance: u32) -> Sampler {
    match Sampler::new(Domain { width, height, min_distance }) {
        Ok(sampler) => sampler,
        Err(e) => panic!("no sampler: {:?}", e),
    }
}

#[test]
fn new_sampler_is_seeding() {
    let s = sampler(16, 16, 2);
    assert_eq!(s.phase(), Phase::Seeding);
    assert_eq!(s.len(), 0);
    assert_eq!(s.active_len(), 0);
    assert_eq!(s.samples(), DEFAULT_SAMPLES);
    assert_eq!(DEFAULT_SAMPLES, 30);
    assert_eq!(s.domain(), Domain { width: 16, height: 16, min_distance: 2 });
    assert!(s.points().is_empty());
}

#[test]
fn sampler_rejects_bad_configurations() {
    let bad = |w: u32, h: u32, r: u32| Sampler::new(Domain { width: w, height: h, min_distance: r }).err();
    assert_eq!(bad(0, 16, 2), Some(ConfigError::EmptyWidth));
    assert_eq!(bad(16, 0, 2), Some(ConfigError::EmptyHeight));
    assert_eq!(bad(16, 16, 0), Some(ConfigError::NoSeparation));
    assert_eq!(bad(100_000, 100_000, 1), Some(ConfigError::TooManyCells));
}

#[test]
fn with_samples_changes_only_the_budget() {
    let s = sampler(16, 16, 2).with_samples(7);
    assert_eq!(s.samples(), 7);
    assert_eq!(s.phase(), Phase::Seeding);
    assert_eq!(s.domain(), Domain { width: 16, height: 16, min_distance: 2 });
}

#[test]
fn seed_is_placed_once() {
    let mut s = sampler(16, 16, 2);
    assert_eq!(s.seed(35, 18), Some(Point { x: 3, y: 2 }));
    assert_eq!(s.phase(), Phase::Sampling);
    assert_eq!(s.len(), 1);
    assert_eq!(s.active_len(), 1);
    assert_eq!(s.seed(1, 1), None);
    assert_eq!(s.len(), 1);
    assert_eq!(s.points(), &vec![Point { x: 3, y: 2 }]);
}

#[test]
fn offer_before_the_seed_changes_nothing() {
    let mut s = sampler(16, 16, 2);
    assert_eq!(s.offer(0), None);
    assert_eq!(s.phase(), Phase::Seeding);
    assert!(!s.retire());
}

#[test]
fn offer_accepts_a_candidate_in_the_ring() {
    let mut s = sampler(16, 16, 2);
    s.seed(0, 0);
    // angle zero, reach two: the point two units to the right
    assert_eq!(s.offer(0), Some(Point { x: 2, y: 0 }));
    assert_eq!(s.len(), 2);
    assert_eq!(s.active_len(), 2);
    // the newest point is the source now: half a turn leads back onto the seed
    assert_eq!(s.offer(32768), None);
    assert_eq!(s.len(), 2);
    assert_eq!(s.active_len(), 2);
    // a quarter turn, reach three
    assert_eq!(s.offer(65536 + 16384), Some(Point { x: 2, y: 3 }));
    assert_eq!(s.points(), &vec![Point { x: 0, y: 0 }, Point { x: 2, y: 0 }, Point { x: 2, y: 3 }]);
}

#[test]
fn retire_removes_the_newest_active_point() {
    let mut s = sampler(16, 16, 2);
    s.seed(0, 0);
    s.offer(0);
    assert!(s.retire());
    assert_eq!(s.active_len(), 1);
    assert_eq!(s.len(), 2);
    // the seed is the source again: angle zero now hits the point at (2, 0)
    assert_eq!(s.offer(0), None);
    // a quarter turn from the seed is free
    assert_eq!(s.offer(16384), Some(Point { x: 0, y: 2 }));
    assert!(s.retire());
    assert!(s.retire());
    assert!(!s.retire());
    assert_eq!(s.phase(), Phase::Exhausted);
    assert_eq!(s.offer(16384), None);
    assert_eq!(s.seed(5, 5), None);
    assert_eq!(s.len(), 3);
}

#[test]
fn candidate_across_the_seam_is_rejected() {
    let mut s = sampler(16, 16, 2);
    s.seed(0, 0);
    // planar distance 15, distance on the torus 1
    assert_eq!(toroidal_distance_squared(Point { x: 15, y: 0 }, Point { x: 0, y: 0 }, 16, 16), 1);
    assert!(!s.is_valid(Point { x: 15, y: 0 }));
    assert!(!s.is_valid(Point { x: 0, y: 15 }));
    assert!(!s.is_valid(Point { x: 15, y: 15 }));
    // exactly the minimum distance away across the seam
    assert!(s.is_valid(Point { x: 14, y: 0 }));
    assert!(s.is_valid(Point { x: 0, y: 14 }));
    // the seed's own place
    assert!(!s.is_valid(Point { x: 0, y: 0 }));
}

#[test]
fn points_outside_the_domain_are_not_valid() {
    let s = sampler(16, 9, 2);
    assert!(s.is_valid(Point { x: 15, y: 8 }));
    assert!(!s.is_valid(Point { x: 16, y: 0 }));
    assert!(!s.is_valid(Point { x: 0, y: 9 }));
}

#[test]
fn narrow_last_cell_hides_a_close_point_from_the_block() {
    // seven columns of side ten, the last one a single unit wide
    let domain = Domain { width: 61, height: 61, min_distance: 15 };
    assert!(!domain.reaches_all_neighbors());
    let mut s = sampler(61, 61, 15);
    s.seed(0, 0);
    let c = Point { x: 47, y: 0 };
    assert_eq!(toroidal_distance_squared(c, Point { x: 0, y: 0 }, 61, 61), 14 * 14);
    assert!(s.is_valid(c));
    // a candidate just off half a turn, rounded toward the source, lands there
    assert_eq!(s.offer(32868), Some(c));
    // one unit less and the whole number of cells closes the gap
    let mut t = sampler(60, 60, 15);
    t.seed(0, 0);
    assert!(!t.is_valid(Point { x: 46, y: 0 }));
    assert!(!t.is_valid(Point { x: 47, y: 0 }));
}
