use bluenoise::domain::{ConfigError, Domain};
use bluenoise::geometry::{toroidal_distance_squared, Point};
use bluenoise::noise::WrappingBlueNoise;
use bluenoise::sampler::{Phase, Sampler, DEFAULT_SAMPLES};
use rand::{RngCore, SeedableRng};
use rand_pcg::Pcg64Mcg;

fn noise(width: u32, height: u32, min_distance: u32, seed: u64) -> WrappingBlueNoise {
    match WrappingBlueNoise::from_rng(width, height, min_distance, Pcg64Mcg::seed_from_u64(seed)) {
        Ok(noise) => noise,
        Err(e) => panic!("no noise: {:?}", e),
    }
}

fn assert_separated(points: &[Point], width: u32, height: u32, min_distance: u64) {
    for (i, p) in points.iter().enumerate() {
        assert!(p.x < width && p.y < height);
        for q in &points[i + 1..] {
            assert!(
                toroidal_distance_squared(*p, *q, width, height) >= min_distance * min_distance,
                "{:?} and {:?} are too close",
                p,
                q
            );
        }
    }
}

#[test]
fn from_rng_rejects_bad_configurations() {
    let bad = |w: u32, h: u32, r: u32| WrappingBlueNoise::from_rng(w, h, r, Pcg64Mcg::seed_from_u64(1)).err();
    assert_eq!(bad(0, 16, 2), Some(ConfigError::EmptyWidth));
    assert_eq!(bad(16, 0, 2), Some(ConfigError::EmptyHeight));
    assert_eq!(bad(16, 16, 0), Some(ConfigError::NoSeparation));
    assert_eq!(bad(5000, 5000, 1), Some(ConfigError::TooManyCells));
    assert_eq!(bad(16, 16, 2), None);
}

#[test]
fn from_rng_draws_nothing() {
    let n = noise(16, 16, 2, 10);
    assert_eq!(n.sampler().phase(), Phase::Seeding);
    assert_eq!(n.sampler().len(), 0);
    assert_eq!(n.sampler().samples(), DEFAULT_SAMPLES);
    assert_eq!(n.sampler().domain(), Domain { width: 16, height: 16, min_distance: 2 });
}

#[test]
fn first_point_is_the_seed_of_the_generator() {
    let mut rng = Pcg64Mcg::seed_from_u64(10);
    let x = (rng.next_u64() % 16) as u32;
    let y = (rng.next_u64() % 16) as u32;
    let mut n = noise(16, 16, 2, 10).with_samples(10);
    assert_eq!(n.next(), Some(Point { x, y }));
}

#[test]
fn ten_points_from_a_sixteen_by_sixteen_domain() {
    let mut n = noise(16, 16, 2, 10).with_samples(10);
    let points = n.take(10);
    assert_eq!(points.len(), 10);
    assert_separated(&points, 16, 16, 2);
    assert_eq!(n.sampler().points(), &points);
}

#[test]
fn same_seed_same_sequence() {
    let mut a = noise(64, 48, 5, 12345).with_samples(10);
    let mut b = noise(64, 48, 5, 12345).with_samples(10);
    let left = a.take(1000);
    let right = b.take(1000);
    assert!(left.len() > 10);
    assert_eq!(left, right);
    let mut c = noise(64, 48, 5, 12346).with_samples(10);
    assert_ne!(c.take(1000), left);
}

#[test]
fn pulling_one_by_one_equals_taking() {
    let mut a = noise(32, 32, 3, 7);
    let mut b = noise(32, 32, 3, 7);
    let taken = a.take(20);
    let mut pulled = Vec::new();
    for _ in 0..20 {
        if let Some(p) = b.next() {
            pulled.push(p);
        }
    }
    assert_eq!(taken, pulled);
}

#[test]
fn no_samples_yields_only_the_seed() {
    let mut n = noise(16, 16, 2, 10).with_samples(0);
    assert!(n.next().is_some());
    assert_eq!(n.sampler().phase(), Phase::Sampling);
    assert_eq!(n.next(), None);
    assert_eq!(n.sampler().phase(), Phase::Exhausted);
    assert_eq!(n.next(), None);
    assert_eq!(n.sampler().len(), 1);
    let mut m = noise(16, 16, 2, 10).with_samples(0);
    assert_eq!(m.take(10).len(), 1);
}

#[test]
fn distance_larger_than_the_domain_yields_one_point() {
    let mut n = noise(4, 4, 5, 3);
    assert!(Domain { width: 4, height: 4, min_distance: 5 }.reaches_all_neighbors());
    let points = n.take(100);
    assert_eq!(points.len(), 1);
    assert_eq!(n.sampler().phase(), Phase::Exhausted);
    assert_eq!(n.next(), None);
}

#[test]
fn sequence_ends_and_stays_ended() {
    let mut n = noise(16, 16, 2, 99);
    let mut count = 0usize;
    let mut before = 0usize;
    while let Some(_) = n.next() {
        count += 1;
        assert!(n.sampler().len() == before + 1);
        assert!(n.sampler().active_len() <= n.sampler().len());
        before = n.sampler().len();
        assert!(count <= 16 * 16);
    }
    assert!(count > 10);
    assert_eq!(n.sampler().phase(), Phase::Exhausted);
    assert_eq!(n.sampler().active_len(), 0);
    assert_eq!(n.sampler().len(), count);
    for _ in 0..5 {
        assert_eq!(n.next(), None);
        assert_eq!(n.sampler().len(), count);
    }
    let points = n.sampler().points().clone();
    assert_separated(&points, 16, 16, 2);
}

#[test]
fn take_returns_fewer_when_the_domain_is_full() {
    let mut n = noise(8, 8, 2, 5);
    let points = n.take(1000);
    assert!(points.len() < 1000);
    assert!(points.len() <= 64);
    assert!(!points.is_empty());
    assert_eq!(n.sampler().phase(), Phase::Exhausted);
    assert_eq!(n.take(3), Vec::<Point>::new());
    assert_separated(&points, 8, 8, 2);
}

#[test]
fn take_nothing_draws_nothing() {
    let mut n = noise(16, 16, 2, 10);
    assert_eq!(n.take(0), Vec::<Point>::new());
    assert_eq!(n.sampler().phase(), Phase::Seeding);
}

#[test]
fn whole_cells_keep_the_distance_on_a_large_domain() {
    let domain = Domain { width: 600, height: 400, min_distance: 15 };
    assert!(domain.reaches_all_neighbors());
    let mut n = noise(600, 400, 15, 2024);
    let points = n.take(5000);
    assert!(points.len() > 500);
    assert_eq!(n.sampler().phase(), Phase::Exhausted);
    assert_separated(&points, 600, 400, 15);
}

#[test]
fn sequence_replays_the_words_of_the_generator() {
    let mut rng = Pcg64Mcg::seed_from_u64(77);
    let mut sampler = match Sampler::new(Domain { width: 32, height: 32, min_distance: 3 }) {
        Ok(sampler) => sampler.with_samples(5),
        Err(e) => panic!("no sampler: {:?}", e),
    };
    let mut replayed = Vec::new();
    let raw_x = rng.next_u64();
    let raw_y = rng.next_u64();
    replayed.extend(sampler.seed(raw_x, raw_y));
    while sampler.active_len() > 0 {
        let mut accepted = None;
        for _ in 0..5 {
            accepted = sampler.offer(rng.next_u64());
            if accepted.is_some() {
                break;
            }
        }
        match accepted {
            Some(p) => replayed.push(p),
            None => assert!(sampler.retire()),
        }
    }
    let mut n = noise(32, 32, 3, 77).with_samples(5);
    let pulled = n.take(10_000);
    assert!(pulled.len() > 10);
    assert_eq!(pulled, replayed);
    assert_eq!(n.sampler().points(), sampler.points());
}
