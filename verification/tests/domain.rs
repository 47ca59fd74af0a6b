use bluenoise::domain::{ConfigError, Domain, MAX_CELLS};

#[test]
fn zero_measures_are_rejected_in_order() {
    assert_eq!(Domain::new(0, 16, 2), Err(ConfigError::EmptyWidth));
    assert_eq!(Domain::new(16, 0, 2), Err(ConfigError::EmptyHeight));
    assert_eq!(Domain::new(16, 16, 0), Err(ConfigError::NoSeparation));
    assert_eq!(Domain::new(0, 0, 0), Err(ConfigError::EmptyWidth));
    assert_eq!(Domain::new(16, 0, 0), Err(ConfigError::EmptyHeight));
}

#[test]
fn oversized_grids_are_rejected() {
    assert_eq!(MAX_CELLS, 16_777_216);
    assert_eq!(Domain::new(5000, 5000, 1), Err(ConfigError::TooManyCells));
    assert_eq!(Domain::new(4096, 4096, 1), Ok(Domain { width: 4096, height: 4096, min_distance: 1 }));
    assert_eq!(Domain::new(4097, 4096, 1), Err(ConfigError::TooManyCells));
    assert_eq!(Domain::new(u32::MAX, u32::MAX, 2), Err(ConfigError::TooManyCells));
    assert!(Domain::new(u32::MAX, u32::MAX, u32::MAX).is_ok());
}

#[test]
fn valid_measures_are_kept() {
    let domain = Domain::new(16, 9, 2).unwrap();
    assert_eq!(domain.width, 16);
    assert_eq!(domain.height, 9);
    assert_eq!(domain.min_distance, 2);
}

#[test]
fn cell_side_is_distance_over_root_two_rounded_down() {
    let side = |r: u32| Domain { width: 1, height: 1, min_distance: r }.cell_side();
    assert_eq!(side(1), 1);
    assert_eq!(side(2), 1);
    assert_eq!(side(3), 2);
    assert_eq!(side(4), 2);
    assert_eq!(side(5), 3);
    assert_eq!(side(15), 10);
    assert_eq!(side(512), 362);
    assert_eq!(side(u32::MAX), 3_037_000_499);
}

#[test]
fn cell_counts_round_up() {
    let domain = Domain { width: 61, height: 60, min_distance: 15 };
    assert_eq!(domain.columns(), 7);
    assert_eq!(domain.rows(), 6);
    let unit = Domain { width: 16, height: 1, min_distance: 2 };
    assert_eq!(unit.columns(), 16);
    assert_eq!(unit.rows(), 1);
}

#[test]
fn block_reach_depends_on_the_last_cell() {
    assert!(Domain { width: 16, height: 16, min_distance: 2 }.reaches_all_neighbors());
    assert!(Domain { width: 60, height: 60, min_distance: 15 }.reaches_all_neighbors());
    assert!(!Domain { width: 61, height: 60, min_distance: 15 }.reaches_all_neighbors());
    assert!(!Domain { width: 60, height: 61, min_distance: 15 }.reaches_all_neighbors());
    // five cells or fewer are always covered by the block
    assert!(Domain { width: 41, height: 41, min_distance: 15 }.reaches_all_neighbors());
    // seven columns: five full cells and the distance must fit up to the seam
    assert!(Domain { width: 65, height: 10, min_distance: 15 }.reaches_all_neighbors());
    assert!(Domain { width: 64, height: 10, min_distance: 15 }.reaches_all_neighbors());
    assert!(!Domain { width: 63, height: 10, min_distance: 15 }.reaches_all_neighbors());
}

#[test]
fn measures_of_a_degenerate_domain() {
    let nothing = Domain { width: 0, height: 0, min_distance: 0 };
    assert_eq!(nothing.cell_side(), 1);
    assert_eq!(nothing.columns(), 0);
    assert_eq!(nothing.rows(), 0);
    assert!(nothing.reaches_all_neighbors());
}
