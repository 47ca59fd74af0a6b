use bluenoise::domain::{ConfigError, Domain};
use bluenoise::geometry::Point;
use bluenoise::grid::Grid;

fn grid(width: u32, height: u32, min_distance: u32) -> Grid {
    match Grid::new(Domain { width, height, min_distance }) {
        Ok(grid) => grid,
        Err(e) => panic!("no grid: {:?}", e),
    }
}

#[test]
fn grid_rejects_what_the_domain_rejects() {
    assert_eq!(Grid::new(Domain { width: 0, height: 1, min_distance: 1 }).err(), Some(ConfigError::EmptyWidth));
    assert_eq!(Grid::new(Domain { width: 1, height: 0, min_distance: 1 }).err(), Some(ConfigError::EmptyHeight));
    assert_eq!(Grid::new(Domain { width: 1, height: 1, min_distance: 0 }).err(), Some(ConfigError::NoSeparation));
    assert_eq!(Grid::new(Domain { width: 5000, height: 5000, min_distance: 1 }).err(), Some(ConfigError::TooManyCells));
}

#[test]
fn cell_of_divides_by_the_side() {
    let g = grid(61, 61, 15);
    assert_eq!(g.domain(), Domain { width: 61, height: 61, min_distance: 15 });
    assert_eq!(g.cell_of(Point { x: 0, y: 0 }), (0, 0));
    assert_eq!(g.cell_of(Point { x: 9, y: 10 }), (0, 1));
    assert_eq!(g.cell_of(Point { x: 47, y: 60 }), (4, 6));
}

#[test]
fn new_grid_is_empty() {
    let g = grid(16, 16, 2);
    assert_eq!(g.occupant(Point { x: 3, y: 4 }), None);
    assert_eq!(g.neighbors(Point { x: 3, y: 4 }), Vec::<usize>::new());
}

#[test]
fn insert_records_the_index_in_the_cell() {
    let mut g = grid(16, 16, 3);
    g.insert(Point { x: 5, y: 7 }, 9);
    assert_eq!(g.occupant(Point { x: 5, y: 7 }), Some(9));
    // same cell of side two
    assert_eq!(g.occupant(Point { x: 4, y: 6 }), Some(9));
    assert_eq!(g.occupant(Point { x: 6, y: 7 }), None);
}

#[test]
fn neighbors_wrap_around_the_edges() {
    let mut g = grid(16, 16, 2);
    g.insert(Point { x: 0, y: 0 }, 0);
    assert_eq!(g.neighbors(Point { x: 15, y: 15 }), vec![0]);
    assert_eq!(g.neighbors(Point { x: 14, y: 14 }), vec![0]);
    assert_eq!(g.neighbors(Point { x: 2, y: 14 }), vec![0]);
    assert_eq!(g.neighbors(Point { x: 13, y: 15 }), Vec::<usize>::new());
    assert_eq!(g.neighbors(Point { x: 0, y: 3 }), Vec::<usize>::new());
}

#[test]
fn neighbors_come_row_by_row() {
    let mut g = grid(16, 16, 2);
    g.insert(Point { x: 6, y: 5 }, 0);
    g.insert(Point { x: 4, y: 5 }, 1);
    g.insert(Point { x: 5, y: 3 }, 2);
    g.insert(Point { x: 5, y: 7 }, 3);
    g.insert(Point { x: 9, y: 5 }, 4);
    assert_eq!(g.neighbors(Point { x: 5, y: 5 }), vec![2, 1, 0, 3]);
}

#[test]
fn small_grids_show_a_cell_more_than_once() {
    // two columns and two rows: the block of five by five wraps over them
    let mut g = grid(4, 4, 3);
    g.insert(Point { x: 0, y: 0 }, 0);
    let found = g.neighbors(Point { x: 3, y: 3 });
    assert!(!found.is_empty());
    assert!(found.iter().all(|&index| index == 0));
    assert!(found.len() <= 25);
}
