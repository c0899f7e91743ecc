use rand::rngs::StdRng;
use rand::SeedableRng;
use wfc::tile::SimpleTile;
use wfc::wave::{Direction, Wave};

const E: SimpleTile = SimpleTile::Empty;
const F: SimpleTile = SimpleTile::Filled;

#[test]
fn a_corner_has_two_neighbours() {
    let wave = Wave::<SimpleTile>::new(3, 3, Vec::new()).unwrap();
    assert_eq!(wave.neighbours_info((0, 0)).0, [false, true, false, true]);
    assert_eq!(wave.neighbours_info((2, 0)).0, [false, true, true, false]);
    assert_eq!(wave.neighbours_info((0, 2)).0, [true, false, false, true]);
    assert_eq!(wave.neighbours_info((2, 2)).0, [true, false, true, false]);
}

#[test]
fn an_edge_has_three_neighbours() {
    let wave = Wave::<SimpleTile>::new(3, 3, Vec::new()).unwrap();
    assert_eq!(wave.neighbours_info((1, 0)).0, [false, true, true, true]);
    assert_eq!(wave.neighbours_info((1, 2)).0, [true, false, true, true]);
    assert_eq!(wave.neighbours_info((0, 1)).0, [true, true, false, true]);
    assert_eq!(wave.neighbours_info((2, 1)).0, [true, true, true, false]);
}

#[test]
fn an_inner_cell_has_four_neighbours() {
    let wave = Wave::<SimpleTile>::new(3, 3, Vec::new()).unwrap();
    assert_eq!(wave.neighbours_info((1, 1)).0, [true, true, true, true]);
}

#[test]
fn a_single_cell_has_no_neighbour() {
    let wave = Wave::<SimpleTile>::new(1, 1, Vec::new()).unwrap();
    assert_eq!(wave.neighbours_info((0, 0)), ([false; 4], [None; 4]));
}

#[test]
fn a_row_has_neighbours_left_and_right_only() {
    let wave = Wave::<SimpleTile>::new(3, 1, Vec::new()).unwrap();
    assert_eq!(wave.neighbours_info((0, 0)).0, [false, false, false, true]);
    assert_eq!(wave.neighbours_info((1, 0)).0, [false, false, true, true]);
    assert_eq!(wave.neighbours_info((2, 0)).0, [false, false, true, false]);
}

#[test]
fn a_column_has_neighbours_up_and_down_only() {
    let wave = Wave::<SimpleTile>::new(1, 3, Vec::new()).unwrap();
    assert_eq!(wave.neighbours_info((0, 0)).0, [false, true, false, false]);
    assert_eq!(wave.neighbours_info((0, 1)).0, [true, true, false, false]);
    assert_eq!(wave.neighbours_info((0, 2)).0, [true, false, false, false]);
}

#[test]
fn undecided_neighbours_are_reported_as_none() {
    let wave = Wave::<SimpleTile>::new(3, 3, Vec::new()).unwrap();
    assert_eq!(wave.neighbours_info((1, 1)).1, [None; 4]);
}

#[test]
fn a_decided_cell_is_seen_from_each_side() {
    let mut rng = StdRng::seed_from_u64(11);
    let mut wave = Wave::<SimpleTile>::new(3, 3, Vec::new()).unwrap();
    wave.update_tile((1, 1), &mut rng).unwrap();
    let centre = wave.tile(1, 1);
    assert!(centre.is_some());
    assert_eq!(wave.neighbours_info((1, 2)).1, [centre, None, None, None]);
    assert_eq!(wave.neighbours_info((1, 0)).1, [None, centre, None, None]);
    assert_eq!(wave.neighbours_info((2, 1)).1, [None, None, centre, None]);
    assert_eq!(wave.neighbours_info((0, 1)).1, [None, None, None, centre]);
    assert_eq!(wave.neighbours_info((0, 0)).1, [None; 4]);
    assert_eq!(wave.neighbours_info((1, 1)).1, [None; 4]);
}

#[test]
fn no_neighbour_permits_every_variant() {
    let wave = Wave::<SimpleTile>::new(1, 1, Vec::new()).unwrap();
    assert!(wave.is_valid_tile_variant(E, [None; 4]));
    assert!(wave.is_valid_tile_variant(F, [None; 4]));
}

#[test]
fn a_decided_neighbour_asks_for_its_rule() {
    let rules = vec![(E, F, Direction::Right)];
    let wave = Wave::<SimpleTile>::new(2, 1, rules).unwrap();
    assert!(wave.is_valid_tile_variant(E, [None, None, None, Some(F)]));
    assert!(!wave.is_valid_tile_variant(F, [None, None, None, Some(F)]));
    assert!(!wave.is_valid_tile_variant(E, [None, None, None, Some(E)]));
    assert!(!wave.is_valid_tile_variant(E, [None, None, Some(F), None]));
    assert!(!wave.is_valid_tile_variant(E, [Some(F), None, None, None]));
    assert!(!wave.is_valid_tile_variant(E, [None, Some(F), None, None]));
}

#[test]
fn every_decided_neighbour_must_agree() {
    let rules = vec![(E, F, Direction::Up), (E, F, Direction::Down), (E, E, Direction::Left)];
    let wave = Wave::<SimpleTile>::new(3, 3, rules).unwrap();
    assert!(wave.is_valid_tile_variant(E, [Some(F), Some(F), Some(E), None]));
    assert!(wave.is_valid_tile_variant(E, [Some(F), None, None, None]));
    assert!(!wave.is_valid_tile_variant(E, [Some(F), Some(F), Some(F), None]));
    assert!(!wave.is_valid_tile_variant(E, [Some(F), Some(F), Some(E), Some(E)]));
    assert!(!wave.is_valid_tile_variant(F, [Some(F), Some(F), Some(E), None]));
}
