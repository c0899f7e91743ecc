use wfc::tile::{MazeTile, SimpleTile, Tile};
use wfc::wave::{Direction, Wave, WaveError};

#[test]
fn new_rejects_zero_width() {
    let res = Wave::<MazeTile>::new(0, 3, Vec::new());
    assert_eq!(res.err(), Some(WaveError::ZeroDimension));
}

#[test]
fn new_rejects_zero_height() {
    let res = Wave::<MazeTile>::new(3, 0, Vec::new());
    assert_eq!(res.err(), Some(WaveError::ZeroDimension));
}

#[test]
fn new_rejects_zero_width_and_height() {
    let rules = vec![(SimpleTile::Empty, SimpleTile::Filled, Direction::Up)];
    let res = Wave::<SimpleTile>::new(0, 0, rules);
    assert_eq!(res.err(), Some(WaveError::ZeroDimension));
}

#[test]
fn new_makes_blank_grid() {
    let rules = vec![(SimpleTile::Empty, SimpleTile::Filled, Direction::Right)];
    let wave = Wave::<SimpleTile>::new(3, 2, rules).unwrap();
    assert_eq!(wave.width(), 3);
    assert_eq!(wave.height(), 2);
    for y in 0..2 {
        for x in 0..3 {
            assert_eq!(wave.tile(x, y), None);
            assert_eq!(wave.entropy(x, y), 2);
        }
    }
}

#[test]
fn new_gives_every_cell_the_full_entropy() {
    let wave = Wave::<MazeTile>::new(5, 4, Vec::new()).unwrap();
    let total = MazeTile::variants().len();
    assert_eq!(total, 12);
    for y in 0..4 {
        for x in 0..5 {
            assert_eq!(wave.entropy(x, y), total);
        }
    }
}

#[test]
fn new_keeps_the_given_rules() {
    let rules = vec![
        (SimpleTile::Empty, SimpleTile::Filled, Direction::Right),
        (SimpleTile::Filled, SimpleTile::Filled, Direction::Up),
        (SimpleTile::Empty, SimpleTile::Filled, Direction::Right),
    ];
    let wave = Wave::<SimpleTile>::new(1, 1, rules).unwrap();
    assert!(wave.has_rule((SimpleTile::Empty, SimpleTile::Filled, Direction::Right)));
    assert!(wave.has_rule((SimpleTile::Filled, SimpleTile::Filled, Direction::Up)));
    assert!(!wave.has_rule((SimpleTile::Filled, SimpleTile::Empty, Direction::Left)));
    assert!(!wave.has_rule((SimpleTile::Filled, SimpleTile::Filled, Direction::Down)));
    assert!(!wave.has_rule((SimpleTile::Empty, SimpleTile::Filled, Direction::Left)));
}

#[test]
fn rows_of_a_blank_grid_are_undecided() {
    let wave = Wave::<SimpleTile>::new(4, 3, Vec::new()).unwrap();
    let rows = wave.rows();
    assert_eq!(rows.len(), 3);
    for row in rows {
        assert_eq!(row, vec![None; 4]);
    }
}

#[test]
fn one_row_and_one_column_grids_are_accepted() {
    let row = Wave::<SimpleTile>::new(7, 1, Vec::new()).unwrap();
    assert_eq!((row.width(), row.height()), (7, 1));
    let column = Wave::<SimpleTile>::new(1, 7, Vec::new()).unwrap();
    assert_eq!((column.width(), column.height()), (1, 7));
}
