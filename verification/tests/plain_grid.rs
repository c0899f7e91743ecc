use wfc::grid::{Direction, Grid};
use wfc::tile::SimpleTile;

#[test]
fn an_undecided_cell_has_no_score() {
    let grid = Grid::<SimpleTile>::new(3, 2, Vec::new());
    for y in 0..2 {
        for x in 0..3 {
            assert_eq!(grid.entropy((x, y)), None);
        }
    }
}

#[test]
fn added_rules_leave_the_cells_undecided() {
    let mut grid = Grid::<SimpleTile>::new(2, 2, vec![(
        SimpleTile::Empty,
        SimpleTile::Filled,
        Direction::Right,
    )]);
    grid.add_rule((SimpleTile::Filled, SimpleTile::Empty, Direction::Left));
    grid.add_rule((SimpleTile::Filled, SimpleTile::Empty, Direction::Left));
    assert_eq!(grid.entropy((0, 0)), None);
    assert_eq!(grid.entropy((1, 1)), None);
}

#[test]
fn a_grid_can_be_copied() {
    let grid = Grid::<SimpleTile>::new(1, 1, Vec::new());
    let copy = grid.clone();
    assert_eq!(copy.entropy((0, 0)), None);
    assert_eq!(format!("{:?}", grid), format!("{:?}", copy));
}
