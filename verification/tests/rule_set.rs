use wfc::tile::{MazeTile, SimpleTile};
use wfc::wave::{Direction, Wave};

const E: SimpleTile = SimpleTile::Empty;
const F: SimpleTile = SimpleTile::Filled;

fn every_rule() -> Vec<(SimpleTile, SimpleTile, Direction)> {
    let mut all = Vec::new();
    for a in [E, F] {
        for b in [E, F] {
            for d in [Direction::Up, Direction::Down, Direction::Left, Direction::Right] {
                all.push((a, b, d));
            }
        }
    }
    all
}

fn held(wave: &Wave<SimpleTile>) -> Vec<(SimpleTile, SimpleTile, Direction)> {
    every_rule().into_iter().filter(|r| wave.has_rule(*r)).collect()
}

#[test]
fn add_rule_puts_the_rule_in() {
    let mut wave = Wave::<SimpleTile>::new(2, 2, Vec::new()).unwrap();
    assert!(held(&wave).is_empty());
    wave.add_rule((E, F, Direction::Right));
    assert_eq!(held(&wave), vec![(E, F, Direction::Right)]);
}

#[test]
fn add_rule_twice_is_add_rule_once() {
    let mut once = Wave::<SimpleTile>::new(2, 2, vec![(F, F, Direction::Up)]).unwrap();
    once.add_rule((E, F, Direction::Right));
    let mut twice = Wave::<SimpleTile>::new(2, 2, vec![(F, F, Direction::Up)]).unwrap();
    twice.add_rule((E, F, Direction::Right));
    twice.add_rule((E, F, Direction::Right));
    assert_eq!(held(&once), held(&twice));
    assert_eq!(held(&twice).len(), 2);
}

#[test]
fn remove_rule_after_add_rule_removes_only_that_rule() {
    let before = vec![(F, F, Direction::Up), (F, E, Direction::Left), (E, E, Direction::Down)];
    let mut wave = Wave::<SimpleTile>::new(2, 2, before.clone()).unwrap();
    let start = held(&wave);
    wave.add_rule((E, F, Direction::Right));
    wave.remove_rule((E, F, Direction::Right));
    assert!(!wave.has_rule((E, F, Direction::Right)));
    assert_eq!(held(&wave), start);
}

#[test]
fn a_rule_added_twice_is_gone_after_one_removal() {
    let mut wave = Wave::<SimpleTile>::new(1, 1, Vec::new()).unwrap();
    wave.add_rule((E, F, Direction::Right));
    wave.add_rule((E, F, Direction::Right));
    wave.remove_rule((E, F, Direction::Right));
    assert!(held(&wave).is_empty());
}

#[test]
fn remove_rule_of_an_absent_rule_changes_nothing() {
    let mut wave = Wave::<SimpleTile>::new(1, 1, vec![(F, F, Direction::Up)]).unwrap();
    wave.remove_rule((F, F, Direction::Down));
    assert_eq!(held(&wave), vec![(F, F, Direction::Up)]);
}

#[test]
fn rules_are_directional() {
    let mut wave = Wave::<SimpleTile>::new(1, 1, Vec::new()).unwrap();
    wave.add_rule((E, F, Direction::Right));
    assert!(!wave.has_rule((F, E, Direction::Left)));
    assert!(!wave.has_rule((F, E, Direction::Right)));
    assert!(!wave.has_rule((E, F, Direction::Left)));
}

#[test]
fn rules_keep_the_two_variants_apart() {
    let mut wave = Wave::<MazeTile>::new(1, 1, Vec::new()).unwrap();
    wave.add_rule((MazeTile::Empty, MazeTile::TShaped, Direction::Down));
    assert!(wave.has_rule((MazeTile::Empty, MazeTile::TShaped, Direction::Down)));
    assert!(!wave.has_rule((MazeTile::TShaped, MazeTile::Empty, Direction::Down)));
    assert!(!wave.has_rule((MazeTile::Empty, MazeTile::TShapedLeft, Direction::Down)));
    assert!(!wave.has_rule((MazeTile::CenterCross, MazeTile::TShaped, Direction::Down)));
}

#[test]
fn rule_changes_leave_the_cells_alone() {
    let mut wave = Wave::<SimpleTile>::new(3, 2, Vec::new()).unwrap();
    wave.add_rule((E, F, Direction::Right));
    wave.remove_rule((E, E, Direction::Up));
    for y in 0..2 {
        for x in 0..3 {
            assert_eq!(wave.tile(x, y), None);
            assert_eq!(wave.entropy(x, y), 2);
        }
    }
}
