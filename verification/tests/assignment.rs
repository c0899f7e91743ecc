use rand::rngs::StdRng;
use rand::SeedableRng;
use wfc::tile::{MazeTile, SimpleTile, Tile};
use wfc::wave::{Direction, Wave, WaveError};

const E: SimpleTile = SimpleTile::Empty;
const F: SimpleTile = SimpleTile::Filled;

fn permitted<T: Tile>(wave: &Wave<T>, x: usize, y: usize) -> usize {
    let (_, seen) = wave.neighbours_info((x, y));
    T::variants().into_iter().filter(|v| wave.is_valid_tile_variant(*v, seen)).count()
}

fn entropy_is_correct<T: Tile>(wave: &Wave<T>) -> bool {
    for y in 0..wave.height() {
        for x in 0..wave.width() {
            if wave.tile(x, y).is_none() && wave.entropy(x, y) != permitted(wave, x, y) {
                return false;
            }
        }
    }
    true
}

#[test]
fn update_tile_decides_the_cell() {
    for seed in 0..20 {
        let mut rng = StdRng::seed_from_u64(seed);
        let mut wave = Wave::<MazeTile>::new(3, 3, Vec::new()).unwrap();
        assert_eq!(wave.update_tile((1, 1), &mut rng), Ok(()));
        assert!(wave.tile(1, 1).is_some());
        assert_eq!(wave.entropy(1, 1), 0);
    }
}

#[test]
fn update_tile_reaches_every_variant() {
    let mut seen = [false; 2];
    for seed in 0..64 {
        let mut rng = StdRng::seed_from_u64(seed);
        let mut wave = Wave::<SimpleTile>::new(1, 1, Vec::new()).unwrap();
        wave.update_tile((0, 0), &mut rng).unwrap();
        seen[wave.tile(0, 0).unwrap().index()] = true;
    }
    assert_eq!(seen, [true, true]);
}

#[test]
fn update_tile_without_rules_leaves_the_neighbours_nothing() {
    let mut rng = StdRng::seed_from_u64(3);
    let mut wave = Wave::<SimpleTile>::new(3, 3, Vec::new()).unwrap();
    wave.update_tile((1, 1), &mut rng).unwrap();
    for (x, y) in [(1, 0), (1, 2), (0, 1), (2, 1)] {
        assert_eq!(wave.tile(x, y), None);
        assert_eq!(wave.entropy(x, y), 0);
    }
    for (x, y) in [(0, 0), (2, 0), (0, 2), (2, 2)] {
        assert_eq!(wave.tile(x, y), None);
        assert_eq!(wave.entropy(x, y), 2);
    }
}

#[test]
fn update_tile_counts_what_each_neighbour_may_still_be() {
    let rules = vec![(F, E, Direction::Left), (E, E, Direction::Up), (F, E, Direction::Up)];
    for seed in 0..32 {
        let mut rng = StdRng::seed_from_u64(seed);
        let mut wave = Wave::<SimpleTile>::new(3, 3, rules.clone()).unwrap();
        wave.update_tile((1, 1), &mut rng).unwrap();
        let centre = wave.tile(1, 1).unwrap();
        let right = if centre == E { 1 } else { 0 };
        let below = if centre == E { 2 } else { 0 };
        assert_eq!(wave.entropy(2, 1), right);
        assert_eq!(wave.entropy(1, 2), below);
        assert_eq!(wave.entropy(0, 1), 0);
        assert_eq!(wave.entropy(1, 0), 0);
        assert_eq!(wave.entropy(0, 0), 2);
        assert_eq!(wave.entropy(2, 2), 2);
    }
}

#[test]
fn update_tile_picks_among_the_permitted_variants_only() {
    let rules = vec![(F, E, Direction::Left), (F, F, Direction::Left)];
    for seed in 0..32 {
        let mut rng = StdRng::seed_from_u64(seed);
        let mut wave = Wave::<SimpleTile>::new(2, 1, rules.clone()).unwrap();
        wave.update_tile((0, 0), &mut rng).unwrap();
        assert_eq!(wave.entropy(1, 0), 1);
        assert_eq!(wave.update_tile((1, 0), &mut rng), Ok(()));
        assert_eq!(wave.tile(1, 0), Some(F));
    }
}

#[test]
fn update_tile_fails_where_no_variant_is_permitted() {
    let mut rng = StdRng::seed_from_u64(5);
    let mut wave = Wave::<SimpleTile>::new(2, 1, Vec::new()).unwrap();
    wave.update_tile((0, 0), &mut rng).unwrap();
    let first = wave.tile(0, 0);
    assert_eq!(wave.update_tile((1, 0), &mut rng), Err(WaveError::UncollapsibleWave));
    assert_eq!(wave.tile(0, 0), first);
    assert_eq!(wave.entropy(0, 0), 0);
    assert_eq!(wave.tile(1, 0), None);
    assert_eq!(wave.entropy(1, 0), 0);
}

#[test]
fn update_tile_leaves_decided_neighbours_alone() {
    let rules = vec![
        (E, E, Direction::Left),
        (E, F, Direction::Left),
        (F, E, Direction::Left),
        (F, F, Direction::Left),
    ];
    let mut rng = StdRng::seed_from_u64(9);
    let mut wave = Wave::<SimpleTile>::new(3, 1, rules).unwrap();
    wave.update_tile((0, 0), &mut rng).unwrap();
    let first = wave.tile(0, 0);
    wave.update_tile((1, 0), &mut rng).unwrap();
    assert_eq!(wave.tile(0, 0), first);
    assert_eq!(wave.entropy(0, 0), 0);
    assert_eq!(wave.entropy(2, 0), 2);
}

#[test]
fn entropy_stays_correct_from_assignment_to_assignment() {
    let rules = vec![
        (E, F, Direction::Up),
        (F, E, Direction::Down),
        (E, E, Direction::Left),
        (E, E, Direction::Right),
        (F, E, Direction::Left),
        (E, F, Direction::Right),
        (F, F, Direction::Up),
    ];
    for seed in 0..16 {
        let mut rng = StdRng::seed_from_u64(seed);
        let mut wave = Wave::<SimpleTile>::new(4, 3, rules.clone()).unwrap();
        assert!(entropy_is_correct(&wave));
        for _ in 0..12 {
            if wave.collapse_next(&mut rng).is_err() {
                break;
            }
            assert!(entropy_is_correct(&wave));
        }
        assert!(entropy_is_correct(&wave));
    }
}

#[test]
fn collapse_next_decides_exactly_one_cell() {
    let rules = vec![(E, E, Direction::Left), (E, E, Direction::Right)];
    let mut rng = StdRng::seed_from_u64(21);
    let mut wave = Wave::<SimpleTile>::new(3, 1, rules).unwrap();
    let decided = |w: &Wave<SimpleTile>| (0..3).filter(|x| w.tile(*x, 0).is_some()).count();
    assert_eq!(decided(&wave), 0);
    assert_eq!(wave.collapse_next(&mut rng), Ok(()));
    assert_eq!(decided(&wave), 1);
}

#[test]
fn collapse_next_picks_a_cell_of_lowest_entropy() {
    let rules = vec![
        (E, E, Direction::Left),
        (E, F, Direction::Left),
        (E, E, Direction::Right),
        (E, F, Direction::Right),
    ];
    for seed in 0..32 {
        let mut rng = StdRng::seed_from_u64(seed);
        let mut wave = Wave::<SimpleTile>::new(5, 1, rules.clone()).unwrap();
        wave.update_tile((2, 0), &mut rng).unwrap();
        assert_eq!(wave.entropy(1, 0), 1);
        assert_eq!(wave.entropy(3, 0), 1);
        assert_eq!(wave.entropy(0, 0), 2);
        assert_eq!(wave.entropy(4, 0), 2);
        assert_eq!(wave.collapse_next(&mut rng), Ok(()));
        assert_eq!(wave.tile(0, 0), None);
        assert_eq!(wave.tile(4, 0), None);
        let left = wave.tile(1, 0);
        let right = wave.tile(3, 0);
        assert!(left.is_some() != right.is_some());
        assert!(left == Some(E) || right == Some(E));
    }
}

#[test]
fn collapse_next_fails_where_every_entropy_is_zero() {
    let mut rng = StdRng::seed_from_u64(2);
    let mut wave = Wave::<SimpleTile>::new(2, 1, Vec::new()).unwrap();
    assert_eq!(wave.collapse_next(&mut rng), Ok(()));
    let rows = wave.rows();
    assert_eq!(wave.collapse_next(&mut rng), Err(WaveError::NotFullyCollapsed));
    assert_eq!(wave.rows(), rows);
}
