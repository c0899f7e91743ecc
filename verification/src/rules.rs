//! Storage of adjacency rules, keyed by the positions of two variants in
//! their enumeration and by a direction.

use crate::tile::{lemma_ordinal_injective, ordinal, Tile};
use crate::wave::Direction;
use std::collections::HashSet;
use vstd::prelude::*;

verus! {

broadcast use vstd::std_specs::hash::group_hash_axioms;

/// The number of values of one half of a key.
pub const KEY_BASE: u128 = 0x1_0000_0000_0000_0000;

/// The key of an ordered pair of positions: distinct pairs have distinct keys.
pub open spec fn pair_key(a: nat, b: nat) -> int {
    a * KEY_BASE + b
}

/// A set of triples (position, position, direction), one hash set of pair
/// keys for each direction.
#[derive(Debug)]
pub struct RuleTable {
    up: HashSet<u128>,
    down: HashSet<u128>,
    left: HashSet<u128>,
    right: HashSet<u128>,
}

impl RuleTable {
    /// The keys stored for one direction.
    closed spec fn keys(&self, direction: Direction) -> Set<u128> {
        match direction {
            Direction::Up => self.up@,
            Direction::Down => self.down@,
            Direction::Left => self.left@,
            Direction::Right => self.right@,
        }
    }

    /// An empty table.
    pub fn new() -> (table: Self)
        ensures
            table@ == Set::<(nat, nat, Direction)>::empty(),
    {
        let table = RuleTable {
            up: HashSet::new(),
            down: HashSet::new(),
            left: HashSet::new(),
            right: HashSet::new(),
        };
        assert(table@ =~= Set::<(nat, nat, Direction)>::empty());
        table
    }

    /// Computes the key of a pair of positions.
    fn key(a: usize, b: usize) -> (k: u128)
        ensures
            k == pair_key(a as nat, b as nat),
    {
        (a as u128) * KEY_BASE + (b as u128)
    }

    /// Adds a triple; one that is already there stays there once.
    pub fn insert(&mut self, a: usize, b: usize, direction: Direction)
        ensures
            final(self)@ == old(self)@.insert((a as nat, b as nat, direction)),
    {
        let k = Self::key(a, b);
        match direction {
            Direction::Up => {
                self.up.insert(k);
            },
            Direction::Down => {
                self.down.insert(k);
            },
            Direction::Left => {
                self.left.insert(k);
            },
            Direction::Right => {
                self.right.insert(k);
            },
        }
        assert(self@ =~= old(self)@.insert((a as nat, b as nat, direction)));
    }

    /// Takes a triple out; nothing happens where it is not there.
    pub fn remove(&mut self, a: usize, b: usize, direction: Direction)
        ensures
            final(self)@ == old(self)@.remove((a as nat, b as nat, direction)),
    {
        let k = Self::key(a, b);
        match direction {
            Direction::Up => {
                self.up.remove(&k);
            },
            Direction::Down => {
                self.down.remove(&k);
            },
            Direction::Left => {
                self.left.remove(&k);
            },
            Direction::Right => {
                self.right.remove(&k);
            },
        }
        assert(self@ =~= old(self)@.remove((a as nat, b as nat, direction)));
    }

    /// Tells whether a triple is in the table.
    pub fn contains(&self, a: usize, b: usize, direction: Direction) -> (found: bool)
        ensures
            found == self@.contains((a as nat, b as nat, direction)),
    {
        let k = Self::key(a, b);
        match direction {
            Direction::Up => self.up.contains(&k),
            Direction::Down => self.down.contains(&k),
            Direction::Left => self.left.contains(&k),
            Direction::Right => self.right.contains(&k),
        }
    }
}

/// Copies a set of keys, key by key.
fn copy_keys(keys: &HashSet<u128>) -> (copy: HashSet<u128>)
    ensures
        copy@ == keys@,
{
    let mut copy: HashSet<u128> = HashSet::new();
    for key in it: keys.iter()
        invariant
            it.seq().unref().to_set() == keys@,
            forall|k: u128| copy@.contains(k) ==> keys@.contains(k),
            forall|k: u128|
                keys@.contains(k) ==> copy@.contains(k) || exists|j: int|
                    it.index() <= j < it.seq().len() && *#[trigger] it.seq()[j] == k,
    {
        assert(it.seq().unref()[it.index() as int] == *key);
        copy.insert(*key);
    }
    assert(copy@ =~= keys@);
    copy
}

impl Clone for RuleTable {
    /// Copies the table: the copy holds the same triples.
    fn clone(&self) -> (copy: Self)
        ensures
            copy@ == self@,
    {
        let copy = RuleTable {
            up: copy_keys(&self.up),
            down: copy_keys(&self.down),
            left: copy_keys(&self.left),
            right: copy_keys(&self.right),
        };
        assert(copy@ =~= self@);
        copy
    }
}

impl View for RuleTable {
    type V = Set<(nat, nat, Direction)>;

    closed spec fn view(&self) -> Set<(nat, nat, Direction)> {
        Set::new(
            |r: (nat, nat, Direction)|
                r.0 <= usize::MAX && r.1 <= usize::MAX && self.keys(r.2).contains(
                    pair_key(r.0, r.1) as u128,
                ),
        )
    }
}

/// The triple under which a rule is stored: its variants by their ordinals.
pub open spec fn stored<T: Tile>(rule: (T, T, Direction)) -> (nat, nat, Direction) {
    (ordinal(rule.0), ordinal(rule.1), rule.2)
}

/// The rules that a set of stored triples stands for.
pub open spec fn rules_of<T: Tile>(table: Set<(nat, nat, Direction)>) -> Set<(T, T, Direction)> {
    Set::new(|rule: (T, T, Direction)| table.contains(stored(rule)))
}

/// Distinct rules are stored under distinct triples.
pub proof fn lemma_stored_injective<T: Tile>(a: (T, T, Direction), b: (T, T, Direction))
    requires
        stored(a) == stored(b),
    ensures
        a == b,
{
    lemma_ordinal_injective(a.0, b.0);
    lemma_ordinal_injective(a.1, b.1);
}

/// Storing one more triple adds exactly its rule.
pub proof fn lemma_rules_of_insert<T: Tile>(
    table: Set<(nat, nat, Direction)>,
    rule: (T, T, Direction),
)
    ensures
        rules_of::<T>(table.insert(stored(rule))) == rules_of::<T>(table).insert(rule),
{
    assert forall|r: (T, T, Direction)|
        rules_of::<T>(table.insert(stored(rule))).contains(r) == rules_of::<T>(table).insert(
            rule,
        ).contains(r) by {
        if stored(r) == stored(rule) {
            lemma_stored_injective(r, rule);
        }
    }
    assert(rules_of::<T>(table.insert(stored(rule))) =~= rules_of::<T>(table).insert(rule));
}

/// Dropping one triple removes exactly its rule.
pub proof fn lemma_rules_of_remove<T: Tile>(
    table: Set<(nat, nat, Direction)>,
    rule: (T, T, Direction),
)
    ensures
        rules_of::<T>(table.remove(stored(rule))) == rules_of::<T>(table).remove(rule),
{
    assert forall|r: (T, T, Direction)|
        rules_of::<T>(table.remove(stored(rule))).contains(r) == rules_of::<T>(table).remove(
            rule,
        ).contains(r) by {
        if stored(r) == stored(rule) {
            lemma_stored_injective(r, rule);
        }
    }
    assert(rules_of::<T>(table.remove(stored(rule))) =~= rules_of::<T>(table).remove(rule));
}

} // verus!
