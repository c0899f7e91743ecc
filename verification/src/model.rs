//! The mathematical model of a wave: what a grid under collapse is, and the
//! words in which the contracts of [`crate::wave::Wave`] speak of it.

use crate::tile::{Glyph, Tile};
use crate::wave::Direction;
use vstd::prelude::*;

verus! {

/// What a wave is, as plain mathematics: the size of its grid, the cells
/// row by row, each with its tile (if decided) and its entropy, and the set
/// of adjacency rules.
///
/// A rule `(a, b, d)` says that `a` may stand in a cell whose neighbour in
/// direction `d` holds `b`.
#[verifier::ext_equal]
#[verifier::reject_recursive_types(T)]
pub struct WaveView<T> {
    pub width: nat,
    pub height: nat,
    pub cells: Seq<Seq<(Option<T>, nat)>>,
    pub rules: Set<(T, T, Direction)>,
}

/// The rule predicate: `v` is permitted beside the given neighbours, listed
/// in visiting order, when every decided neighbour is covered by a rule.
/// An absent or undecided neighbour asks for nothing.
pub open spec fn allows<T>(rules: Set<(T, T, Direction)>, v: T, neighbours: Seq<Option<T>>) -> bool {
    forall|i: int|
        0 <= i < 4 ==> ((#[trigger] neighbours[i]) matches Some(w) ==> rules.contains(
            (v, w, Direction::at(i)),
        ))
}

/// The variants permitted beside the given neighbours, in enumeration order.
pub open spec fn candidates<T: Tile>(
    rules: Set<(T, T, Direction)>,
    neighbours: Seq<Option<T>>,
) -> Seq<T> {
    T::all().filter(|v: T| allows(rules, v, neighbours))
}

/// The cell `(i, j)` is one step away from the cell `(x, y)` in one of the
/// first `n` directions of the visiting order.
pub open spec fn within_reach(x: int, y: int, i: int, j: int, n: int) -> bool {
    ||| n > 0 && i == x && j == y - 1
    ||| n > 1 && i == x && j == y + 1
    ||| n > 2 && i == x - 1 && j == y
    ||| n > 3 && i == x + 1 && j == y
}

/// The cell `(i, j)` is one step away from the cell `(x, y)`.
pub open spec fn adjacent(x: int, y: int, i: int, j: int) -> bool {
    within_reach(x, y, i, j, 4)
}

impl<T: Tile> WaveView<T> {
    /// A grid of the given size in which no cell is decided and every cell
    /// has the full number of variants as its entropy.
    pub open spec fn blank(width: nat, height: nat, rules: Set<(T, T, Direction)>) -> Self {
        WaveView {
            width,
            height,
            cells: Seq::new(height, |y: int| Seq::new(width, |x: int| (None, T::all().len()))),
            rules,
        }
    }

    /// The same grid with one more rule; a rule that is already there stays
    /// there once.
    pub open spec fn with_rule(self, rule: (T, T, Direction)) -> Self {
        WaveView { rules: self.rules.insert(rule), ..self }
    }

    /// The same grid without one rule; every other rule stays.
    pub open spec fn without_rule(self, rule: (T, T, Direction)) -> Self {
        WaveView { rules: self.rules.remove(rule), ..self }
    }

    /// The position lies on the grid.
    pub open spec fn in_grid(self, x: int, y: int) -> bool {
        0 <= x < self.width && 0 <= y < self.height
    }

    /// The tile of a cell, if it is decided.
    pub open spec fn tile(self, x: int, y: int) -> Option<T> {
        self.cells[y][x].0
    }

    /// The entropy recorded for a cell.
    pub open spec fn entropy(self, x: int, y: int) -> nat {
        self.cells[y][x].1
    }

    /// The grid is not empty, the rows have the grid's width, no entropy
    /// exceeds the number of variants, and a decided cell has entropy 0.
    pub open spec fn well_formed(self) -> bool {
        &&& self.width > 0
        &&& self.height > 0
        &&& self.cells.len() == self.height
        &&& forall|y: int| 0 <= y < self.height ==> (#[trigger] self.cells[y]).len() == self.width
        &&& forall|x: int, y: int|
            #![trigger self.cells[y][x]]
            self.in_grid(x, y) ==> {
                &&& self.entropy(x, y) <= T::all().len()
                &&& self.tile(x, y) is Some ==> self.entropy(x, y) == 0
            }
    }

    /// The positions of the decided cells.
    pub open spec fn collapsed(self) -> Set<(int, int)> {
        Set::new(|p: (int, int)| self.in_grid(p.0, p.1) && self.tile(p.0, p.1) is Some)
    }

    /// Every cell is decided.
    pub open spec fn fully_collapsed(self) -> bool {
        forall|x: int, y: int|
            #![trigger self.cells[y][x]]
            self.in_grid(x, y) ==> self.tile(x, y) is Some
    }

    /// The neighbour of a cell in one direction lies on the grid.
    pub open spec fn available(self, x: int, y: int, d: Direction) -> bool {
        self.in_grid(d.step(x, y).0, d.step(x, y).1)
    }

    /// What a cell sees in one direction: the neighbour's tile, or nothing
    /// where there is no neighbour or it is undecided.
    pub open spec fn slot(self, x: int, y: int, d: Direction) -> Option<T> {
        if self.available(x, y, d) {
            self.tile(d.step(x, y).0, d.step(x, y).1)
        } else {
            None
        }
    }

    /// What a cell sees in the four directions, in visiting order.
    pub open spec fn neighbours(self, x: int, y: int) -> Seq<Option<T>> {
        Seq::new(4, |i: int| self.slot(x, y, Direction::at(i)))
    }

    /// The variant is permitted in the cell by every decided neighbour.
    pub open spec fn valid(self, v: T, x: int, y: int) -> bool {
        allows(self.rules, v, self.neighbours(x, y))
    }

    /// The number of variants permitted in the cell.
    pub open spec fn valid_count(self, x: int, y: int) -> nat {
        candidates(self.rules, self.neighbours(x, y)).len()
    }

    /// Some neighbour of the cell is decided.
    pub open spec fn informed(self, x: int, y: int) -> bool {
        exists|i: int| 0 <= i < 4 && (#[trigger] self.neighbours(x, y)[i]) is Some
    }

    /// The cell cannot be assigned: some neighbour is decided, and no
    /// variant is permitted.
    pub open spec fn stuck(self, x: int, y: int) -> bool {
        self.informed(x, y) && self.valid_count(x, y) == 0
    }

    /// The entropy of every undecided cell is the number of variants that
    /// its decided neighbours permit.
    pub open spec fn entropy_correct(self) -> bool {
        forall|x: int, y: int|
            #![trigger self.cells[y][x]]
            self.in_grid(x, y) && self.tile(x, y) is None ==> self.entropy(x, y)
                == self.valid_count(x, y)
    }

    /// Every two decided cells one step apart are covered by a rule, read
    /// from one of the two: the rule set holds `(a, b, d)`, or it holds
    /// `(b, a, d.opposite())`, where `a` has `b` as its neighbour in
    /// direction `d`.
    pub open spec fn consistent(self) -> bool {
        forall|x: int, y: int, d: Direction|
            #![trigger self.cells[y][x], self.slot(x, y, d)]
            self.in_grid(x, y) ==> match (self.tile(x, y), self.slot(x, y, d)) {
                (Some(a), Some(b)) => self.rules.contains((a, b, d)) || self.rules.contains(
                    (b, a, d.opposite()),
                ),
                _ => true,
            }
    }

    /// Every decided cell is permitted by each of its decided neighbours:
    /// where `a` has `b` as its neighbour in direction `d`, the rule set
    /// holds `(a, b, d)`.
    pub open spec fn locally_consistent(self) -> bool {
        forall|x: int, y: int, d: Direction|
            #![trigger self.cells[y][x], self.slot(x, y, d)]
            self.in_grid(x, y) ==> match (self.tile(x, y), self.slot(x, y, d)) {
                (Some(a), Some(b)) => self.rules.contains((a, b, d)),
                _ => true,
            }
    }

    /// Each rule comes with the rule that reads the same pair from the other
    /// cell.
    pub open spec fn symmetric_rules(self) -> bool {
        forall|a: T, b: T, d: Direction|
            self.rules.contains((a, b, d)) ==> #[trigger] self.rules.contains(
                (b, a, d.opposite()),
            )
    }

    /// What random choice may hand back for a cell: nothing exactly when no
    /// variant is permitted there, and else one of the permitted variants.
    pub open spec fn may_choose(self, x: int, y: int, choice: Option<T>) -> bool {
        match choice {
            Some(v) => self.valid(v, x, y),
            None => self.valid_count(x, y) == 0,
        }
    }

    /// The grid with one cell overwritten.
    pub open spec fn with_cell(self, x: int, y: int, cell: (Option<T>, nat)) -> Self {
        WaveView { cells: self.cells.update(y, self.cells[y].update(x, cell)), ..self }
    }

    /// The grid with one cell overwritten: it holds `choice`, and its
    /// entropy is 0.
    pub open spec fn decided(self, x: int, y: int, choice: Option<T>) -> Self {
        self.with_cell(x, y, (choice, 0nat))
    }

    /// The grid with the entropy brought up to date around `(x, y)`: each
    /// undecided cell one step away in one of the first `n` directions has
    /// as its entropy the number of variants permitted there.
    pub open spec fn refreshed(self, x: int, y: int, n: int) -> Self {
        WaveView {
            cells: Seq::new(
                self.height,
                |j: int|
                    Seq::new(
                        self.width,
                        |i: int|
                            if within_reach(x, y, i, j, n) && self.tile(i, j) is None {
                                (None, self.valid_count(i, j))
                            } else {
                                self.cells[j][i]
                            },
                    ),
            ),
            ..self
        }
    }

    /// The grid after a cell was assigned: the cell holds `choice` with
    /// entropy 0, and each undecided cell one step away has as its entropy
    /// the number of variants that are permitted there now. No other cell
    /// changes.
    pub open spec fn assigned(self, x: int, y: int, choice: Option<T>) -> Self {
        self.decided(x, y, choice).refreshed(x, y, 4)
    }

    /// Both grids have the same size and the same tile in every cell.
    pub open spec fn same_tiles(self, other: Self) -> bool {
        &&& self.width == other.width
        &&& self.height == other.height
        &&& forall|x: int, y: int|
            #![trigger self.tile(x, y)]
            #![trigger other.tile(x, y)]
            self.in_grid(x, y) ==> self.tile(x, y) == other.tile(x, y)
    }

    /// Some cell has an entropy that is not 0.
    pub open spec fn has_open_cell(self) -> bool {
        exists|x: int, y: int|
            #![trigger self.cells[y][x]]
            self.in_grid(x, y) && self.entropy(x, y) != 0
    }

    /// `e` is the entropy at which the next cell is picked: the least
    /// entropy in the grid that is not 0, or the number of variants where
    /// every entropy is 0.
    pub open spec fn is_lowest_entropy(self, e: nat) -> bool {
        if self.has_open_cell() {
            &&& e != 0
            &&& exists|x: int, y: int|
                #![trigger self.cells[y][x]]
                self.in_grid(x, y) && self.entropy(x, y) == e
            &&& forall|x: int, y: int|
                #![trigger self.cells[y][x]]
                self.in_grid(x, y) && self.entropy(x, y) != 0 ==> e <= self.entropy(x, y)
        } else {
            e == T::all().len()
        }
    }

    /// The cell may be picked next: it lies on the grid, and its entropy is
    /// the one at which the next cell is picked.
    pub open spec fn pickable(self, x: int, y: int) -> bool {
        self.in_grid(x, y) && self.is_lowest_entropy(self.entropy(x, y))
    }

    /// Some cell may be picked next.
    pub open spec fn has_pickable(self) -> bool {
        exists|x: int, y: int| #[trigger] self.pickable(x, y)
    }

    /// The grid is a later state of a run that began at `start`: size and
    /// rules are those of `start`, what was decided then is decided now in
    /// the same way, consistency and correct entropy have been kept, and
    /// without a variant to assign nothing has changed at all.
    pub open spec fn continues(self, start: Self) -> bool {
        &&& self.well_formed()
        &&& self.width == start.width
        &&& self.height == start.height
        &&& self.rules == start.rules
        &&& forall|x: int, y: int|
            #![trigger self.cells[y][x]]
            start.in_grid(x, y) && start.tile(x, y) is Some ==> self.tile(x, y) == start.tile(x, y)
        &&& start.consistent() ==> self.consistent()
        &&& start.entropy_correct() ==> self.entropy_correct()
        &&& T::all().len() == 0 ==> self == start
    }

    /// The grid continues `start`, and with a variant to assign it has
    /// `count` decided cells more.
    pub open spec fn advanced(self, start: Self, count: nat) -> bool {
        &&& self.continues(start)
        &&& T::all().len() > 0 ==> self.collapsed().len() == start.collapsed().len() + count
    }
}

/// The character that stands for a cell: the glyph of its tile, or `X` where
/// the cell is undecided.
pub open spec fn cell_glyph<T: Glyph>(tile: Option<T>) -> char {
    match tile {
        Some(v) => v.glyph_of(),
        None => 'X',
    }
}

impl<T: Tile + Glyph> WaveView<T> {
    /// One row as text: the glyph of each of its cells, then a line feed.
    pub open spec fn row_text(self, y: int) -> Seq<char> {
        Seq::new(self.width, |x: int| cell_glyph(self.tile(x, y))).push('\n')
    }

    /// The first `n` rows as text, one after another.
    pub open spec fn rows_text(self, n: nat) -> Seq<char>
        decreases n,
    {
        if n == 0 {
            Seq::empty()
        } else {
            self.rows_text((n - 1) as nat) + self.row_text(n - 1)
        }
    }

    /// The grid as text: its rows from the top, one line each.
    pub open spec fn text(self) -> Seq<char> {
        self.rows_text(self.height)
    }
}

} // verus!
