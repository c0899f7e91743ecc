//! A plain grid of tiles with a list of adjacency rules.

use crate::tile::{lemma_ordinal_injective, lemma_ordinal_unique, ordinal, Tile};
use vstd::prelude::*;

verus! {

/// One of the four directions in which a cell has a neighbour.
#[derive(Debug, Clone, Copy, PartialEq, Eq, Structural)]
pub enum Direction {
    Up,
    Down,
    Left,
    Right,
}

/// What a grid is, as plain mathematics: its size as it was asked for, the
/// cells row by row, and the rules in the order in which they were added.
#[verifier::ext_equal]
pub struct GridView<T> {
    pub width: nat,
    pub height: nat,
    pub cells: Seq<Seq<Option<T>>>,
    pub rules: Seq<(T, T, Direction)>,
}

impl<T> GridView<T> {
    /// The column `x` is one of the grid's, the tile to the right of
    /// `(x, y)` is decided, and a rule lets the tile of `(x, y)` stand to its
    /// left.
    pub open spec fn right_allowed(self, x: int, y: int) -> bool {
        x < self.width && match (self.cells[y][x], self.cells[y][x + 1]) {
            (Some(tile), Some(right)) => self.rules.contains((tile, right, Direction::Right)),
            _ => false,
        }
    }
}

/// A grid of tiles, each decided or not, with a list of adjacency rules.
#[derive(Debug, Clone)]
pub struct Grid<T: Tile> {
    width: usize,
    height: usize,
    tiles: Vec<Vec<Option<T>>>,
    rules: Vec<(T, T, Direction)>,
}

impl<T: Tile> View for Grid<T> {
    type V = GridView<T>;

    closed spec fn view(&self) -> GridView<T> {
        GridView {
            width: self.width as nat,
            height: self.height as nat,
            cells: Seq::new(self.tiles@.len(), |y: int| self.tiles@[y]@),
            rules: self.rules@,
        }
    }
}

impl<T: Tile> Grid<T> {
    /// Creates a grid of `height` rows of `width` undecided cells, with the
    /// given rules.
    pub fn new(width: usize, height: usize, rules: Vec<(T, T, Direction)>) -> (grid: Self)
        ensures
            grid@ == (GridView {
                width: width as nat,
                height: height as nat,
                cells: Seq::new(height as nat, |y: int| Seq::new(width as nat, |x: int| None::<T>)),
                rules: rules@,
            }),
    {
        let mut tiles: Vec<Vec<Option<T>>> = Vec::new();
        let mut y: usize = 0;
        while y < height
            invariant
                y <= height,
                tiles@.len() == y,
                forall|j: int|
                    0 <= j < y ==> (#[trigger] tiles@[j])@ == Seq::new(
                        width as nat,
                        |x: int| None::<T>,
                    ),
            decreases height - y,
        {
            let mut row: Vec<Option<T>> = Vec::new();
            let mut x: usize = 0;
            while x < width
                invariant
                    x <= width,
                    row@.len() == x,
                    forall|i: int| 0 <= i < x ==> (#[trigger] row@[i]) is None,
                decreases width - x,
            {
                row.push(None);
                x += 1;
            }
            assert(row@ =~= Seq::new(width as nat, |x: int| None::<T>));
            tiles.push(row);
            y += 1;
        }
        let grid = Grid { width, height, tiles, rules };
        assert(grid@.cells =~= Seq::new(
            height as nat,
            |y: int| Seq::new(width as nat, |x: int| None::<T>),
        ));
        grid
    }

    /// Appends a rule to the list; a rule that is already there is listed
    /// again.
    pub fn add_rule(&mut self, rule: (T, T, Direction))
        ensures
            final(self)@ == (GridView { rules: old(self)@.rules.push(rule), ..old(self)@ }),
    {
        self.rules.push(rule);
    }

    /// Tells whether the rule is in the list.
    fn has_rule(&self, rule: (T, T, Direction)) -> (found: bool)
        ensures
            found == self@.rules.contains(rule),
    {
        let a = rule.0.index();
        let b = rule.1.index();
        proof {
            lemma_ordinal_unique(rule.0, a as int);
            lemma_ordinal_unique(rule.1, b as int);
        }
        let mut k: usize = 0;
        while k < self.rules.len()
            invariant
                k <= self.rules@.len(),
                a == ordinal(rule.0),
                b == ordinal(rule.1),
                forall|j: int| 0 <= j < k ==> self.rules@[j] != rule,
            decreases self.rules@.len() - k,
        {
            let listed = self.rules[k];
            let la = listed.0.index();
            let lb = listed.1.index();
            proof {
                lemma_ordinal_unique(listed.0, la as int);
                lemma_ordinal_unique(listed.1, lb as int);
                if la == a {
                    lemma_ordinal_injective(listed.0, rule.0);
                }
                if lb == b {
                    lemma_ordinal_injective(listed.1, rule.1);
                }
            }
            if la == a && lb == b && listed.2 == rule.2 {
                return true;
            }
            k += 1;
        }
        false
    }

    /// Scores the cell at `pos`, a column and a row: nothing for an
    /// undecided cell, which stands for a score without bound; else 1 where
    /// the cell to its right is decided and a rule lets this tile stand to
    /// its left, and 0 where not.
    ///
    /// The cell must lie on the grid, and a decided cell must have a cell to
    /// its right.
    pub fn entropy(&self, pos: (usize, usize)) -> (score: Option<usize>)
        requires
            pos.1 < self@.cells.len(),
            pos.0 < self@.cells[pos.1 as int].len(),
            self@.cells[pos.1 as int][pos.0 as int] is Some && pos.0 < self@.width ==> pos.0 + 1
                < self@.cells[pos.1 as int].len(),
        ensures
            score == match self@.cells[pos.1 as int][pos.0 as int] {
                Some(_) => Some(
                    if self@.right_allowed(pos.0 as int, pos.1 as int) {
                        1usize
                    } else {
                        0usize
                    },
                ),
                None => None,
            },
    {
        let (x, y) = pos;
        assert(self@.cells[y as int] == self.tiles@[y as int]@);
        let row = &self.tiles[y];
        assert(row@.len() == row.len());
        match row[x] {
            Some(tile) => {
                let mut entropy: usize = 0;
                if x < self.width {
                    match row[x + 1] {
                        Some(right) => {
                            if self.has_rule((tile, right, Direction::Right)) {
                                entropy += 1;
                            }
                        },
                        None => {},
                    }
                }
                Some(entropy)
            },
            None => None,
        }
    }
}

} // verus!
