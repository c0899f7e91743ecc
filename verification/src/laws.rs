//! What follows from the model of a wave: the laws that the collapse relies
//! on, each proved once for every grid.

use crate::counting::{grid_positions, lemma_grid_positions};
use crate::model::{adjacent, allows, candidates, within_reach, WaveView};
use crate::tile::Tile;
use crate::wave::Direction;
use vstd::prelude::*;
use vstd::set_lib::{lemma_len_subset, lemma_set_empty_equivalency_len, lemma_subset_equality};

verus! {

/// Filtering by what holds of every item keeps the sequence as it is.
pub proof fn lemma_filter_keeps_all<A>(s: Seq<A>, pred: spec_fn(A) -> bool)
    requires
        forall|i: int| 0 <= i < s.len() ==> pred(#[trigger] s[i]),
    ensures
        s.filter(pred) == s,
    decreases s.len(),
{
    reveal(Seq::filter);
    if s.len() > 0 {
        lemma_filter_keeps_all(s.drop_last(), pred);
        assert(s.drop_last().push(s.last()) =~= s);
    }
}

impl<T: Tile> WaveView<T> {
    // Rules

    /// Adding a rule a second time changes nothing.
    pub proof fn lemma_with_rule_twice(self, rule: (T, T, Direction))
        ensures
            self.with_rule(rule).with_rule(rule) == self.with_rule(rule),
    {
        assert(self.rules.insert(rule).insert(rule) =~= self.rules.insert(rule));
    }

    /// Removing a rule after adding it leaves the grid without that rule,
    /// and with every other rule that it had.
    pub proof fn lemma_without_rule_after_with(self, rule: (T, T, Direction))
        ensures
            self.with_rule(rule).without_rule(rule) == self.without_rule(rule),
            !self.with_rule(rule).without_rule(rule).rules.contains(rule),
            forall|other: (T, T, Direction)|
                other != rule ==> (#[trigger] self.with_rule(rule).without_rule(
                    rule,
                ).rules.contains(other) <==> self.rules.contains(other)),
    {
        assert(self.rules.insert(rule).remove(rule) =~= self.rules.remove(rule));
    }

    // The rule predicate

    /// The rule predicate, direction by direction: the variant is permitted
    /// in the cell when each decided neighbour is covered by the rule that
    /// names the variant, the neighbour's tile and the neighbour's direction.
    pub proof fn lemma_valid_by_direction(self, v: T, x: int, y: int)
        ensures
            self.valid(v, x, y) <==> forall|d: Direction|
                (#[trigger] self.slot(x, y, d)) matches Some(w) ==> self.rules.contains((v, w, d)),
    {
        let seen = self.neighbours(x, y);
        if self.valid(v, x, y) {
            assert forall|d: Direction|
                ((#[trigger] self.slot(x, y, d)) matches Some(w) ==> self.rules.contains(
                    (v, w, d),
                )) by {
                assert(seen[d.place()] == self.slot(x, y, d));
                assert(Direction::at(d.place()) == d);
            }
        }
        if forall|d: Direction|
            (#[trigger] self.slot(x, y, d)) matches Some(w) ==> self.rules.contains((v, w, d)) {
            assert forall|i: int| 0 <= i < 4 implies ((#[trigger] seen[i]) matches Some(w)
                ==> self.rules.contains((v, w, Direction::at(i)))) by {
                assert(seen[i] == self.slot(x, y, Direction::at(i)));
            }
        }
    }

    /// A cell without a decided neighbour is permitted every variant.
    pub proof fn lemma_uninformed_all_valid(self, x: int, y: int)
        requires
            !self.informed(x, y),
        ensures
            candidates(self.rules, self.neighbours(x, y)) == T::all(),
            self.valid_count(x, y) == T::all().len(),
    {
        let seen = self.neighbours(x, y);
        let pred = |v: T| allows(self.rules, v, seen);
        assert forall|k: int| 0 <= k < T::all().len() implies pred(#[trigger] T::all()[k]) by {
            assert forall|i: int| 0 <= i < 4 implies ((#[trigger] seen[i]) matches Some(w)
                ==> self.rules.contains((T::all()[k], w, Direction::at(i)))) by {
                assert(!(self.neighbours(x, y)[i] is Some));
            }
        }
        lemma_filter_keeps_all(T::all(), pred);
    }

    /// In a grid without a decided cell, every cell is permitted every
    /// variant, whatever the rules.
    pub proof fn lemma_undecided_all_valid(self, x: int, y: int)
        requires
            self.well_formed(),
            self.collapsed().is_empty(),
        ensures
            self.valid_count(x, y) == T::all().len(),
    {
        assert forall|i: int| 0 <= i < 4 implies !((#[trigger] self.neighbours(x, y)[i]) is Some) by {
            let (p, q) = Direction::at(i).step(x, y);
            if self.in_grid(p, q) {
                assert(!self.collapsed().contains((p, q)));
            }
        }
        self.lemma_uninformed_all_valid(x, y);
    }

    /// A cell with a decided neighbour lies on a grid of more than one cell,
    /// one of them decided.
    pub proof fn lemma_informed(self, x: int, y: int)
        requires
            self.well_formed(),
            self.in_grid(x, y),
            self.informed(x, y),
        ensures
            T::all().len() > 0,
            self.width > 1 || self.height > 1,
            !self.collapsed().is_empty(),
    {
        let i = choose|i: int| 0 <= i < 4 && (#[trigger] self.neighbours(x, y)[i]) is Some;
        let (p, q) = Direction::at(i).step(x, y);
        assert(self.slot(x, y, Direction::at(i)) is Some);
        assert(self.in_grid(p, q));
        assert(self.collapsed().contains((p, q)));
        T::lemma_enumeration();
        assert(T::all().contains(self.tile(p, q).unwrap()));
    }

    // Grids without a decided cell

    /// A blank grid is well formed, has no decided cell, and the entropy of
    /// each of its cells is correct.
    pub proof fn lemma_blank(width: nat, height: nat, rules: Set<(T, T, Direction)>)
        requires
            width > 0,
            height > 0,
        ensures
            Self::blank(width, height, rules).well_formed(),
            Self::blank(width, height, rules).collapsed().is_empty(),
            Self::blank(width, height, rules).entropy_correct(),
            Self::blank(width, height, rules).consistent(),
    {
        let blank = Self::blank(width, height, rules);
        assert(blank.well_formed());
        assert(blank.collapsed() =~= Set::empty());
        assert forall|x: int, y: int|
            #![trigger blank.cells[y][x]]
            blank.in_grid(x, y) && blank.tile(x, y) is None implies blank.entropy(x, y)
            == blank.valid_count(x, y) by {
            blank.lemma_undecided_all_valid(x, y);
        }
        blank.lemma_undecided_consistent();
    }

    /// A grid without a decided cell is consistent.
    pub proof fn lemma_undecided_consistent(self)
        requires
            self.well_formed(),
            self.collapsed().is_empty(),
        ensures
            self.consistent(),
    {
        assert forall|x: int, y: int, d: Direction|
            #![trigger self.cells[y][x], self.slot(x, y, d)]
            self.in_grid(x, y) implies self.tile(x, y) is None by {
            assert(!self.collapsed().contains((x, y)));
        }
    }

    /// Where no cell is decided, the entropy stays correct whatever becomes
    /// of the rules.
    pub proof fn lemma_undecided_rules(self, rules: Set<(T, T, Direction)>)
        requires
            self.well_formed(),
            self.collapsed().is_empty(),
            self.entropy_correct(),
        ensures
            (WaveView { rules, ..self }).entropy_correct(),
    {
        let other = WaveView { rules, ..self };
        assert(other.collapsed() =~= self.collapsed());
        assert forall|x: int, y: int|
            #![trigger other.cells[y][x]]
            other.in_grid(x, y) && other.tile(x, y) is None implies other.entropy(x, y)
            == other.valid_count(x, y) by {
            self.lemma_undecided_all_valid(x, y);
            other.lemma_undecided_all_valid(x, y);
            assert(self.cells[y][x].0 is None);
        }
    }

    /// A tile set without a variant leaves every cell undecided.
    pub proof fn lemma_no_variants(self)
        requires
            self.well_formed(),
            T::all().len() == 0,
        ensures
            self.collapsed().is_empty(),
            forall|x: int, y: int, choice: Option<T>|
                self.in_grid(x, y) ==> #[trigger] self.assigned(x, y, choice) == self,
    {
        T::lemma_enumeration();
        assert(self.collapsed() =~= Set::empty()) by {
            assert forall|p: (int, int)| !self.collapsed().contains(p) by {
                if self.in_grid(p.0, p.1) && self.tile(p.0, p.1) is Some {
                    let t = self.tile(p.0, p.1).unwrap();
                    assert(T::all().contains(t));
                }
            }
        }
        assert forall|x: int, y: int, choice: Option<T>|
            self.in_grid(x, y) implies #[trigger] self.assigned(x, y, choice) == self by {
            self.lemma_assigned_cells(x, y, choice);
            let after = self.assigned(x, y, choice);
            if choice is Some {
                assert(T::all().contains(choice.unwrap()));
            }
            assert forall|j: int| 0 <= j < self.height implies #[trigger] after.cells[j]
                == self.cells[j] by {
                assert forall|i: int| 0 <= i < self.width implies #[trigger] after.cells[j][i]
                    == self.cells[j][i] by {
                    let decided = self.decided(x, y, choice);
                    T::all().lemma_filter_len(
                        |v: T| allows(decided.rules, v, decided.neighbours(i, j)),
                    );
                    assert(self.entropy(i, j) <= 0);
                    if self.tile(i, j) is Some {
                        assert(T::all().contains(self.tile(i, j).unwrap()));
                    }
                }
                assert(after.cells[j] =~= self.cells[j]);
            }
            assert(after.cells =~= self.cells);
        }
    }

    // Counting the decided cells

    /// There are no more decided cells than cells.
    pub proof fn lemma_collapsed_bounded(self)
        ensures
            self.collapsed().finite(),
            self.collapsed().len() <= self.width * self.height,
    {
        lemma_grid_positions(self.width, self.height);
        assert(self.collapsed().subset_of(grid_positions(self.width, self.height)));
        lemma_len_subset(self.collapsed(), grid_positions(self.width, self.height));
    }

    /// Every cell is decided exactly when there are as many decided cells as
    /// cells.
    pub proof fn lemma_collapsed_full(self)
        ensures
            self.fully_collapsed() <==> self.collapsed().len() == self.width * self.height,
    {
        let all = grid_positions(self.width, self.height);
        lemma_grid_positions(self.width, self.height);
        self.lemma_collapsed_bounded();
        assert(self.collapsed().subset_of(all));
        if self.fully_collapsed() {
            assert forall|p: (int, int)| all.contains(p) implies self.collapsed().contains(p) by {
                assert(self.cells[p.1][p.0].0 is Some);
            }
            assert(self.collapsed() =~= all);
        }
        if self.collapsed().len() == self.width * self.height {
            lemma_subset_equality(self.collapsed(), all);
            assert forall|x: int, y: int|
                #![trigger self.cells[y][x]]
                self.in_grid(x, y) implies self.tile(x, y) is Some by {
                assert(all.contains((x, y)));
                assert(self.collapsed().contains((x, y)));
            }
        }
    }

    // Assigning a cell

    /// Grids with the same tiles show every cell the same neighbours.
    pub proof fn lemma_same_tiles_neighbours(self, other: Self, x: int, y: int)
        requires
            self.same_tiles(other),
        ensures
            self.neighbours(x, y) == other.neighbours(x, y),
    {
        assert(self.neighbours(x, y) =~= other.neighbours(x, y));
    }

    /// Bringing entropy up to date in no direction changes nothing.
    pub proof fn lemma_refreshed_none(self, x: int, y: int)
        requires
            self.well_formed(),
        ensures
            self.refreshed(x, y, 0) == self,
    {
        assert(self.refreshed(x, y, 0) =~~= self);
    }

    /// One more direction changes nothing where the cell has no neighbour
    /// there, or a decided one.
    pub proof fn lemma_refreshed_skip(self, x: int, y: int, n: int)
        requires
            self.well_formed(),
            self.in_grid(x, y),
            0 <= n < 4,
            !self.available(x, y, Direction::at(n)) || self.slot(x, y, Direction::at(n)) is Some,
        ensures
            self.refreshed(x, y, n + 1) == self.refreshed(x, y, n),
    {
        let a = self.refreshed(x, y, n + 1);
        let b = self.refreshed(x, y, n);
        let (i0, j0) = Direction::at(n).step(x, y);
        assert forall|j: int| 0 <= j < self.height implies #[trigger] a.cells[j] == b.cells[j] by {
            assert forall|i: int| 0 <= i < self.width implies #[trigger] a.cells[j][i]
                == b.cells[j][i] by {
                if within_reach(x, y, i, j, n + 1) && !within_reach(x, y, i, j, n) {
                    assert(i == i0 && j == j0);
                    assert(self.in_grid(i, j));
                    assert(self.available(x, y, Direction::at(n)));
                    assert(self.tile(i, j) is Some);
                }
            }
            assert(a.cells[j] =~= b.cells[j]);
        }
        assert(a.cells =~= b.cells);
    }

    /// One more direction writes the number of permitted variants into the
    /// undecided neighbour that the cell has there.
    pub proof fn lemma_refreshed_step(self, x: int, y: int, n: int)
        requires
            self.well_formed(),
            self.in_grid(x, y),
            0 <= n < 4,
            self.available(x, y, Direction::at(n)),
            self.slot(x, y, Direction::at(n)) is None,
        ensures
            self.refreshed(x, y, n + 1) == self.refreshed(x, y, n).with_cell(
                Direction::at(n).step(x, y).0,
                Direction::at(n).step(x, y).1,
                (
                    None,
                    self.valid_count(Direction::at(n).step(x, y).0, Direction::at(n).step(x, y).1),
                ),
            ),
    {
        let (i0, j0) = Direction::at(n).step(x, y);
        let a = self.refreshed(x, y, n + 1);
        let b = self.refreshed(x, y, n).with_cell(i0, j0, (None, self.valid_count(i0, j0)));
        assert(self.in_grid(i0, j0));
        assert(self.tile(i0, j0) is None);
        assert(within_reach(x, y, i0, j0, n + 1));
        assert forall|j: int| 0 <= j < self.height implies #[trigger] a.cells[j] == b.cells[j] by {
            assert forall|i: int| 0 <= i < self.width implies #[trigger] a.cells[j][i]
                == b.cells[j][i] by {
                if i == i0 && j == j0 {
                } else {
                    assert(within_reach(x, y, i, j, n + 1) == within_reach(x, y, i, j, n));
                }
            }
            assert(a.cells[j] =~= b.cells[j]);
        }
        assert(a.cells =~= b.cells);
    }

    /// Bringing entropy up to date changes no tile.
    pub proof fn lemma_refreshed_tiles(self, x: int, y: int, n: int)
        requires
            self.well_formed(),
        ensures
            self.refreshed(x, y, n).same_tiles(self),
    {
    }

    /// What assigning a cell does to each cell of the grid.
    pub proof fn lemma_assigned_cells(self, x: int, y: int, choice: Option<T>)
        requires
            self.well_formed(),
            self.in_grid(x, y),
        ensures
            self.assigned(x, y, choice).well_formed(),
            self.assigned(x, y, choice).width == self.width,
            self.assigned(x, y, choice).height == self.height,
            self.assigned(x, y, choice).rules == self.rules,
            self.assigned(x, y, choice).tile(x, y) == choice,
            self.assigned(x, y, choice).entropy(x, y) == 0,
            forall|i: int, j: int|
                #![trigger self.assigned(x, y, choice).cells[j][i]]
                self.in_grid(i, j) && (i != x || j != y) ==> {
                    &&& self.assigned(x, y, choice).tile(i, j) == self.tile(i, j)
                    &&& self.assigned(x, y, choice).entropy(i, j) == if adjacent(x, y, i, j)
                        && self.tile(i, j) is None {
                        self.decided(x, y, choice).valid_count(i, j)
                    } else {
                        self.entropy(i, j)
                    }
                },
    {
        let decided = self.decided(x, y, choice);
        let after = self.assigned(x, y, choice);
        assert(!adjacent(x, y, x, y));
        assert forall|i: int, j: int| #![trigger after.cells[j][i]] after.in_grid(i, j) implies {
            &&& after.entropy(i, j) <= T::all().len()
            &&& after.tile(i, j) is Some ==> after.entropy(i, j) == 0
        } by {
            T::all().lemma_filter_len(|v: T| allows(decided.rules, v, decided.neighbours(i, j)));
            assert(decided.cells[j][i] == if i == x && j == y {
                (choice, 0nat)
            } else {
                self.cells[j][i]
            });
        }
    }

    /// A cell that is neither the assigned one nor one step away from it
    /// sees the same neighbours as before; so does the assigned cell itself.
    pub proof fn lemma_assigned_neighbours(self, x: int, y: int, choice: Option<T>, i: int, j: int)
        requires
            self.well_formed(),
            self.in_grid(x, y),
            self.in_grid(i, j),
            !adjacent(x, y, i, j),
        ensures
            self.assigned(x, y, choice).neighbours(i, j) == self.neighbours(i, j),
    {
        self.lemma_assigned_cells(x, y, choice);
        let after = self.assigned(x, y, choice);
        assert forall|k: int| 0 <= k < 4 implies after.neighbours(i, j)[k] == self.neighbours(
            i,
            j,
        )[k] by {
            let d = Direction::at(k);
            let (a, b) = d.step(i, j);
            if self.in_grid(a, b) {
                assert(a != x || b != y);
                assert(after.cells[b][a].0 == self.tile(a, b));
            }
        }
        assert(after.neighbours(i, j) =~= self.neighbours(i, j));
    }

    /// Assigning a cell keeps the entropy of every undecided cell correct,
    /// where nothing is assigned only to a cell in which no variant is
    /// permitted.
    pub proof fn lemma_assigned_entropy_correct(self, x: int, y: int, choice: Option<T>)
        requires
            self.well_formed(),
            self.in_grid(x, y),
            self.entropy_correct(),
            choice is None ==> self.valid_count(x, y) == 0,
        ensures
            self.assigned(x, y, choice).entropy_correct(),
    {
        self.lemma_assigned_cells(x, y, choice);
        let decided = self.decided(x, y, choice);
        let after = self.assigned(x, y, choice);
        decided.lemma_refreshed_tiles(x, y, 4);
        assert forall|i: int, j: int|
            #![trigger after.cells[j][i]]
            after.in_grid(i, j) && after.tile(i, j) is None implies after.entropy(i, j)
            == after.valid_count(i, j) by {
            if i == x && j == y {
                assert(!adjacent(x, y, x, y));
                self.lemma_assigned_neighbours(x, y, choice, x, y);
            } else if adjacent(x, y, i, j) {
                after.lemma_same_tiles_neighbours(decided, i, j);
            } else {
                self.lemma_assigned_neighbours(x, y, choice, i, j);
                assert(self.cells[j][i].0 is None);
            }
        }
    }

    /// Assigning to a cell a variant that is permitted there keeps the grid
    /// consistent.
    pub proof fn lemma_assigned_consistent(self, x: int, y: int, choice: Option<T>)
        requires
            self.well_formed(),
            self.in_grid(x, y),
            self.consistent(),
            choice matches Some(v) ==> self.valid(v, x, y),
        ensures
            self.assigned(x, y, choice).consistent(),
    {
        self.lemma_assigned_cells(x, y, choice);
        let after = self.assigned(x, y, choice);
        assert forall|i: int, j: int, d: Direction|
            #![trigger after.cells[j][i], after.slot(i, j, d)]
            after.in_grid(i, j) implies match (after.tile(i, j), after.slot(i, j, d)) {
            (Some(a), Some(b)) => after.rules.contains((a, b, d)) || after.rules.contains(
                (b, a, d.opposite()),
            ),
            _ => true,
        } by {
            let (p, q) = d.step(i, j);
            if after.tile(i, j) is Some && after.slot(i, j, d) is Some {
                assert(self.in_grid(p, q));
                assert(after.cells[q][p].0 == after.slot(i, j, d));
                let a = after.tile(i, j).unwrap();
                let b = after.slot(i, j, d).unwrap();
                if i == x && j == y {
                    assert(self.slot(x, y, d) == Some(b));
                    self.lemma_valid_by_direction(a, x, y);
                } else if p == x && q == y {
                    assert(d.opposite().step(x, y) == (i, j));
                    assert(self.cells[j][i].0 == Some(a));
                    assert(self.slot(x, y, d.opposite()) == Some(a));
                    self.lemma_valid_by_direction(b, x, y);
                } else {
                    assert(self.cells[j][i].0 == Some(a));
                    assert(self.slot(i, j, d) == Some(b));
                }
            }
        }
    }

    /// Assigning a variant to an undecided cell adds that cell, and no
    /// other, to the decided ones.
    pub proof fn lemma_assigned_collapsed(self, x: int, y: int, choice: Option<T>)
        requires
            self.well_formed(),
            self.in_grid(x, y),
            self.tile(x, y) is None,
            choice is Some,
        ensures
            self.assigned(x, y, choice).collapsed() == self.collapsed().insert((x, y)),
            self.assigned(x, y, choice).collapsed().len() == self.collapsed().len() + 1,
    {
        self.lemma_assigned_cells(x, y, choice);
        self.lemma_collapsed_bounded();
        let after = self.assigned(x, y, choice);
        assert forall|p: (int, int)|
            after.collapsed().contains(p) == self.collapsed().insert((x, y)).contains(p) by {
            if self.in_grid(p.0, p.1) && p != (x, y) {
                assert(after.cells[p.1][p.0].0 == self.tile(p.0, p.1));
            }
        }
        assert(after.collapsed() =~= self.collapsed().insert((x, y)));
    }

    // Consistency

    /// Where every rule comes with its mirror image, a consistent grid is
    /// consistent read from either cell of each pair.
    pub proof fn lemma_symmetric_consistent(self)
        requires
            self.well_formed(),
            self.symmetric_rules(),
            self.consistent(),
        ensures
            self.locally_consistent(),
    {
        assert forall|x: int, y: int, d: Direction|
            #![trigger self.cells[y][x], self.slot(x, y, d)]
            self.in_grid(x, y) implies match (self.tile(x, y), self.slot(x, y, d)) {
            (Some(a), Some(b)) => self.rules.contains((a, b, d)),
            _ => true,
        } by {
            if self.tile(x, y) is Some && self.slot(x, y, d) is Some {
                let a = self.tile(x, y).unwrap();
                let b = self.slot(x, y, d).unwrap();
                if self.rules.contains((b, a, d.opposite())) {
                    assert(self.rules.contains((a, b, d.opposite().opposite())));
                    assert(d.opposite().opposite() == d);
                }
            }
        }
    }

    /// Without any rule, a grid of more than one cell cannot be decided in
    /// every cell and consistent.
    pub proof fn lemma_no_rules_no_solution(self)
        requires
            self.well_formed(),
            self.rules.is_empty(),
            self.width > 1 || self.height > 1,
            self.fully_collapsed(),
        ensures
            !self.consistent(),
    {
        if self.consistent() {
            assert(self.cells[0][0].0 is Some);
            if self.width > 1 {
                assert(self.cells[0][1].0 is Some);
                assert(self.slot(0, 0, Direction::Right) is Some);
                assert(false);
            } else {
                assert(self.cells[1][0].0 is Some);
                assert(self.slot(0, 0, Direction::Down) is Some);
                assert(false);
            }
        }
    }

    // Picking the next cell

    /// There is one entropy at which the next cell is picked.
    pub proof fn lemma_lowest_entropy_unique(self, a: nat, b: nat)
        requires
            self.is_lowest_entropy(a),
            self.is_lowest_entropy(b),
        ensures
            a == b,
    {
        if self.has_open_cell() {
            let (i, j) = choose|x: int, y: int|
                #![trigger self.cells[y][x]]
                self.in_grid(x, y) && self.entropy(x, y) == a;
            let (k, l) = choose|x: int, y: int|
                #![trigger self.cells[y][x]]
                self.in_grid(x, y) && self.entropy(x, y) == b;
            assert(self.cells[j][i].1 == a);
            assert(self.cells[l][k].1 == b);
        }
    }

    /// Among the cells whose entropy is not 0 and at most `bound`, one has
    /// the least entropy, and may be picked.
    proof fn lemma_least_entropy(self, a: int, b: int, bound: nat)
        requires
            self.well_formed(),
            self.in_grid(a, b),
            self.entropy(a, b) != 0,
            self.entropy(a, b) <= bound,
        ensures
            self.has_pickable(),
        decreases bound,
    {
        let e = self.entropy(a, b);
        if exists|x: int, y: int|
            #![trigger self.cells[y][x]]
            self.in_grid(x, y) && self.entropy(x, y) != 0 && self.entropy(x, y) < e {
            let (x, y) = choose|x: int, y: int|
                #![trigger self.cells[y][x]]
                self.in_grid(x, y) && self.entropy(x, y) != 0 && self.entropy(x, y) < e;
            self.lemma_least_entropy(x, y, (e - 1) as nat);
        } else {
            assert(self.cells[b][a].1 == e);
            assert(self.has_open_cell());
            assert(self.is_lowest_entropy(e));
            assert(self.pickable(a, b));
        }
    }

    /// With a variant to assign, a cell may be picked exactly when some
    /// entropy is not 0.
    pub proof fn lemma_has_pickable(self)
        requires
            self.well_formed(),
        ensures
            T::all().len() > 0 ==> (self.has_pickable() <==> self.has_open_cell()),
            T::all().len() == 0 ==> self.pickable(0, 0) && self.entropy_correct(),
    {
        if T::all().len() > 0 {
            if self.has_open_cell() {
                let (a, b) = choose|x: int, y: int|
                    #![trigger self.cells[y][x]]
                    self.in_grid(x, y) && self.entropy(x, y) != 0;
                self.lemma_least_entropy(a, b, self.entropy(a, b));
            }
            if self.has_pickable() {
                let (x, y) = choose|x: int, y: int| #[trigger] self.pickable(x, y);
                if !self.has_open_cell() {
                    assert(self.cells[y][x].1 == T::all().len());
                }
            }
        } else {
            assert(self.cells[0][0].1 <= 0);
            assert(self.in_grid(0, 0));
            assert forall|x: int, y: int|
                #![trigger self.cells[y][x]]
                self.in_grid(x, y) && self.tile(x, y) is None implies self.entropy(x, y)
                == self.valid_count(x, y) by {
                T::all().lemma_filter_len(|v: T| allows(self.rules, v, self.neighbours(x, y)));
            }
        }
    }

    /// Where the entropy is correct, a cell that may be picked can be
    /// assigned.
    pub proof fn lemma_pickable_not_stuck(self, x: int, y: int)
        requires
            self.well_formed(),
            self.entropy_correct(),
            self.pickable(x, y),
        ensures
            !self.stuck(x, y),
    {
        if self.stuck(x, y) {
            self.lemma_informed(x, y);
            assert(self.cells[y][x].1 != 0);
        }
    }

    // Runs

    /// One step of a run: a cell whose entropy is the lowest is assigned
    /// what random choice may hand back for it.
    pub proof fn lemma_advanced_step(
        self,
        start: Self,
        count: nat,
        x: int,
        y: int,
        choice: Option<T>,
    )
        requires
            self.advanced(start, count),
            self.pickable(x, y),
            self.may_choose(x, y, choice),
            !self.stuck(x, y),
        ensures
            self.assigned(x, y, choice).advanced(start, count + 1),
    {
        let after = self.assigned(x, y, choice);
        self.lemma_assigned_cells(x, y, choice);
        if T::all().len() == 0 {
            self.lemma_no_variants();
        } else {
            assert(self.cells[y][x].1 != 0);
            assert(self.tile(x, y) is None);
            if choice is None {
                self.lemma_uninformed_all_valid(x, y);
            }
            self.lemma_assigned_collapsed(x, y, choice);
            assert forall|i: int, j: int|
                #![trigger after.cells[j][i]]
                start.in_grid(i, j) && start.tile(i, j) is Some implies after.tile(i, j)
                == start.tile(i, j) by {
                assert(self.cells[j][i].0 == start.tile(i, j));
            }
            if start.consistent() {
                self.lemma_assigned_consistent(x, y, choice);
            }
            if start.entropy_correct() {
                self.lemma_assigned_entropy_correct(x, y, choice);
            }
        }
    }

    /// What a run has reached after `count` assignments: with a variant to
    /// assign, every cell is decided and the run began without a decided
    /// cell exactly when it has made as many assignments as there are cells;
    /// the grid is then consistent.
    pub proof fn lemma_advanced_outcome(self, start: Self, count: nat)
        requires
            self.advanced(start, count),
            start.well_formed(),
            count <= self.width * self.height,
            T::all().len() > 0,
        ensures
            (self.fully_collapsed() && start.collapsed().is_empty()) <==> count == self.width
                * self.height,
            count == self.width * self.height ==> self.consistent(),
    {
        self.lemma_collapsed_bounded();
        self.lemma_collapsed_full();
        start.lemma_collapsed_bounded();
        lemma_set_empty_equivalency_len(start.collapsed());
        if count == self.width * self.height {
            start.lemma_undecided_consistent();
        }
    }
}

} // verus!
