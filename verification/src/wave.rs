//! The wave: grid state, adjacency rules and the collapse algorithm.

use crate::model::{allows, candidates, cell_glyph, WaveView};
use crate::rules::{lemma_rules_of_insert, lemma_rules_of_remove, rules_of, RuleTable};
use crate::tile::{lemma_ordinal_unique, Glyph, Tile};
use crate::trusted::choose_index;
use rand::rngs::StdRng;
use vstd::prelude::*;

verus! {

/// What can go wrong with a wave.
#[derive(Debug, Clone, Copy, PartialEq, Eq, Structural)]
pub enum WaveError {
    /// The grid was asked to have no columns or no rows.
    ZeroDimension,
    /// The collapse stopped before every cell was decided.
    NotFullyCollapsed,
    /// No variant is permitted in a cell by its decided neighbours.
    UncollapsibleWave,
}

impl WaveError {
    /// What the error says, as a line of text.
    pub open spec fn message(self) -> Seq<char> {
        match self {
            WaveError::ZeroDimension => "Dimensions can't be 0.\n"@,
            WaveError::NotFullyCollapsed => "The wave has not fully collapsed.\n"@,
            WaveError::UncollapsibleWave => "Tha wave can't be collapsed any further.\n"@,
        }
    }

    /// Returns what the error says, as a line of text.
    pub fn to_string(&self) -> (text: String)
        ensures
            text@ == self.message(),
    {
        match self {
            WaveError::ZeroDimension => "Dimensions can't be 0.\n".to_owned(),
            WaveError::NotFullyCollapsed => "The wave has not fully collapsed.\n".to_owned(),
            WaveError::UncollapsibleWave => "Tha wave can't be collapsed any further.\n".to_owned(),
        }
    }
}

/// One of the four directions in which a cell has a neighbour.
#[derive(Debug, Clone, Copy, PartialEq, Eq, Hash, Structural)]
pub enum Direction {
    Up,
    Down,
    Left,
    Right,
}

impl Direction {
    /// The direction visited at the given place of the fixed visiting order:
    /// up, down, left, right.
    pub open spec fn at(i: int) -> Direction {
        if i == 0 {
            Direction::Up
        } else if i == 1 {
            Direction::Down
        } else if i == 2 {
            Direction::Left
        } else {
            Direction::Right
        }
    }

    /// The place of this direction in the visiting order.
    pub open spec fn place(self) -> int {
        match self {
            Direction::Up => 0,
            Direction::Down => 1,
            Direction::Left => 2,
            Direction::Right => 3,
        }
    }

    /// The direction that leads back.
    pub open spec fn opposite(self) -> Direction {
        match self {
            Direction::Up => Direction::Down,
            Direction::Down => Direction::Up,
            Direction::Left => Direction::Right,
            Direction::Right => Direction::Left,
        }
    }

    /// The direction visited at the given place of the visiting order, which
    /// has the places 0 to 3.
    pub fn nth(i: usize) -> (d: Direction)
        requires
            i < 4,
        ensures
            d == Direction::at(i as int),
    {
        if i == 0 {
            Direction::Up
        } else if i == 1 {
            Direction::Down
        } else if i == 2 {
            Direction::Left
        } else {
            Direction::Right
        }
    }

    /// The position one step away from `(x, y)`; rows are numbered downwards.
    pub open spec fn step(self, x: int, y: int) -> (int, int) {
        match self {
            Direction::Up => (x, y - 1),
            Direction::Down => (x, y + 1),
            Direction::Left => (x - 1, y),
            Direction::Right => (x + 1, y),
        }
    }
}

/// A grid of cells under collapse, with the rules that govern it.
#[derive(Debug)]
pub struct Wave<T: Tile> {
    width: usize,
    height: usize,
    tiles: Vec<Vec<(Option<T>, usize)>>,
    variants_total: usize,
    rules: RuleTable,
}

impl<T: Tile> View for Wave<T> {
    type V = WaveView<T>;

    closed spec fn view(&self) -> WaveView<T> {
        WaveView {
            width: self.width as nat,
            height: self.height as nat,
            cells: Seq::new(
                self.tiles@.len(),
                |y: int|
                    Seq::new(
                        self.tiles@[y]@.len(),
                        |x: int| (self.tiles@[y]@[x].0, self.tiles@[y]@[x].1 as nat),
                    ),
            ),
            rules: rules_of(self.rules@),
        }
    }
}

impl<T: Tile> Wave<T> {
    /// What holds of every wave that this module hands out, and what its
    /// functions ask of the waves they are given: the grid is not empty, its
    /// rows have its width, no entropy exceeds the number of variants, and a
    /// decided cell has entropy 0.
    pub closed spec fn wf(&self) -> bool {
        &&& self.width > 0
        &&& self.height > 0
        &&& self.variants_total == T::all().len()
        &&& self.tiles@.len() == self.height
        &&& forall|y: int| 0 <= y < self.height ==> (#[trigger] self.tiles@[y])@.len() == self.width
        &&& forall|x: int, y: int|
            0 <= x < self.width && 0 <= y < self.height ==> {
                &&& (#[trigger] self.tiles@[y]@[x]).1 <= self.variants_total
                &&& self.tiles@[y]@[x].0 is Some ==> self.tiles@[y]@[x].1 == 0
            }
    }

    /// The model of a wave is well formed.
    pub proof fn lemma_wf(&self)
        requires
            self.wf(),
        ensures
            self@.well_formed(),
    {
        self.lemma_view();
    }

    /// Creates a wave of the given size in which no cell is decided.
    ///
    /// Fails with [`WaveError::ZeroDimension`] exactly when the grid would
    /// have no columns or no rows.
    pub fn new(width: usize, height: usize, rules: Vec<(T, T, Direction)>) -> (res: Result<
        Self,
        WaveError,
    >)
        ensures
            match res {
                Ok(wave) => {
                    &&& width > 0
                    &&& height > 0
                    &&& wave.wf()
                    &&& wave@ == WaveView::<T>::blank(
                        width as nat,
                        height as nat,
                        rules@.to_set(),
                    )
                    &&& wave@.collapsed().is_empty()
                    &&& wave@.entropy_correct()
                },
                Err(e) => (width == 0 || height == 0) && e == WaveError::ZeroDimension,
            },
    {
        if width == 0 || height == 0 {
            return Err(WaveError::ZeroDimension);
        }
        let variants_total = T::variants().len();
        let mut tiles: Vec<Vec<(Option<T>, usize)>> = Vec::new();
        let mut y: usize = 0;
        while y < height
            invariant
                y <= height,
                tiles@.len() == y,
                forall|j: int| 0 <= j < y ==> (#[trigger] tiles@[j])@.len() == width,
                forall|i: int, j: int|
                    0 <= j < y && 0 <= i < width ==> (#[trigger] tiles@[j]@[i]) == (
                        None::<T>,
                        variants_total,
                    ),
            decreases height - y,
        {
            let mut row: Vec<(Option<T>, usize)> = Vec::new();
            let mut x: usize = 0;
            while x < width
                invariant
                    x <= width,
                    row@.len() == x,
                    forall|i: int| 0 <= i < x ==> (#[trigger] row@[i]) == (
                        None::<T>,
                        variants_total,
                    ),
                decreases width - x,
            {
                row.push((None, variants_total));
                x += 1;
            }
            tiles.push(row);
            y += 1;
        }
        let mut table = RuleTable::new();
        let mut k: usize = 0;
        while k < rules.len()
            invariant
                k <= rules@.len(),
                rules_of::<T>(table@) == rules@.take(k as int).to_set(),
            decreases rules@.len() - k,
        {
            let rule = rules[k];
            let a = rule.0.index();
            let b = rule.1.index();
            proof {
                lemma_ordinal_unique(rule.0, a as int);
                lemma_ordinal_unique(rule.1, b as int);
                lemma_rules_of_insert(table@, rule);
                let before = rules@.take(k as int);
                let after = rules@.take(k + 1);
                assert(after == before.push(rule));
                assert forall|r: (T, T, Direction)|
                    after.to_set().contains(r) == before.to_set().insert(rule).contains(r) by {
                    if before.contains(r) {
                        let j = choose|j: int| 0 <= j < before.len() && before[j] == r;
                        assert(after[j] == r);
                    }
                    if r == rule {
                        assert(after[k as int] == r);
                    }
                }
                assert(after.to_set() =~= before.to_set().insert(rule));
            }
            table.insert(a, b, rule.2);
            k += 1;
        }
        let wave = Wave { width, height, tiles, variants_total, rules: table };
        proof {
            assert(rules@.take(rules@.len() as int) == rules@);
            assert(wave@ =~~= WaveView::<T>::blank(width as nat, height as nat, rules@.to_set()));
            WaveView::<T>::lemma_blank(width as nat, height as nat, rules@.to_set());
        }
        Ok(wave)
    }

    /// Adds a rule: `rule.0` may stand in a cell whose neighbour in direction
    /// `rule.2` holds `rule.1`. A rule that is already there stays there once.
    pub fn add_rule(&mut self, rule: (T, T, Direction))
        requires
            old(self).wf(),
        ensures
            final(self).wf(),
            final(self)@ == old(self)@.with_rule(rule),
            old(self)@.collapsed().is_empty() && old(self)@.entropy_correct()
                ==> final(self)@.entropy_correct(),
    {
        let a = rule.0.index();
        let b = rule.1.index();
        proof {
            lemma_ordinal_unique(rule.0, a as int);
            lemma_ordinal_unique(rule.1, b as int);
            lemma_rules_of_insert(self.rules@, rule);
        }
        self.rules.insert(a, b, rule.2);
        proof {
            assert(self@ =~~= old(self)@.with_rule(rule));
            old(self).lemma_view();
            if old(self)@.collapsed().is_empty() && old(self)@.entropy_correct() {
                old(self)@.lemma_undecided_rules(self@.rules);
            }
        }
    }

    /// Removes a rule, and no other. Nothing happens where it is not there.
    pub fn remove_rule(&mut self, rule: (T, T, Direction))
        requires
            old(self).wf(),
        ensures
            final(self).wf(),
            final(self)@ == old(self)@.without_rule(rule),
            old(self)@.collapsed().is_empty() && old(self)@.entropy_correct()
                ==> final(self)@.entropy_correct(),
    {
        let a = rule.0.index();
        let b = rule.1.index();
        proof {
            lemma_ordinal_unique(rule.0, a as int);
            lemma_ordinal_unique(rule.1, b as int);
            lemma_rules_of_remove(self.rules@, rule);
        }
        self.rules.remove(a, b, rule.2);
        proof {
            assert(self@ =~~= old(self)@.without_rule(rule));
            old(self).lemma_view();
            if old(self)@.collapsed().is_empty() && old(self)@.entropy_correct() {
                old(self)@.lemma_undecided_rules(self@.rules);
            }
        }
    }

    /// Tells whether a rule is in the rule set.
    pub fn has_rule(&self, rule: (T, T, Direction)) -> (found: bool)
        ensures
            found == self@.rules.contains(rule),
    {
        let a = rule.0.index();
        let b = rule.1.index();
        proof {
            lemma_ordinal_unique(rule.0, a as int);
            lemma_ordinal_unique(rule.1, b as int);
        }
        self.rules.contains(a, b, rule.2)
    }

    /// The number of columns.
    pub fn width(&self) -> (w: usize)
        ensures
            w == self@.width,
    {
        self.width
    }

    /// The number of rows.
    pub fn height(&self) -> (h: usize)
        ensures
            h == self@.height,
    {
        self.height
    }

    /// The tile of the cell in column `x` of row `y`, if it is decided. The
    /// cell must lie on the grid.
    pub fn tile(&self, x: usize, y: usize) -> (t: Option<T>)
        requires
            self.wf(),
            self@.in_grid(x as int, y as int),
        ensures
            t == self@.tile(x as int, y as int),
    {
        proof {
            self.lemma_view();
        }
        self.tiles[y][x].0
    }

    /// The entropy recorded for the cell in column `x` of row `y`. The cell
    /// must lie on the grid.
    pub fn entropy(&self, x: usize, y: usize) -> (e: usize)
        requires
            self.wf(),
            self@.in_grid(x as int, y as int),
        ensures
            e == self@.entropy(x as int, y as int),
    {
        proof {
            self.lemma_view();
        }
        self.tiles[y][x].1
    }

    /// The tiles of the grid, row by row from the top; `None` stands for an
    /// undecided cell.
    pub fn rows(&self) -> (rows: Vec<Vec<Option<T>>>)
        requires
            self.wf(),
        ensures
            rows@.len() == self@.height,
            forall|y: int|
                0 <= y < self@.height ==> (#[trigger] rows@[y])@ == Seq::new(
                    self@.width,
                    |x: int| self@.tile(x, y),
                ),
    {
        let mut rows: Vec<Vec<Option<T>>> = Vec::new();
        let mut y: usize = 0;
        proof {
            self.lemma_view();
        }
        while y < self.height
            invariant
                y <= self.height,
                self.wf(),
                rows@.len() == y,
                forall|j: int|
                    0 <= j < y ==> (#[trigger] rows@[j])@ == Seq::new(
                        self@.width,
                        |x: int| self@.tile(x, j),
                    ),
            decreases self.height - y,
        {
            let mut row: Vec<Option<T>> = Vec::new();
            let mut x: usize = 0;
            while x < self.width
                invariant
                    x <= self.width,
                    y < self.height,
                    self.wf(),
                    row@.len() == x,
                    forall|i: int| 0 <= i < x ==> (#[trigger] row@[i]) == self@.tile(i, y as int),
                decreases self.width - x,
            {
                proof {
                    self.lemma_view();
                }
                row.push(self.tiles[y][x].0);
                x += 1;
            }
            proof {
                self.lemma_view();
                assert(row@ =~= Seq::new(self@.width, |x: int| self@.tile(x, y as int)));
            }
            rows.push(row);
            y += 1;
        }
        proof {
            self.lemma_view();
        }
        rows
    }

    /// The position one step away from `(x, y)` in the direction visited at
    /// place `i`, if it lies on the grid.
    fn neighbour_position(&self, x: usize, y: usize, i: usize) -> (pos: Option<(usize, usize)>)
        requires
            self.wf(),
            self@.in_grid(x as int, y as int),
            i < 4,
        ensures
            pos is Some <==> self@.available(x as int, y as int, Direction::at(i as int)),
            pos matches Some(p) ==> (p.0 as int, p.1 as int) == Direction::at(i as int).step(
                x as int,
                y as int,
            ),
    {
        proof {
            self.lemma_view();
        }
        if i == 0 {
            if y > 0 {
                Some((x, y - 1))
            } else {
                None
            }
        } else if i == 1 {
            if y + 1 < self.height {
                Some((x, y + 1))
            } else {
                None
            }
        } else if i == 2 {
            if x > 0 {
                Some((x - 1, y))
            } else {
                None
            }
        } else {
            if x + 1 < self.width {
                Some((x + 1, y))
            } else {
                None
            }
        }
    }

    /// Reports what the cell at `pos`, a column and a row, sees in the four
    /// directions, in visiting order: first whether there is a neighbour at
    /// all, then the neighbour's tile, which is `None` also where the
    /// neighbour is undecided. The cell must lie on the grid.
    pub fn neighbours_info(&self, pos: (usize, usize)) -> (info: ([bool; 4], [Option<T>; 4]))
        requires
            self.wf(),
            self@.in_grid(pos.0 as int, pos.1 as int),
        ensures
            forall|i: int|
                0 <= i < 4 ==> #[trigger] info.0@[i] == self@.available(
                    pos.0 as int,
                    pos.1 as int,
                    Direction::at(i),
                ),
            info.1@ == self@.neighbours(pos.0 as int, pos.1 as int),
    {
        let (x, y) = pos;
        let mut availables = [false; 4];
        let mut neighbours: [Option<T>; 4] = [None; 4];
        let mut i: usize = 0;
        while i < 4
            invariant
                i <= 4,
                self.wf(),
                self@.in_grid(x as int, y as int),
                forall|k: int|
                    0 <= k < i ==> #[trigger] availables@[k] == self@.available(
                        x as int,
                        y as int,
                        Direction::at(k),
                    ),
                forall|k: int|
                    0 <= k < i ==> #[trigger] neighbours@[k] == self@.slot(
                        x as int,
                        y as int,
                        Direction::at(k),
                    ),
            decreases 4 - i,
        {
            match self.neighbour_position(x, y, i) {
                Some((nx, ny)) => {
                    proof {
                        self.lemma_view();
                    }
                    availables[i] = true;
                    neighbours[i] = self.tiles[ny][nx].0;
                },
                None => {
                    availables[i] = false;
                    neighbours[i] = None;
                },
            }
            i += 1;
        }
        assert(neighbours@ =~= self@.neighbours(x as int, y as int));
        (availables, neighbours)
    }

    /// Tells whether the variant is permitted beside the given neighbours:
    /// for every decided neighbour the rule set holds the rule that names
    /// the variant, the neighbour's tile and the neighbour's direction.
    pub fn is_valid_tile_variant(&self, tile_variant: T, neighbours: [Option<T>; 4]) -> (valid:
        bool)
        ensures
            valid == allows(self@.rules, tile_variant, neighbours@),
    {
        let mut i: usize = 0;
        while i < 4
            invariant
                i <= 4,
                forall|k: int|
                    0 <= k < i ==> ((#[trigger] neighbours@[k]) matches Some(w)
                        ==> self@.rules.contains((tile_variant, w, Direction::at(k)))),
            decreases 4 - i,
        {
            match neighbours[i] {
                Some(w) => {
                    if !self.has_rule((tile_variant, w, Direction::nth(i))) {
                        return false;
                    }
                },
                None => {},
            }
            i += 1;
        }
        true
    }

    /// Lists the variants that are permitted beside the given neighbours, in
    /// enumeration order.
    fn valid_variants(&self, neighbours: [Option<T>; 4]) -> (valid: Vec<T>)
        ensures
            valid@ == candidates(self@.rules, neighbours@),
    {
        let all = T::variants();
        let mut valid: Vec<T> = Vec::new();
        let mut k: usize = 0;
        proof {
            assert(all@.take(0) =~= Seq::<T>::empty());
            reveal(Seq::filter);
        }
        while k < all.len()
            invariant
                k <= all@.len(),
                all@ == T::all(),
                valid@ == all@.take(k as int).filter(
                    |v: T| allows(self@.rules, v, neighbours@),
                ),
            decreases all@.len() - k,
        {
            let variant = all[k];
            proof {
                assert(all@.take(k + 1) == all@.take(k as int).push(variant));
                all@.take(k as int).lemma_filter_push(
                    variant,
                    |v: T| allows(self@.rules, v, neighbours@),
                );
            }
            if self.is_valid_tile_variant(variant, neighbours) {
                valid.push(variant);
            }
            k += 1;
        }
        assert(all@.take(all@.len() as int) == all@);
        valid
    }

    /// Brings the entropy up to date around the cell `(x, y)`: every
    /// undecided cell one step away gets the number of variants that are
    /// permitted there now. `availables` and `neighbours` are what the cell
    /// sees.
    fn refresh_neighbours(
        &mut self,
        x: usize,
        y: usize,
        availables: [bool; 4],
        neighbours: [Option<T>; 4],
    )
        requires
            old(self).wf(),
            old(self)@.in_grid(x as int, y as int),
            forall|i: int|
                0 <= i < 4 ==> #[trigger] availables@[i] == old(self)@.available(
                    x as int,
                    y as int,
                    Direction::at(i),
                ),
            neighbours@ == old(self)@.neighbours(x as int, y as int),
        ensures
            final(self).wf(),
            final(self)@ == old(self)@.refreshed(x as int, y as int, 4),
    {
        let ghost start = self@;
        let mut i: usize = 0;
        proof {
            self.lemma_view();
            start.lemma_refreshed_none(x as int, y as int);
        }
        while i < 4
            invariant
                i <= 4,
                self.wf(),
                start.well_formed(),
                start.in_grid(x as int, y as int),
                self@ == start.refreshed(x as int, y as int, i as int),
                forall|k: int|
                    0 <= k < 4 ==> #[trigger] availables@[k] == start.available(
                        x as int,
                        y as int,
                        Direction::at(k),
                    ),
                neighbours@ == start.neighbours(x as int, y as int),
            decreases 4 - i,
        {
            let ghost d = Direction::at(i as int);
            proof {
                start.lemma_refreshed_tiles(x as int, y as int, i as int);
                assert(neighbours@[i as int] == start.slot(x as int, y as int, d));
                assert(availables@[i as int] == start.available(x as int, y as int, d));
            }
            if availables[i] && neighbours[i].is_none() {
                proof {
                    self.lemma_view();
                    assert(self@.available(x as int, y as int, d));
                }
                let near = self.neighbour_position(x, y, i);
                let (nx, ny) = near.unwrap();
                let (_, seen) = self.neighbours_info((nx, ny));
                let count = self.valid_variants(seen).len();
                proof {
                    self@.lemma_same_tiles_neighbours(start, nx as int, ny as int);
                    T::all().lemma_filter_len(|v: T| allows(self@.rules, v, seen@));
                    assert(count == start.valid_count(nx as int, ny as int));
                    start.lemma_refreshed_step(x as int, y as int, i as int);
                    self.lemma_view();
                }
                let ghost before = *self;
                self.tiles[ny][nx].1 = count;
                proof {
                    before.lemma_cell_written(*self, nx as int, ny as int);
                }
            } else {
                proof {
                    start.lemma_refreshed_skip(x as int, y as int, i as int);
                }
            }
            i += 1;
        }
    }

    /// Assigns the cell at `pos`, a column and a row: one of the variants
    /// that its decided neighbours permit, picked at random, is written into
    /// it with entropy 0, and the entropy of every undecided cell one step
    /// away is brought up to date. The cell must lie on the grid.
    ///
    /// Fails with [`WaveError::UncollapsibleWave`], and changes nothing,
    /// exactly when some neighbour is decided and no variant is permitted.
    /// Where no neighbour is decided and the tile set has no variant at all,
    /// the cell stays undecided.
    pub fn update_tile(&mut self, pos: (usize, usize), rng: &mut StdRng) -> (res: Result<
        (),
        WaveError,
    >)
        requires
            old(self).wf(),
            old(self)@.in_grid(pos.0 as int, pos.1 as int),
        ensures
            final(self).wf(),
            res is Err <==> old(self)@.stuck(pos.0 as int, pos.1 as int),
            match res {
                Ok(_) => {
                    let choice = final(self)@.tile(pos.0 as int, pos.1 as int);
                    &&& old(self)@.may_choose(pos.0 as int, pos.1 as int, choice)
                    &&& final(self)@ == old(self)@.assigned(pos.0 as int, pos.1 as int, choice)
                },
                Err(e) => e == WaveError::UncollapsibleWave && final(self)@ == old(self)@,
            },
            old(self)@.consistent() ==> final(self)@.consistent(),
            old(self)@.entropy_correct() ==> final(self)@.entropy_correct(),
    {
        let (x, y) = pos;
        let (availables, neighbours) = self.neighbours_info(pos);
        let valid = self.valid_variants(neighbours);
        let choice = match choose_index(valid.len(), rng) {
            Some(k) => Some(valid[k]),
            None => None,
        };
        let informed = neighbours[0].is_some() || neighbours[1].is_some() || neighbours[2].is_some()
            || neighbours[3].is_some();
        if choice.is_none() && informed {
            return Err(WaveError::UncollapsibleWave);
        }
        proof {
            self.lemma_view();
            match choice {
                Some(v) => {
                    let k = choose|k: int| 0 <= k < valid@.len() && valid@[k] == v;
                    T::all().lemma_filter_pred(|v: T| allows(self@.rules, v, neighbours@), k);
                },
                None => {},
            }
        }
        self.tiles[y][x] = (choice, 0);
        proof {
            old(self).lemma_cell_written(*self, x as int, y as int);
            assert(self@.neighbours(x as int, y as int) =~= old(self)@.neighbours(
                x as int,
                y as int,
            ));
        }
        self.refresh_neighbours(x, y, availables, neighbours);
        proof {
            old(self)@.lemma_assigned_cells(x as int, y as int, choice);
            if old(self)@.consistent() {
                old(self)@.lemma_assigned_consistent(x as int, y as int, choice);
            }
            if old(self)@.entropy_correct() {
                old(self)@.lemma_assigned_entropy_correct(x as int, y as int, choice);
            }
        }
        Ok(())
    }

    /// Finds the entropy at which the next cell is picked: the least entropy
    /// in the grid that is not 0, or the number of variants where every
    /// entropy is 0.
    fn lowest_entropy(&self) -> (lowest: usize)
        requires
            self.wf(),
        ensures
            self@.is_lowest_entropy(lowest as nat),
    {
        let mut lowest = self.variants_total;
        let ghost mut found: Option<(int, int)> = None;
        let mut y: usize = 0;
        proof {
            self.lemma_view();
        }
        while y < self.height
            invariant
                y <= self.height,
                self.wf(),
                lowest <= self.variants_total,
                match found {
                    Some(p) => self@.in_grid(p.0, p.1) && self@.entropy(p.0, p.1) == lowest
                        && lowest != 0,
                    None => lowest == self.variants_total,
                },
                forall|i: int, j: int|
                    #![trigger self@.cells[j][i]]
                    0 <= i < self.width && 0 <= j < y && self@.entropy(i, j) != 0 ==> lowest
                        <= self@.entropy(i, j),
            decreases self.height - y,
        {
            let mut x: usize = 0;
            while x < self.width
                invariant
                    x <= self.width,
                    y < self.height,
                    self.wf(),
                    lowest <= self.variants_total,
                    match found {
                        Some(p) => self@.in_grid(p.0, p.1) && self@.entropy(p.0, p.1) == lowest
                            && lowest != 0,
                        None => lowest == self.variants_total,
                    },
                    forall|i: int, j: int|
                        #![trigger self@.cells[j][i]]
                        0 <= i < self.width && 0 <= j < y && self@.entropy(i, j) != 0 ==> lowest
                            <= self@.entropy(i, j),
                    forall|i: int|
                        #![trigger self@.cells[y as int][i]]
                        0 <= i < x && self@.entropy(i, y as int) != 0 ==> lowest <= self@.entropy(
                            i,
                            y as int,
                        ),
                decreases self.width - x,
            {
                proof {
                    self.lemma_view();
                }
                let entropy = self.tiles[y][x].1;
                if entropy != 0 && entropy < lowest {
                    lowest = entropy;
                    proof {
                        found = Some((x as int, y as int));
                    }
                }
                x += 1;
            }
            y += 1;
        }
        proof {
            self.lemma_view();
            if self@.has_open_cell() {
                let (i, j) = choose|i: int, j: int|
                    #![trigger self@.cells[j][i]]
                    self@.in_grid(i, j) && self@.entropy(i, j) != 0;
                assert(self@.cells[j][i].1 != 0);
                assert(lowest <= self@.entropy(i, j));
                if found is None {
                    assert(self@.entropy(i, j) == lowest);
                }
            } else {
                if found is Some {
                    let p = found.unwrap();
                    assert(self@.cells[p.1][p.0].1 != 0);
                }
            }
        }
        lowest
    }

    /// Lists the positions of the cells that have the given entropy, row by
    /// row.
    fn cells_with_entropy(&self, entropy: usize) -> (cells: Vec<(usize, usize)>)
        requires
            self.wf(),
        ensures
            forall|k: int|
                0 <= k < cells@.len() ==> self@.in_grid(
                    (#[trigger] cells@[k]).0 as int,
                    cells@[k].1 as int,
                ) && self@.entropy(cells@[k].0 as int, cells@[k].1 as int) == entropy,
            forall|x: int, y: int|
                #![trigger self@.cells[y][x]]
                self@.in_grid(x, y) && self@.entropy(x, y) == entropy ==> cells@.contains(
                    (x as usize, y as usize),
                ),
    {
        let mut cells: Vec<(usize, usize)> = Vec::new();
        let mut y: usize = 0;
        proof {
            self.lemma_view();
        }
        while y < self.height
            invariant
                y <= self.height,
                self.wf(),
                forall|k: int|
                    0 <= k < cells@.len() ==> self@.in_grid(
                        (#[trigger] cells@[k]).0 as int,
                        cells@[k].1 as int,
                    ) && self@.entropy(cells@[k].0 as int, cells@[k].1 as int) == entropy,
                forall|i: int, j: int|
                    #![trigger self@.cells[j][i]]
                    0 <= i < self.width && 0 <= j < y && self@.entropy(i, j) == entropy
                        ==> cells@.contains((i as usize, j as usize)),
            decreases self.height - y,
        {
            let mut x: usize = 0;
            while x < self.width
                invariant
                    x <= self.width,
                    y < self.height,
                    self.wf(),
                    forall|k: int|
                        0 <= k < cells@.len() ==> self@.in_grid(
                            (#[trigger] cells@[k]).0 as int,
                            cells@[k].1 as int,
                        ) && self@.entropy(cells@[k].0 as int, cells@[k].1 as int) == entropy,
                    forall|i: int, j: int|
                        #![trigger self@.cells[j][i]]
                        0 <= i < self.width && 0 <= j < y && self@.entropy(i, j) == entropy
                            ==> cells@.contains((i as usize, j as usize)),
                    forall|i: int|
                        #![trigger self@.cells[y as int][i]]
                        0 <= i < x && self@.entropy(i, y as int) == entropy ==> cells@.contains(
                            (i as usize, y),
                        ),
                decreases self.width - x,
            {
                proof {
                    self.lemma_view();
                }
                if self.tiles[y][x].1 == entropy {
                    let ghost before = cells@;
                    cells.push((x, y));
                    proof {
                        assert(cells@[before.len() as int] == (x, y));
                        assert forall|p: (usize, usize)| before.contains(p) implies cells@.contains(
                            p,
                        ) by {
                            let k = choose|k: int| 0 <= k < before.len() && before[k] == p;
                            assert(cells@[k] == p);
                        }
                    }
                }
                x += 1;
            }
            y += 1;
        }
        proof {
            self.lemma_view();
        }
        cells
    }

    /// Decides one more cell: picks at random one of the cells whose entropy
    /// is the lowest that is not 0 (or is the number of variants, where every
    /// entropy is 0), and assigns it with [`Wave::update_tile`].
    ///
    /// Fails with [`WaveError::NotFullyCollapsed`], and changes nothing,
    /// where no cell can be picked or the picked cell cannot be assigned.
    /// Where the entropy of the grid is correct, it fails exactly when no
    /// cell can be picked.
    pub fn collapse_next(&mut self, rng: &mut StdRng) -> (res: Result<(), WaveError>)
        requires
            old(self).wf(),
        ensures
            final(self).wf(),
            match res {
                Ok(_) => exists|x: int, y: int|
                    {
                        &&& #[trigger] old(self)@.pickable(x, y)
                        &&& !old(self)@.stuck(x, y)
                        &&& old(self)@.may_choose(x, y, final(self)@.tile(x, y))
                        &&& final(self)@ == old(self)@.assigned(x, y, final(self)@.tile(x, y))
                    },
                Err(e) => e == WaveError::NotFullyCollapsed && final(self)@ == old(self)@,
            },
            !old(self)@.has_pickable() ==> res is Err,
            old(self)@.has_pickable() && old(self)@.entropy_correct() ==> res is Ok,
            final(self)@.continues(old(self)@),
    {
        let lowest = self.lowest_entropy();
        let cells = self.cells_with_entropy(lowest);
        proof {
            self.lemma_view();
            if self@.has_pickable() {
                let (x, y) = choose|x: int, y: int| #[trigger] self@.pickable(x, y);
                self@.lemma_lowest_entropy_unique(lowest as nat, self@.entropy(x, y));
                assert(self@.cells[y][x].1 == lowest);
                assert(cells@.contains((x as usize, y as usize)));
            }
        }
        let pos = match choose_index(cells.len(), rng) {
            Some(k) => cells[k],
            None => {
                return Err(WaveError::NotFullyCollapsed);
            },
        };
        proof {
            assert(self@.pickable(pos.0 as int, pos.1 as int));
            if self@.entropy_correct() {
                self@.lemma_pickable_not_stuck(pos.0 as int, pos.1 as int);
            }
        }
        match self.update_tile(pos, rng) {
            Ok(_) => {
                proof {
                    old(self)@.lemma_advanced_step(
                        old(self)@,
                        0,
                        pos.0 as int,
                        pos.1 as int,
                        self@.tile(pos.0 as int, pos.1 as int),
                    );
                }
                Ok(())
            },
            Err(_) => Err(WaveError::NotFullyCollapsed),
        }
    }

    /// Collapses the wave: decides one more cell with
    /// [`Wave::collapse_next`] as many times as there are cells, and stops
    /// with [`WaveError::NotFullyCollapsed`] as soon as that fails; what was
    /// decided until then stays.
    ///
    /// With at least one variant to assign, the run succeeds exactly when it
    /// began without a decided cell and ends with every cell decided. Each
    /// two decided cells one step apart are then covered by a rule read from
    /// one of them, and by the rule read from either where every rule comes
    /// with its mirror image. A run that began
    /// with correct entropy fails only at a dead end, where every entropy is
    /// 0. A run on one single blank cell always succeeds; a run without any
    /// rule on more than one cell never does.
    pub fn collapse(&mut self, rng: &mut StdRng) -> (res: Result<(), WaveError>)
        requires
            old(self).wf(),
        ensures
            final(self).wf(),
            final(self)@.continues(old(self)@),
            res matches Err(e) ==> e == WaveError::NotFullyCollapsed,
            T::all().len() > 0 ==> (res is Ok <==> final(self)@.fully_collapsed() && old(
                self,
            )@.collapsed().is_empty()),
            T::all().len() == 0 ==> res is Ok,
            res is Ok ==> final(self)@.consistent(),
            res is Ok && old(self)@.symmetric_rules() ==> final(self)@.locally_consistent(),
            res is Err && old(self)@.entropy_correct() ==> !final(self)@.has_open_cell(),
            T::all().len() > 0 && old(self)@ == WaveView::<T>::blank(1, 1, old(self)@.rules)
                ==> res is Ok,
            T::all().len() > 0 && old(self)@.rules.is_empty() && (old(self)@.width > 1 || old(
                self,
            )@.height > 1) ==> res is Err,
    {
        assert(self.width * self.height <= u128::MAX) by (nonlinear_arith)
            requires
                self.width <= u64::MAX,
                self.height <= u64::MAX,
        ;
        let total: u128 = (self.width as u128) * (self.height as u128);
        let mut collapsed: u128 = 0;
        proof {
            self.lemma_view();
            self@.lemma_collapsed_bounded();
        }
        while collapsed < total
            invariant
                self.wf(),
                old(self).wf(),
                total == old(self)@.width * old(self)@.height,
                collapsed <= total,
                self@.advanced(old(self)@, collapsed as nat),
                T::all().len() > 0 && old(self)@ == WaveView::<T>::blank(1, 1, old(self)@.rules)
                    && collapsed == 0 ==> self@ == old(self)@,
            decreases total - collapsed,
        {
            let ghost before = self@;
            proof {
                old(self).lemma_view();
                before.lemma_has_pickable();
                if T::all().len() > 0 {
                    before.lemma_advanced_outcome(old(self)@, collapsed as nat);
                    if before == WaveView::<T>::blank(1, 1, before.rules) {
                        WaveView::<T>::lemma_blank(1, 1, before.rules);
                        assert(before.cells[0][0].1 != 0);
                    }
                }
            }
            match self.collapse_next(rng) {
                Ok(_) => {},
                Err(e) => {
                    return Err(e);
                },
            }
            proof {
                let (x, y) = choose|x: int, y: int|
                    {
                        &&& #[trigger] before.pickable(x, y)
                        &&& !before.stuck(x, y)
                        &&& before.may_choose(x, y, self@.tile(x, y))
                        &&& self@ == before.assigned(x, y, self@.tile(x, y))
                    };
                before.lemma_advanced_step(
                    old(self)@,
                    collapsed as nat,
                    x,
                    y,
                    self@.tile(x, y),
                );
            }
            collapsed += 1;
        }
        proof {
            old(self).lemma_view();
            if T::all().len() > 0 {
                self@.lemma_advanced_outcome(old(self)@, collapsed as nat);
                if self@.rules.is_empty() && (self@.width > 1 || self@.height > 1) {
                    self@.lemma_no_rules_no_solution();
                }
            } else {
                self@.lemma_no_variants();
                self@.lemma_undecided_consistent();
            }
            if self@.symmetric_rules() {
                self@.lemma_symmetric_consistent();
            }
        }
        Ok(())
    }

    /// How the model reads the fields.
    proof fn lemma_view(&self)
        requires
            self.wf(),
        ensures
            self@.well_formed(),
            self@.width == self.width,
            self@.height == self.height,
            self@.rules == rules_of::<T>(self.rules@),
            forall|x: int, y: int|
                0 <= x < self.width && 0 <= y < self.height ==> {
                    &&& self@.tile(x, y) == (#[trigger] self.tiles@[y]@[x]).0
                    &&& self@.entropy(x, y) == self.tiles@[y]@[x].1
                },
    {
        let view = self@;
        assert forall|y: int| 0 <= y < view.height implies (#[trigger] view.cells[y]).len()
            == view.width by {
            assert(self.tiles@[y]@.len() == self.width);
        }
        assert forall|x: int, y: int| #![trigger view.cells[y][x]] view.in_grid(x, y) implies {
            &&& view.entropy(x, y) <= T::all().len()
            &&& view.tile(x, y) is Some ==> view.entropy(x, y) == 0
        } by {
            assert(self.tiles@[y]@.len() == self.width);
            assert(view.cells[y][x] == (self.tiles@[y]@[x].0, self.tiles@[y]@[x].1 as nat));
        }
        assert forall|x: int, y: int| 0 <= x < self.width && 0 <= y < self.height implies {
            &&& self@.tile(x, y) == (#[trigger] self.tiles@[y]@[x]).0
            &&& self@.entropy(x, y) == self.tiles@[y]@[x].1
        } by {
            assert(self.tiles@[y]@.len() == self.width);
        }
    }

    /// What writing one cell does to the model.
    proof fn lemma_cell_written(&self, after: Self, x: int, y: int)
        requires
            self.wf(),
            self@.in_grid(x, y),
            after.width == self.width,
            after.height == self.height,
            after.variants_total == self.variants_total,
            after.rules == self.rules,
            after.tiles@.len() == self.tiles@.len(),
            forall|j: int|
                0 <= j < self.height && j != y ==> #[trigger] after.tiles@[j] == self.tiles@[j],
            after.tiles@[y]@.len() == self.width,
            forall|i: int|
                0 <= i < self.width && i != x ==> #[trigger] after.tiles@[y]@[i]
                    == self.tiles@[y]@[i],
            after.tiles@[y]@[x].1 <= self.variants_total,
            after.tiles@[y]@[x].0 is Some ==> after.tiles@[y]@[x].1 == 0,
        ensures
            after.wf(),
            after@ == self@.with_cell(x, y, (after.tiles@[y]@[x].0, after.tiles@[y]@[x].1 as nat)),
    {
        self.lemma_view();
        assert(after.wf()) by {
            assert forall|j: int| 0 <= j < after.height implies (#[trigger] after.tiles@[j])@.len()
                == after.width by {
                if j != y {
                    assert(after.tiles@[j] == self.tiles@[j]);
                }
            }
            assert forall|i: int, j: int| 0 <= i < after.width && 0 <= j < after.height implies {
                &&& (#[trigger] after.tiles@[j]@[i]).1 <= after.variants_total
                &&& after.tiles@[j]@[i].0 is Some ==> after.tiles@[j]@[i].1 == 0
            } by {
                if j != y {
                    assert(after.tiles@[j] == self.tiles@[j]);
                    assert(self.tiles@[j]@[i].1 <= self.variants_total);
                } else if i != x {
                    assert(after.tiles@[y]@[i] == self.tiles@[y]@[i]);
                    assert(self.tiles@[j]@[i].1 <= self.variants_total);
                }
            }
        }
        after.lemma_view();
        let target = self@.with_cell(
            x,
            y,
            (after.tiles@[y]@[x].0, after.tiles@[y]@[x].1 as nat),
        );
        assert forall|j: int| 0 <= j < self.height implies #[trigger] after@.cells[j]
            == target.cells[j] by {
            assert(self.tiles@[j]@.len() == self.width);
            assert(after.tiles@[j]@.len() == self.width);
            assert forall|i: int| 0 <= i < self.width implies #[trigger] after@.cells[j][i]
                == target.cells[j][i] by {
                if j != y {
                    assert(after.tiles@[j] == self.tiles@[j]);
                } else if i != x {
                    assert(after.tiles@[y]@[i] == self.tiles@[y]@[i]);
                }
            }
            assert(after@.cells[j] =~= target.cells[j]);
        }
        assert(after@.cells =~= target.cells);
    }
}

impl<T: Tile> Clone for Wave<T> {
    /// Copies the wave: the copy has the same grid and the same rules, and
    /// what is done to it later leaves the wave it was copied from alone.
    fn clone(&self) -> (copy: Self)
        ensures
            copy@ == self@,
            self.wf() ==> copy.wf(),
    {
        let mut tiles: Vec<Vec<(Option<T>, usize)>> = Vec::new();
        let mut y: usize = 0;
        while y < self.tiles.len()
            invariant
                y <= self.tiles@.len(),
                tiles@.len() == y,
                forall|j: int| 0 <= j < y ==> (#[trigger] tiles@[j])@ == self.tiles@[j]@,
            decreases self.tiles@.len() - y,
        {
            let mut row: Vec<(Option<T>, usize)> = Vec::new();
            let mut x: usize = 0;
            while x < self.tiles[y].len()
                invariant
                    y < self.tiles@.len(),
                    x <= self.tiles@[y as int]@.len(),
                    row@.len() == x,
                    forall|i: int| 0 <= i < x ==> (#[trigger] row@[i]) == self.tiles@[y as int]@[i],
                decreases self.tiles@[y as int]@.len() - x,
            {
                row.push(self.tiles[y][x]);
                x += 1;
            }
            assert(row@ =~= self.tiles@[y as int]@);
            tiles.push(row);
            y += 1;
        }
        let copy = Wave {
            width: self.width,
            height: self.height,
            tiles,
            variants_total: self.variants_total,
            rules: self.rules.clone(),
        };
        proof {
            assert(copy@ =~~= self@);
        }
        copy
    }
}

impl<T: Tile + Glyph> Wave<T> {
    /// Draws the grid as text: one line for each row from the top, in it the
    /// glyph of each decided cell and `X` for each undecided one.
    pub fn render(&self) -> (text: String)
        requires
            self.wf(),
        ensures
            text@ == self@.text(),
    {
        let mut text = String::new();
        let mut y: usize = 0;
        proof {
            self.lemma_view();
        }
        while y < self.height
            invariant
                y <= self.height,
                self.wf(),
                text@ == self@.rows_text(y as nat),
            decreases self.height - y,
        {
            let ghost above = text@;
            let mut x: usize = 0;
            while x < self.width
                invariant
                    x <= self.width,
                    y < self.height,
                    self.wf(),
                    text@ == above + Seq::new(
                        x as nat,
                        |i: int| cell_glyph(self@.tile(i, y as int)),
                    ),
                decreases self.width - x,
            {
                proof {
                    self.lemma_view();
                }
                let glyph = match self.tiles[y][x].0 {
                    Some(v) => v.glyph(),
                    None => 'X',
                };
                text.push(glyph);
                proof {
                    assert(text@ =~= above + Seq::new(
                        (x + 1) as nat,
                        |i: int| cell_glyph(self@.tile(i, y as int)),
                    ));
                }
                x += 1;
            }
            text.push('\n');
            proof {
                self.lemma_view();
                assert(text@ =~= above + self@.row_text(y as int));
            }
            y += 1;
        }
        proof {
            self.lemma_view();
        }
        text
    }
}

} // verus!
