//! Counting the positions of a grid.

use vstd::prelude::*;
use vstd::set_lib::lemma_set_disjoint_lens;

verus! {

/// The positions of one row: the columns below `width`, in row `y`.
pub open spec fn row_positions(width: nat, y: int) -> Set<(int, int)> {
    Set::new(|p: (int, int)| 0 <= p.0 < width && p.1 == y)
}

/// The positions of a grid: a column below `width` and a row below `height`.
pub open spec fn grid_positions(width: nat, height: nat) -> Set<(int, int)> {
    Set::new(|p: (int, int)| 0 <= p.0 < width && 0 <= p.1 < height)
}

/// A row has as many positions as it has columns.
pub proof fn lemma_row_positions(width: nat, y: int)
    ensures
        row_positions(width, y).finite(),
        row_positions(width, y).len() == width,
    decreases width,
{
    if width == 0 {
        assert(row_positions(width, y) =~= Set::empty());
    } else {
        lemma_row_positions((width - 1) as nat, y);
        assert(row_positions(width, y) =~= row_positions((width - 1) as nat, y).insert(
            (width - 1, y),
        ));
    }
}

/// A grid has as many positions as columns times rows.
pub proof fn lemma_grid_positions(width: nat, height: nat)
    ensures
        grid_positions(width, height).finite(),
        grid_positions(width, height).len() == width * height,
    decreases height,
{
    if height == 0 {
        assert(grid_positions(width, height) =~= Set::empty());
        assert(width * height == 0) by (nonlinear_arith)
            requires
                height == 0,
        ;
    } else {
        let above = grid_positions(width, (height - 1) as nat);
        let last = row_positions(width, height - 1);
        lemma_grid_positions(width, (height - 1) as nat);
        lemma_row_positions(width, height - 1);
        assert(grid_positions(width, height) =~= above + last);
        assert(above.disjoint(last));
        lemma_set_disjoint_lens(above, last);
        assert(width * height == width * (height - 1) + width) by (nonlinear_arith);
    }
}

} // verus!
