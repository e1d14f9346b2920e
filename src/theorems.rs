//! Facts about the rule of life and the grid operations, proved over the
//! models that the operations' contracts use.
use vstd::prelude::*;
use crate::grid::{
    classification, in_grid, index_of, lemma_coords, lemma_index, live_at, live_neighbors,
    next_generation, survives, toggled, Grid,
};

verus! {

/// The 2x2 block whose top-left cell is `(bx, by)`, alone on the grid.
pub open spec fn block(size: int, bx: int, by: int) -> Seq<bool> {
    Seq::new(
        (size * size) as nat,
        |i: int| bx <= i % size <= bx + 1 && by <= i / size <= by + 1,
    )
}

/// `cells` after `k` generation advances.
pub open spec fn generations(cells: Seq<bool>, size: int, k: nat) -> Seq<bool>
    decreases k,
{
    if k == 0 {
        cells
    } else {
        next_generation(generations(cells, size, (k - 1) as nat), size)
    }
}

/// Flipping the same cell twice gives back the cells one started with.
pub proof fn toggle_twice_restores(cells: Seq<bool>, size: int, x: int, y: int)
    requires
        cells.len() == size * size,
        in_grid(size, x, y),
    ensures
        toggled(toggled(cells, size, x, y), size, x, y) == cells,
{
    lemma_index(size, x, y);
    assert(toggled(toggled(cells, size, x, y), size, x, y) =~= cells);
}

/// A live cell with no live cell around it, on the grid's edge or not,
/// counts no neighbors: positions off the grid never count.
pub proof fn lone_cell_has_no_neighbors(cells: Seq<bool>, size: int, x: int, y: int)
    requires
        cells.len() == size * size,
        in_grid(size, x, y),
        forall|j: int| 0 <= j < cells.len() && j != index_of(size, x, y) ==> !cells[j],
    ensures
        live_neighbors(cells, size, x, y) == 0,
{
    lemma_index(size, x, y);
    lemma_not_live_elsewhere(cells, size, x, y, x - 1, y - 1);
    lemma_not_live_elsewhere(cells, size, x, y, x, y - 1);
    lemma_not_live_elsewhere(cells, size, x, y, x + 1, y - 1);
    lemma_not_live_elsewhere(cells, size, x, y, x - 1, y);
    lemma_not_live_elsewhere(cells, size, x, y, x + 1, y);
    lemma_not_live_elsewhere(cells, size, x, y, x - 1, y + 1);
    lemma_not_live_elsewhere(cells, size, x, y, x, y + 1);
    lemma_not_live_elsewhere(cells, size, x, y, x + 1, y + 1);
}

proof fn lemma_not_live_elsewhere(cells: Seq<bool>, size: int, x: int, y: int, u: int, v: int)
    requires
        cells.len() == size * size,
        in_grid(size, x, y),
        forall|j: int| 0 <= j < cells.len() && j != index_of(size, x, y) ==> !cells[j],
        u != x || v != y,
    ensures
        !live_at(cells, size, u, v),
{
    if in_grid(size, u, v) {
        lemma_index(size, x, y);
        lemma_index(size, u, v);
    }
}

/// A cell with no live neighbor is dead in the next generation, whatever
/// its own state.
pub proof fn isolated_cell_dies(cells: Seq<bool>, size: int, x: int, y: int)
    requires
        cells.len() == size * size,
        in_grid(size, x, y),
        live_neighbors(cells, size, x, y) == 0,
    ensures
        !next_generation(cells, size)[index_of(size, x, y)],
{
    lemma_index(size, x, y);
}

proof fn lemma_block_live_at(size: int, bx: int, by: int, u: int, v: int)
    requires
        0 <= bx,
        bx + 1 < size,
        0 <= by,
        by + 1 < size,
    ensures
        live_at(block(size, bx, by), size, u, v) == (bx <= u <= bx + 1 && by <= v <= by + 1),
{
    if in_grid(size, u, v) {
        lemma_index(size, u, v);
    }
}

/// A 2x2 block alone on the grid, anywhere on it, is a still life: one
/// generation advance leaves it as it is.
pub proof fn block_is_still(size: int, bx: int, by: int)
    requires
        0 <= bx,
        bx + 1 < size,
        0 <= by,
        by + 1 < size,
    ensures
        next_generation(block(size, bx, by), size) == block(size, bx, by),
{
    let b = block(size, bx, by);
    assert forall|i: int| 0 <= i < b.len() implies next_generation(b, size)[i] == b[i] by {
        lemma_coords(size, i);
        let x = i % size;
        let y = i / size;
        lemma_block_live_at(size, bx, by, x - 1, y - 1);
        lemma_block_live_at(size, bx, by, x, y - 1);
        lemma_block_live_at(size, bx, by, x + 1, y - 1);
        lemma_block_live_at(size, bx, by, x - 1, y);
        lemma_block_live_at(size, bx, by, x + 1, y);
        lemma_block_live_at(size, bx, by, x - 1, y + 1);
        lemma_block_live_at(size, bx, by, x, y + 1);
        lemma_block_live_at(size, bx, by, x + 1, y + 1);
    }
    assert(next_generation(b, size) =~= b);
}

/// A 2x2 block alone on the grid stays as it is through any number of
/// generation advances.
pub proof fn block_is_still_forever(size: int, bx: int, by: int, k: nat)
    requires
        0 <= bx,
        bx + 1 < size,
        0 <= by,
        by + 1 < size,
    ensures
        generations(block(size, bx, by), size, k) == block(size, bx, by),
    decreases k,
{
    if k > 0 {
        block_is_still_forever(size, bx, by, (k - 1) as nat);
        block_is_still(size, bx, by);
    }
}

/// After a generation advance from `before` to `after`, each cell is
/// classified by its state before the advance and the state the rule of life
/// gives it.
pub proof fn classify_after_step(before: Grid, after: Grid, x: int, y: int)
    requires
        before.wf(),
        after@.size == before@.size,
        after@.previous == before@.cells,
        after@.cells == next_generation(before@.cells, before@.size),
        in_grid(before@.size, x, y),
    ensures
        ({
            let i = index_of(before@.size, x, y);
            classification(after@.previous[i], after@.cells[i]) == classification(
                before@.cells[i],
                survives(before@.cells[i], live_neighbors(before@.cells, before@.size, x, y)),
            )
        }),
{
    lemma_index(before@.size, x, y);
}

} // verus!
