//! The automaton rule, stated over a mathematical picture of a grid.
//!
//! A grid state is a `Seq<Seq<bool>>` indexed `[x][y]`, `true` for a live
//! cell. The rule is local: the next state of a cell depends only on its own
//! state and on the number of live cells among its up-to-eight immediate
//! neighbors. Coordinates outside the grid hold no cells and never count
//! toward a neighbor total (the grid does not wrap around).

use vstd::prelude::*;

verus! {

/// The grid state `g` is a `w` by `h` rectangle: `w` columns, each of
/// exactly `h` cells.
pub open spec fn dims_ok(g: Seq<Seq<bool>>, w: int, h: int) -> bool {
    &&& g.len() == w
    &&& forall|x: int| 0 <= x < w ==> (#[trigger] g[x]).len() == h
}

/// 1 if `(x, y)` is in bounds and alive, 0 otherwise. Out-of-range
/// coordinates contribute nothing: edges do not wrap.
pub open spec fn alive_at(g: Seq<Seq<bool>>, x: int, y: int) -> int {
    if 0 <= x < g.len() && 0 <= y < g[x].len() && g[x][y] {
        1
    } else {
        0
    }
}

/// The number of live cells among the up-to-eight immediate neighbors of
/// `(x, y)`: horizontal, vertical and diagonal, the cell itself excluded.
pub open spec fn live_neighbors(g: Seq<Seq<bool>>, x: int, y: int) -> int {
    alive_at(g, x - 1, y - 1) + alive_at(g, x, y - 1) + alive_at(g, x + 1, y - 1)
        + alive_at(g, x - 1, y) + alive_at(g, x + 1, y)
        + alive_at(g, x - 1, y + 1) + alive_at(g, x, y + 1) + alive_at(g, x + 1, y + 1)
}

/// The state of cell `(x, y)` in the next generation: a live cell survives
/// on exactly 2 or 3 live neighbors, a dead cell is born on exactly 3.
pub open spec fn next_state(g: Seq<Seq<bool>>, x: int, y: int) -> bool {
    let n = live_neighbors(g, x, y);
    if g[x][y] {
        n == 2 || n == 3
    } else {
        n == 3
    }
}

/// Underpopulation: a live cell with no live neighbors is dead in the next
/// generation.
pub proof fn lemma_isolated_cell_dies(g: Seq<Seq<bool>>, x: int, y: int)
    requires
        0 <= x < g.len(),
        0 <= y < g[x].len(),
        g[x][y],
        live_neighbors(g, x, y) == 0,
    ensures
        !next_state(g, x, y),
{
}

/// Overpopulation: a live cell with four or more live neighbors is dead in
/// the next generation.
pub proof fn lemma_overpopulated_cell_dies(g: Seq<Seq<bool>>, x: int, y: int)
    requires
        0 <= x < g.len(),
        0 <= y < g[x].len(),
        g[x][y],
        live_neighbors(g, x, y) >= 4,
    ensures
        !next_state(g, x, y),
{
}

/// Birth: a dead cell with exactly three live neighbors is alive in the
/// next generation.
pub proof fn lemma_birth(g: Seq<Seq<bool>>, x: int, y: int)
    requires
        0 <= x < g.len(),
        0 <= y < g[x].len(),
        !g[x][y],
        live_neighbors(g, x, y) == 3,
    ensures
        next_state(g, x, y),
{
}

/// The live cells of `g` are exactly the four cells of a 2-by-2 block whose
/// lower corner sits at `(ax, ay)`.
pub open spec fn block_cells_only(g: Seq<Seq<bool>>, w: int, h: int, ax: int, ay: int) -> bool {
    forall|x: int, y: int|
        0 <= x < w && 0 <= y < h ==> ((#[trigger] g[x][y]) <==> (ax <= x <= ax + 1 && ay <= y
            <= ay + 1))
}

proof fn lemma_alive_at_block(g: Seq<Seq<bool>>, w: int, h: int, ax: int, ay: int, u: int, v: int)
    requires
        dims_ok(g, w, h),
        0 <= ax && ax + 1 < w,
        0 <= ay && ay + 1 < h,
        block_cells_only(g, w, h, ax, ay),
    ensures
        alive_at(g, u, v) == if ax <= u <= ax + 1 && ay <= v <= ay + 1 {
            1int
        } else {
            0int
        },
{
    if 0 <= u < w && 0 <= v < h {
        assert(g[u][v] <==> (ax <= u <= ax + 1 && ay <= v <= ay + 1));
    }
}

/// Still life: a grid whose live cells are exactly a 2-by-2 block, placed
/// wholly in bounds, is unchanged by one generation step; since the state
/// is unchanged, it is unchanged by any number of steps.
pub proof fn lemma_block_still_life(g: Seq<Seq<bool>>, w: int, h: int, ax: int, ay: int)
    requires
        dims_ok(g, w, h),
        0 <= ax && ax + 1 < w,
        0 <= ay && ay + 1 < h,
        block_cells_only(g, w, h, ax, ay),
    ensures
        forall|x: int, y: int| 0 <= x < w && 0 <= y < h ==> #[trigger] next_state(g, x, y) == g[x][y],
{
    assert forall|x: int, y: int| 0 <= x < w && 0 <= y < h implies #[trigger] next_state(g, x, y)
        == g[x][y] by {
        lemma_alive_at_block(g, w, h, ax, ay, x - 1, y - 1);
        lemma_alive_at_block(g, w, h, ax, ay, x, y - 1);
        lemma_alive_at_block(g, w, h, ax, ay, x + 1, y - 1);
        lemma_alive_at_block(g, w, h, ax, ay, x - 1, y);
        lemma_alive_at_block(g, w, h, ax, ay, x + 1, y);
        lemma_alive_at_block(g, w, h, ax, ay, x - 1, y + 1);
        lemma_alive_at_block(g, w, h, ax, ay, x, y + 1);
        lemma_alive_at_block(g, w, h, ax, ay, x + 1, y + 1);
        assert(g[x][y] <==> (ax <= x <= ax + 1 && ay <= y <= ay + 1));
    }
}

} // verus!
