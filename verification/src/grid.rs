//! The simulation state: a rectangular array of cells, advanced one
//! generation at a time under the rule of [`crate::life`].

use crate::life::{alive_at, live_neighbors, next_state};
use crate::object::Object;
use vstd::prelude::*;

verus! {

/// One cell of the grid: alive or dead. Its position is given by where it
/// sits in the grid's backing array.
#[derive(Clone, Copy, Debug, PartialEq, Eq, Structural)]
pub struct Cell {
    pub alive: bool,
}

/// A `width` by `height` field of cells, indexed `cells[x][y]` with
/// `0 <= x < width` and `0 <= y < height`. The dimensions never change
/// after construction.
pub struct Grid {
    pub width: usize,
    pub height: usize,
    pub cells: Vec<Vec<Cell>>,
}

impl View for Grid {
    type V = Seq<Seq<bool>>;

    /// The abstract state: column `x`, row `y`, `true` for a live cell.
    open spec fn view(&self) -> Seq<Seq<bool>> {
        Seq::new(
            self.width as nat,
            |x: int| Seq::new(self.height as nat, |y: int| self.cells@[x]@[y].alive),
        )
    }
}

impl Grid {
    /// The backing array really is `width` columns of `height` cells each.
    pub open spec fn wf(self) -> bool {
        &&& self.cells@.len() == self.width
        &&& forall|x: int| 0 <= x < self.width ==> (#[trigger] self.cells@[x])@.len() == self.height
    }

    /// A grid of the given dimensions with every cell dead.
    pub fn new(width: usize, height: usize) -> (g: Grid)
        ensures
            g.wf(),
            g.width == width,
            g.height == height,
            forall|x: int, y: int| 0 <= x < width && 0 <= y < height ==> !(#[trigger] g@[x][y]),
    {
        let mut cells: Vec<Vec<Cell>> = Vec::new();
        let mut x: usize = 0;
        while x < width
            invariant
                x <= width,
                cells@.len() == x,
                forall|xi: int| 0 <= xi < x ==> (#[trigger] cells@[xi])@.len() == height,
                forall|xi: int, yi: int|
                    0 <= xi < x && 0 <= yi < height ==> !(#[trigger] cells@[xi]@[yi]).alive,
            decreases width - x,
        {
            let mut col: Vec<Cell> = Vec::new();
            let mut y: usize = 0;
            while y < height
                invariant
                    y <= height,
                    col@.len() == y,
                    forall|yi: int| 0 <= yi < y ==> !(#[trigger] col@[yi]).alive,
                decreases height - y,
            {
                col.push(Cell { alive: false });
                y += 1;
            }
            cells.push(col);
            x += 1;
        }
        Grid { width, height, cells }
    }

    /// Whether the cell at `(x, y)` is alive. Reading mutates nothing: the
    /// result is a function of the grid state alone, so repeated reads
    /// between mutations return the same value.
    pub fn is_alive(&self, x: usize, y: usize) -> (r: bool)
        requires
            self.wf(),
            x < self.width,
            y < self.height,
        ensures
            r == self@[x as int][y as int],
    {
        self.cells[x][y].alive
    }

    /// 1 if `(x, y)` is in bounds and alive, 0 otherwise.
    fn cell_live(&self, x: usize, y: usize) -> (r: u8)
        requires
            self.wf(),
            x < self.width,
            y < self.height,
        ensures
            r as int == alive_at(self@, x as int, y as int),
    {
        if self.cells[x][y].alive {
            1
        } else {
            0
        }
    }

    /// The number of live cells among the up-to-eight neighbors of
    /// `(x, y)`. Neighbors outside the grid do not exist and do not count.
    fn neighbor_count(&self, x: usize, y: usize) -> (n: u8)
        requires
            self.wf(),
            x < self.width,
            y < self.height,
        ensures
            n as int == live_neighbors(self@, x as int, y as int),
    {
        let mut n: u8 = 0;
        if x > 0 && y > 0 {
            n += self.cell_live(x - 1, y - 1);
        }
        if y > 0 {
            n += self.cell_live(x, y - 1);
        }
        if x + 1 < self.width && y > 0 {
            n += self.cell_live(x + 1, y - 1);
        }
        if x > 0 {
            n += self.cell_live(x - 1, y);
        }
        if x + 1 < self.width {
            n += self.cell_live(x + 1, y);
        }
        if x > 0 && y + 1 < self.height {
            n += self.cell_live(x - 1, y + 1);
        }
        if y + 1 < self.height {
            n += self.cell_live(x, y + 1);
        }
        if x + 1 < self.width && y + 1 < self.height {
            n += self.cell_live(x + 1, y + 1);
        }
        n
    }

    /// Set every cell covered by the object, translated to the anchor, to
    /// alive. Cells the object does not cover keep their state (loading is
    /// additive), and translated coordinates that fall outside the grid are
    /// silently skipped, never an error.
    pub fn load_object(&mut self, obj: &Object, anchor: (i32, i32))
        requires
            old(self).wf(),
        ensures
            final(self).wf(),
            final(self).width == old(self).width,
            final(self).height == old(self).height,
            forall|x: int, y: int|
                0 <= x < old(self).width && 0 <= y < old(self).height
                    ==> #[trigger] final(self)@[x][y] == (old(self)@[x][y]
                        || obj.covers(anchor.0 as int, anchor.1 as int, x, y)),
    {
        let ax = anchor.0;
        let ay = anchor.1;
        let mut k: usize = 0;
        while k < obj.offsets.len()
            invariant
                self.wf(),
                self.width == old(self).width,
                self.height == old(self).height,
                k <= obj.offsets@.len(),
                forall|x: int, y: int|
                    0 <= x < self.width && 0 <= y < self.height ==> #[trigger] self@[x][y] == (old(
                        self,
                    )@[x][y] || obj.covers_among(k as int, ax as int, ay as int, x, y)),
            decreases obj.offsets@.len() - k,
        {
            let ghost prev = *self;
            let (dx, dy) = obj.offsets[k];
            let gx: i64 = ax as i64 + dx as i64;
            let gy: i64 = ay as i64 + dy as i64;
            let in_bounds = gx >= 0 && gy >= 0 && (gx as u64) < (self.width as u64) && (gy
                as u64) < (self.height as u64);
            if in_bounds {
                let ux: usize = gx as usize;
                let uy: usize = gy as usize;
                self.cells[ux][uy] = Cell { alive: true };
            }
            proof {
                let axi = ax as int;
                let ayi = ay as int;
                let tx = axi + obj.offsets@[k as int].0;
                let ty = ayi + obj.offsets@[k as int].1;
                assert(gx as int == tx && gy as int == ty);
                assert forall|x: int, y: int|
                    0 <= x < self.width && 0 <= y < self.height implies #[trigger] self@[x][y] == (
                old(self)@[x][y] || obj.covers_among(k as int + 1, axi, ayi, x, y)) by {
                    assert(prev@[x][y] == (old(self)@[x][y] || obj.covers_among(
                        k as int,
                        axi,
                        ayi,
                        x,
                        y,
                    )));
                    assert(obj.covers_among(k as int + 1, axi, ayi, x, y) == ((tx == x && ty == y)
                        || obj.covers_among(k as int, axi, ayi, x, y)));
                    if in_bounds {
                        if x == tx && y == ty {
                            assert(self.cells@[x]@[y].alive);
                        } else {
                            assert(self.cells@[x]@[y] == prev.cells@[x]@[y]);
                        }
                    } else {
                        assert(tx < 0 || ty < 0 || tx >= self.width || ty >= self.height);
                    }
                }
            }
            k += 1;
        }
    }

    /// Replace the grid state with the next generation: every cell's new
    /// state follows the birth/survival rule applied to the previous
    /// generation, so no cell's update can observe another cell's already-
    /// updated state.
    pub fn advance(&mut self)
        requires
            old(self).wf(),
        ensures
            final(self).wf(),
            final(self).width == old(self).width,
            final(self).height == old(self).height,
            forall|x: int, y: int|
                0 <= x < old(self).width && 0 <= y < old(self).height
                    ==> #[trigger] final(self)@[x][y] == next_state(old(self)@, x, y),
    {
        let width = self.width;
        let height = self.height;
        let mut next: Vec<Vec<Cell>> = Vec::new();
        let mut x: usize = 0;
        while x < width
            invariant
                *self == *old(self),
                self.wf(),
                width == self.width,
                height == self.height,
                x <= width,
                next@.len() == x,
                forall|xi: int| 0 <= xi < x ==> (#[trigger] next@[xi])@.len() == height,
                forall|xi: int, yi: int|
                    0 <= xi < x && 0 <= yi < height ==> (#[trigger] next@[xi]@[yi]).alive
                        == next_state(self@, xi, yi),
            decreases width - x,
        {
            let mut col: Vec<Cell> = Vec::new();
            let mut y: usize = 0;
            while y < height
                invariant
                    *self == *old(self),
                    self.wf(),
                    width == self.width,
                    height == self.height,
                    x < width,
                    y <= height,
                    col@.len() == y,
                    forall|yi: int|
                        0 <= yi < y ==> (#[trigger] col@[yi]).alive == next_state(
                            self@,
                            x as int,
                            yi,
                        ),
                decreases height - y,
            {
                let n = self.neighbor_count(x, y);
                let was_alive = self.cells[x][y].alive;
                let now_alive = if was_alive {
                    n == 2 || n == 3
                } else {
                    n == 3
                };
                col.push(Cell { alive: now_alive });
                y += 1;
            }
            next.push(col);
            x += 1;
        }
        self.cells = next;
    }
}

} // verus!
