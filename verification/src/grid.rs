//! The 3×3×3 occupancy grid and the cursor position on it.

use vstd::prelude::*;

verus! {

/// A cursor position: one coordinate per axis, each in `0..3` when valid.
pub type Pos = (usize, usize, usize);

/// The mathematical value of a position.
pub open spec fn pos_view(p: Pos) -> (int, int, int) {
    (p.0 as int, p.1 as int, p.2 as int)
}

/// The cell `c` lies inside the grid.
pub open spec fn in_bounds(c: (int, int, int)) -> bool {
    0 <= c.0 < 3 && 0 <= c.1 < 3 && 0 <= c.2 < 3
}

/// The index of cell `c` in the flat 27-cell occupancy sequence.
pub open spec fn cell_index(c: (int, int, int)) -> int {
    c.0 * 9 + c.1 * 3 + c.2
}

/// The occupancy of the empty grid: all 27 cells free.
pub open spec fn empty_grid() -> Seq<bool> {
    Seq::new(27, |i: int| false)
}

/// The index of every in-bounds cell lies in `0..27`.
pub proof fn lemma_cell_index_bounds(c: (int, int, int))
    requires
        in_bounds(c),
    ensures
        0 <= cell_index(c) < 27,
{
}

/// The 3×3×3 occupancy grid. Its view is the flat sequence of 27 cells,
/// cell `(x, y, z)` at index `x*9 + y*3 + z`; `true` means occupied.
pub struct Grid {
    cells: Vec<bool>,
}

impl View for Grid {
    type V = Seq<bool>;

    closed spec fn view(&self) -> Seq<bool> {
        self.cells@
    }
}

impl Grid {
    /// The grid holds exactly its 27 cells.
    pub open spec fn wf(self) -> bool {
        self@.len() == 27
    }

    /// The cell `c` is occupied.
    pub open spec fn occupied(self, c: (int, int, int)) -> bool {
        self@[cell_index(c)]
    }

    /// A fresh grid with every cell free.
    pub fn new() -> (g: Grid)
        ensures
            g.wf(),
            g@ == empty_grid(),
    {
        let mut cells: Vec<bool> = Vec::new();
        let mut i: usize = 0;
        while i < 27
            invariant
                i <= 27,
                cells@.len() == i,
                forall|j: int| 0 <= j < i ==> !cells@[j],
            decreases 27 - i,
        {
            cells.push(false);
            i += 1;
        }
        let g = Grid { cells };
        proof {
            assert(g@ =~= empty_grid());
        }
        g
    }

    /// Read the occupancy of cell `(x, y, z)`.
    pub fn get(&self, x: usize, y: usize, z: usize) -> (b: bool)
        requires
            self.wf(),
            x < 3,
            y < 3,
            z < 3,
        ensures
            b == self.occupied((x as int, y as int, z as int)),
    {
        self.cells[x * 9 + y * 3 + z]
    }

    /// Write the occupancy of cell `(x, y, z)`.
    pub fn set(&mut self, x: usize, y: usize, z: usize, b: bool)
        requires
            old(self).wf(),
            x < 3,
            y < 3,
            z < 3,
        ensures
            final(self).wf(),
            final(self)@ == old(self)@.update(cell_index((x as int, y as int, z as int)), b),
    {
        self.cells[x * 9 + y * 3 + z] = b;
    }
}

} // verus!
