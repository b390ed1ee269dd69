//! The move model: placing the starting cell and travelling along an axis,
//! each with exact apply/revert semantics over the grid and cursor.

use vstd::prelude::*;
use crate::direction::{Dir, delta, reverse_of, lemma_delta_reverse};
use crate::grid::{Grid, Pos, pos_view, in_bounds, cell_index, lemma_cell_index_bounds};

verus! {

/// The cell reached after `k` unit steps in direction `d` from `p`.
pub open spec fn step_n(p: (int, int, int), d: Dir, k: int) -> (int, int, int) {
    (p.0 + delta(d).0 * k, p.1 + delta(d).1 * k, p.2 + delta(d).2 * k)
}

/// A move: place the initial occupied cell, or advance the cursor `amt` cells
/// along a direction, occupying every cell passed.
#[derive(Clone, Copy, PartialEq, Eq, Debug)]
pub enum Op {
    StartAt(Pos),
    Travel(Dir, i32),
}

/// Placing the starting cell at `sp` succeeds: `sp` is inside the grid and free.
pub open spec fn start_ok(g: Seq<bool>, sp: (int, int, int)) -> bool {
    in_bounds(sp) && !g[cell_index(sp)]
}

/// Travelling `amt` cells in direction `d` from `p` succeeds: the final cell
/// stays inside the grid and no cell passed is already occupied.
pub open spec fn travel_ok(g: Seq<bool>, p: (int, int, int), d: Dir, amt: int) -> bool {
    in_bounds(step_n(p, d, amt)) && forall|k: int|
        1 <= k <= amt ==> !g[#[trigger] cell_index(step_n(p, d, k))]
}

/// The grid after marking the `amt` cells passed when travelling in `d` from `p`.
pub open spec fn mark(g: Seq<bool>, p: (int, int, int), d: Dir, amt: int) -> Seq<bool> {
    Seq::new(
        g.len(),
        |i: int| g[i] || exists|k: int| 1 <= k <= amt && i == #[trigger] cell_index(step_n(p, d, k)),
    )
}

/// The grid after clearing the cells `0, 1, ..., amt - 1` steps in direction
/// `d` from `p`.
pub open spec fn unmark(g: Seq<bool>, p: (int, int, int), d: Dir, amt: int) -> Seq<bool> {
    Seq::new(
        g.len(),
        |i: int| g[i] && !(exists|k: int|
            0 <= k < amt && i == #[trigger] cell_index(step_n(p, d, k))),
    )
}

/// The travel amount of a move is not negative (a start placement carries
/// none). A travel of amount 0 succeeds and touches nothing.
pub open spec fn amt_nonnegative(op: Op) -> bool {
    match op {
        Op::StartAt(_) => true,
        Op::Travel(_, amt) => amt >= 0,
    }
}

/// Applying `op` to grid `g` with cursor `p` succeeds.
pub open spec fn apply_ok(op: Op, g: Seq<bool>, p: (int, int, int)) -> bool {
    match op {
        Op::StartAt(sp) => start_ok(g, pos_view(sp)),
        Op::Travel(d, amt) => travel_ok(g, p, d, amt as int),
    }
}

/// The grid after successfully applying `op`.
pub open spec fn apply_grid(op: Op, g: Seq<bool>, p: (int, int, int)) -> Seq<bool> {
    match op {
        Op::StartAt(sp) => g.update(cell_index(pos_view(sp)), true),
        Op::Travel(d, amt) => mark(g, p, d, amt as int),
    }
}

/// The cursor after successfully applying `op`.
pub open spec fn apply_pos(op: Op, p: (int, int, int)) -> (int, int, int) {
    match op {
        Op::StartAt(sp) => pos_view(sp),
        Op::Travel(d, amt) => step_n(p, d, amt as int),
    }
}

/// The grid after reverting `op` from grid `g` with cursor `p`.
pub open spec fn revert_grid(op: Op, g: Seq<bool>, p: (int, int, int)) -> Seq<bool> {
    match op {
        Op::StartAt(sp) => g.update(cell_index(pos_view(sp)), false),
        Op::Travel(d, amt) => unmark(g, p, reverse_of(d), amt as int),
    }
}

/// The cursor after reverting `op` (a start placement leaves it untouched).
pub open spec fn revert_pos(op: Op, p: (int, int, int)) -> (int, int, int) {
    match op {
        Op::StartAt(_) => p,
        Op::Travel(d, amt) => step_n(p, reverse_of(d), amt as int),
    }
}

/// The product of a unit factor (`-1`, `0` or `1`) with any integer, written
/// out by case.
pub proof fn lemma_unit_mul(x: int, y: int)
    requires
        -1 <= x <= 1,
    ensures
        x * y == if x == 1 {
            y
        } else if x == -1 {
            -y
        } else {
            0
        },
{
    if x == 1 {
        assert(x * y == y) by (nonlinear_arith)
            requires x == 1;
    } else if x == -1 {
        assert(x * y == -y) by (nonlinear_arith)
            requires x == -1;
    } else {
        assert(x * y == 0) by (nonlinear_arith)
            requires x == 0;
    }
}

/// Every cell between `p` and the cell `amt` steps away lies inside the grid.
pub proof fn lemma_step_in_bounds(p: (int, int, int), d: Dir, amt: int, k: int)
    requires
        in_bounds(p),
        in_bounds(step_n(p, d, amt)),
        0 <= k <= amt,
    ensures
        in_bounds(step_n(p, d, k)),
{
    let dd = delta(d);
    assert(-1 <= dd.0 <= 1 && -1 <= dd.1 <= 1 && -1 <= dd.2 <= 1);
    lemma_unit_mul(dd.0, amt);
    lemma_unit_mul(dd.0, k);
    lemma_unit_mul(dd.1, amt);
    lemma_unit_mul(dd.1, k);
    lemma_unit_mul(dd.2, amt);
    lemma_unit_mul(dd.2, k);
}

/// Stepping `a` cells forward and then `b` cells back lands `a - b` cells
/// forward.
pub proof fn lemma_step_reverse(p: (int, int, int), d: Dir, a: int, b: int)
    ensures
        step_n(step_n(p, d, a), reverse_of(d), b) == step_n(p, d, a - b),
{
    let dd = delta(d);
    let rdd = delta(reverse_of(d));
    lemma_delta_reverse(d);
    assert(-1 <= dd.0 <= 1 && -1 <= dd.1 <= 1 && -1 <= dd.2 <= 1);
    lemma_unit_mul(dd.0, a);
    lemma_unit_mul(dd.1, a);
    lemma_unit_mul(dd.2, a);
    lemma_unit_mul(rdd.0, b);
    lemma_unit_mul(rdd.1, b);
    lemma_unit_mul(rdd.2, b);
    lemma_unit_mul(dd.0, a - b);
    lemma_unit_mul(dd.1, a - b);
    lemma_unit_mul(dd.2, a - b);
}

impl Op {
    /// Apply this move to the grid and cursor. On failure — the move would
    /// leave the grid or revisit an occupied cell — nothing is mutated.
    #[verifier::loop_isolation(false)]
    #[verifier::rlimit(50)]
    pub fn apply(self, cube: &mut Grid, pos: &mut Pos) -> (r: bool)
        requires
            old(cube).wf(),
            in_bounds(pos_view(*old(pos))),
            amt_nonnegative(self),
        ensures
            r == apply_ok(self, old(cube)@, pos_view(*old(pos))),
            final(cube).wf(),
            in_bounds(pos_view(*final(pos))),
            r ==> final(cube)@ == apply_grid(self, old(cube)@, pos_view(*old(pos)))
                && pos_view(*final(pos)) == apply_pos(self, pos_view(*old(pos))),
            !r ==> final(cube)@ == old(cube)@ && *final(pos) == *old(pos),
    {
        match self {
            Op::StartAt(start_pos) => {
                if start_pos.0 > 2 || start_pos.1 > 2 || start_pos.2 > 2 {
                    return false;
                }
                if cube.get(start_pos.0, start_pos.1, start_pos.2) {
                    return false;
                }
                cube.set(start_pos.0, start_pos.1, start_pos.2, true);
                *pos = start_pos;
                true
            },
            Op::Travel(d, amt) => {
                let ghost g0 = cube@;
                let ghost p0 = pos_view(*pos);
                let (dx, dy, dz) = d.get_single_travel_amt();
                proof {
                    lemma_unit_mul(dx as int, amt as int);
                    lemma_unit_mul(dy as int, amt as int);
                    lemma_unit_mul(dz as int, amt as int);
                }
                let nx = pos.0 as i64 + (dx as i64) * (amt as i64);
                let ny = pos.1 as i64 + (dy as i64) * (amt as i64);
                let nz = pos.2 as i64 + (dz as i64) * (amt as i64);
                assert((nx as int, ny as int, nz as int) == step_n(p0, d, amt as int));
                if nx < 0 || nx > 2 || ny < 0 || ny > 2 || nz < 0 || nz > 2 {
                    return false;
                }
                let mut q: i32 = 0;
                while q < amt
                    invariant
                        cube.wf(),
                        cube@ == g0,
                        g0.len() == 27,
                        p0 == pos_view(*pos),
                        in_bounds(p0),
                        0 <= q <= amt,
                        dx as int == delta(d).0,
                        dy as int == delta(d).1,
                        dz as int == delta(d).2,
                        in_bounds(step_n(p0, d, amt as int)),
                        forall|k: int| 1 <= k <= q ==> !g0[#[trigger] cell_index(step_n(p0, d, k))],
                    decreases amt - q,
                {
                    proof {
                        lemma_unit_mul(dx as int, q + 1);
                        lemma_unit_mul(dy as int, q + 1);
                        lemma_unit_mul(dz as int, q + 1);
                    }
                    let cx = pos.0 as i64 + (dx as i64) * ((q + 1) as i64);
                    let cy = pos.1 as i64 + (dy as i64) * ((q + 1) as i64);
                    let cz = pos.2 as i64 + (dz as i64) * ((q + 1) as i64);
                    proof {
                        assert((cx as int, cy as int, cz as int) == step_n(p0, d, q + 1));
                        lemma_step_in_bounds(p0, d, amt as int, q + 1);
                    }
                    if cube.get(cx as usize, cy as usize, cz as usize) {
                        proof {
                            lemma_cell_index_bounds(step_n(p0, d, q + 1));
                            assert(g0[cell_index(step_n(p0, d, q + 1))]);
                            assert(!travel_ok(g0, p0, d, amt as int));
                        }
                        return false;
                    }
                    q += 1;
                }
                assert(travel_ok(g0, p0, d, amt as int));
                let mut q: i32 = 0;
                while q < amt
                    invariant
                        cube.wf(),
                        g0.len() == 27,
                        cube@ == mark(g0, p0, d, q as int),
                        p0 == pos_view(*pos),
                        in_bounds(p0),
                        0 <= q <= amt,
                        dx as int == delta(d).0,
                        dy as int == delta(d).1,
                        dz as int == delta(d).2,
                        in_bounds(step_n(p0, d, amt as int)),
                    decreases amt - q,
                {
                    proof {
                        lemma_unit_mul(dx as int, q + 1);
                        lemma_unit_mul(dy as int, q + 1);
                        lemma_unit_mul(dz as int, q + 1);
                    }
                    let cx = pos.0 as i64 + (dx as i64) * ((q + 1) as i64);
                    let cy = pos.1 as i64 + (dy as i64) * ((q + 1) as i64);
                    let cz = pos.2 as i64 + (dz as i64) * ((q + 1) as i64);
                    proof {
                        assert((cx as int, cy as int, cz as int) == step_n(p0, d, q + 1));
                        lemma_step_in_bounds(p0, d, amt as int, q + 1);
                        lemma_cell_index_bounds(step_n(p0, d, q + 1));
                    }
                    let ghost before = cube@;
                    cube.set(cx as usize, cy as usize, cz as usize, true);
                    proof {
                        let c = step_n(p0, d, q + 1);
                        assert(cube@ =~= mark(g0, p0, d, q + 1)) by {
                            assert forall|i: int| 0 <= i < 27 implies cube@[i] == mark(
                                g0,
                                p0,
                                d,
                                q + 1,
                            )[i] by {
                                if i == cell_index(c) {
                                    assert(mark(g0, p0, d, q + 1)[i]);
                                } else {
                                    assert(cube@[i] == before[i]);
                                    if exists|k: int|
                                        1 <= k <= q + 1 && i == #[trigger] cell_index(
                                            step_n(p0, d, k),
                                        ) {
                                        let k = choose|k: int|
                                            1 <= k <= q + 1 && i == #[trigger] cell_index(
                                                step_n(p0, d, k),
                                            );
                                        assert(k <= q);
                                        assert(mark(g0, p0, d, q as int)[i]);
                                    }
                                }
                            }
                        }
                    }
                    q += 1;
                }
                *pos = (nx as usize, ny as usize, nz as usize);
                true
            },
        }
    }

    /// Revert this move, assuming it was the most recently applied one: clear
    /// the cells it occupied and, for a travel, walk the cursor back. The
    /// cursor of a reverted start placement is left untouched.
    #[verifier::loop_isolation(false)]
    #[verifier::rlimit(50)]
    pub fn revert(self, cube: &mut Grid, pos: &mut Pos)
        requires
            old(cube).wf(),
            in_bounds(pos_view(*old(pos))),
            amt_nonnegative(self),
            in_bounds(revert_pos(self, pos_view(*old(pos)))),
            self matches Op::StartAt(sp) ==> in_bounds(pos_view(sp)),
        ensures
            final(cube).wf(),
            final(cube)@ == revert_grid(self, old(cube)@, pos_view(*old(pos))),
            pos_view(*final(pos)) == revert_pos(self, pos_view(*old(pos))),
            self matches Op::StartAt(_) ==> *final(pos) == *old(pos),
    {
        match self {
            Op::StartAt(start_pos) => {
                cube.set(start_pos.0, start_pos.1, start_pos.2, false);
            },
            Op::Travel(d, amt) => {
                let ghost g0 = cube@;
                let ghost p0 = pos_view(*pos);
                let rd = d.get_reverse();
                let (dx, dy, dz) = rd.get_single_travel_amt();
                let mut q: i32 = 0;
                while q < amt
                    invariant
                        cube.wf(),
                        g0.len() == 27,
                        cube@ == unmark(g0, p0, reverse_of(d), q as int),
                        p0 == pos_view(*pos),
                        in_bounds(p0),
                        0 <= q <= amt,
                        dx as int == delta(reverse_of(d)).0,
                        dy as int == delta(reverse_of(d)).1,
                        dz as int == delta(reverse_of(d)).2,
                        in_bounds(step_n(p0, reverse_of(d), amt as int)),
                    decreases amt - q,
                {
                    proof {
                        lemma_unit_mul(dx as int, q as int);
                        lemma_unit_mul(dy as int, q as int);
                        lemma_unit_mul(dz as int, q as int);
                    }
                    let cx = pos.0 as i64 + (dx as i64) * (q as i64);
                    let cy = pos.1 as i64 + (dy as i64) * (q as i64);
                    let cz = pos.2 as i64 + (dz as i64) * (q as i64);
                    proof {
                        assert((cx as int, cy as int, cz as int) == step_n(p0, reverse_of(d), q as int));
                        lemma_step_in_bounds(p0, reverse_of(d), amt as int, q as int);
                        lemma_cell_index_bounds(step_n(p0, reverse_of(d), q as int));
                    }
                    let ghost before = cube@;
                    cube.set(cx as usize, cy as usize, cz as usize, false);
                    proof {
                        let rdg = reverse_of(d);
                        let c = step_n(p0, rdg, q as int);
                        assert(cube@ =~= unmark(g0, p0, rdg, q + 1)) by {
                            assert forall|i: int| 0 <= i < 27 implies cube@[i] == unmark(
                                g0,
                                p0,
                                rdg,
                                q + 1,
                            )[i] by {
                                if i == cell_index(c) {
                                    assert(0 <= q < q + 1 && i == cell_index(step_n(p0, rdg, q as int)));
                                    assert(!unmark(g0, p0, rdg, q + 1)[i]);
                                } else {
                                    assert(cube@[i] == before[i]);
                                    if exists|k: int|
                                        0 <= k < q + 1 && i == #[trigger] cell_index(
                                            step_n(p0, rdg, k),
                                        ) {
                                        let k = choose|k: int|
                                            0 <= k < q + 1 && i == #[trigger] cell_index(
                                                step_n(p0, rdg, k),
                                            );
                                        assert(k < q);
                                        assert(!unmark(g0, p0, rdg, q as int)[i]);
                                    }
                                }
                            }
                        }
                    }
                    q += 1;
                }
                proof {
                    lemma_unit_mul(dx as int, amt as int);
                    lemma_unit_mul(dy as int, amt as int);
                    lemma_unit_mul(dz as int, amt as int);
                }
                let fx = pos.0 as i64 + (dx as i64) * (amt as i64);
                let fy = pos.1 as i64 + (dy as i64) * (amt as i64);
                let fz = pos.2 as i64 + (dz as i64) * (amt as i64);
                assert((fx as int, fy as int, fz as int) == step_n(p0, reverse_of(d), amt as int));
                *pos = (fx as usize, fy as usize, fz as usize);
            },
        }
    }
}

/// Law: a successfully applied move is exactly reversible. Reverting right
/// after applying restores the grid to its pre-apply value, and for a travel
/// move also restores the cursor. (Reverting a start placement leaves the
/// cursor at the starting cell: there is no earlier cursor to restore.)
pub proof fn lemma_apply_revert_round_trip(op: Op, g: Seq<bool>, p: (int, int, int))
    requires
        g.len() == 27,
        in_bounds(p),
        amt_nonnegative(op),
        apply_ok(op, g, p),
    ensures
        revert_grid(op, apply_grid(op, g, p), apply_pos(op, p)) == g,
        op matches Op::Travel(d, amt) ==> revert_pos(op, apply_pos(op, p)) == p,
{
    match op {
        Op::StartAt(sp) => {
            let i = cell_index(pos_view(sp));
            lemma_cell_index_bounds(pos_view(sp));
            assert(revert_grid(op, apply_grid(op, g, p), apply_pos(op, p)) =~= g);
        },
        Op::Travel(d, amt) => {
            let a = amt as int;
            let rd = reverse_of(d);
            let p2 = step_n(p, d, a);
            let g2 = mark(g, p, d, a);
            lemma_step_reverse(p, d, a, a);
            assert(step_n(p, d, 0) == p);
            assert(revert_pos(op, apply_pos(op, p)) == p);
            assert(unmark(g2, p2, rd, a) =~= g) by {
                assert forall|i: int| 0 <= i < 27 implies unmark(g2, p2, rd, a)[i] == g[i] by {
                    if exists|k: int| 1 <= k <= a && i == #[trigger] cell_index(step_n(p, d, k)) {
                        // `i` is one of the cells the travel occupied: it was
                        // free before the move and the revert clears it.
                        let k = choose|k: int|
                            1 <= k <= a && i == #[trigger] cell_index(step_n(p, d, k));
                        assert(!g[i]);
                        lemma_step_reverse(p, d, a, a - k);
                        assert(step_n(p2, rd, a - k) == step_n(p, d, k));
                        assert(0 <= a - k < a && i == cell_index(step_n(p2, rd, a - k)));
                        assert(!unmark(g2, p2, rd, a)[i]);
                    } else {
                        // `i` is untouched: it is marked by nothing and
                        // cleared by nothing.
                        assert(g2[i] == g[i]);
                        if exists|k: int| 0 <= k < a && i == #[trigger] cell_index(step_n(p2, rd, k)) {
                            let k = choose|k: int|
                                0 <= k < a && i == #[trigger] cell_index(step_n(p2, rd, k));
                            lemma_step_reverse(p, d, a, k);
                            assert(step_n(p2, rd, k) == step_n(p, d, a - k));
                            assert(1 <= a - k <= a && i == cell_index(step_n(p, d, a - k)));
                            assert(false);
                        }
                        assert(unmark(g2, p2, rd, a)[i] == g2[i]);
                    }
                }
            }
        },
    }
}

} // verus!
