//! The backtracking search: depth-first exploration of direction choices
//! against the fixed distance sequence, with exact apply/revert discipline.
//!
//! The contract of [`check_direction`] is an equivalence: it succeeds exactly
//! when some admissible sequence of directions, starting with the given one,
//! carries the whole remaining distance sequence without leaving the grid or
//! revisiting a cell.

use vstd::prelude::*;
use crate::direction::{Dir, may_follow, reverse_of};
use crate::grid::{Grid, Pos, pos_view, in_bounds, cell_index, empty_grid, lemma_cell_index_bounds};
use crate::moves::{
    Op, step_n, mark, travel_ok, revert_pos, lemma_apply_revert_round_trip, lemma_step_reverse,
    lemma_step_in_bounds,
};

verus! {

/// Every direction in `ds` after the first may follow its predecessor:
/// it is neither the predecessor itself nor its reverse.
pub open spec fn admissible(ds: Seq<Dir>) -> bool {
    forall|i: int| 1 <= i < ds.len() ==> #[trigger] may_follow(ds[i - 1], ds[i])
}

/// In an admissible direction sequence, the direction at `i` may follow the
/// one before it.
pub proof fn lemma_admissible_at(ds: Seq<Dir>, i: int)
    requires
        admissible(ds),
        1 <= i < ds.len(),
    ensures
        may_follow(ds[i - 1], ds[i]),
{
}

/// The travels `Travel(ds[0], amts[0]), Travel(ds[1], amts[1]), ...` all
/// succeed when applied in order from grid `g` and cursor `p`.
pub open spec fn travels_ok(g: Seq<bool>, p: (int, int, int), ds: Seq<Dir>, amts: Seq<i32>) -> bool
    decreases ds.len(),
{
    if ds.len() == 0 {
        true
    } else {
        travel_ok(g, p, ds[0], amts[0] as int) && travels_ok(
            mark(g, p, ds[0], amts[0] as int),
            step_n(p, ds[0], amts[0] as int),
            ds.skip(1),
            amts.skip(1),
        )
    }
}

/// The grid after applying the travels of `ds`/`amts` in order from `g`, `p`.
pub open spec fn travels_grid(g: Seq<bool>, p: (int, int, int), ds: Seq<Dir>, amts: Seq<i32>) -> Seq<
    bool,
>
    decreases ds.len(),
{
    if ds.len() == 0 {
        g
    } else {
        travels_grid(
            mark(g, p, ds[0], amts[0] as int),
            step_n(p, ds[0], amts[0] as int),
            ds.skip(1),
            amts.skip(1),
        )
    }
}

/// The cursor after applying the travels of `ds`/`amts` in order from `p`.
pub open spec fn travels_pos(p: (int, int, int), ds: Seq<Dir>, amts: Seq<i32>) -> (int, int, int)
    decreases ds.len(),
{
    if ds.len() == 0 {
        p
    } else {
        travels_pos(step_n(p, ds[0], amts[0] as int), ds.skip(1), amts.skip(1))
    }
}

/// The travel moves named by `ds` and `amts`, in order.
pub open spec fn travel_ops(ds: Seq<Dir>, amts: Seq<i32>) -> Seq<Op> {
    Seq::new(ds.len(), |j: int| Op::Travel(ds[j], amts[j]))
}

/// `ds` is a complete solution for the remaining distances `amts` from grid
/// `g` and cursor `p`, beginning with direction `d0`.
pub open spec fn is_path_witness(
    ds: Seq<Dir>,
    g: Seq<bool>,
    p: (int, int, int),
    d0: Dir,
    amts: Seq<i32>,
) -> bool {
    &&& ds.len() == amts.len()
    &&& ds.len() >= 1
    &&& ds[0] == d0
    &&& admissible(ds)
    &&& travels_ok(g, p, ds, amts)
}

/// Some complete solution for `amts` exists from `g`, `p`, beginning with `d0`.
pub open spec fn has_full_path(g: Seq<bool>, p: (int, int, int), d0: Dir, amts: Seq<i32>) -> bool {
    exists|ds: Seq<Dir>| is_path_witness(ds, g, p, d0, amts)
}

/// Quantifier-free form of the occupancy pre-check of a travel: the cells
/// `1..=amt` steps along `d` from `p` are all free in `g`, checked one cell
/// at a time.
pub open spec fn cells_free(g: Seq<bool>, p: (int, int, int), d: Dir, amt: int) -> bool
    decreases amt,
{
    if amt <= 0 {
        true
    } else {
        !g[cell_index(step_n(p, d, amt))] && cells_free(g, p, d, amt - 1)
    }
}

/// Quantifier-free form of `mark`: the grid with the cells `1..=amt` steps
/// along `d` from `p` set occupied, one update at a time.
pub open spec fn mark_steps(g: Seq<bool>, p: (int, int, int), d: Dir, amt: int) -> Seq<bool>
    decreases amt,
{
    if amt <= 0 {
        g
    } else {
        mark_steps(g, p, d, amt - 1).update(cell_index(step_n(p, d, amt)), true)
    }
}

/// Quantifier-free form of `travels_ok` over the tail of `ds`/`amts` from
/// position `i` on: each amount nonnegative, each final cell in bounds, each
/// cell passed free, with the grid threaded through `mark_steps`.
pub open spec fn travels_from(
    g: Seq<bool>,
    p: (int, int, int),
    ds: Seq<Dir>,
    amts: Seq<i32>,
    i: int,
) -> bool
    decreases ds.len() - i,
{
    if i >= ds.len() {
        true
    } else {
        &&& amts[i] >= 0
        &&& in_bounds(step_n(p, ds[i], amts[i] as int))
        &&& cells_free(g, p, ds[i], amts[i] as int)
        &&& travels_from(
            mark_steps(g, p, ds[i], amts[i] as int),
            step_n(p, ds[i], amts[i] as int),
            ds,
            amts,
            i + 1,
        )
    }
}

/// Quantifier-free form of `admissible` from position `i` on.
pub open spec fn admissible_from(ds: Seq<Dir>, i: int) -> bool
    decreases ds.len() - i,
{
    if i + 1 >= ds.len() {
        true
    } else {
        may_follow(ds[i], ds[i + 1]) && admissible_from(ds, i + 1)
    }
}

/// `cells_free` implies the quantified occupancy condition of `travel_ok`.
pub proof fn lemma_cells_free_sound(g: Seq<bool>, p: (int, int, int), d: Dir, amt: int)
    requires
        cells_free(g, p, d, amt),
    ensures
        forall|k: int| 1 <= k <= amt ==> !g[#[trigger] cell_index(step_n(p, d, k))],
    decreases amt,
{
    if amt > 0 {
        lemma_cells_free_sound(g, p, d, amt - 1);
        assert forall|k: int| 1 <= k <= amt implies !g[#[trigger] cell_index(step_n(p, d, k))] by {
            if k == amt {
                assert(!g[cell_index(step_n(p, d, amt))]);
            }
        }
    }
}

/// `mark_steps` computes exactly `mark`.
pub proof fn lemma_mark_steps_is_mark(g: Seq<bool>, p: (int, int, int), d: Dir, amt: int)
    requires
        g.len() == 27,
        in_bounds(p),
        in_bounds(step_n(p, d, amt)),
        amt >= 0,
    ensures
        mark_steps(g, p, d, amt) == mark(g, p, d, amt),
    decreases amt,
{
    if amt == 0 {
        assert(mark(g, p, d, 0) =~= g);
    } else {
        lemma_step_in_bounds(p, d, amt, amt - 1);
        lemma_mark_steps_is_mark(g, p, d, amt - 1);
        let c = step_n(p, d, amt);
        lemma_cell_index_bounds(c);
        assert(mark(g, p, d, amt - 1).update(cell_index(c), true) =~= mark(g, p, d, amt)) by {
            assert forall|i: int|
                0 <= i < 27 implies mark(g, p, d, amt - 1).update(cell_index(c), true)[i] == mark(
                g,
                p,
                d,
                amt,
            )[i] by {
                if i == cell_index(c) {
                    assert(mark(g, p, d, amt)[i]);
                } else {
                    if exists|k: int| 1 <= k <= amt && i == #[trigger] cell_index(step_n(p, d, k)) {
                        let k = choose|k: int|
                            1 <= k <= amt && i == #[trigger] cell_index(step_n(p, d, k));
                        assert(k <= amt - 1);
                        assert(mark(g, p, d, amt - 1)[i]);
                    }
                }
            }
        }
    }
}

/// `travels_from` implies `travels_ok` for the remaining travels.
pub proof fn lemma_travels_from_sound(
    g: Seq<bool>,
    p: (int, int, int),
    ds: Seq<Dir>,
    amts: Seq<i32>,
    i: int,
)
    requires
        g.len() == 27,
        in_bounds(p),
        ds.len() == amts.len(),
        0 <= i <= ds.len(),
        travels_from(g, p, ds, amts, i),
    ensures
        travels_ok(g, p, ds.skip(i), amts.skip(i)),
    decreases ds.len() - i,
{
    if i == ds.len() {
        assert(ds.skip(i) =~= Seq::<Dir>::empty());
        assert(travels_ok(g, p, ds.skip(i), amts.skip(i)));
    } else {
        let d = ds[i];
        let a = amts[i] as int;
        lemma_cells_free_sound(g, p, d, a);
        assert(travel_ok(g, p, d, a));
        lemma_mark_steps_is_mark(g, p, d, a);
        let g2 = mark(g, p, d, a);
        let p2 = step_n(p, d, a);
        lemma_travels_from_sound(g2, p2, ds, amts, i + 1);
        assert(ds.skip(i)[0] == d);
        assert(amts.skip(i)[0] == amts[i]);
        assert(ds.skip(i).skip(1) =~= ds.skip(i + 1));
        assert(amts.skip(i).skip(1) =~= amts.skip(i + 1));
        assert(travels_ok(g, p, ds.skip(i), amts.skip(i)));
    }
}

/// `admissible_from` at 0 implies `admissible`.
pub proof fn lemma_admissible_from_sound(ds: Seq<Dir>, i: int)
    requires
        0 <= i,
        admissible_from(ds, i),
    ensures
        forall|j: int| i + 1 <= j < ds.len() ==> #[trigger] may_follow(ds[j - 1], ds[j]),
    decreases ds.len() - i,
{
    if i + 1 < ds.len() {
        lemma_admissible_from_sound(ds, i + 1);
        assert forall|j: int|
            i + 1 <= j < ds.len() implies #[trigger] may_follow(ds[j - 1], ds[j]) by {
            if j == i + 1 {
                assert(may_follow(ds[i], ds[i + 1]));
                assert(ds[j - 1] == ds[i]);
            }
        }
    }
}

/// Try direction `dir` for the distance at `test_against_idx`, and recurse on
/// the rest of the sequence. Returns whether a complete solution beginning
/// with `dir` exists from the current state; on success the grid, cursor and
/// move stack reflect the found path (each travel inserted right after the
/// start move), on failure all three are exactly as before the call.
#[verifier::loop_isolation(false)]
#[verifier::rlimit(50)]
pub fn check_direction(
    cube: &mut Grid,
    ops: &mut Vec<Op>,
    pos: &mut Pos,
    dir: Dir,
    distances: &Vec<i32>,
    test_against_idx: usize,
) -> (r: bool)
    requires
        old(cube).wf(),
        in_bounds(pos_view(*old(pos))),
        test_against_idx < distances@.len(),
        forall|i: int| 0 <= i < distances@.len() ==> #[trigger] distances@[i] >= 1,
        old(ops)@.len() >= 1,
    ensures
        final(cube).wf(),
        in_bounds(pos_view(*final(pos))),
        r == has_full_path(
            old(cube)@,
            pos_view(*old(pos)),
            dir,
            distances@.skip(test_against_idx as int),
        ),
        !r ==> final(cube)@ == old(cube)@ && *final(pos) == *old(pos) && final(ops)@ == old(
            ops,
        )@,
        r ==> (exists|ds: Seq<Dir>|
            is_path_witness(
                ds,
                old(cube)@,
                pos_view(*old(pos)),
                dir,
                distances@.skip(test_against_idx as int),
            ) && final(cube)@ == travels_grid(
                old(cube)@,
                pos_view(*old(pos)),
                ds,
                distances@.skip(test_against_idx as int),
            ) && pos_view(*final(pos)) == travels_pos(
                pos_view(*old(pos)),
                ds,
                distances@.skip(test_against_idx as int),
            ) && final(ops)@ == old(ops)@.take(1) + travel_ops(
                ds,
                distances@.skip(test_against_idx as int),
            ) + old(ops)@.skip(1)),
    decreases distances@.len() - test_against_idx,
{
    let ghost g0 = cube@;
    let ghost p0 = pos_view(*pos);
    let ghost ops0 = ops@;
    let ghost amts = distances@.skip(test_against_idx as int);

    let amt = distances[test_against_idx];
    let travel_op = Op::Travel(dir, amt);
    proof {
        assert(amts[0] == amt);
    }
    if !travel_op.apply(cube, pos) {
        proof {
            assert forall|ds: Seq<Dir>| !is_path_witness(ds, g0, p0, dir, amts) by {
                if is_path_witness(ds, g0, p0, dir, amts) {
                    assert(travels_ok(g0, p0, ds, amts));
                    assert(travel_ok(g0, p0, dir, amt as int));
                }
            }
        }
        return false;
    }
    let ghost g1 = cube@;
    let ghost p1 = pos_view(*pos);

    if test_against_idx == distances.len() - 1 {
        ops.insert(1, travel_op);
        proof {
            let ds = seq![dir];
            assert(amts.len() == 1);
            assert(ds.skip(1) =~= Seq::<Dir>::empty());
            assert(amts.skip(1) =~= Seq::<i32>::empty());
            assert(travels_ok(g1, p1, ds.skip(1), amts.skip(1)));
            assert(travels_ok(g0, p0, ds, amts));
            assert(is_path_witness(ds, g0, p0, dir, amts));
            assert(mark(g0, p0, ds[0], amts[0] as int) == g1);
            assert(step_n(p0, ds[0], amts[0] as int) == p1);
            assert(travels_grid(g1, p1, ds.skip(1), amts.skip(1)) == g1);
            assert(travels_pos(p1, ds.skip(1), amts.skip(1)) == p1);
            assert(travels_grid(g0, p0, ds, amts) == g1);
            assert(travels_pos(p0, ds, amts) == p1);
            assert(travel_ops(ds, amts) =~= seq![travel_op]);
            assert(ops@ =~= ops0.take(1) + travel_ops(ds, amts) + ops0.skip(1));
        }
        return true;
    }
    let ghost amts1 = distances@.skip(test_against_idx as int + 1);
    proof {
        assert(amts.skip(1) =~= amts1);
    }

    let candidates = dir.get_new_travel_directions();
    let mut i: usize = 0;
    while i < candidates.len()
        invariant
            cube.wf(),
            cube@ == g1,
            pos_view(*pos) == p1,
            in_bounds(p1),
            ops@ == ops0,
            i <= candidates@.len(),
            forall|j: int| 0 <= j < i ==> !has_full_path(g1, p1, #[trigger] candidates@[j], amts1),
        decreases candidates@.len() - i,
    {
        let next_dir = candidates[i];
        if check_direction(cube, ops, pos, next_dir, distances, test_against_idx + 1) {
            let ghost g2 = cube@;
            let ghost p2 = pos_view(*pos);
            let ghost ops_mid = ops@;
            ops.insert(1, travel_op);
            proof {
                let ds1 = choose|ds1: Seq<Dir>|
                    is_path_witness(ds1, g1, p1, next_dir, amts1) && g2 == travels_grid(
                        g1,
                        p1,
                        ds1,
                        amts1,
                    ) && p2 == travels_pos(p1, ds1, amts1) && ops_mid == ops0.take(1) + travel_ops(
                        ds1,
                        amts1,
                    ) + ops0.skip(1);
                let ds = seq![dir] + ds1;
                assert(ds[0] == dir);
                assert(ds.skip(1) =~= ds1);
                assert(admissible(ds)) by {
                    assert forall|j: int| 1 <= j < ds.len() implies #[trigger] may_follow(
                        ds[j - 1],
                        ds[j],
                    ) by {
                        if j == 1 {
                            assert(ds[0] == dir && ds[1] == ds1[0]);
                            assert(may_follow(dir, next_dir));
                        } else {
                            assert(ds[j - 1] == ds1[j - 2] && ds[j] == ds1[j - 1]);
                            lemma_admissible_at(ds1, j - 1);
                        }
                    }
                }
                assert(travels_ok(g0, p0, ds, amts));
                assert(is_path_witness(ds, g0, p0, dir, amts));
                assert(travels_grid(g0, p0, ds, amts) == travels_grid(g1, p1, ds1, amts1));
                assert(travels_pos(p0, ds, amts) == travels_pos(p1, ds1, amts1));
                assert(travel_ops(ds, amts) =~= seq![travel_op] + travel_ops(ds1, amts1));
                assert(ops@ == ops_mid.insert(1, travel_op));
                assert(ops@ =~= ops0.take(1) + travel_ops(ds, amts) + ops0.skip(1));
            }
            return true;
        }
        i += 1;
    }
    proof {
        lemma_step_reverse(p0, dir, amt as int, amt as int);
        assert(revert_pos(travel_op, p1) == p0);
    }
    travel_op.revert(cube, pos);
    proof {
        lemma_apply_revert_round_trip(travel_op, g0, p0);
        assert(cube@ == g0);
        assert(pos_view(*pos) == p0);
        assert forall|ds: Seq<Dir>| !is_path_witness(ds, g0, p0, dir, amts) by {
            if is_path_witness(ds, g0, p0, dir, amts) {
                assert(ds.len() == amts.len() >= 2);
                let ds1 = ds.skip(1);
                assert(travels_ok(g0, p0, ds, amts));
                assert(travels_ok(g1, p1, ds1, amts1)) by {
                    assert(mark(g0, p0, ds[0], amts[0] as int) == g1);
                    assert(step_n(p0, ds[0], amts[0] as int) == p1);
                    assert(amts.skip(1) =~= amts1);
                }
                assert(admissible(ds1)) by {
                    assert forall|j: int| 1 <= j < ds1.len() implies #[trigger] may_follow(
                        ds1[j - 1],
                        ds1[j],
                    ) by {
                        assert(ds1[j - 1] == ds[j] && ds1[j] == ds[j + 1]);
                        lemma_admissible_at(ds, j + 1);
                    }
                }
                assert(is_path_witness(ds1, g1, p1, ds[1], amts1));
                lemma_admissible_at(ds, 1);
                assert(may_follow(dir, ds[1]));
                assert(candidates@.contains(ds[1]));
                let j = choose|j: int| 0 <= j < candidates@.len() && candidates@[j] == ds[1];
                assert(!has_full_path(g1, p1, candidates@[j], amts1));
            }
        }
    }
    false
}

/// The grid as it stands after the fixed start placement at the origin.
pub open spec fn start_grid() -> Seq<bool> {
    empty_grid().update(cell_index((0, 0, 0)), true)
}

/// The fixed distance sequence of the puzzle.
pub open spec fn test_against_spec() -> Seq<i32> {
    seq![2, 1, 1, 1, 1, 1, 1, 1, 1, 2, 1, 1, 1, 1, 1, 1, 2, 2, 1, 1, 1, 1]
}

/// The fixed distance sequence of the puzzle, as a vector: 22 step lengths
/// which, with the starting cell, cover the 27 cells of the grid.
pub fn test_against() -> (v: Vec<i32>)
    ensures
        v@ == test_against_spec(),
{
    let mut v: Vec<i32> = Vec::new();
    v.push(2);
    v.push(1);
    v.push(1);
    v.push(1);
    v.push(1);
    v.push(1);
    v.push(1);
    v.push(1);
    v.push(1);
    v.push(2);
    v.push(1);
    v.push(1);
    v.push(1);
    v.push(1);
    v.push(1);
    v.push(1);
    v.push(2);
    v.push(2);
    v.push(1);
    v.push(1);
    v.push(1);
    v.push(1);
    proof {
        assert(v@ =~= test_against_spec());
    }
    v
}

/// The direction sequence of one concrete solution: it begins eastwards, is
/// admissible, and carries the 22 fixed distances from the origin over all
/// 27 cells without revisiting one.
pub open spec fn solution_dirs() -> Seq<Dir> {
    seq![
        Dir::E,
        Dir::Up,
        Dir::S,
        Dir::Down,
        Dir::S,
        Dir::Up,
        Dir::W,
        Dir::Up,
        Dir::E,
        Dir::N,
        Dir::W,
        Dir::S,
        Dir::Down,
        Dir::N,
        Dir::W,
        Dir::Up,
        Dir::S,
        Dir::Down,
        Dir::E,
        Dir::N,
        Dir::W,
        Dir::Up,
    ]
}

/// Law: the search on the fixed distance sequence succeeds. `solution_dirs`
/// is a full admissible path beginning eastwards that carries every distance
/// from the origin, so a solution exists.
#[verifier::rlimit(100)]
pub proof fn lemma_solution_exists()
    ensures
        has_full_path(start_grid(), (0int, 0int, 0int), Dir::E, test_against_spec()),
{
    let ds = solution_dirs();
    let amts = test_against_spec();
    let g = seq![
        true, false, false, false, false, false, false, false, false, false, false, false, false,
        false, false, false, false, false, false, false, false, false, false, false, false, false,
        false,
    ];
    assert(start_grid() =~= g);
    assert(travels_from(g, (0int, 0int, 0int), ds, amts, 0)) by {
        reveal_with_fuel(travels_from, 25);
        reveal_with_fuel(cells_free, 4);
        reveal_with_fuel(mark_steps, 4);
    }
    lemma_travels_from_sound(g, (0int, 0int, 0int), ds, amts, 0);
    assert(ds.skip(0) =~= ds);
    assert(amts.skip(0) =~= amts);
    assert(admissible_from(ds, 0)) by {
        reveal_with_fuel(admissible_from, 25);
    }
    lemma_admissible_from_sound(ds, 0);
    assert(admissible(ds));
    assert(is_path_witness(ds, start_grid(), (0int, 0int, 0int), Dir::E, amts));
}

/// Solve the puzzle for the fixed distance sequence: place the start cell at
/// the origin, then search depth-first starting eastwards. Returns the full
/// move stack — the start placement followed by one travel per distance — if
/// and only if a solution exists; a solution does exist (`lemma_solution_exists`),
/// so the result is always the found path.
pub fn fitcube() -> (r: Option<Vec<Op>>)
    ensures
        r is Some,
        r is Some <==> has_full_path(start_grid(), (0, 0, 0), Dir::E, test_against_spec()),
        r matches Some(ops) ==> (exists|ds: Seq<Dir>|
            is_path_witness(ds, start_grid(), (0, 0, 0), Dir::E, test_against_spec())
                && ops@ == seq![Op::StartAt((0, 0, 0))] + travel_ops(ds, test_against_spec())),
{
    let distances = test_against();
    let mut cube = Grid::new();
    let mut pos: Pos = (0, 0, 0);
    let mut ops: Vec<Op> = Vec::new();

    let start_op = Op::StartAt((0, 0, 0));
    let placed = start_op.apply(&mut cube, &mut pos);
    proof {
        assert(empty_grid()[cell_index((0int, 0int, 0int))] == false);
        assert(placed);
        assert(cube@ == start_grid());
    }
    ops.push(start_op);
    proof {
        assert(distances@.skip(0) =~= test_against_spec());
    }

    let found = check_direction(&mut cube, &mut ops, &mut pos, Dir::E, &distances, 0);
    proof {
        lemma_solution_exists();
        assert(found);
    }
    if found {
        proof {
            let ds = choose|ds: Seq<Dir>|
                is_path_witness(ds, start_grid(), (0int, 0int, 0int), Dir::E, test_against_spec())
                    && ops@ == seq![start_op].take(1) + travel_ops(ds, test_against_spec()) + seq![
                    start_op,
                ].skip(1);
            assert(ops@ =~= seq![Op::StartAt((0, 0, 0))] + travel_ops(ds, test_against_spec()));
        }
        Some(ops)
    } else {
        None
    }
}

} // verus!
