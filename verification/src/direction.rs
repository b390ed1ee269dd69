//! The six axis-aligned unit directions of the cube, their reverses, their
//! unit displacement vectors, and the table of directions that may follow a
//! given direction in a path.

use vstd::prelude::*;

verus! {

/// One of the six axis-aligned directions. `E`/`W` move along the first axis,
/// `N`/`S` along the second, `Up`/`Down` along the third.
#[derive(Clone, Copy, PartialEq, Eq, Structural, Debug)]
pub enum Dir {
    Up,
    Down,
    N,
    E,
    S,
    W,
}

/// The direction opposite to `d`.
pub open spec fn reverse_of(d: Dir) -> Dir {
    match d {
        Dir::Up => Dir::Down,
        Dir::Down => Dir::Up,
        Dir::N => Dir::S,
        Dir::S => Dir::N,
        Dir::E => Dir::W,
        Dir::W => Dir::E,
    }
}

/// The unit displacement vector of `d`: exactly one component is `1` or `-1`,
/// the others are `0`.
pub open spec fn delta(d: Dir) -> (int, int, int) {
    match d {
        Dir::Up => (0, 0, 1),
        Dir::Down => (0, 0, -1),
        Dir::N => (0, -1, 0),
        Dir::E => (1, 0, 0),
        Dir::S => (0, 1, 0),
        Dir::W => (-1, 0, 0),
    }
}

/// `b` may follow `a` as the next travel direction: it is neither `a` itself
/// nor the reverse of `a`.
pub open spec fn may_follow(a: Dir, b: Dir) -> bool {
    b != a && b != reverse_of(a)
}

/// The candidate directions that may follow `d`, in the fixed order the
/// search tries them: all six directions in the order `Up`, `Down`, `N`, `S`,
/// `E`, `W` with `d` itself and its reverse removed.
pub open spec fn candidate_seq(d: Dir) -> Seq<Dir> {
    match d {
        Dir::Up | Dir::Down => seq![Dir::N, Dir::S, Dir::E, Dir::W],
        Dir::N | Dir::S => seq![Dir::Up, Dir::Down, Dir::E, Dir::W],
        Dir::E | Dir::W => seq![Dir::Up, Dir::Down, Dir::N, Dir::S],
    }
}

/// How many components of `v` are nonzero.
pub open spec fn nonzero_axes(v: (int, int, int)) -> int {
    (if v.0 != 0 { 1int } else { 0int }) + (if v.1 != 0 { 1int } else { 0int })
        + (if v.2 != 0 { 1int } else { 0int })
}

/// The sum of the absolute values of the components of `v`.
pub open spec fn magnitude(v: (int, int, int)) -> nat {
    vstd::math::abs(v.0) + vstd::math::abs(v.1) + vstd::math::abs(v.2)
}

/// Law: `reverse_of` is an involution with no fixed points.
pub proof fn lemma_reverse_involution()
    ensures
        forall|d: Dir| #[trigger] reverse_of(reverse_of(d)) == d,
        forall|d: Dir| #[trigger] reverse_of(d) != d,
{
}

/// Law: every direction's unit vector has exactly one nonzero component, and
/// that component has magnitude 1.
pub proof fn lemma_unit_vector_normalized()
    ensures
        forall|d: Dir| #[trigger] nonzero_axes(delta(d)) == 1,
        forall|d: Dir| #[trigger] magnitude(delta(d)) == 1,
{
}

/// The reverse of each direction's unit vector is the negated vector.
pub proof fn lemma_delta_reverse(d: Dir)
    ensures
        delta(reverse_of(d)).0 == -delta(d).0,
        delta(reverse_of(d)).1 == -delta(d).1,
        delta(reverse_of(d)).2 == -delta(d).2,
{
}

/// The four directions that may follow `dir` in a path: all six except `dir`
/// itself and its reverse, in a fixed order.
pub fn create_travel_directions(dir: Dir) -> (v: Vec<Dir>)
    ensures
        v@ == candidate_seq(dir),
        v@.len() == 4,
        forall|i: int| 0 <= i < v@.len() ==> may_follow(dir, #[trigger] v@[i]),
        forall|d: Dir| may_follow(dir, d) ==> #[trigger] v@.contains(d),
{
    let mut v: Vec<Dir> = Vec::new();
    if dir != Dir::Up && dir != Dir::Down {
        v.push(Dir::Up);
        v.push(Dir::Down);
    }
    if dir != Dir::N && dir != Dir::S {
        v.push(Dir::N);
        v.push(Dir::S);
    }
    if dir != Dir::E && dir != Dir::W {
        v.push(Dir::E);
        v.push(Dir::W);
    }
    proof {
        match dir {
            Dir::Up | Dir::Down => {
                assert(v@ =~= seq![Dir::N, Dir::S, Dir::E, Dir::W]);
            },
            Dir::N | Dir::S => {
                assert(v@ =~= seq![Dir::Up, Dir::Down, Dir::E, Dir::W]);
            },
            Dir::E | Dir::W => {
                assert(v@ =~= seq![Dir::Up, Dir::Down, Dir::N, Dir::S]);
            },
        }
        assert forall|d: Dir| may_follow(dir, d) implies #[trigger] v@.contains(d) by {
            assert(v@.contains(v@[0]));
            assert(v@.contains(v@[1]));
            assert(v@.contains(v@[2]));
            assert(v@.contains(v@[3]));
        }
    }
    v
}

impl Dir {
    /// The unit displacement vector of this direction, as machine integers.
    pub fn get_single_travel_amt(self) -> (r: (i32, i32, i32))
        ensures
            (r.0 as int, r.1 as int, r.2 as int) == delta(self),
    {
        match self {
            Dir::Up => (0, 0, 1),
            Dir::Down => (0, 0, -1),
            Dir::N => (0, -1, 0),
            Dir::E => (1, 0, 0),
            Dir::S => (0, 1, 0),
            Dir::W => (-1, 0, 0),
        }
    }

    /// The four directions that may be tried after this one, in the fixed
    /// order of `candidate_seq`.
    pub fn get_new_travel_directions(self) -> (v: Vec<Dir>)
        ensures
            v@ == candidate_seq(self),
            v@.len() == 4,
            forall|i: int| 0 <= i < v@.len() ==> may_follow(self, #[trigger] v@[i]),
            forall|d: Dir| may_follow(self, d) ==> #[trigger] v@.contains(d),
    {
        create_travel_directions(self)
    }

    /// The direction opposite to this one.
    pub fn get_reverse(self) -> (r: Dir)
        ensures
            r == reverse_of(self),
    {
        match self {
            Dir::Up => Dir::Down,
            Dir::Down => Dir::Up,
            Dir::N => Dir::S,
            Dir::S => Dir::N,
            Dir::E => Dir::W,
            Dir::W => Dir::E,
        }
    }
}

} // verus!
