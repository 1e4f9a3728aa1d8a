use vstd::prelude::*;
use std::marker::PhantomData;

verus! {

/// A discrete velocity set of the lattice-Boltzmann method: `q()`
/// directions in `dim()` dimensions, with integer velocity components, the
/// opposite of each direction, and weights `weight_num(q) / weight_den()`.
pub trait LatticeTopology {
    spec fn spec_dim() -> nat;

    spec fn spec_q() -> nat;

    spec fn spec_cx(q: int) -> int;

    spec fn spec_cy(q: int) -> int;

    spec fn spec_cz(q: int) -> int;

    spec fn spec_opp(q: int) -> int;

    spec fn spec_weight_num(q: int) -> int;

    spec fn spec_weight_den() -> int;

    fn dim() -> (r: usize)
        ensures
            r == Self::spec_dim(),
    ;

    fn q() -> (r: usize)
        ensures
            r == Self::spec_q(),
    ;

    fn cx(q: usize) -> (r: i32)
        requires
            q < Self::spec_q(),
        ensures
            r == Self::spec_cx(q as int),
    ;

    fn cy(q: usize) -> (r: i32)
        requires
            q < Self::spec_q(),
        ensures
            r == Self::spec_cy(q as int),
    ;

    fn cz(q: usize) -> (r: i32)
        requires
            q < Self::spec_q(),
        ensures
            r == Self::spec_cz(q as int),
    ;

    fn opp(q: usize) -> (r: usize)
        requires
            q < Self::spec_q(),
        ensures
            r == Self::spec_opp(q as int),
    ;

    fn weight_num(q: usize) -> (r: u32)
        requires
            q < Self::spec_q(),
        ensures
            r == Self::spec_weight_num(q as int),
    ;

    fn weight_den() -> (r: u32)
        ensures
            r == Self::spec_weight_den(),
    ;
}

/// The two-dimensional lattice with nine directions.
#[derive(Clone, Copy, Debug)]
pub struct D2Q9;

pub open spec fn d2q9_cx(q: int) -> int {
    if q == 1 || q == 5 || q == 8 { 1 } else if q == 3 || q == 6 || q == 7 { -1 } else { 0 }
}

pub open spec fn d2q9_cy(q: int) -> int {
    if q == 2 || q == 5 || q == 6 { 1 } else if q == 4 || q == 7 || q == 8 { -1 } else { 0 }
}

pub open spec fn d2q9_opp(q: int) -> int {
    if q == 0 { 0 } else if q == 1 { 3 } else if q == 2 { 4 } else if q == 3 { 1 } else if q == 4 { 2 }
    else if q == 5 { 7 } else if q == 6 { 8 } else if q == 7 { 5 } else { 6 }
}

pub open spec fn d2q9_weight_num(q: int) -> int {
    if q == 0 { 16 } else if q <= 4 { 4 } else { 1 }
}

impl LatticeTopology for D2Q9 {
    open spec fn spec_dim() -> nat { 2 }

    open spec fn spec_q() -> nat { 9 }

    open spec fn spec_cx(q: int) -> int { d2q9_cx(q) }

    open spec fn spec_cy(q: int) -> int { d2q9_cy(q) }

    open spec fn spec_cz(q: int) -> int { 0 }

    open spec fn spec_opp(q: int) -> int { d2q9_opp(q) }

    open spec fn spec_weight_num(q: int) -> int { d2q9_weight_num(q) }

    open spec fn spec_weight_den() -> int { 36 }

    fn dim() -> (r: usize) { 2 }

    fn q() -> (r: usize) { 9 }

    fn cx(q: usize) -> (r: i32) {
        if q == 1 || q == 5 || q == 8 { 1 } else if q == 3 || q == 6 || q == 7 { -1 } else { 0 }
    }

    fn cy(q: usize) -> (r: i32) {
        if q == 2 || q == 5 || q == 6 { 1 } else if q == 4 || q == 7 || q == 8 { -1 } else { 0 }
    }

    fn cz(q: usize) -> (r: i32) { 0 }

    fn opp(q: usize) -> (r: usize) {
        if q == 0 { 0 } else if q == 1 { 3 } else if q == 2 { 4 } else if q == 3 { 1 } else if q == 4 { 2 }
        else if q == 5 { 7 } else if q == 6 { 8 } else if q == 7 { 5 } else { 6 }
    }

    fn weight_num(q: usize) -> (r: u32) {
        if q == 0 { 16 } else if q <= 4 { 4 } else { 1 }
    }

    fn weight_den() -> (r: u32) { 36 }
}

/// The three-dimensional lattice with nineteen directions.
#[derive(Clone, Copy, Debug)]
pub struct D3Q19;

pub open spec fn d3q19_cx(q: int) -> int {
    if q == 1 || q == 7 || q == 9 || q == 11 || q == 13 { 1 }
    else if q == 2 || q == 8 || q == 10 || q == 12 || q == 14 { -1 }
    else { 0 }
}

pub open spec fn d3q19_cy(q: int) -> int {
    if q == 3 || q == 7 || q == 8 || q == 15 || q == 17 { 1 }
    else if q == 4 || q == 9 || q == 10 || q == 16 || q == 18 { -1 }
    else { 0 }
}

pub open spec fn d3q19_cz(q: int) -> int {
    if q == 5 || q == 11 || q == 12 || q == 15 || q == 16 { 1 }
    else if q == 6 || q == 13 || q == 14 || q == 17 || q == 18 { -1 }
    else { 0 }
}

pub open spec fn d3q19_opp(q: int) -> int {
    if q == 0 { 0 } else if q <= 6 { if q % 2 == 1 { q + 1 } else { q - 1 } }
    else if q == 7 { 10 } else if q == 8 { 9 } else if q == 9 { 8 } else if q == 10 { 7 }
    else if q == 11 { 14 } else if q == 12 { 13 } else if q == 13 { 12 } else if q == 14 { 11 }
    else if q == 15 { 18 } else if q == 16 { 17 } else if q == 17 { 16 } else { 15 }
}

pub open spec fn d3q19_weight_num(q: int) -> int {
    if q == 0 { 12 } else if q <= 6 { 2 } else { 1 }
}

impl LatticeTopology for D3Q19 {
    open spec fn spec_dim() -> nat { 3 }

    open spec fn spec_q() -> nat { 19 }

    open spec fn spec_cx(q: int) -> int { d3q19_cx(q) }

    open spec fn spec_cy(q: int) -> int { d3q19_cy(q) }

    open spec fn spec_cz(q: int) -> int { d3q19_cz(q) }

    open spec fn spec_opp(q: int) -> int { d3q19_opp(q) }

    open spec fn spec_weight_num(q: int) -> int { d3q19_weight_num(q) }

    open spec fn spec_weight_den() -> int { 36 }

    fn dim() -> (r: usize) { 3 }

    fn q() -> (r: usize) { 19 }

    fn cx(q: usize) -> (r: i32) {
        if q == 1 || q == 7 || q == 9 || q == 11 || q == 13 { 1 }
        else if q == 2 || q == 8 || q == 10 || q == 12 || q == 14 { -1 }
        else { 0 }
    }

    fn cy(q: usize) -> (r: i32) {
        if q == 3 || q == 7 || q == 8 || q == 15 || q == 17 { 1 }
        else if q == 4 || q == 9 || q == 10 || q == 16 || q == 18 { -1 }
        else { 0 }
    }

    fn cz(q: usize) -> (r: i32) {
        if q == 5 || q == 11 || q == 12 || q == 15 || q == 16 { 1 }
        else if q == 6 || q == 13 || q == 14 || q == 17 || q == 18 { -1 }
        else { 0 }
    }

    fn opp(q: usize) -> (r: usize) {
        if q == 0 { 0 } else if q <= 6 { if q % 2 == 1 { q + 1 } else { q - 1 } }
        else if q == 7 { 10 } else if q == 8 { 9 } else if q == 9 { 8 } else if q == 10 { 7 }
        else if q == 11 { 14 } else if q == 12 { 13 } else if q == 13 { 12 } else if q == 14 { 11 }
        else if q == 15 { 18 } else if q == 16 { 17 } else if q == 17 { 16 } else { 15 }
    }

    fn weight_num(q: usize) -> (r: u32) {
        if q == 0 { 12 } else if q <= 6 { 2 } else { 1 }
    }

    fn weight_den() -> (r: u32) { 36 }
}

/// `f(0) + ... + f(n - 1)`.
pub open spec fn dir_sum(f: spec_fn(int) -> int, n: nat) -> int
    decreases n,
{
    if n == 0 {
        0
    } else {
        dir_sum(f, (n - 1) as nat) + f(n - 1)
    }
}

/// Every direction of the lattice has an opposite direction, whose opposite
/// is the direction itself and whose velocity is the negated velocity.
pub open spec fn opposites_consistent<T: LatticeTopology>() -> bool {
    forall|q: int| 0 <= q < T::spec_q() ==> {
        &&& 0 <= #[trigger] T::spec_opp(q) < T::spec_q()
        &&& T::spec_opp(T::spec_opp(q)) == q
        &&& T::spec_cx(T::spec_opp(q)) == -T::spec_cx(q)
        &&& T::spec_cy(T::spec_opp(q)) == -T::spec_cy(q)
        &&& T::spec_cz(T::spec_opp(q)) == -T::spec_cz(q)
    }
}

/// The weights sum to 1, the weighted velocities to 0, and the weighted
/// products of velocity components to a third of the identity: the moment
/// conditions that give the lattice its isotropy.
pub open spec fn moments_isotropic<T: LatticeTopology>() -> bool {
    let n = T::spec_q();
    let d = T::spec_weight_den();
    &&& dir_sum(|q: int| T::spec_weight_num(q), n) == d
    &&& dir_sum(|q: int| T::spec_weight_num(q) * T::spec_cx(q), n) == 0
    &&& dir_sum(|q: int| T::spec_weight_num(q) * T::spec_cy(q), n) == 0
    &&& dir_sum(|q: int| T::spec_weight_num(q) * T::spec_cz(q), n) == 0
    &&& dir_sum(|q: int| T::spec_weight_num(q) * T::spec_cx(q) * T::spec_cx(q), n) * 3 == d
    &&& dir_sum(|q: int| T::spec_weight_num(q) * T::spec_cy(q) * T::spec_cy(q), n) * 3 == d
    &&& dir_sum(|q: int| T::spec_weight_num(q) * T::spec_cx(q) * T::spec_cy(q), n) == 0
}

/// The D2Q9 velocity set: opposite directions are consistent, velocities
/// lie in the plane, and the weights 4/9, 1/9 and 1/36 satisfy the moment
/// conditions.
pub proof fn lemma_d2q9_lattice()
    ensures
        opposites_consistent::<D2Q9>(),
        forall|q: int| 0 <= q < 9 ==> #[trigger] D2Q9::spec_cz(q) == 0,
        moments_isotropic::<D2Q9>(),
{
    reveal_with_fuel(dir_sum, 10);
}

proof fn lemma_d3q19_sums()
    ensures
        dir_sum(|q: int| D3Q19::spec_weight_num(q), 19) == 36,
        dir_sum(|q: int| D3Q19::spec_weight_num(q) * D3Q19::spec_cx(q), 19) == 0,
        dir_sum(|q: int| D3Q19::spec_weight_num(q) * D3Q19::spec_cy(q), 19) == 0,
        dir_sum(|q: int| D3Q19::spec_weight_num(q) * D3Q19::spec_cz(q), 19) == 0,
{
    reveal_with_fuel(dir_sum, 20);
}

#[verifier::rlimit(50)]
proof fn lemma_d3q19_squares()
    ensures
        dir_sum(|q: int| D3Q19::spec_weight_num(q) * D3Q19::spec_cx(q) * D3Q19::spec_cx(q), 19) == 12,
        dir_sum(|q: int| D3Q19::spec_weight_num(q) * D3Q19::spec_cy(q) * D3Q19::spec_cy(q), 19) == 12,
        dir_sum(|q: int| D3Q19::spec_weight_num(q) * D3Q19::spec_cz(q) * D3Q19::spec_cz(q), 19) == 12,
{
    reveal_with_fuel(dir_sum, 20);
}

#[verifier::rlimit(50)]
proof fn lemma_d3q19_cross()
    ensures
        dir_sum(|q: int| D3Q19::spec_weight_num(q) * D3Q19::spec_cx(q) * D3Q19::spec_cy(q), 19) == 0,
        dir_sum(|q: int| D3Q19::spec_weight_num(q) * D3Q19::spec_cx(q) * D3Q19::spec_cz(q), 19) == 0,
        dir_sum(|q: int| D3Q19::spec_weight_num(q) * D3Q19::spec_cy(q) * D3Q19::spec_cz(q), 19) == 0,
{
    reveal_with_fuel(dir_sum, 20);
}

/// The D3Q19 velocity set: opposite directions are consistent, and the
/// weights 1/3, 1/18 and 1/36 satisfy the moment conditions, in each pair
/// of axes.
pub proof fn lemma_d3q19_lattice()
    ensures
        opposites_consistent::<D3Q19>(),
        moments_isotropic::<D3Q19>(),
        dir_sum(|q: int| D3Q19::spec_weight_num(q) * D3Q19::spec_cz(q) * D3Q19::spec_cz(q), 19) * 3 == 36,
        dir_sum(|q: int| D3Q19::spec_weight_num(q) * D3Q19::spec_cx(q) * D3Q19::spec_cz(q), 19) == 0,
        dir_sum(|q: int| D3Q19::spec_weight_num(q) * D3Q19::spec_cy(q) * D3Q19::spec_cz(q), 19) == 0,
{
    lemma_d3q19_sums();
    lemma_d3q19_squares();
    lemma_d3q19_cross();
}

/// `a` is a velocity component of a lattice with unit spacing: -1, 0 or 1.
pub open spec fn unit_component(a: int) -> bool {
    -1 <= a <= 1
}

/// The squared length of a velocity with unit components: the number of
/// its non-zero components.
pub open spec fn unit_speed(cx: int, cy: int, cz: int) -> int {
    (if cx != 0 { 1int } else { 0int }) + (if cy != 0 { 1int } else { 0int }) + (if cz != 0 { 1int } else { 0int })
}

/// The D2Q9 velocities are the nine vectors of `{-1, 0, 1}²`, each once, and
/// a direction's weight follows from its speed: 4/9 at rest, 1/9 along an
/// axis, 1/36 along a diagonal.
pub proof fn lemma_d2q9_weights_by_speed()
    ensures
        forall|q: int| 0 <= q < 9 ==> -1 <= #[trigger] D2Q9::spec_cx(q) <= 1 && -1 <= D2Q9::spec_cy(q) <= 1,
        forall|a: int, b: int| #![trigger unit_component(a), unit_component(b)] unit_component(a) && unit_component(b) ==> exists|q: int|
            0 <= q < 9 && #[trigger] D2Q9::spec_cx(q) == a && #[trigger] D2Q9::spec_cy(q) == b,
        forall|q1: int, q2: int| 0 <= q1 < q2 < 9 ==> #[trigger] D2Q9::spec_cx(q1) != #[trigger] D2Q9::spec_cx(q2)
            || D2Q9::spec_cy(q1) != D2Q9::spec_cy(q2),
        forall|q: int| 0 <= q < 9 ==> {
            let speed = unit_speed(D2Q9::spec_cx(q), D2Q9::spec_cy(q), 0);
            &&& speed == 0 ==> #[trigger] D2Q9::spec_weight_num(q) * 9 == D2Q9::spec_weight_den() * 4
            &&& speed == 1 ==> D2Q9::spec_weight_num(q) * 9 == D2Q9::spec_weight_den()
            &&& speed == 2 ==> D2Q9::spec_weight_num(q) * 36 == D2Q9::spec_weight_den()
        },
{
    assert forall|a: int, b: int| #![trigger unit_component(a), unit_component(b)] unit_component(a) && unit_component(b) implies exists|q: int|
        0 <= q < 9 && #[trigger] D2Q9::spec_cx(q) == a && #[trigger] D2Q9::spec_cy(q) == b by {
        assert(D2Q9::spec_cx(0) == 0 && D2Q9::spec_cy(0) == 0);
        assert(D2Q9::spec_cx(1) == 1 && D2Q9::spec_cy(1) == 0);
        assert(D2Q9::spec_cx(2) == 0 && D2Q9::spec_cy(2) == 1);
        assert(D2Q9::spec_cx(3) == -1 && D2Q9::spec_cy(3) == 0);
        assert(D2Q9::spec_cx(4) == 0 && D2Q9::spec_cy(4) == -1);
        assert(D2Q9::spec_cx(5) == 1 && D2Q9::spec_cy(5) == 1);
        assert(D2Q9::spec_cx(6) == -1 && D2Q9::spec_cy(6) == 1);
        assert(D2Q9::spec_cx(7) == -1 && D2Q9::spec_cy(7) == -1);
        assert(D2Q9::spec_cx(8) == 1 && D2Q9::spec_cy(8) == -1);
    }
}

/// The D3Q19 velocities are the nineteen vectors of `{-1, 0, 1}³` with at
/// most two non-zero components, each once, and a direction's weight
/// follows from its speed: 1/3 at rest, 1/18 along an axis, 1/36 along a
/// diagonal of a coordinate plane.
#[verifier::rlimit(50)]
pub proof fn lemma_d3q19_weights_by_speed()
    ensures
        forall|q: int| 0 <= q < 19 ==> {
            &&& -1 <= #[trigger] D3Q19::spec_cx(q) <= 1 && -1 <= D3Q19::spec_cy(q) <= 1 && -1 <= D3Q19::spec_cz(q) <= 1
            &&& unit_speed(D3Q19::spec_cx(q), D3Q19::spec_cy(q), D3Q19::spec_cz(q)) <= 2
        },
        forall|a: int, b: int, c: int| #![trigger unit_component(a), unit_component(b), unit_component(c)]
            unit_component(a) && unit_component(b) && unit_component(c) && unit_speed(a, b, c) <= 2 ==> exists|q: int|
            0 <= q < 19 && #[trigger] D3Q19::spec_cx(q) == a && #[trigger] D3Q19::spec_cy(q) == b && #[trigger] D3Q19::spec_cz(q) == c,
        forall|q1: int, q2: int| 0 <= q1 < q2 < 19 ==> #[trigger] D3Q19::spec_cx(q1) != #[trigger] D3Q19::spec_cx(q2)
            || D3Q19::spec_cy(q1) != D3Q19::spec_cy(q2) || D3Q19::spec_cz(q1) != D3Q19::spec_cz(q2),
        forall|q: int| 0 <= q < 19 ==> {
            let speed = unit_speed(D3Q19::spec_cx(q), D3Q19::spec_cy(q), D3Q19::spec_cz(q));
            &&& speed == 0 ==> #[trigger] D3Q19::spec_weight_num(q) * 3 == D3Q19::spec_weight_den()
            &&& speed == 1 ==> D3Q19::spec_weight_num(q) * 18 == D3Q19::spec_weight_den()
            &&& speed == 2 ==> D3Q19::spec_weight_num(q) * 36 == D3Q19::spec_weight_den()
        },
{
    assert forall|a: int, b: int, c: int| #![trigger unit_component(a), unit_component(b), unit_component(c)]
        unit_component(a) && unit_component(b) && unit_component(c) && unit_speed(a, b, c) <= 2 implies exists|q: int|
        0 <= q < 19 && #[trigger] D3Q19::spec_cx(q) == a && #[trigger] D3Q19::spec_cy(q) == b && #[trigger] D3Q19::spec_cz(q) == c by {
        assert(D3Q19::spec_cx(0) == 0 && D3Q19::spec_cy(0) == 0 && D3Q19::spec_cz(0) == 0);
        assert(D3Q19::spec_cx(1) == 1 && D3Q19::spec_cy(1) == 0 && D3Q19::spec_cz(1) == 0);
        assert(D3Q19::spec_cx(2) == -1 && D3Q19::spec_cy(2) == 0 && D3Q19::spec_cz(2) == 0);
        assert(D3Q19::spec_cx(3) == 0 && D3Q19::spec_cy(3) == 1 && D3Q19::spec_cz(3) == 0);
        assert(D3Q19::spec_cx(4) == 0 && D3Q19::spec_cy(4) == -1 && D3Q19::spec_cz(4) == 0);
        assert(D3Q19::spec_cx(5) == 0 && D3Q19::spec_cy(5) == 0 && D3Q19::spec_cz(5) == 1);
        assert(D3Q19::spec_cx(6) == 0 && D3Q19::spec_cy(6) == 0 && D3Q19::spec_cz(6) == -1);
        assert(D3Q19::spec_cx(7) == 1 && D3Q19::spec_cy(7) == 1 && D3Q19::spec_cz(7) == 0);
        assert(D3Q19::spec_cx(8) == -1 && D3Q19::spec_cy(8) == 1 && D3Q19::spec_cz(8) == 0);
        assert(D3Q19::spec_cx(9) == 1 && D3Q19::spec_cy(9) == -1 && D3Q19::spec_cz(9) == 0);
        assert(D3Q19::spec_cx(10) == -1 && D3Q19::spec_cy(10) == -1 && D3Q19::spec_cz(10) == 0);
        assert(D3Q19::spec_cx(11) == 1 && D3Q19::spec_cy(11) == 0 && D3Q19::spec_cz(11) == 1);
        assert(D3Q19::spec_cx(12) == -1 && D3Q19::spec_cy(12) == 0 && D3Q19::spec_cz(12) == 1);
        assert(D3Q19::spec_cx(13) == 1 && D3Q19::spec_cy(13) == 0 && D3Q19::spec_cz(13) == -1);
        assert(D3Q19::spec_cx(14) == -1 && D3Q19::spec_cy(14) == 0 && D3Q19::spec_cz(14) == -1);
        assert(D3Q19::spec_cx(15) == 0 && D3Q19::spec_cy(15) == 1 && D3Q19::spec_cz(15) == 1);
        assert(D3Q19::spec_cx(16) == 0 && D3Q19::spec_cy(16) == -1 && D3Q19::spec_cz(16) == 1);
        assert(D3Q19::spec_cx(17) == 0 && D3Q19::spec_cy(17) == 1 && D3Q19::spec_cz(17) == -1);
        assert(D3Q19::spec_cx(18) == 0 && D3Q19::spec_cy(18) == -1 && D3Q19::spec_cz(18) == -1);
    }
}

/// A probe coordinate is in bounds exactly when it has one entry per
/// lattice dimension and each entry lies below the extent of the same
/// dimension; it is out of bounds when it has the right rank but some entry
/// reaches the extent of its dimension.
pub proof fn lemma_probe_in_bounds(dim: nat, shape: Seq<usize>, coord: Seq<usize>)
    ensures
        (spec_classify_probe(dim, shape, coord) == ProbeStatus::InBounds)
            <==> (coord.len() == dim && forall|d: int| 0 <= d < dim ==> #[trigger] coord[d] < shape[d]),
        (spec_classify_probe(dim, shape, coord) == ProbeStatus::DimensionMismatch) <==> coord.len() != dim,
        forall|d: int| 0 <= d < dim && coord.len() == dim && #[trigger] coord[d] >= shape[d]
            ==> spec_classify_probe(dim, shape, coord) == ProbeStatus::OutOfBounds,
{
}

/// The side of a boundary cell at which the fluid lies; the wall is on the
/// other side.
#[derive(Clone, Copy, Debug, PartialEq, Eq, Structural)]
pub enum ZouHeWall {
    /// Fluid below: a top wall.
    Top,
    /// Fluid above: a bottom wall.
    Bottom,
    /// Fluid to the right: a left wall.
    Left,
    /// Fluid to the left: a right wall.
    Right,
}

/// Which wall a boundary cell is, from which of its four neighbours are
/// fluid: fluid on exactly one side of an axis puts the wall on the other
/// side, the vertical axis taking precedence; otherwise the cell is left
/// alone.
pub open spec fn spec_classify_wall(below: bool, above: bool, left: bool, right: bool) -> Option<ZouHeWall> {
    if below && !above {
        Some(ZouHeWall::Top)
    } else if above && !below {
        Some(ZouHeWall::Bottom)
    } else if right && !left {
        Some(ZouHeWall::Left)
    } else if left && !right {
        Some(ZouHeWall::Right)
    } else {
        None
    }
}

pub fn classify_wall(fluid_below: bool, fluid_above: bool, fluid_left: bool, fluid_right: bool) -> (r: Option<ZouHeWall>)
    ensures
        r == spec_classify_wall(fluid_below, fluid_above, fluid_left, fluid_right),
{
    if fluid_below && !fluid_above {
        Some(ZouHeWall::Top)
    } else if fluid_above && !fluid_below {
        Some(ZouHeWall::Bottom)
    } else if fluid_right && !fluid_left {
        Some(ZouHeWall::Left)
    } else if fluid_left && !fluid_right {
        Some(ZouHeWall::Right)
    } else {
        None
    }
}

/// The cell `(x + cx, y + cy)` of an `nx` by `ny` grid; `None` when it lies
/// outside (the outside counts as solid).
pub fn neighbor_cell(nx: usize, ny: usize, x: usize, y: usize, cx: i32, cy: i32) -> (r: Option<(usize, usize)>)
    requires
        x < nx <= i32::MAX,
        y < ny <= i32::MAX,
        -1 <= cx <= 1,
        -1 <= cy <= 1,
    ensures
        r == if 0 <= x + cx < nx && 0 <= y + cy < ny {
            Some(((x + cx) as usize, (y + cy) as usize))
        } else {
            None::<(usize, usize)>
        },
{
    let xi = x as i64 + cx as i64;
    let yi = y as i64 + cy as i64;
    if xi >= 0 && xi < nx as i64 && yi >= 0 && yi < ny as i64 {
        Some((xi as usize, yi as usize))
    } else {
        None
    }
}

/// The Zou-He velocity rule for one wall of a D2Q9 lattice. The density is
/// `f[known] + 2 f[outgoing]` (each summed over its three directions); the
/// unknown populations are set by bounce-back, `f[normal.0] = f[normal.1]`,
/// and `f[plus.0] = f[plus.1] + (rho u - (f[pair.0] - f[pair.1])) / 2`,
/// `f[minus.0] = f[minus.1] - (rho u - (f[pair.0] - f[pair.1])) / 2`, where
/// `u` is the wall velocity along `tangent_axis` (0 for x, 1 for y).
#[derive(Clone, Copy, Debug, PartialEq, Eq)]
pub struct ZouHeRule {
    pub known: (usize, usize, usize),
    pub outgoing: (usize, usize, usize),
    pub normal: (usize, usize),
    pub plus: (usize, usize),
    pub minus: (usize, usize),
    pub tangent_axis: usize,
    pub pair: (usize, usize),
}

pub open spec fn spec_zou_he_rule(w: ZouHeWall) -> ZouHeRule {
    match w {
        ZouHeWall::Top => ZouHeRule {
            known: (0, 1, 3),
            outgoing: (2, 5, 6),
            normal: (4, 2),
            plus: (8, 6),
            minus: (7, 5),
            tangent_axis: 0,
            pair: (1, 3),
        },
        ZouHeWall::Bottom => ZouHeRule {
            known: (0, 1, 3),
            outgoing: (4, 7, 8),
            normal: (2, 4),
            plus: (5, 7),
            minus: (6, 8),
            tangent_axis: 0,
            pair: (1, 3),
        },
        ZouHeWall::Left => ZouHeRule {
            known: (0, 2, 4),
            outgoing: (3, 6, 7),
            normal: (1, 3),
            plus: (5, 7),
            minus: (8, 6),
            tangent_axis: 1,
            pair: (2, 4),
        },
        ZouHeWall::Right => ZouHeRule {
            known: (0, 2, 4),
            outgoing: (1, 5, 8),
            normal: (3, 1),
            plus: (6, 8),
            minus: (7, 5),
            tangent_axis: 1,
            pair: (2, 4),
        },
    }
}

pub fn zou_he_rule(w: ZouHeWall) -> (r: ZouHeRule)
    ensures
        r == spec_zou_he_rule(w),
{
    match w {
        ZouHeWall::Top => ZouHeRule {
            known: (0, 1, 3),
            outgoing: (2, 5, 6),
            normal: (4, 2),
            plus: (8, 6),
            minus: (7, 5),
            tangent_axis: 0,
            pair: (1, 3),
        },
        ZouHeWall::Bottom => ZouHeRule {
            known: (0, 1, 3),
            outgoing: (4, 7, 8),
            normal: (2, 4),
            plus: (5, 7),
            minus: (6, 8),
            tangent_axis: 0,
            pair: (1, 3),
        },
        ZouHeWall::Left => ZouHeRule {
            known: (0, 2, 4),
            outgoing: (3, 6, 7),
            normal: (1, 3),
            plus: (5, 7),
            minus: (8, 6),
            tangent_axis: 1,
            pair: (2, 4),
        },
        ZouHeWall::Right => ZouHeRule {
            known: (0, 2, 4),
            outgoing: (1, 5, 8),
            normal: (3, 1),
            plus: (6, 8),
            minus: (7, 5),
            tangent_axis: 1,
            pair: (2, 4),
        },
    }
}

/// The component of direction `q` of the D2Q9 lattice along the normal that
/// points from the wall into the fluid.
pub open spec fn inward(w: ZouHeWall, q: int) -> int {
    match w {
        ZouHeWall::Top => -d2q9_cy(q),
        ZouHeWall::Bottom => d2q9_cy(q),
        ZouHeWall::Left => d2q9_cx(q),
        ZouHeWall::Right => -d2q9_cx(q),
    }
}

/// The component of direction `q` along the axis `axis` (0 for x, 1 for y).
pub open spec fn along(axis: usize, q: int) -> int {
    if axis == 0 { d2q9_cx(q) } else { d2q9_cy(q) }
}

/// The Zou-He rule of every wall fits the D2Q9 lattice: the populations it
/// sets are exactly those that point into the fluid, each is bounced back
/// from its opposite direction, the outgoing populations point into the
/// wall, the known ones run along it, the corrected pair runs along the
/// wall's tangent with components +1 and -1, and the rule's three groups
/// cover each of the nine directions once.
pub proof fn lemma_zou_he_fits_d2q9(w: ZouHeWall)
    ensures
        ({
            let r = spec_zou_he_rule(w);
            &&& forall|q: int| 0 <= q < 9 ==> (#[trigger] inward(w, q) == 1 <==> (q == r.normal.0 || q == r.plus.0 || q == r.minus.0))
            &&& forall|q: int| 0 <= q < 9 ==> (#[trigger] inward(w, q) == -1 <==> (q == r.outgoing.0 || q == r.outgoing.1 || q == r.outgoing.2))
            &&& forall|q: int| 0 <= q < 9 ==> (#[trigger] inward(w, q) == 0 <==> (q == r.known.0 || q == r.known.1 || q == r.known.2))
            &&& d2q9_opp(r.normal.0 as int) == r.normal.1
            &&& d2q9_opp(r.plus.0 as int) == r.plus.1
            &&& d2q9_opp(r.minus.0 as int) == r.minus.1
            &&& inward(w, r.pair.0 as int) == 0 && inward(w, r.pair.1 as int) == 0
            &&& along(r.tangent_axis, r.pair.0 as int) == 1 && along(r.tangent_axis, r.pair.1 as int) == -1
            &&& along(r.tangent_axis, r.plus.0 as int) == 1 && along(r.tangent_axis, r.minus.0 as int) == -1
            &&& along(r.tangent_axis, r.normal.0 as int) == 0
            &&& inward(w, r.normal.0 as int) == 1
        }),
{
}

/// The Zou-He velocity boundary of a D2Q9 lattice: at each masked cell, the
/// wall is found with `classify_wall` from the fluid neighbours
/// (`neighbor_cell`), and the unknown populations are set by the wall's
/// `zou_he_rule` from the known ones and the wall velocity.
#[derive(Clone, Copy, Debug)]
pub struct LbmZouHeVelocity;

/// The density that the Zou-He rule of wall `w` gives a cell with the
/// populations `f`: the known populations once, the outgoing ones twice.
pub open spec fn zou_he_density(w: ZouHeWall, f: Seq<int>) -> int {
    let r = spec_zou_he_rule(w);
    f[r.known.0 as int] + f[r.known.1 as int] + f[r.known.2 as int]
        + 2 * (f[r.outgoing.0 as int] + f[r.outgoing.1 as int] + f[r.outgoing.2 as int])
}

/// Twice the populations of a cell after the Zou-He rule of wall `w`, for
/// populations `f` and wall velocity `u` along the wall's tangent; doubled,
/// the halves of the rule stay whole.
pub open spec fn zou_he_doubled(w: ZouHeWall, f: Seq<int>, u: int) -> Seq<int> {
    zou_he_with_momentum(w, f, zou_he_density(w, f) * u)
}

/// Twice the populations after the Zou-He rule of wall `w`, for a target
/// momentum `m` along the wall.
pub open spec fn zou_he_with_momentum(w: ZouHeWall, f: Seq<int>, m: int) -> Seq<int> {
    let r = spec_zou_he_rule(w);
    let c = m - (f[r.pair.0 as int] - f[r.pair.1 as int]);
    Seq::new(9, |q: int|
        if q == r.normal.0 {
            2 * f[r.normal.1 as int]
        } else if q == r.plus.0 {
            2 * f[r.plus.1 as int] + c
        } else if q == r.minus.0 {
            2 * f[r.minus.1 as int] - c
        } else {
            2 * f[q]
        })
}

/// In exact arithmetic, the Zou-He rule of every wall gives the cell the
/// density it computes, the wall velocity times that density as momentum
/// along the wall, and no momentum through the wall.
#[verifier::rlimit(50)]
pub proof fn lemma_zou_he_moments(w: ZouHeWall, f: Seq<int>, u: int)
    requires
        f.len() == 9,
    ensures
        ({
            let g = zou_he_doubled(w, f, u);
            let rho = zou_he_density(w, f);
            let axis = spec_zou_he_rule(w).tangent_axis;
            &&& dir_sum(|q: int| g[q], 9) == 2 * rho
            &&& dir_sum(|q: int| along(axis, q) * g[q], 9) == 2 * (rho * u)
            &&& dir_sum(|q: int| inward(w, q) * g[q], 9) == 0
        }),
{
    lemma_zou_he_momentum(w, f, zou_he_density(w, f) * u);
}

#[verifier::rlimit(50)]
proof fn lemma_zou_he_momentum(w: ZouHeWall, f: Seq<int>, m: int)
    requires
        f.len() == 9,
    ensures
        ({
            let g = zou_he_with_momentum(w, f, m);
            let axis = spec_zou_he_rule(w).tangent_axis;
            &&& dir_sum(|q: int| g[q], 9) == 2 * zou_he_density(w, f)
            &&& dir_sum(|q: int| along(axis, q) * g[q], 9) == 2 * m
            &&& dir_sum(|q: int| inward(w, q) * g[q], 9) == 0
        }),
{
    reveal_with_fuel(dir_sum, 10);
    let g = zou_he_with_momentum(w, f, m);
    let axis = spec_zou_he_rule(w).tangent_axis;
    assert forall|q: int| 0 <= q < 9 implies #[trigger] (along(axis, q) * g[q]) == unit_times(along(axis, q), g[q]) by {
        lemma_unit_times(along(axis, q), g[q]);
    }
    assert forall|q: int| 0 <= q < 9 implies #[trigger] (inward(w, q) * g[q]) == unit_times(inward(w, q), g[q]) by {
        lemma_unit_times(inward(w, q), g[q]);
    }
}

/// `c * x` for a factor `c` of -1, 0 or 1.
spec fn unit_times(c: int, x: int) -> int {
    if c == 1 {
        x
    } else if c == -1 {
        -x
    } else {
        0
    }
}

proof fn lemma_unit_times(c: int, x: int)
    requires
        c == -1 || c == 0 || c == 1,
    ensures
        c * x == unit_times(c, x),
{
    if c == 1 {
        assert(c * x == x) by (nonlinear_arith)
            requires
                c == 1,
        ;
    } else if c == -1 {
        assert(c * x == -x) by (nonlinear_arith)
            requires
                c == -1,
        ;
    } else {
        assert(c * x == 0) by (nonlinear_arith)
            requires
                c == 0,
        ;
    }
}

/// How a probe coordinate relates to a tensor of lattice populations.
#[derive(Clone, Copy, Debug, PartialEq, Eq, Structural)]
pub enum ProbeStatus {
    /// The coordinate does not have one entry per lattice dimension.
    DimensionMismatch,
    /// Some entry lies beyond the tensor's extent in that dimension.
    OutOfBounds,
    /// The coordinate names a cell of the tensor.
    InBounds,
}

pub open spec fn spec_classify_probe(dim: nat, shape: Seq<usize>, coord: Seq<usize>) -> ProbeStatus {
    if coord.len() != dim {
        ProbeStatus::DimensionMismatch
    } else if exists|d: int| 0 <= d < dim && coord[d] >= shape[d] {
        ProbeStatus::OutOfBounds
    } else {
        ProbeStatus::InBounds
    }
}

/// Reports density and velocity of the lattice populations at given cells.
pub struct LbmProbeExtractor<T: LatticeTopology> {
    _marker: PhantomData<T>,
}

impl<T: LatticeTopology> LbmProbeExtractor<T> {
    pub fn new() -> (r: LbmProbeExtractor<T>) {
        LbmProbeExtractor { _marker: PhantomData }
    }

    /// Classifies a probe coordinate against the first extents of a
    /// population tensor, one per lattice dimension.
    pub fn classify(&self, shape: &Vec<usize>, coord: &Vec<usize>) -> (r: ProbeStatus)
        requires
            coord.len() == T::spec_dim() ==> shape.len() >= T::spec_dim(),
        ensures
            r == spec_classify_probe(T::spec_dim(), shape@, coord@),
    {
        let dim = T::dim();
        if coord.len() != dim {
            return ProbeStatus::DimensionMismatch;
        }
        let mut d: usize = 0;
        while d < dim
            invariant
                dim == T::spec_dim(),
                coord.len() == dim,
                shape.len() >= dim,
                d <= dim,
                forall|e: int| 0 <= e < d ==> coord@[e] < shape@[e],
            decreases dim - d,
        {
            if coord[d] >= shape[d] {
                return ProbeStatus::OutOfBounds;
            }
            d = d + 1;
        }
        ProbeStatus::InBounds
    }
}

/// Writes the density and velocity of the lattice populations as a VTK
/// image of `nx` by `ny` (by `nz`) points.
pub struct LbmVtkExporter<T: LatticeTopology> {
    pub nx: usize,
    pub ny: usize,
    pub nz: usize,
    pub lattice: PhantomData<T>,
}

impl<T: LatticeTopology> LbmVtkExporter<T> {
    pub fn new(nx: usize, ny: usize, nz: usize) -> (r: LbmVtkExporter<T>)
        ensures
            r.nx == nx,
            r.ny == ny,
            r.nz == nz,
    {
        LbmVtkExporter { nx, ny, nz, lattice: PhantomData }
    }

    /// The last index along each axis of the image: the extent written to
    /// the file. A two-dimensional image has extent 0 along z.
    pub fn extent(&self) -> (r: (usize, usize, usize))
        requires
            self.nx >= 1,
            self.ny >= 1,
            T::spec_dim() != 2 ==> self.nz >= 1,
        ensures
            r == (((self.nx - 1) as usize, (self.ny - 1) as usize, if T::spec_dim() == 2 { 0 } else { (self.nz - 1) as usize })),
    {
        if T::dim() == 2 {
            (self.nx - 1, self.ny - 1, 0)
        } else {
            (self.nx - 1, self.ny - 1, self.nz - 1)
        }
    }

    /// The number of points of the image: `nx * ny`, times `nz` in three
    /// dimensions. `None` when `nx * ny`, or the whole count, does not fit
    /// in a `usize`.
    pub fn point_count(&self) -> (r: Option<usize>)
        ensures
            ({
                let n = self.nx * self.ny * (if T::spec_dim() == 2 { 1 } else { self.nz as int });
                &&& r is Some <==> self.nx * self.ny <= usize::MAX && n <= usize::MAX
                &&& r matches Some(c) ==> c == n
            }),
    {
        match self.nx.checked_mul(self.ny) {
            Some(plane) => {
                if T::dim() == 2 {
                    Some(plane)
                } else {
                    plane.checked_mul(self.nz)
                }
            },
            None => None,
        }
    }

    /// The point written at position `i` of each data array of the image,
    /// as `(x, y, z)`: the image is traversed with z slowest, then y, then x
    /// fastest and descending from `nx - 1`, so that
    /// `i == (z * ny + y) * nx + (nx - 1 - x)`.
    pub fn point(&self, i: usize) -> (r: (usize, usize, usize))
        requires
            self.nx >= 1,
            self.ny >= 1,
        ensures
            r.0 < self.nx,
            r.1 < self.ny,
            i == (r.2 * self.ny + r.1) * self.nx + (self.nx - 1 - r.0),
    {
        let nx = self.nx;
        let ny = self.ny;
        let k = i % nx;
        let row = i / nx;
        let y = row % ny;
        let z = row / ny;
        proof {
            vstd::arithmetic::div_mod::lemma_fundamental_div_mod(i as int, nx as int);
            vstd::arithmetic::div_mod::lemma_fundamental_div_mod(row as int, ny as int);
            assert(i == (z * ny + y) * nx + k) by (nonlinear_arith)
                requires
                    i == nx * row + k,
                    row == ny * z + y,
            ;
        }
        (nx - 1 - k, y, z)
    }
}

} // verus!
