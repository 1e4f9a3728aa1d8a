use vstd::prelude::*;

verus! {

/// The extents of a tensor, outermost dimension first.
#[derive(Debug, PartialEq, Eq)]
pub struct Shape(pub Vec<usize>);

impl View for Shape {
    type V = Seq<usize>;

    open spec fn view(&self) -> Seq<usize> {
        self.0@
    }
}

/// The extent of `s` counted from its last dimension; missing leading
/// dimensions count as 1.
pub open spec fn dim_from_end(s: Seq<usize>, i: int) -> int {
    if 0 <= i < s.len() {
        s[s.len() - 1 - i] as int
    } else {
        1
    }
}

/// Two extents broadcast together when they agree or one of them is 1.
pub open spec fn dims_compatible(x: int, y: int) -> bool {
    x == y || x == 1 || y == 1
}

/// The extent that two compatible extents broadcast to.
pub open spec fn broadcast_dim(x: int, y: int) -> int {
    if x == y {
        x
    } else if x == 1 {
        y
    } else {
        x
    }
}

pub open spec fn rank_max(a: Seq<usize>, b: Seq<usize>) -> nat {
    if a.len() >= b.len() {
        a.len()
    } else {
        b.len()
    }
}

/// Trailing-dimension broadcasting is possible for `a` and `b`.
pub open spec fn broadcastable(a: Seq<usize>, b: Seq<usize>) -> bool {
    forall|i: int|
        0 <= i < rank_max(a, b) ==> dims_compatible(
            #[trigger] dim_from_end(a, i),
            dim_from_end(b, i),
        )
}

/// The broadcast shape of `a` and `b` (meaningful when `broadcastable(a, b)`).
pub open spec fn broadcast_shape(a: Seq<usize>, b: Seq<usize>) -> Seq<usize> {
    let n = rank_max(a, b);
    Seq::new(
        n,
        |j: int| broadcast_dim(dim_from_end(a, n - 1 - j), dim_from_end(b, n - 1 - j)) as usize,
    )
}

impl Shape {
    /// A copy of this shape.
    pub fn duplicate(&self) -> (r: Shape)
        ensures
            r@ == self@,
    {
        let mut v: Vec<usize> = Vec::new();
        let mut i: usize = 0;
        while i < self.0.len()
            invariant
                i <= self.0.len(),
                v@ == self.0@.subrange(0, i as int),
            decreases self.0.len() - i,
        {
            v.push(self.0[i]);
            i = i + 1;
        }
        Shape(v)
    }

    /// Whether two shapes have the same extents.
    pub fn same_as(&self, other: &Shape) -> (r: bool)
        ensures
            r == (self@ == other@),
    {
        if self.0.len() != other.0.len() {
            return false;
        }
        let mut i: usize = 0;
        while i < self.0.len()
            invariant
                i <= self.0.len(),
                self.0.len() == other.0.len(),
                forall|k: int| 0 <= k < i ==> self.0@[k] == other.0@[k],
            decreases self.0.len() - i,
        {
            if self.0[i] != other.0[i] {
                return false;
            }
            i = i + 1;
        }
        assert(self@ =~= other@);
        true
    }
}

/// Broadcasts two shapes with NumPy's trailing-dimension rule: equal shapes
/// give themselves, a rank-0 shape takes the other one, and otherwise the
/// extents are matched from the last dimension, where an extent of 1
/// stretches to the other. `None` when some pair of extents differs and
/// neither is 1.
pub fn broadcast_shapes(a: &Shape, b: &Shape) -> (r: Option<Shape>)
    ensures
        r is Some <==> broadcastable(a@, b@),
        r matches Some(s) ==> s@ == broadcast_shape(a@, b@),
{
    let la = a.0.len();
    let lb = b.0.len();
    let n = if la >= lb { la } else { lb };
    let mut out: Vec<usize> = Vec::new();
    let mut j: usize = 0;
    while j < n
        invariant
            la == a@.len(),
            lb == b@.len(),
            n == rank_max(a@, b@),
            j <= n,
            out@.len() == j,
            forall|k: int|
                0 <= k < j ==> #[trigger] out@[k] == broadcast_shape(a@, b@)[k] && dims_compatible(
                    dim_from_end(a@, n - 1 - k),
                    dim_from_end(b@, n - 1 - k),
                ),
        decreases n - j,
    {
        let i = n - 1 - j;
        let da: usize = if i < la { a.0[la - 1 - i] } else { 1 };
        let db: usize = if i < lb { b.0[lb - 1 - i] } else { 1 };
        assert(da == dim_from_end(a@, i as int));
        assert(db == dim_from_end(b@, i as int));
        if da == db {
            out.push(da);
        } else if da == 1 {
            out.push(db);
        } else if db == 1 {
            out.push(da);
        } else {
            assert(!dims_compatible(dim_from_end(a@, i as int), dim_from_end(b@, i as int)));
            return None;
        }
        j = j + 1;
    }
    assert forall|i: int| 0 <= i < rank_max(a@, b@) implies dims_compatible(
        #[trigger] dim_from_end(a@, i),
        dim_from_end(b@, i),
    ) by {
        let k = n - 1 - i;
        assert(0 <= k < n);
        assert(out@[k] == broadcast_shape(a@, b@)[k]);
    }
    assert(out@ =~= broadcast_shape(a@, b@));
    Some(Shape(out))
}

/// Broadcasting does not depend on the order of the operands: either both
/// orders broadcast, to the same shape, or neither does.
pub proof fn lemma_broadcast_commutative(a: Seq<usize>, b: Seq<usize>)
    ensures
        broadcastable(a, b) == broadcastable(b, a),
        broadcastable(a, b) ==> broadcast_shape(a, b) == broadcast_shape(b, a),
{
    assert(rank_max(a, b) == rank_max(b, a));
    if broadcastable(a, b) {
        assert forall|i: int| 0 <= i < rank_max(b, a) implies dims_compatible(
            #[trigger] dim_from_end(b, i),
            dim_from_end(a, i),
        ) by {
            assert(dims_compatible(dim_from_end(a, i), dim_from_end(b, i)));
        }
        let n = rank_max(a, b);
        assert forall|j: int| 0 <= j < n implies #[trigger] broadcast_shape(a, b)[j]
            == broadcast_shape(b, a)[j] by {
            assert(dims_compatible(dim_from_end(a, n - 1 - j), dim_from_end(b, n - 1 - j)));
        }
        assert(broadcast_shape(a, b) =~= broadcast_shape(b, a));
    }
    if broadcastable(b, a) {
        assert forall|i: int| 0 <= i < rank_max(a, b) implies dims_compatible(
            #[trigger] dim_from_end(a, i),
            dim_from_end(b, i),
        ) by {
            assert(dims_compatible(dim_from_end(b, i), dim_from_end(a, i)));
        }
    }
}

/// A shape broadcast with itself is itself.
pub proof fn lemma_broadcast_self(a: Seq<usize>)
    ensures
        broadcastable(a, a),
        broadcast_shape(a, a) == a,
{
    assert forall|i: int| 0 <= i < rank_max(a, a) implies dims_compatible(
        #[trigger] dim_from_end(a, i),
        dim_from_end(a, i),
    ) by {}
    assert(broadcast_shape(a, a) =~= a);
}

/// A rank-0 shape (a scalar) broadcasts with any shape, giving that shape.
pub proof fn lemma_broadcast_scalar(b: Seq<usize>)
    ensures
        broadcastable(Seq::<usize>::empty(), b),
        broadcast_shape(Seq::<usize>::empty(), b) == b,
{
    let e = Seq::<usize>::empty();
    assert forall|i: int| 0 <= i < rank_max(e, b) implies dims_compatible(
        #[trigger] dim_from_end(e, i),
        dim_from_end(b, i),
    ) by {}
    assert(broadcast_shape(e, b) =~= b);
}

/// Broadcasting never lowers the rank: the result has the rank of the
/// longer operand, and every extent of an operand that is not 1 survives in
/// the result at its trailing position.
pub proof fn lemma_broadcast_keeps_extents(a: Seq<usize>, b: Seq<usize>, i: int)
    requires
        broadcastable(a, b),
        0 <= i < a.len(),
        dim_from_end(a, i) != 1,
    ensures
        broadcast_shape(a, b).len() == rank_max(a, b),
        dim_from_end(broadcast_shape(a, b), i) == dim_from_end(a, i),
{
    assert(dims_compatible(dim_from_end(a, i), dim_from_end(b, i)));
}

} // verus!
