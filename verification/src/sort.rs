use vstd::prelude::*;

verus! {

/// The position of the first element of `t` greater than `x` (the length
/// when there is none).
pub open spec fn first_greater(t: Seq<u128>, x: u128) -> nat
    decreases t.len(),
{
    if t.len() == 0 {
        0
    } else if t[0] > x {
        0
    } else {
        1 + first_greater(t.drop_first(), x)
    }
}

/// `x` inserted into `t` before the first greater element.
pub open spec fn insert_sorted(t: Seq<u128>, x: u128) -> Seq<u128> {
    t.insert(first_greater(t, x) as int, x)
}

/// `s` sorted ascending by insertion, equal elements kept in order.
pub open spec fn sort_ids(s: Seq<u128>) -> Seq<u128>
    decreases s.len(),
{
    if s.len() == 0 {
        Seq::empty()
    } else {
        insert_sorted(sort_ids(s.drop_last()), s.last())
    }
}

pub open spec fn is_sorted(s: Seq<u128>) -> bool {
    forall|i: int, j: int| 0 <= i <= j < s.len() ==> s[i] <= s[j]
}

proof fn lemma_first_greater(t: Seq<u128>, x: u128, j: int)
    requires
        0 <= j <= t.len(),
        forall|k: int| 0 <= k < j ==> t[k] <= x,
        j == t.len() || t[j] > x,
    ensures
        first_greater(t, x) == j,
    decreases j,
{
    if j > 0 {
        let d = t.drop_first();
        assert forall|k: int| 0 <= k < j - 1 implies d[k] <= x by {
            assert(d[k] == t[k + 1]);
        }
        if j < t.len() {
            assert(d[j - 1] == t[j]);
        }
        lemma_first_greater(d, x, j - 1);
    }
}

proof fn lemma_first_greater_bounds(t: Seq<u128>, x: u128)
    ensures
        first_greater(t, x) <= t.len(),
        forall|k: int| 0 <= k < first_greater(t, x) ==> t[k] <= x,
        first_greater(t, x) < t.len() ==> t[first_greater(t, x) as int] > x,
    decreases t.len(),
{
    if t.len() > 0 && t[0] <= x {
        let d = t.drop_first();
        lemma_first_greater_bounds(d, x);
        assert forall|k: int| 0 <= k < first_greater(t, x) implies t[k] <= x by {
            if k > 0 {
                assert(t[k] == d[k - 1]);
            }
        }
    }
}

/// Inserting into a sorted sequence before the first greater element keeps
/// it sorted and adds exactly that element.
pub proof fn lemma_insert_sorted(t: Seq<u128>, x: u128)
    requires
        is_sorted(t),
    ensures
        is_sorted(insert_sorted(t, x)),
        insert_sorted(t, x).to_multiset() == t.to_multiset().insert(x),
{
    lemma_first_greater_bounds(t, x);
    let j = first_greater(t, x) as int;
    let u = insert_sorted(t, x);
    assert forall|a: int, b: int| 0 <= a <= b < u.len() implies u[a] <= u[b] by {
        if a < j && b < j {
        } else if a < j && b == j {
        } else if a < j && b > j {
            assert(u[b] == t[b - 1]);
        } else if a == j && b == j {
        } else if a == j && b > j {
            assert(u[b] == t[b - 1]);
            assert(t[j] > x);
            assert(t[j] <= t[b - 1]);
        } else {
            assert(u[a] == t[a - 1] && u[b] == t[b - 1]);
        }
    }
    t.insert_ensures(j, x);
    vstd::seq_lib::lemma_seq_union_to_multiset_commutative::<u128>(t.subrange(0, j), t.subrange(j, t.len() as int));
    assert(u =~= t.subrange(0, j).push(x) + t.subrange(j, t.len() as int));
    assert(t =~= t.subrange(0, j) + t.subrange(j, t.len() as int));
    vstd::seq_lib::lemma_multiset_commutative(t.subrange(0, j).push(x), t.subrange(j, t.len() as int));
    vstd::seq_lib::lemma_multiset_commutative(t.subrange(0, j), t.subrange(j, t.len() as int));
    t.subrange(0, j).to_multiset_ensures();
    assert(u.to_multiset() =~= t.to_multiset().insert(x));
}

/// Sorting by insertion gives an ascending sequence with the same elements.
pub proof fn lemma_sort_ids(s: Seq<u128>)
    ensures
        is_sorted(sort_ids(s)),
        sort_ids(s).to_multiset() == s.to_multiset(),
        sort_ids(s).len() == s.len(),
    decreases s.len(),
{
    if s.len() > 0 {
        lemma_sort_ids(s.drop_last());
        lemma_insert_sorted(sort_ids(s.drop_last()), s.last());
        s.drop_last().to_multiset_ensures();
        assert(s.drop_last().push(s.last()) =~= s);
        sort_ids(s).to_multiset_ensures();
    } else {
        assert(sort_ids(s) =~= s);
    }
}

/// The elements of `s`, ascending.
pub fn sorted_ids(s: &Vec<u128>) -> (r: Vec<u128>)
    ensures
        r@ == sort_ids(s@),
{
    let mut r: Vec<u128> = Vec::new();
    let mut i: usize = 0;
    assert(s@.subrange(0, 0) =~= Seq::<u128>::empty());
    while i < s.len()
        invariant
            i <= s.len(),
            r@ == sort_ids(s@.subrange(0, i as int)),
        decreases s.len() - i,
    {
        let x = s[i];
        let mut j: usize = 0;
        while j < r.len() && r[j] <= x
            invariant
                j <= r.len(),
                forall|k: int| 0 <= k < j ==> r@[k] <= x,
            decreases r.len() - j,
        {
            j = j + 1;
        }
        proof {
            lemma_first_greater(r@, x, j as int);
            assert(s@.subrange(0, i + 1).drop_last() =~= s@.subrange(0, i as int));
        }
        r.insert(j, x);
        i = i + 1;
    }
    assert(s@.subrange(0, s.len() as int) =~= s@);
    r
}

} // verus!
