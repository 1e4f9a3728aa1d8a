use vstd::prelude::*;
use crate::error::GraphError;

verus! {

/// No id occurs twice.
pub open spec fn ids_distinct(ids: Seq<u128>) -> bool {
    forall|i: int, j: int| 0 <= i < ids.len() && 0 <= j < ids.len() && i != j ==> ids[i] != ids[j]
}

pub open spec fn deps_view(deps: Seq<Vec<u128>>) -> Seq<Seq<u128>> {
    deps.map_values(|v: Vec<u128>| v@)
}

/// Every dependency that a node names is the id of a node of the graph.
pub open spec fn deps_known(ids: Seq<u128>, deps: Seq<Seq<u128>>) -> bool {
    forall|i: int, k: int|
        0 <= i < deps.len() && 0 <= k < deps[i].len() ==> ids.contains(#[trigger] deps[i][k])
}

/// The node with id `a` names `b` among its dependencies.
pub open spec fn depends_on(ids: Seq<u128>, deps: Seq<Seq<u128>>, a: u128, b: u128) -> bool {
    exists|i: int| 0 <= i < ids.len() && ids[i] == a && #[trigger] deps[i].contains(b)
}

/// `order` lists every node exactly once, and no node comes at or before a
/// node that it depends on.
pub open spec fn is_schedule(ids: Seq<u128>, deps: Seq<Seq<u128>>, order: Seq<u128>) -> bool {
    &&& order.len() == ids.len()
    &&& order.no_duplicates()
    &&& forall|i: int| 0 <= i < ids.len() ==> order.contains(#[trigger] ids[i])
    &&& forall|p: int| 0 <= p < order.len() ==> ids.contains(#[trigger] order[p])
    &&& forall|p: int, q: int|
        0 <= p <= q < order.len() ==> !depends_on(ids, deps, #[trigger] order[p], #[trigger] order[q])
}

/// Node `c` (the node at position `c` of `ids`) names a dependency that is
/// not among `placed`.
pub open spec fn waits(deps: Seq<Seq<u128>>, placed: Seq<u128>, c: int) -> bool {
    exists|k: int| 0 <= k < deps[c].len() && !placed.contains(#[trigger] deps[c][k])
}

/// Each node of `order` is the first node in `ids` that is free to go at its
/// turn: every node listed before it in `ids` and not yet placed still waits
/// on a dependency that is not placed.
pub open spec fn picks_first_ready(ids: Seq<u128>, deps: Seq<Seq<u128>>, order: Seq<u128>) -> bool {
    forall|p: int, j: int|
        #![trigger order[p], ids[j]]
        0 <= p < order.len() && 0 <= j < ids.len() && ids[j] == order[p] ==> forall|c: int|
            0 <= c < j && !order.subrange(0, p).contains(#[trigger] ids[c]) ==> waits(
                deps,
                order.subrange(0, p),
                c,
            )
}

/// Number of `false` entries.
pub open spec fn count_false(s: Seq<bool>) -> nat
    decreases s.len(),
{
    if s.len() == 0 {
        0
    } else {
        count_false(s.drop_last()) + if s.last() {
            0nat
        } else {
            1nat
        }
    }
}

proof fn lemma_count_false_update(s: Seq<bool>, i: int)
    requires
        0 <= i < s.len(),
        !s[i],
    ensures
        count_false(s.update(i, true)) + 1 == count_false(s),
    decreases s.len(),
{
    let t = s.update(i, true);
    if i == s.len() - 1 {
        assert(t.drop_last() =~= s.drop_last());
    } else {
        assert(t.drop_last() =~= s.drop_last().update(i, true));
        lemma_count_false_update(s.drop_last(), i);
    }
}

proof fn lemma_count_false_pos(s: Seq<bool>) -> (j: int)
    requires
        count_false(s) > 0,
    ensures
        0 <= j < s.len(),
        !s[j],
    decreases s.len(),
{
    if !s.last() {
        s.len() - 1
    } else {
        let j = lemma_count_false_pos(s.drop_last());
        j
    }
}

proof fn lemma_count_false_all(s: Seq<bool>)
    ensures
        count_false(s) <= s.len(),
        (forall|i: int| 0 <= i < s.len() ==> !s[i]) ==> count_false(s) == s.len(),
    decreases s.len(),
{
    if s.len() > 0 {
        lemma_count_false_all(s.drop_last());
    }
}

/// Dependencies resolved to node positions: `dix[i][k]` is the position of
/// the `k`-th dependency of node `i`.
spec fn resolved(ids: Seq<u128>, deps: Seq<Seq<u128>>, dix: Seq<Seq<usize>>) -> bool {
    &&& dix.len() == deps.len()
    &&& dix.len() == ids.len()
    &&& ids.len() <= usize::MAX
    &&& forall|i: int| 0 <= i < dix.len() ==> (#[trigger] dix[i]).len() == deps[i].len()
    &&& forall|i: int, k: int|
        0 <= i < dix.len() && 0 <= k < dix[i].len() ==> #[trigger] dix[i][k] < ids.len() && ids[dix[i][k] as int]
            == deps[i][k]
}

/// Position `d` is placed in `order` before position `p`.
spec fn placed_before(order: Seq<usize>, p: int, d: usize) -> bool {
    exists|q: int| 0 <= q < p && #[trigger] order[q] == d
}

spec fn all_deps_placed(dix: Seq<Seq<usize>>, placed: Seq<bool>, i: int) -> bool {
    forall|k: int| 0 <= k < dix[i].len() ==> placed[#[trigger] dix[i][k] as int]
}

spec fn pos_waits(dix: Seq<Seq<usize>>, placed: Seq<usize>, c: int) -> bool {
    exists|k: int| 0 <= k < dix[c].len() && !placed.contains(#[trigger] dix[c][k])
}

/// Every node placed at position `p` of `order` was the first free one.
spec fn first_ready_pos(dix: Seq<Seq<usize>>, order: Seq<usize>) -> bool {
    forall|p: int, c: int|
        0 <= p < order.len() && 0 <= c < order[p] && !order.subrange(0, p).contains(c as usize)
            ==> #[trigger] pos_waits(dix, order.subrange(0, p), c)
}

spec fn kahn_inv(n: nat, dix: Seq<Seq<usize>>, placed: Seq<bool>, order: Seq<usize>) -> bool {
    &&& placed.len() == n
    &&& dix.len() == n
    &&& order.len() + count_false(placed) == n
    &&& order.no_duplicates()
    &&& forall|p: int| 0 <= p < order.len() ==> #[trigger] order[p] < n
    &&& forall|i: int| 0 <= i < n ==> (placed[i] <==> order.contains(i as usize))
    &&& forall|p: int, k: int|
        0 <= p < order.len() && 0 <= k < dix[order[p] as int].len() ==> placed_before(
            order,
            p,
            #[trigger] dix[order[p] as int][k],
        )
    &&& first_ready_pos(dix, order)
}

fn index_of(ids: &Vec<u128>, x: u128) -> (r: Option<usize>)
    ensures
        r matches Some(j) ==> j < ids.len() && ids@[j as int] == x,
        r is None ==> !ids@.contains(x),
{
    let mut j: usize = 0;
    while j < ids.len()
        invariant
            j <= ids.len(),
            forall|q: int| 0 <= q < j ==> ids@[q] != x,
        decreases ids.len() - j,
    {
        if ids[j] == x {
            return Some(j);
        }
        j = j + 1;
    }
    None
}

fn deps_placed(ds: &Vec<usize>, placed: &Vec<bool>) -> (r: bool)
    requires
        forall|k: int| 0 <= k < ds.len() ==> ds@[k] < placed.len(),
    ensures
        r == forall|k: int| 0 <= k < ds.len() ==> placed@[#[trigger] ds@[k] as int],
{
    let mut k: usize = 0;
    while k < ds.len()
        invariant
            k <= ds.len(),
            forall|k2: int| 0 <= k2 < ds.len() ==> ds@[k2] < placed.len(),
            forall|k2: int| 0 <= k2 < k ==> placed@[#[trigger] ds@[k2] as int],
        decreases ds.len() - k,
    {
        if !placed[ds[k]] {
            return false;
        }
        k = k + 1;
    }
    true
}

/// When every unplaced node waits on another unplaced node, no schedule
/// exists: the first unplaced node of any candidate order would come before
/// one of its own dependencies.
proof fn lemma_stuck_no_schedule(
    ids: Seq<u128>,
    deps: Seq<Seq<u128>>,
    dix: Seq<Seq<usize>>,
    placed: Seq<bool>,
    o: Seq<u128>,
)
    requires
        ids_distinct(ids),
        resolved(ids, deps, dix),
        placed.len() == ids.len(),
        exists|j: int| 0 <= j < ids.len() && !placed[j],
        forall|i: int|
            0 <= i < ids.len() && !placed[i] ==> exists|k: int|
                0 <= k < dix[i].len() && !placed[#[trigger] dix[i][k] as int],
    ensures
        !is_schedule(ids, deps, o),
{
    if is_schedule(ids, deps, o) {
        // every position of `o` holds a placed node
        assert forall|p: int| 0 <= p < o.len() implies forall|i: int|
            0 <= i < ids.len() && ids[i] == #[trigger] o[p] ==> placed[i] by {
            lemma_prefix_placed(ids, deps, dix, placed, o, p);
        }
        let j = choose|j: int| 0 <= j < ids.len() && !placed[j];
        assert(o.contains(ids[j]));
        let p = choose|p: int| 0 <= p < o.len() && o[p] == ids[j];
        assert(placed[j]);
    }
}

proof fn lemma_prefix_placed(
    ids: Seq<u128>,
    deps: Seq<Seq<u128>>,
    dix: Seq<Seq<usize>>,
    placed: Seq<bool>,
    o: Seq<u128>,
    p: int,
)
    requires
        ids_distinct(ids),
        resolved(ids, deps, dix),
        placed.len() == ids.len(),
        forall|i: int|
            0 <= i < ids.len() && !placed[i] ==> exists|k: int|
                0 <= k < dix[i].len() && !placed[#[trigger] dix[i][k] as int],
        is_schedule(ids, deps, o),
        0 <= p < o.len(),
    ensures
        forall|i: int| 0 <= i < ids.len() && ids[i] == o[p] ==> placed[i],
    decreases p,
{
    assert forall|i: int| 0 <= i < ids.len() && ids[i] == o[p] implies placed[i] by {
        if !placed[i] {
            let k = choose|k: int| 0 <= k < dix[i].len() && !placed[#[trigger] dix[i][k] as int];
            assert(dix[i].len() == deps[i].len());
            let d = dix[i][k] as int;
            let b = ids[d];
            assert(deps[i][k] == b);
            assert(deps[i].contains(b));
            assert(depends_on(ids, deps, o[p], b));
            assert(o.contains(ids[d]));
            let q = choose|q: int| 0 <= q < o.len() && o[q] == b;
            if q >= p {
                assert(!depends_on(ids, deps, o[p], o[q]));
            } else {
                lemma_prefix_placed(ids, deps, dix, placed, o, q);
            }
        }
    }
}

/// Orders the nodes so that every node comes after the nodes it depends on.
/// `ids[i]` is the id of node `i` and `deps[i]` the ids it depends on. Of the
/// nodes whose dependencies are all placed, the one that comes first in
/// `ids` is placed next.
pub fn schedule(ids: &Vec<u128>, deps: &Vec<Vec<u128>>) -> (r: Result<Vec<u128>, GraphError>)
    requires
        ids.len() == deps.len(),
        ids_distinct(ids@),
    ensures
        match r {
            Ok(order) => deps_known(ids@, deps_view(deps@)) && is_schedule(
                ids@,
                deps_view(deps@),
                order@,
            ) && picks_first_ready(ids@, deps_view(deps@), order@),
            Err(GraphError::UnknownDependency { node, dep }) => exists|i: int, k: int|
                0 <= i < ids.len() && 0 <= k < deps@[i]@.len() && ids@[i] == node && deps@[i]@[k]
                    == dep && !ids@.contains(dep),
            Err(GraphError::Cycle) => deps_known(ids@, deps_view(deps@)) && forall|o: Seq<u128>|
                !is_schedule(ids@, deps_view(deps@), o),
            Err(_) => false,
        },
{
    let n = ids.len();
    let ghost dv = deps_view(deps@);
    // resolve every dependency to a node position
    let mut dix: Vec<Vec<usize>> = Vec::new();
    let mut i: usize = 0;
    while i < n
        invariant
            n == ids.len(),
            n == deps.len(),
            dv == deps_view(deps@),
            i <= n,
            dix@.len() == i,
            forall|i2: int|
                0 <= i2 < i ==> (#[trigger] dix@[i2])@.len() == dv[i2].len() && forall|k: int|
                    #![trigger dix@[i2]@[k]]
                    0 <= k < dix@[i2]@.len() ==> dix@[i2]@[k] < n && ids@[dix@[i2]@[k] as int]
                        == dv[i2][k],
        decreases n - i,
    {
        let ds = &deps[i];
        let mut row: Vec<usize> = Vec::new();
        let mut k: usize = 0;
        while k < ds.len()
            invariant
                n == ids.len(),
                n == deps.len(),
                i < n,
                ds@ == dv[i as int],
                dv == deps_view(deps@),
                k <= ds.len(),
                row@.len() == k,
                forall|k2: int|
                    #![trigger row@[k2]]
                    0 <= k2 < k ==> row@[k2] < n && ids@[row@[k2] as int] == ds@[k2],
            decreases ds.len() - k,
        {
            match index_of(ids, ds[k]) {
                Some(j) => {
                    row.push(j);
                },
                None => {
                    proof {
                        assert(dv[i as int] == deps@[i as int]@);
                        assert(deps@[i as int]@[k as int] == ds@[k as int]);
                    }
                    return Err(GraphError::UnknownDependency { node: ids[i], dep: ds[k] });
                },
            }
            k = k + 1;
        }
        let ghost old_dix = dix@;
        dix.push(row);
        proof {
            assert forall|i2: int|
                0 <= i2 < i + 1 implies (#[trigger] dix@[i2])@.len() == dv[i2].len() && forall|k: int|
                #![trigger dix@[i2]@[k]]
                0 <= k < dix@[i2]@.len() ==> dix@[i2]@[k] < n && ids@[dix@[i2]@[k] as int]
                    == dv[i2][k] by {
                if i2 < i {
                    assert(dix@[i2] == old_dix[i2]);
                } else {
                    assert(dix@[i2]@ == row@);
                    assert forall|k: int| 0 <= k < dix@[i2]@.len() implies dix@[i2]@[k] < n && ids@[dix@[i2]@[k] as int]
                        == dv[i2][k] by {
                        assert(row@[k] < n && ids@[row@[k] as int] == ds@[k]);
                    }
                }
            }
        }
        i = i + 1;
    }
    let ghost dixv: Seq<Seq<usize>> = dix@.map_values(|v: Vec<usize>| v@);
    assert forall|i2: int| 0 <= i2 < n implies #[trigger] dixv[i2] == dix@[i2]@ by {}
    assert forall|i2: int, k: int|
        0 <= i2 < dixv.len() && 0 <= k < dixv[i2].len() implies #[trigger] dixv[i2][k] < ids.len()
            && ids@[dixv[i2][k] as int] == dv[i2][k] by {
        assert(dixv[i2] == dix@[i2]@);
        assert(dix@[i2]@[k] < n && ids@[dix@[i2]@[k] as int] == dv[i2][k]);
    }
    assert(resolved(ids@, dv, dixv));
    assert(deps_known(ids@, dv)) by {
        assert forall|i2: int, k: int|
            0 <= i2 < dv.len() && 0 <= k < dv[i2].len() implies ids@.contains(
            #[trigger] dv[i2][k],
        ) by {
            assert(dixv[i2].len() == dv[i2].len());
            let d = dixv[i2][k] as int;
            assert(ids@[d] == dv[i2][k]);
        }
    }
    // place nodes one at a time
    let mut placed: Vec<bool> = Vec::new();
    let mut i: usize = 0;
    while i < n
        invariant
            i <= n,
            placed@.len() == i,
            forall|i2: int| 0 <= i2 < i ==> !placed@[i2],
        decreases n - i,
    {
        placed.push(false);
        i = i + 1;
    }
    proof {
        lemma_count_false_all(placed@);
    }
    let mut order: Vec<usize> = Vec::new();
    while order.len() < n
        invariant
            n == ids.len(),
            ids_distinct(ids@),
            deps_known(ids@, dv),
            dv == deps_view(deps@),
            dix@.len() == n,
            resolved(ids@, dv, dixv),
            dixv == dix@.map_values(|v: Vec<usize>| v@),
            kahn_inv(n as nat, dixv, placed@, order@),
        decreases count_false(placed@),
    {
        let ghost old_placed = placed@;
        let ghost old_order = order@;
        // look for an unplaced node whose dependencies are all placed
        let mut found: Option<usize> = None;
        let mut c: usize = 0;
        while c < n && found.is_none()
            invariant
                n == ids.len(),
                dix@.len() == n,
                resolved(ids@, dv, dixv),
                dixv == dix@.map_values(|v: Vec<usize>| v@),
                placed@.len() == n,
                c <= n,
                found matches Some(f) ==> f < n && !placed@[f as int] && all_deps_placed(
                    dixv,
                    placed@,
                    f as int,
                ),
                found is None ==> forall|i2: int|
                    0 <= i2 < c && !placed@[i2] ==> !all_deps_placed(dixv, placed@, i2),
                found matches Some(f) ==> forall|i2: int|
                    0 <= i2 < f && !placed@[i2] ==> !all_deps_placed(dixv, placed@, i2),
            decreases n - c,
        {
            if !placed[c] {
                assert(dixv[c as int] == dix@[c as int]@);
                assert(dixv[c as int].len() == dv[c as int].len());
                assert forall|k: int| 0 <= k < dix@[c as int]@.len() implies dix@[c as int]@[k] < placed@.len() by {
                    assert(dixv[c as int][k] < ids.len());
                }
                let ok = deps_placed(&dix[c], &placed);
                if ok {
                    found = Some(c);
                }
            }
            c = c + 1;
        }
        match found {
            None => {
                proof {
                    let j = lemma_count_false_pos(placed@);
                    assert forall|i2: int|
                        0 <= i2 < ids.len() && !placed@[i2] implies exists|k: int|
                        0 <= k < dixv[i2].len() && !placed@[#[trigger] dixv[i2][k] as int] by {
                        assert(!all_deps_placed(dixv, placed@, i2));
                    }
                    assert forall|o: Seq<u128>| !is_schedule(ids@, dv, o) by {
                        lemma_stuck_no_schedule(ids@, dv, dixv, placed@, o);
                    }
                }
                return Err(GraphError::Cycle);
            },
            Some(f) => {
                proof {
                    lemma_count_false_update(placed@, f as int);
                }
                placed.set(f, true);
                order.push(f);
                proof {
                    assert(!old_order.contains(f));
                    assert forall|p: int, k: int|
                        0 <= p < order@.len() && 0 <= k < dixv[order@[p] as int].len()
                            implies placed_before(
                        order@,
                        p,
                        #[trigger] dixv[order@[p] as int][k],
                    ) by {
                        if p < old_order.len() {
                            assert(placed_before(old_order, p, dixv[order@[p] as int][k]));
                            let q = choose|q: int|
                                0 <= q < p && #[trigger] old_order[q] == dixv[order@[p] as int][k];
                            assert(order@[q] == old_order[q]);
                        } else {
                            let d = dixv[f as int][k];
                            assert(old_placed[d as int]);
                            assert(old_order.contains(d));
                            let q = choose|q: int| 0 <= q < old_order.len() && old_order[q] == d;
                            assert(order@[q] == d);
                        }
                    }
                    assert forall|i2: int| 0 <= i2 < n implies (placed@[i2] <==> order@.contains(
                        i2 as usize,
                    )) by {
                        if i2 == f {
                            assert(order@[order@.len() - 1] == f);
                        } else {
                            if order@.contains(i2 as usize) {
                                let q = choose|q: int|
                                    0 <= q < order@.len() && order@[q] == i2 as usize;
                                assert(q < old_order.len());
                                assert(old_order[q] == i2 as usize);
                            }
                            if old_order.contains(i2 as usize) {
                                let q = choose|q: int|
                                    0 <= q < old_order.len() && old_order[q] == i2 as usize;
                                assert(order@[q] == i2 as usize);
                            }
                        }
                    }
                    assert forall|p: int, c: int|
                        0 <= p < order@.len() && 0 <= c < order@[p] && !order@.subrange(0, p).contains(
                            c as usize,
                        ) implies #[trigger] pos_waits(dixv, order@.subrange(0, p), c) by {
                        if p < old_order.len() {
                            assert(order@.subrange(0, p) =~= old_order.subrange(0, p));
                            assert(order@[p] == old_order[p]);
                        } else {
                            assert(order@.subrange(0, p) =~= old_order);
                            assert(!old_placed[c]);
                            assert(!all_deps_placed(dixv, old_placed, c));
                            let k = choose|k: int|
                                0 <= k < dixv[c].len() && !old_placed[#[trigger] dixv[c][k] as int];
                            assert(dixv[c][k] < n);
                            assert(!old_order.contains(dixv[c][k]));
                        }
                    }
                }
            },
        }
    }
    // turn positions into ids
    let mut out: Vec<u128> = Vec::new();
    let mut p: usize = 0;
    while p < n
        invariant
            n == ids.len(),
            order@.len() == n,
            forall|q: int| 0 <= q < n ==> #[trigger] order@[q] < n,
            kahn_inv(n as nat, dixv, placed@, order@),
            p <= n,
            out@.len() == p,
            forall|q: int| 0 <= q < p ==> #[trigger] out@[q] == ids@[order@[q] as int],
        decreases n - p,
    {
        out.push(ids[order[p]]);
        p = p + 1;
    }
    proof {
        assert forall|u: usize| u < n implies #[trigger] order@.contains(u) by {
            if !placed@[u as int] {
                lemma_count_false_zero(placed@, u as int);
            }
        }
        lemma_positions_to_ids(ids@, dv, dixv, order@, out@);
    }
    Ok(out)
}

proof fn lemma_positions_to_ids(
    ids: Seq<u128>,
    deps: Seq<Seq<u128>>,
    dix: Seq<Seq<usize>>,
    order: Seq<usize>,
    out: Seq<u128>,
)
    requires
        ids_distinct(ids),
        resolved(ids, deps, dix),
        order.len() == ids.len(),
        order.no_duplicates(),
        forall|q: int| 0 <= q < order.len() ==> #[trigger] order[q] < ids.len(),
        forall|u: usize| u < ids.len() ==> #[trigger] order.contains(u),
        forall|p: int, k: int|
            0 <= p < order.len() && 0 <= k < dix[order[p] as int].len() ==> placed_before(
                order,
                p,
                #[trigger] dix[order[p] as int][k],
            ),
        first_ready_pos(dix, order),
        out.len() == order.len(),
        forall|q: int| 0 <= q < order.len() ==> #[trigger] out[q] == ids[order[q] as int],
    ensures
        is_schedule(ids, deps, out),
        picks_first_ready(ids, deps, out),
{
    assert forall|p: int, j: int|
        #![trigger out[p], ids[j]]
        0 <= p < out.len() && 0 <= j < ids.len() && ids[j] == out[p] implies forall|c: int|
            0 <= c < j && !out.subrange(0, p).contains(#[trigger] ids[c]) ==> waits(
                deps,
                out.subrange(0, p),
                c,
            ) by {
        assert(ids[order[p] as int] == out[p]);
        assert(j == order[p] as int);
        assert forall|c: int| 0 <= c < j && !out.subrange(0, p).contains(#[trigger] ids[c]) implies waits(
            deps,
            out.subrange(0, p),
            c,
        ) by {
            if order.subrange(0, p).contains(c as usize) {
                let q = choose|q: int| 0 <= q < p && #[trigger] order.subrange(0, p)[q] == c as usize;
                assert(order[q] == c as usize);
                assert(out.subrange(0, p)[q] == ids[c]);
            }
            assert(pos_waits(dix, order.subrange(0, p), c));
            let k = choose|k: int| 0 <= k < dix[c].len() && !order.subrange(0, p).contains(#[trigger] dix[c][k]);
            let d = dix[c][k];
            assert(ids[d as int] == deps[c][k]);
            if out.subrange(0, p).contains(ids[d as int]) {
                let q = choose|q: int| 0 <= q < p && #[trigger] out.subrange(0, p)[q] == ids[d as int];
                assert(out[q] == ids[order[q] as int]);
                assert(order[q] == d);
                assert(order.subrange(0, p)[q] == d);
            }
            assert(!out.subrange(0, p).contains(deps[c][k]));
        }
    }
    assert forall|p: int, q: int| 0 <= p < out.len() && 0 <= q < out.len() && p != q implies out[p]
        != out[q] by {
        assert(order[p] != order[q]);
    }
    assert forall|i: int| 0 <= i < ids.len() implies out.contains(#[trigger] ids[i]) by {
        assert(order.contains(i as usize));
        let q = choose|q: int| 0 <= q < order.len() && order[q] == i as usize;
        assert(out[q] == ids[i]);
    }
    assert forall|p: int| 0 <= p < out.len() implies ids.contains(#[trigger] out[p]) by {
        assert(ids[order[p] as int] == out[p]);
    }
    assert forall|p: int, q: int| 0 <= p <= q < out.len() implies !depends_on(
        ids,
        deps,
        #[trigger] out[p],
        #[trigger] out[q],
    ) by {
        if depends_on(ids, deps, out[p], out[q]) {
            let i = choose|i: int| 0 <= i < ids.len() && ids[i] == out[p] && #[trigger] deps[i].contains(out[q]);
            assert(i == order[p] as int);
            let k = choose|k: int| 0 <= k < deps[i].len() && deps[i][k] == out[q];
            assert(dix[i].len() == deps[i].len());
            let d = dix[i][k];
            assert(ids[d as int] == ids[order[q] as int]);
            assert(d == order[q]);
            assert(placed_before(order, p, d));
            let q2 = choose|q2: int| 0 <= q2 < p && #[trigger] order[q2] == d;
            assert(false);
        }
    }
}

proof fn lemma_count_false_zero(s: Seq<bool>, j: int)
    requires
        0 <= j < s.len(),
        !s[j],
    ensures
        count_false(s) > 0,
    decreases s.len(),
{
    if j < s.len() - 1 {
        lemma_count_false_zero(s.drop_last(), j);
    }
}

/// A node of `o` at position `p` has all its dependencies before `p`.
proof fn lemma_ready_at(ids: Seq<u128>, deps: Seq<Seq<u128>>, o: Seq<u128>, p: int, j: int)
    requires
        deps.len() == ids.len(),
        deps_known(ids, deps),
        is_schedule(ids, deps, o),
        0 <= p < o.len(),
        0 <= j < ids.len(),
        ids[j] == o[p],
    ensures
        forall|k: int| 0 <= k < deps[j].len() ==> o.subrange(0, p).contains(#[trigger] deps[j][k]),
{
    assert forall|k: int| 0 <= k < deps[j].len() implies o.subrange(0, p).contains(#[trigger] deps[j][k]) by {
        let d = deps[j][k];
        assert(ids.contains(d));
        let i = choose|i: int| 0 <= i < ids.len() && ids[i] == d;
        assert(o.contains(ids[i]));
        let q = choose|q: int| 0 <= q < o.len() && o[q] == d;
        assert(deps[j].contains(d));
        assert(depends_on(ids, deps, o[p], d));
        if q >= p {
            assert(!depends_on(ids, deps, o[p], o[q]));
        }
        assert(o.subrange(0, p)[q] == d);
    }
}

proof fn lemma_same_prefix(ids: Seq<u128>, deps: Seq<Seq<u128>>, o1: Seq<u128>, o2: Seq<u128>, p: int)
    requires
        ids_distinct(ids),
        deps.len() == ids.len(),
        deps_known(ids, deps),
        is_schedule(ids, deps, o1),
        is_schedule(ids, deps, o2),
        picks_first_ready(ids, deps, o1),
        picks_first_ready(ids, deps, o2),
        0 <= p < o1.len(),
    ensures
        forall|q: int| 0 <= q <= p ==> o1[q] == o2[q],
    decreases p,
{
    if p > 0 {
        lemma_same_prefix(ids, deps, o1, o2, p - 1);
    }
    let pre = o1.subrange(0, p);
    assert(pre =~= o2.subrange(0, p));
    let a = o1[p];
    let b = o2[p];
    assert(ids.contains(a));
    assert(ids.contains(b));
    let ja = choose|j: int| 0 <= j < ids.len() && ids[j] == a;
    let jb = choose|j: int| 0 <= j < ids.len() && ids[j] == b;
    lemma_ready_at(ids, deps, o1, p, ja);
    lemma_ready_at(ids, deps, o2, p, jb);
    assert(!pre.contains(a)) by {
        if pre.contains(a) {
            let q = choose|q: int| 0 <= q < p && #[trigger] pre[q] == a;
            assert(o1[q] == o1[p]);
        }
    }
    assert(!pre.contains(b)) by {
        if pre.contains(b) {
            let q = choose|q: int| 0 <= q < p && #[trigger] pre[q] == b;
            assert(o2.subrange(0, p)[q] == b);
            assert(o2[q] == o2[p]);
        }
    }
    if ja < jb {
        assert(waits(deps, o2.subrange(0, p), ja));
        let k = choose|k: int| 0 <= k < deps[ja].len() && !o2.subrange(0, p).contains(#[trigger] deps[ja][k]);
        assert(pre.contains(deps[ja][k]));
    }
    if jb < ja {
        assert(waits(deps, o1.subrange(0, p), jb));
        let k = choose|k: int| 0 <= k < deps[jb].len() && !o1.subrange(0, p).contains(#[trigger] deps[jb][k]);
        assert(o2.subrange(0, p).contains(deps[jb][k]));
    }
}

/// The execution order is determined by the graph: when every dependency
/// names a node, only one order both respects the dependencies and always
/// takes the first node that is free to go.
pub proof fn lemma_schedule_unique(ids: Seq<u128>, deps: Seq<Seq<u128>>, o1: Seq<u128>, o2: Seq<u128>)
    requires
        ids_distinct(ids),
        deps.len() == ids.len(),
        deps_known(ids, deps),
        is_schedule(ids, deps, o1),
        is_schedule(ids, deps, o2),
        picks_first_ready(ids, deps, o1),
        picks_first_ready(ids, deps, o2),
    ensures
        o1 == o2,
{
    if o1.len() > 0 {
        lemma_same_prefix(ids, deps, o1, o2, o1.len() - 1);
    }
    assert(o1 =~= o2);
}

} // verus!
