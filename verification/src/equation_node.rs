use vstd::prelude::*;
use std::collections::HashMap;
use crate::context::{holds_tensor, values_view, GraphContext};
use crate::equation::{result_view, shape_views, trace_fold, trace_result, EquationGraph};
use crate::error::GraphError;
use crate::ids::{node_id, spec_node_id};
use crate::name_map::{entry_map, lemma_entry_map_dom, lemma_entry_map_at, names_distinct, NameMap};
use crate::nodes::take_tensor;
use crate::schedule::{deps_known, is_schedule};
use crate::shape::Shape;
use crate::sort::{is_sorted, lemma_sort_ids, sort_ids, sorted_ids};
use crate::tensor::{Device, NumericsContextValue, TensorRef, TensorView};

verus! {

broadcast use vstd::std_specs::hash::group_hash_axioms;

/// Lexicographic order of character sequences (the order of Rust strings).
pub open spec fn lex_lt(a: Seq<char>, b: Seq<char>) -> bool
    decreases a.len(),
{
    if a.len() == 0 {
        b.len() > 0
    } else if b.len() == 0 {
        false
    } else if a[0] != b[0] {
        (a[0] as int) < (b[0] as int)
    } else {
        lex_lt(a.drop_first(), b.drop_first())
    }
}

/// Whether `a` comes before `b` in lexicographic order.
pub fn name_less(a: &str, b: &str) -> (r: bool)
    ensures
        r == lex_lt(a@, b@),
{
    let la = a.unicode_len();
    let lb = b.unicode_len();
    let mut i: usize = 0;
    assert(a@.skip(0) =~= a@);
    assert(b@.skip(0) =~= b@);
    while i < la && i < lb
        invariant
            la == a@.len(),
            lb == b@.len(),
            i <= la,
            i <= lb,
            lex_lt(a@, b@) == lex_lt(a@.skip(i as int), b@.skip(i as int)),
        decreases la - i,
    {
        let ca = a.get_char(i);
        let cb = b.get_char(i);
        let ghost sa = a@.skip(i as int);
        let ghost sb = b@.skip(i as int);
        assert(sa[0] == ca && sb[0] == cb);
        if ca != cb {
            return (ca as u32) < (cb as u32);
        }
        assert(sa.drop_first() =~= a@.skip(i + 1));
        assert(sb.drop_first() =~= b@.skip(i + 1));
        i = i + 1;
    }
    i == la && i < lb
}

/// The position before which `x` goes among the sorted names `t`.
pub open spec fn name_slot(t: Seq<(String, u128)>, x: Seq<char>) -> nat
    decreases t.len(),
{
    if t.len() == 0 {
        0
    } else if lex_lt(x, t[0].0@) {
        0
    } else {
        1 + name_slot(t.drop_first(), x)
    }
}

/// The entries sorted by name, by insertion.
pub open spec fn sort_entries(es: Seq<(String, u128)>) -> Seq<(String, u128)>
    decreases es.len(),
{
    if es.len() == 0 {
        Seq::empty()
    } else {
        let t = sort_entries(es.drop_last());
        t.insert(name_slot(t, es.last().0@) as int, es.last())
    }
}

proof fn lemma_name_slot(t: Seq<(String, u128)>, x: Seq<char>, j: int)
    requires
        0 <= j <= t.len(),
        forall|k: int| 0 <= k < j ==> !lex_lt(x, (#[trigger] t[k]).0@),
        j == t.len() || lex_lt(x, t[j].0@),
    ensures
        name_slot(t, x) == j,
    decreases j,
{
    if j > 0 {
        let d = t.drop_first();
        assert forall|k: int| 0 <= k < j - 1 implies !lex_lt(x, (#[trigger] d[k]).0@) by {
            assert(d[k] == t[k + 1]);
        }
        assert(!lex_lt(x, t[0].0@));
        if j < t.len() {
            assert(d[j - 1] == t[j]);
        }
        lemma_name_slot(d, x, j - 1);
    }
}

/// No name comes before itself.
pub proof fn lemma_lex_irreflexive(a: Seq<char>)
    ensures
        !lex_lt(a, a),
    decreases a.len(),
{
    if a.len() > 0 {
        lemma_lex_irreflexive(a.drop_first());
    }
}

/// A proper prefix of a name comes before the name, and never after it,
/// whatever characters follow.
pub proof fn lemma_lex_prefix(a: Seq<char>, b: Seq<char>)
    requires
        a.len() < b.len(),
        b.subrange(0, a.len() as int) == a,
    ensures
        lex_lt(a, b),
        !lex_lt(b, a),
    decreases a.len(),
{
    if a.len() > 0 {
        assert(a[0] == b.subrange(0, a.len() as int)[0]);
        assert(b.drop_first().subrange(0, a.drop_first().len() as int) =~= a.drop_first()) by {
            assert forall|k: int| 0 <= k < a.len() - 1 implies #[trigger] b.drop_first().subrange(0, a.len() - 1)[k] == a.drop_first()[k] by {
                assert(b.subrange(0, a.len() as int)[k + 1] == a[k + 1]);
            }
        }
        lemma_lex_prefix(a.drop_first(), b.drop_first());
    }
}

/// When neither name is a prefix of the other, the first position at which
/// they differ decides their order, whatever their lengths: `a` comes before
/// `b` exactly when its character there is the smaller.
pub proof fn lemma_lex_first_difference(a: Seq<char>, b: Seq<char>, i: int)
    requires
        0 <= i < a.len(),
        i < b.len(),
        a.subrange(0, i) == b.subrange(0, i),
        a[i] != b[i],
    ensures
        lex_lt(a, b) == ((a[i] as int) < (b[i] as int)),
        lex_lt(b, a) == ((b[i] as int) < (a[i] as int)),
    decreases i,
{
    if i > 0 {
        assert(a[0] == a.subrange(0, i)[0] && b[0] == b.subrange(0, i)[0]);
        assert(a.drop_first().subrange(0, i - 1) =~= b.drop_first().subrange(0, i - 1)) by {
            assert forall|k: int| 0 <= k < i - 1 implies #[trigger] a.drop_first().subrange(0, i - 1)[k] == b.drop_first().subrange(0, i - 1)[k] by {
                assert(a.subrange(0, i)[k + 1] == a[k + 1] && b.subrange(0, i)[k + 1] == b[k + 1]);
                assert(a.subrange(0, i)[k + 1] == b.subrange(0, i)[k + 1]);
            }
        }
        lemma_lex_first_difference(a.drop_first(), b.drop_first(), i - 1);
    }
}

/// Two names are never each before the other.
pub proof fn lemma_lex_asymmetric(a: Seq<char>, b: Seq<char>)
    ensures
        lex_lt(a, b) ==> !lex_lt(b, a),
    decreases a.len(),
{
    if a.len() > 0 && b.len() > 0 && a[0] == b[0] {
        lemma_lex_asymmetric(a.drop_first(), b.drop_first());
    }
}

/// The order of names is transitive.
pub proof fn lemma_lex_transitive(a: Seq<char>, b: Seq<char>, c: Seq<char>)
    requires
        lex_lt(a, b),
        lex_lt(b, c),
    ensures
        lex_lt(a, c),
    decreases a.len(),
{
    if a.len() > 0 && a[0] == b[0] && b[0] == c[0] {
        lemma_lex_transitive(a.drop_first(), b.drop_first(), c.drop_first());
    }
}

/// The entries are in the order of their names: no entry's name comes
/// before the name of an entry in front of it.
pub open spec fn names_sorted(t: Seq<(String, u128)>) -> bool {
    forall|i: int, j: int| 0 <= i < j < t.len() ==> !lex_lt((#[trigger] t[j]).0@, (#[trigger] t[i]).0@)
}

/// The slot of `x` among `t` follows every name that `x` does not come
/// before, and precedes the first name that `x` comes before.
proof fn lemma_name_slot_bounds(t: Seq<(String, u128)>, x: Seq<char>)
    ensures
        name_slot(t, x) <= t.len(),
        forall|k: int| 0 <= k < name_slot(t, x) ==> !lex_lt(x, (#[trigger] t[k]).0@),
        name_slot(t, x) < t.len() ==> lex_lt(x, t[name_slot(t, x) as int].0@),
    decreases t.len(),
{
    if t.len() > 0 && !lex_lt(x, t[0].0@) {
        let d = t.drop_first();
        lemma_name_slot_bounds(d, x);
        assert forall|k: int| 0 <= k < name_slot(t, x) implies !lex_lt(x, (#[trigger] t[k]).0@) by {
            if k > 0 {
                assert(t[k] == d[k - 1]);
            }
        }
        if name_slot(t, x) < t.len() {
            assert(t[name_slot(t, x) as int] == d[name_slot(d, x) as int]);
        }
    }
}

/// The input entries sorted by name hold every entry once and are in the
/// order of their names: the order in which an equation node hands its
/// inputs to the kernel.
pub proof fn lemma_sort_entries(es: Seq<(String, u128)>)
    ensures
        sort_entries(es).len() == es.len(),
        names_sorted(sort_entries(es)),
        forall|i: int| 0 <= i < es.len() ==> sort_entries(es).contains(#[trigger] es[i]),
        forall|k: int| 0 <= k < es.len() ==> es.contains(#[trigger] sort_entries(es)[k]),
    decreases es.len(),
{
    if es.len() > 0 {
        let d = es.drop_last();
        lemma_sort_entries(d);
        let t = sort_entries(d);
        let x = es.last();
        let j = name_slot(t, x.0@) as int;
        lemma_name_slot_bounds(t, x.0@);
        let u = t.insert(j, x);
        assert(sort_entries(es) == u);
        assert forall|a: int, b: int| 0 <= a < b < u.len() implies !lex_lt((#[trigger] u[b]).0@, (#[trigger] u[a]).0@) by {
            if b < j {
                assert(u[a] == t[a] && u[b] == t[b]);
            } else if b == j {
                assert(u[a] == t[a]);
            } else if a == j {
                let k = b - 1;
                assert(u[b] == t[k]);
                if lex_lt(t[k].0@, x.0@) {
                    lemma_lex_transitive(t[k].0@, x.0@, t[j].0@);
                    if k == j {
                        lemma_lex_asymmetric(t[j].0@, x.0@);
                    }
                }
            } else if a < j {
                assert(u[a] == t[a] && u[b] == t[b - 1]);
            } else {
                assert(u[a] == t[a - 1] && u[b] == t[b - 1]);
            }
        }
        assert forall|k: int| 0 <= k < u.len() implies es.contains(#[trigger] u[k]) by {
            if k == j {
                assert(es[es.len() - 1] == x);
            } else {
                let kt = if k < j { k } else { k - 1 };
                assert(u[k] == t[kt]);
                assert(d.contains(t[kt]));
                let i = choose|i: int| 0 <= i < d.len() && d[i] == t[kt];
                assert(es[i] == d[i]);
            }
        }
        assert forall|i: int| 0 <= i < es.len() implies u.contains(#[trigger] es[i]) by {
            if i == es.len() - 1 {
                assert(u[j] == x);
            } else {
                assert(es[i] == d[i]);
                let k = choose|k: int| 0 <= k < t.len() && t[k] == d[i];
                if k < j {
                    assert(u[k] == t[k]);
                } else {
                    assert(u[k + 1] == t[k]);
                }
            }
        }
    }
}

/// An equation node hands its inputs to the kernel in the order of their
/// names: the input order is the ids of the node's entries arranged so that
/// their names are sorted.
pub proof fn lemma_input_order_sorted(n: EquationNode)
    ensures
        exists|t: Seq<(String, u128)>| {
            &&& t.len() == n.input_mapping.entries@.len()
            &&& names_sorted(t)
            &&& (forall|i: int| 0 <= i < n.input_mapping.entries@.len() ==> t.contains(#[trigger] n.input_mapping.entries@[i]))
            &&& (forall|k: int| 0 <= k < t.len() ==> n.input_mapping.entries@.contains(#[trigger] t[k]))
            &&& #[trigger] n.spec_input_order() == t.map_values(|e: (String, u128)| e.1)
        },
{
    lemma_sort_entries(n.input_mapping.entries@);
    let t = sort_entries(n.input_mapping.entries@);
    assert(n.spec_input_order() == t.map_values(|e: (String, u128)| e.1));
}

/// The first name among the entries that is bound to `id`.
pub open spec fn first_name_of(es: Seq<(String, u128)>, id: u128) -> Option<Seq<char>>
    decreases es.len(),
{
    if es.len() == 0 {
        None
    } else if es[0].1 == id {
        Some(es[0].0@)
    } else {
        first_name_of(es.drop_first(), id)
    }
}

/// The named input shapes that the first `k` dependency shapes give: each
/// dependency's shape goes to the first name bound to it.
pub open spec fn named_inputs(
    es: Seq<(String, u128)>,
    deps: Seq<u128>,
    ins: Seq<Seq<usize>>,
    k: nat,
) -> Map<Seq<char>, Seq<usize>>
    decreases k,
{
    if k == 0 {
        Map::empty()
    } else {
        let prev = named_inputs(es, deps, ins, (k - 1) as nat);
        match first_name_of(es, deps[k - 1]) {
            Some(n) => prev.insert(n, ins[k - 1]),
            None => prev,
        }
    }
}

proof fn lemma_first_name_of(es: Seq<(String, u128)>, id: u128, j: int)
    requires
        0 <= j <= es.len(),
        forall|q: int| 0 <= q < j ==> (#[trigger] es[q]).1 != id,
    ensures
        j < es.len() && es[j].1 == id ==> first_name_of(es, id) == Some(es[j].0@),
        j == es.len() ==> first_name_of(es, id) is None,
    decreases j,
{
    if j > 0 {
        let d = es.drop_first();
        assert forall|q: int| 0 <= q < j - 1 implies (#[trigger] d[q]).1 != id by {
            assert(d[q] == es[q + 1]);
        }
        assert(es[0].1 != id);
        if j < es.len() {
            assert(d[j - 1] == es[j]);
        }
        lemma_first_name_of(d, id, j - 1);
    }
}

/// The step's values with `ids` bound to `vs` again, in order.
pub open spec fn reinsert(m: Map<u128, Option<TensorView>>, ids: Seq<u128>, vs: Seq<TensorView>) -> Map<u128, Option<TensorView>>
    decreases ids.len(),
{
    if ids.len() == 0 || vs.len() == 0 {
        m
    } else {
        reinsert(m, ids.drop_last(), vs.drop_last()).insert(ids.last(), Some(vs.last()))
    }
}

/// `k` is a handle that the kernel compiler `compile_kernel` can give back
/// for the equation node `id` and its lowered graph `g`. The compiler is
/// supplied by the users of the library, one for each kind of domain.
pub open spec fn compiled_by<F: Fn(u128, &EquationGraph) -> u64>(compile_kernel: F, id: u128, g: EquationGraph, k: u64) -> bool {
    call_ensures(compile_kernel, (id, &g), k)
}

/// The kernel compiler `compile_kernel` can be called on every node and
/// graph.
pub open spec fn compiles_all<F: Fn(u128, &EquationGraph) -> u64>(compile_kernel: F) -> bool {
    forall|id: u128, g: EquationGraph| #[trigger] call_requires(compile_kernel, (id, &g))
}

/// A stage of an equation node's computation: the output tensor either is
/// reused from the step's values or has to be allocated with the given
/// shape.
#[derive(Debug)]
pub enum OutputSlot {
    Reuse(TensorRef),
    Allocate(Shape),
}

/// A node that evaluates an equation graph as one compiled kernel over
/// tensors of the outer graph, bound by name.
#[derive(Debug)]
pub struct EquationNode {
    pub id: u128,
    pub graph: EquationGraph,
    pub input_mapping: NameMap<u128>,
    /// The handle of the kernel compiled for the current graph, if any.
    pub compiled_kernel: Option<u64>,
    pub output_shape: Option<Shape>,
}

impl EquationNode {
    pub open spec fn wf(&self) -> bool {
        self.graph.wf() && self.input_mapping.wf()
    }

    /// The ids the node reads, sorted ascending.
    pub open spec fn spec_deps(&self) -> Seq<u128> {
        sort_ids(self.input_mapping.entries@.map_values(|e: (String, u128)| e.1))
    }

    /// The ids of the inputs in the order of their names.
    pub open spec fn spec_input_order(&self) -> Seq<u128> {
        sort_entries(self.input_mapping.entries@).map_values(|e: (String, u128)| e.1)
    }

    pub fn new(graph: EquationGraph, input_mapping: NameMap<u128>, random: u128) -> (r: EquationNode)
        requires
            graph.wf(),
            input_mapping.wf(),
        ensures
            r.wf(),
            r.id == spec_node_id(random),
            r.graph == graph,
            r.input_mapping == input_mapping,
            r.compiled_kernel is None,
            r.output_shape is None,
    {
        EquationNode { id: node_id(random), graph, input_mapping, compiled_kernel: None, output_shape: None }
    }

    /// Drops the compiled kernel.
    pub fn invalidate(&mut self)
        ensures
            final(self).compiled_kernel is None,
            final(self).id == old(self).id,
            final(self).graph == old(self).graph,
            final(self).input_mapping == old(self).input_mapping,
            final(self).output_shape == old(self).output_shape,
    {
        self.compiled_kernel = None;
    }

    /// Records the kernel compiled for the current graph.
    pub fn attach_kernel(&mut self, handle: u64)
        ensures
            final(self).compiled_kernel == Some(handle),
            final(self).id == old(self).id,
            final(self).graph == old(self).graph,
            final(self).input_mapping == old(self).input_mapping,
            final(self).output_shape == old(self).output_shape,
    {
        self.compiled_kernel = Some(handle);
    }

    /// The ids the node reads, sorted ascending.
    pub fn dependencies(&self) -> (r: Vec<u128>)
        ensures
            r@ == self.spec_deps(),
    {
        let mut vals: Vec<u128> = Vec::new();
        let mut i: usize = 0;
        while i < self.input_mapping.entries.len()
            invariant
                i <= self.input_mapping.entries@.len(),
                vals@ == self.input_mapping.entries@.subrange(0, i as int).map_values(|e: (String, u128)| e.1),
            decreases self.input_mapping.entries@.len() - i,
        {
            vals.push(self.input_mapping.entries[i].1);
            i = i + 1;
            assert(vals@ =~= self.input_mapping.entries@.subrange(0, i as int).map_values(|e: (String, u128)| e.1));
        }
        assert(self.input_mapping.entries@.subrange(0, i as int) =~= self.input_mapping.entries@);
        sorted_ids(&vals)
    }

    /// The ids of the inputs in the order of their names: the order in which
    /// the kernel receives them.
    pub fn input_order(&self) -> (r: Vec<u128>)
        ensures
            r@ == self.spec_input_order(),
    {
        let es = &self.input_mapping.entries;
        let mut t: Vec<(String, u128)> = Vec::new();
        let mut i: usize = 0;
        assert(es@.subrange(0, 0) =~= Seq::<(String, u128)>::empty());
        while i < es.len()
            invariant
                i <= es@.len(),
                t@ == sort_entries(es@.subrange(0, i as int)),
            decreases es@.len() - i,
        {
            let name = es[i].0.as_str();
            let mut j: usize = 0;
            while j < t.len() && !name_less(name, t[j].0.as_str())
                invariant
                    j <= t@.len(),
                    forall|k: int| 0 <= k < j ==> !lex_lt(name@, (#[trigger] t@[k]).0@),
                decreases t@.len() - j,
            {
                j = j + 1;
            }
            proof {
                if j < t.len() {
                    assert(lex_lt(name@, t@[j as int].0@));
                }
                lemma_name_slot(t@, name@, j as int);
                assert(es@.subrange(0, i + 1).drop_last() =~= es@.subrange(0, i as int));
            }
            t.insert(j, (es[i].0.clone(), es[i].1));
            i = i + 1;
        }
        assert(es@.subrange(0, es@.len() as int) =~= es@);
        let mut out: Vec<u128> = Vec::new();
        let mut k: usize = 0;
        while k < t.len()
            invariant
                k <= t@.len(),
                out@ == t@.subrange(0, k as int).map_values(|e: (String, u128)| e.1),
            decreases t@.len() - k,
        {
            out.push(t[k].1);
            k = k + 1;
            assert(out@ =~= t@.subrange(0, k as int).map_values(|e: (String, u128)| e.1));
        }
        assert(t@.subrange(0, t@.len() as int) =~= t@);
        out
    }

    /// The equation graph, as lowered for the given input shapes: it has an
    /// execution order, and tracing its shapes along it from `given` gives
    /// `out` to its output node.
    pub open spec fn lowered_to(old_graph: EquationGraph, new_graph: EquationGraph, given: Map<Seq<char>, Seq<usize>>, out: Seq<usize>) -> bool {
        &&& new_graph.schedule matches Some(o)
        &&& old_graph.output_id matches Some(oid)
        &&& trace_fold(old_graph.nodes@, old_graph.seed(given), o@) matches Some(m)
        &&& m.contains_key(oid)
        &&& m[oid] == out
    }

    /// `r` is what lowering `g0` for the input shapes `given` gives (`g1`
    /// being the graph afterwards): without an execution order,
    /// `UnknownDependency` when a dependency names no node and `Cycle`
    /// otherwise; with one, what tracing gives.
    pub open spec fn lower_result(g0: EquationGraph, g1: EquationGraph, given: Map<Seq<char>, Seq<usize>>, r: Result<Seq<usize>, GraphError>) -> bool {
        if exists|o: Seq<u128>| deps_known(g0.ids(), g0.deps()) && #[trigger] is_schedule(g0.ids(), g0.deps(), o) {
            trace_result(g0, g1, given, r)
        } else {
            r matches Err(e) && if deps_known(g0.ids(), g0.deps()) {
                e is Cycle
            } else {
                e is UnknownDependency
            }
        }
    }

    /// Compiles the equation graph, traces its output shape from the shapes
    /// of the named inputs, and has `compile_kernel` compile the lowered
    /// graph into the node's kernel.
    #[verifier::spinoff_prover]
    pub fn lower<F: Fn(u128, &EquationGraph) -> u64>(&mut self, outer_input_shapes: &NameMap<Shape>, compile_kernel: &F) -> (r: Result<(), GraphError>)
        requires
            old(self).wf(),
            outer_input_shapes.wf(),
            compiles_all(*compile_kernel),
        ensures
            final(self).wf(),
            final(self).id == old(self).id,
            final(self).input_mapping == old(self).input_mapping,
            r is Ok ==> (final(self).compiled_kernel matches Some(k) && compiled_by(*compile_kernel, final(self).id, final(self).graph, k)),
            r is Err ==> final(self).compiled_kernel == old(self).compiled_kernel,
            final(self).graph.nodes == old(self).graph.nodes,
            final(self).graph.input_vars == old(self).graph.input_vars,
            final(self).graph.output_id == old(self).graph.output_id,
            r is Ok ==> (final(self).output_shape matches Some(s) && Self::lowered_to(old(self).graph, final(self).graph, shape_views(outer_input_shapes.map()), s@)),
            r is Ok ==> (final(self).output_shape matches Some(s) && Self::lower_result(old(self).graph, final(self).graph, shape_views(outer_input_shapes.map()), Ok(s@))),
            r matches Err(e) ==> Self::lower_result(old(self).graph, final(self).graph, shape_views(outer_input_shapes.map()), Err(e)),
            r matches Err(e) ==> e is Cycle || e is UnknownDependency || e is OutputNotSet || e is MissingInputShape
                || e is OutputShapeNotFound || e is VariableShapeExternal || e is Broadcast,
            r is Err ==> final(self).output_shape == old(self).output_shape,
    {
        match self.graph.compile() {
            Ok(()) => {},
            Err(e) => {
                return Err(e);
            },
        }
        match self.graph.trace_output_shape(outer_input_shapes) {
            Ok(s) => {
                self.output_shape = Some(s);
                let kernel = compile_kernel(self.id, &self.graph);
                self.compiled_kernel = Some(kernel);
                Ok(())
            },
            Err(e) => Err(e),
        }
    }

    /// The shapes of the named inputs, read from the shapes of the outer
    /// nodes they are bound to; `MissingOuterShape` names the first input
    /// whose outer node has none. Then lowers as `lower` does.
    pub fn try_lower<F: Fn(u128, &EquationGraph) -> u64>(&mut self, outer_shape: &HashMap<u128, Shape>, compile_kernel: &F) -> (r: Result<(), GraphError>)
        requires
            old(self).wf(),
            compiles_all(*compile_kernel),
        ensures
            final(self).wf(),
            final(self).id == old(self).id,
            final(self).input_mapping == old(self).input_mapping,
            r is Ok ==> (final(self).compiled_kernel matches Some(k) && compiled_by(*compile_kernel, final(self).id, final(self).graph, k)),
            r is Err ==> final(self).compiled_kernel == old(self).compiled_kernel,
            final(self).graph.nodes == old(self).graph.nodes,
            final(self).graph.input_vars == old(self).graph.input_vars,
            final(self).graph.output_id == old(self).graph.output_id,
            r matches Err(GraphError::MissingOuterShape(name)) ==> old(self).input_mapping.map().contains_key(name@)
                && !outer_shape@.contains_key(old(self).input_mapping.map()[name@]),
            (forall|k: Seq<char>| #[trigger] old(self).input_mapping.map().contains_key(k) ==> outer_shape@.contains_key(old(self).input_mapping.map()[k]))
                <==> !(r matches Err(GraphError::MissingOuterShape(_))),
            r is Ok ==> (final(self).output_shape matches Some(s) && Self::lowered_to(
                old(self).graph,
                final(self).graph,
                Map::new(|k: Seq<char>| old(self).input_mapping.map().contains_key(k), |k: Seq<char>| outer_shape@[old(self).input_mapping.map()[k]]@),
                s@,
            )),
            ({
                let given = Map::new(|k: Seq<char>| old(self).input_mapping.map().contains_key(k), |k: Seq<char>| outer_shape@[old(self).input_mapping.map()[k]]@);
                &&& r is Ok ==> (final(self).output_shape matches Some(s) && Self::lower_result(old(self).graph, final(self).graph, given, Ok(s@)))
                &&& (r matches Err(e) ==> (e is MissingOuterShape || Self::lower_result(old(self).graph, final(self).graph, given, Err(e))))
            }),
            r is Err ==> final(self).output_shape == old(self).output_shape,
            r matches Err(e) ==> e is MissingOuterShape || e is Cycle || e is UnknownDependency || e is OutputNotSet
                || e is MissingInputShape || e is OutputShapeNotFound || e is VariableShapeExternal || e is Broadcast,
    {
        let ghost es = self.input_mapping.entries@;
        let mut named: NameMap<Shape> = NameMap::new();
        let mut i: usize = 0;
        while i < self.input_mapping.entries.len()
            invariant
                self.wf(),
                self == old(self),
                es == self.input_mapping.entries@,
                i <= es.len(),
                named.wf(),
                forall|k: Seq<char>| #[trigger] named.map().contains_key(k) ==> exists|j: int| 0 <= j < i && (#[trigger] es[j]).0@ == k,
                forall|j: int| 0 <= j < i ==> named.map().contains_key((#[trigger] es[j]).0@) && outer_shape@.contains_key(es[j].1)
                    && named.map()[es[j].0@]@ == outer_shape@[es[j].1]@,
            decreases es.len() - i,
        {
            let entry = &self.input_mapping.entries[i];
            match outer_shape.get(&entry.1) {
                None => {
                    proof {
                        lemma_entry_map_at(es, i as int);
                        assert(old(self).input_mapping.map().contains_key(entry.0@));
                        assert(old(self).input_mapping.map()[entry.0@] == entry.1);
                        assert(!outer_shape@.contains_key(old(self).input_mapping.map()[entry.0@]));
                    }
                    return Err(GraphError::MissingOuterShape(entry.0.clone()));
                },
                Some(s) => {
                    let ghost old_named = named.map();
                    let sd = s.duplicate();
                    named.insert(entry.0.clone(), sd);
                    proof {
                        assert forall|j: int| 0 <= j < i + 1 implies named.map().contains_key((#[trigger] es[j]).0@) && outer_shape@.contains_key(es[j].1)
                            && named.map()[es[j].0@]@ == outer_shape@[es[j].1]@ by {
                            if j < i {
                                assert(es[j].0@ != es[i as int].0@);
                            }
                        }
                        assert forall|k: Seq<char>| #[trigger] named.map().contains_key(k) implies exists|j: int| 0 <= j < i + 1 && (#[trigger] es[j]).0@ == k by {
                            if k != entry.0@ {
                                assert(old_named.contains_key(k));
                            } else {
                                assert(es[i as int].0@ == k);
                            }
                        }
                    }
                },
            }
            i = i + 1;
        }
        let ghost gv = Map::new(|k: Seq<char>| old(self).input_mapping.map().contains_key(k), |k: Seq<char>| outer_shape@[old(self).input_mapping.map()[k]]@);
        proof {
            assert forall|k: Seq<char>| #[trigger] old(self).input_mapping.map().contains_key(k) implies outer_shape@.contains_key(old(self).input_mapping.map()[k]) by {
                lemma_entry_map_dom(es, k);
                let j = choose|j: int| 0 <= j < es.len() && (#[trigger] es[j]).0@ == k;
                lemma_entry_map_at(es, j);
            }
            assert forall|k: Seq<char>| #[trigger] shape_views(named.map()).contains_key(k) <==> gv.contains_key(k) by {
                lemma_entry_map_dom(es, k);
                if gv.contains_key(k) {
                    let j = choose|j: int| 0 <= j < es.len() && (#[trigger] es[j]).0@ == k;
                    assert(named.map().contains_key(es[j].0@));
                }
            }
            assert forall|k: Seq<char>| gv.contains_key(k) implies #[trigger] shape_views(named.map())[k] == gv[k] by {
                lemma_entry_map_dom(es, k);
                let j = choose|j: int| 0 <= j < es.len() && (#[trigger] es[j]).0@ == k;
                lemma_entry_map_at(es, j);
                assert(named.map().contains_key(es[j].0@));
            }
            assert(shape_views(named.map()) =~= gv);
        }
        self.lower(&named, compile_kernel)
    }

    /// The shape of the node's result from the shapes of its dependencies,
    /// given in the order of `dependencies()`: each shape is bound to the
    /// first input name mapped to that dependency, and the equation graph
    /// is traced from those named shapes.
    pub fn infer_shape(&mut self, inputs: &Vec<Shape>) -> (r: Result<Shape, GraphError>)
        requires
            old(self).wf(),
        ensures
            final(self).wf(),
            final(self).id == old(self).id,
            final(self).input_mapping == old(self).input_mapping,
            final(self).compiled_kernel == old(self).compiled_kernel,
            final(self).output_shape == old(self).output_shape,
            final(self).graph.nodes == old(self).graph.nodes,
            final(self).graph.input_vars == old(self).graph.input_vars,
            final(self).graph.output_id == old(self).graph.output_id,
            trace_result(
                old(self).graph,
                final(self).graph,
                named_inputs(
                    old(self).input_mapping.entries@,
                    old(self).spec_deps(),
                    crate::equation::shapes_view(inputs@),
                    if old(self).spec_deps().len() <= inputs@.len() { old(self).spec_deps().len() } else { inputs@.len() },
                ),
                result_view(r),
            ),
            r matches Err(e) ==> e is Cycle || e is UnknownDependency || e is OutputNotSet || e is MissingInputShape
                || e is OutputShapeNotFound || e is VariableShapeExternal || e is Broadcast,
    {
        let deps = self.dependencies();
        let n = if deps.len() <= inputs.len() { deps.len() } else { inputs.len() };
        let ghost es = self.input_mapping.entries@;
        let ghost insv = crate::equation::shapes_view(inputs@);
        let mut named: NameMap<Shape> = NameMap::new();
        let mut k: usize = 0;
        while k < n
            invariant
                self.wf(),
                self == old(self),
                es == self.input_mapping.entries@,
                deps@ == self.spec_deps(),
                insv == crate::equation::shapes_view(inputs@),
                n <= deps@.len(),
                n <= inputs@.len(),
                k <= n,
                named.wf(),
                shape_views(named.map()) == named_inputs(es, deps@, insv, k as nat),
            decreases n - k,
        {
            let d = deps[k];
            let mut j: usize = 0;
            while j < self.input_mapping.entries.len() && self.input_mapping.entries[j].1 != d
                invariant
                    es == self.input_mapping.entries@,
                    j <= es.len(),
                    forall|q: int| 0 <= q < j ==> (#[trigger] es[q]).1 != d,
                decreases es.len() - j,
            {
                j = j + 1;
            }
            proof {
                lemma_first_name_of(es, d, j as int);
            }
            if j < self.input_mapping.entries.len() {
                let ghost old_named = named.map();
                let sd = inputs[k].duplicate();
                named.insert(self.input_mapping.entries[j].0.clone(), sd);
                proof {
                    assert(insv[k as int] == inputs@[k as int]@);
                    assert(shape_views(named.map()) =~= named_inputs(es, deps@, insv, (k + 1) as nat));
                }
            }
            k = k + 1;
        }
        match self.graph.trace_output_shape(&named) {
            Ok(s) => Ok(s),
            Err(e) => Err(e),
        }
    }

    /// Takes the input tensors out of the step's values in the order of
    /// their names, and decides the output tensor: the one the node already
    /// holds when it has the output shape, else a new one of that shape.
    /// The kernel reads and writes main memory, so the inputs, and an output
    /// to be reused, are on the CPU.
    pub fn begin_compute(&self, ctx: &mut GraphContext) -> (r: (Vec<u128>, Vec<TensorRef>, OutputSlot))
        requires
            self.output_shape is Some,
            self.compiled_kernel is Some,
            self.spec_input_order().no_duplicates(),
            forall|k: int| 0 <= k < self.spec_input_order().len() ==> holds_tensor(old(ctx).temp@, #[trigger] self.spec_input_order()[k]),
            forall|k: int| 0 <= k < self.spec_input_order().len() ==> old(ctx).temp@[#[trigger] self.spec_input_order()[k]]->Tensor_0.device == Device::Cpu,
            !self.spec_input_order().contains(self.id) && holds_tensor(old(ctx).temp@, self.id)
                && old(ctx).temp@[self.id]->Tensor_0.shape@ == self.output_shape->0@ ==> old(ctx).temp@[self.id]->Tensor_0.device == Device::Cpu,
        ensures
            r.0@ == self.spec_input_order(),
            r.1@.len() == r.0@.len(),
            forall|k: int| 0 <= k < r.0@.len() ==> Some((#[trigger] r.1@[k])@) == old(ctx).temp@[r.0@[k]]@,
            ({
                let rest = old(ctx).temp@.remove_keys(r.0@.to_set());
                match r.2 {
                    OutputSlot::Reuse(t) => holds_tensor(rest, self.id) && Some(t@) == rest[self.id]@
                        && t.shape@ == self.output_shape->0@ && final(ctx).temp@ == rest.remove(self.id),
                    OutputSlot::Allocate(s) => s@ == self.output_shape->0@ && final(ctx).temp@ == rest
                        && !(holds_tensor(rest, self.id) && rest[self.id]->Tensor_0.shape@ == self.output_shape->0@),
                }
            }),
            final(ctx).state@ == old(ctx).state@,
            final(ctx).next_state@ == old(ctx).next_state@,
    {
        let order = self.input_order();
        let mut ins: Vec<TensorRef> = Vec::new();
        let mut k: usize = 0;
        while k < order.len()
            invariant
                order@ == self.spec_input_order(),
                order@.no_duplicates(),
                forall|q: int| 0 <= q < order@.len() ==> holds_tensor(old(ctx).temp@, #[trigger] order@[q]),
                k <= order@.len(),
                ins@.len() == k,
                forall|q: int| 0 <= q < k ==> Some((#[trigger] ins@[q])@) == old(ctx).temp@[order@[q]]@,
                ctx.temp@ == old(ctx).temp@.remove_keys(order@.subrange(0, k as int).to_set()),
                ctx.state@ == old(ctx).state@,
                ctx.next_state@ == old(ctx).next_state@,
            decreases order@.len() - k,
        {
            let id = order[k];
            proof {
                assert(!order@.subrange(0, k as int).contains(id)) by {
                    if order@.subrange(0, k as int).contains(id) {
                        let q = choose|q: int| 0 <= q < k && order@.subrange(0, k as int)[q] == id;
                        assert(order@[q] == order@[k as int]);
                    }
                }
                assert(ctx.temp@.contains_key(id));
            }
            let t = take_tensor(ctx, id);
            ins.push(t);
            proof {
                assert(order@.subrange(0, k + 1) =~= order@.subrange(0, k as int).push(id));
                order@.subrange(0, k as int).lemma_push_to_set_commute(id);
                assert(order@.subrange(0, k + 1).to_set() =~= order@.subrange(0, k as int).to_set().insert(id));
                assert(ctx.temp@ =~= old(ctx).temp@.remove_keys(order@.subrange(0, k + 1).to_set()));
            }
            k = k + 1;
        }
        assert(order@.subrange(0, order@.len() as int) =~= order@);
        let out_shape = match &self.output_shape {
            Some(s) => s.duplicate(),
            None => Shape(Vec::new()),
        };
        let slot = match ctx.temp.remove(&self.id) {
            Some(NumericsContextValue::Tensor(v)) => {
                if v.shape.same_as(&out_shape) {
                    OutputSlot::Reuse(v)
                } else {
                    ctx.temp.insert(self.id, NumericsContextValue::Tensor(v));
                    OutputSlot::Allocate(out_shape)
                }
            },
            Some(other) => {
                ctx.temp.insert(self.id, other);
                OutputSlot::Allocate(out_shape)
            },
            None => OutputSlot::Allocate(out_shape),
        };
        proof {
            let rest = old(ctx).temp@.remove_keys(order@.to_set());
            if !(slot is Reuse) {
                assert(ctx.temp@ =~= rest);
            }
        }
        (order, ins, slot)
    }

    /// Returns the inputs to their places and records the output, a tensor
    /// in main memory of the node's output shape, as the node's value.
    pub fn finish_compute(&self, ctx: &mut GraphContext, ids: &Vec<u128>, ins: Vec<TensorRef>, output: TensorRef)
        requires
            ids@.len() == ins@.len(),
            self.output_shape matches Some(s) && output.shape@ == s@,
            output.device == Device::Cpu,
        ensures
            values_view(final(ctx).temp@) == reinsert(values_view(old(ctx).temp@), ids@, ins@.map_values(|t: TensorRef| t@)).insert(self.id, Some(output@)),
            final(ctx).state@ == old(ctx).state@,
            final(ctx).next_state@ == old(ctx).next_state@,
    {
        let ghost insv = ins@.map_values(|t: TensorRef| t@);
        let mut ins = ins;
        let mut rev: Vec<TensorRef> = Vec::new();
        // put the inputs back in order: reverse them so that popping yields
        // the first one first
        while ins.len() > 0
            invariant
                rev@.len() + ins@.len() == insv.len(),
                forall|q: int| 0 <= q < ins@.len() ==> (#[trigger] ins@[q])@ == insv[q],
                forall|q: int| 0 <= q < rev@.len() ==> (#[trigger] rev@[q])@ == insv[insv.len() - 1 - q],
            decreases ins@.len(),
        {
            let t = ins.pop().unwrap();
            rev.push(t);
        }
        let mut k: usize = 0;
        let n = ids.len();
        assert(ids@.subrange(0, 0) =~= Seq::<u128>::empty());
        while k < n
            invariant
                n == ids@.len(),
                n == insv.len(),
                k <= n,
                rev@.len() == n - k,
                forall|q: int| 0 <= q < rev@.len() ==> (#[trigger] rev@[q])@ == insv[insv.len() - 1 - q],
                values_view(ctx.temp@) == reinsert(values_view(old(ctx).temp@), ids@.subrange(0, k as int), insv.subrange(0, k as int)),
                ctx.state@ == old(ctx).state@,
                ctx.next_state@ == old(ctx).next_state@,
            decreases n - k,
        {
            let t = rev.pop().unwrap();
            let ghost tv = t@;
            assert(tv == insv[k as int]);
            ctx.temp.insert(ids[k], NumericsContextValue::Tensor(t));
            proof {
                let a = ids@.subrange(0, k + 1);
                let b = insv.subrange(0, k + 1);
                assert(a.drop_last() =~= ids@.subrange(0, k as int));
                assert(b.drop_last() =~= insv.subrange(0, k as int));
                assert(values_view(ctx.temp@) =~= reinsert(values_view(old(ctx).temp@), a, b));
            }
            k = k + 1;
        }
        assert(ids@.subrange(0, n as int) =~= ids@);
        assert(insv.subrange(0, n as int) =~= insv);
        let ghost ov = output@;
        ctx.temp.insert(self.id, NumericsContextValue::Tensor(output));
        assert(values_view(ctx.temp@) =~= reinsert(values_view(old(ctx).temp@), ids@, insv).insert(self.id, Some(ov)));
    }
}

/// An equation node depends on exactly the outer ids its inputs are bound
/// to, each as often as it is bound, listed in ascending order.
pub proof fn lemma_equation_deps(n: EquationNode)
    ensures
        is_sorted(n.spec_deps()),
        n.spec_deps().to_multiset() == n.input_mapping.entries@.map_values(|e: (String, u128)| e.1).to_multiset(),
        n.spec_deps().len() == n.input_mapping.entries@.len(),
{
    lemma_sort_ids(n.input_mapping.entries@.map_values(|e: (String, u128)| e.1));
}

proof fn lemma_reinsert(m: Map<u128, Option<TensorView>>, ids: Seq<u128>, vs: Seq<TensorView>)
    requires
        ids.len() == vs.len(),
        ids.no_duplicates(),
    ensures
        forall|j: int| 0 <= j < ids.len() ==> reinsert(m, ids, vs).contains_key(#[trigger] ids[j])
            && reinsert(m, ids, vs)[ids[j]] == Some(vs[j]),
        forall|k: u128| !ids.contains(k) ==> (#[trigger] reinsert(m, ids, vs).contains_key(k) <==> m.contains_key(k)),
        forall|k: u128| !ids.contains(k) && m.contains_key(k) ==> #[trigger] reinsert(m, ids, vs)[k] == m[k],
    decreases ids.len(),
{
    if ids.len() > 0 {
        let a = ids.drop_last();
        let b = vs.drop_last();
        assert forall|p: int, q: int| 0 <= p < a.len() && 0 <= q < a.len() && p != q implies a[p] != a[q] by {
            assert(a[p] == ids[p] && a[q] == ids[q]);
        }
        lemma_reinsert(m, a, b);
        assert forall|j: int| 0 <= j < ids.len() implies reinsert(m, ids, vs).contains_key(#[trigger] ids[j])
            && reinsert(m, ids, vs)[ids[j]] == Some(vs[j]) by {
            if j < ids.len() - 1 {
                assert(a[j] == ids[j]);
                assert(b[j] == vs[j]);
                assert(ids[j] != ids.last());
            }
        }
        assert forall|k: u128| !ids.contains(k) implies !a.contains(k) by {
            if a.contains(k) {
                let j = choose|j: int| 0 <= j < a.len() && a[j] == k;
                assert(ids[j] == k);
            }
        }
    }
}

/// Computing an equation node hands its inputs back unchanged: taking them
/// out of the step's values (with or without the node's old output) and
/// putting them back, then recording the output, leaves the values as they
/// were before, but for the node's own value, which is the output.
pub proof fn lemma_compute_restores_inputs(
    before: Map<u128, NumericsContextValue>,
    ids: Seq<u128>,
    ins: Seq<TensorView>,
    id: u128,
    out: TensorView,
)
    requires
        ids.no_duplicates(),
        !ids.contains(id),
        ins.len() == ids.len(),
        forall|k: int| 0 <= k < ids.len() ==> #[trigger] before.contains_key(ids[k]) && before[ids[k]]@ == Some(ins[k]),
    ensures
        reinsert(values_view(before.remove_keys(ids.to_set())), ids, ins).insert(id, Some(out))
            == values_view(before).insert(id, Some(out)),
        reinsert(values_view(before.remove_keys(ids.to_set()).remove(id)), ids, ins).insert(id, Some(out))
            == values_view(before).insert(id, Some(out)),
{
    let m1 = values_view(before.remove_keys(ids.to_set()));
    let m2 = values_view(before.remove_keys(ids.to_set()).remove(id));
    lemma_reinsert(m1, ids, ins);
    lemma_reinsert(m2, ids, ins);
    let goal = values_view(before).insert(id, Some(out));
    assert forall|k: u128| ids.contains(k) implies before.contains_key(k) by {
        let j = choose|j: int| 0 <= j < ids.len() && ids[j] == k;
        assert(before.contains_key(ids[j]));
    }
    assert forall|k: u128| #[trigger] goal.contains_key(k) implies reinsert(m1, ids, ins).insert(id, Some(out)).contains_key(k)
        && reinsert(m1, ids, ins).insert(id, Some(out))[k] == goal[k] by {
        if k != id && ids.contains(k) {
            let j = choose|j: int| 0 <= j < ids.len() && ids[j] == k;
            assert(before.contains_key(ids[j]) && before[ids[j]]@ == Some(ins[j]));
        }
    }
    assert(reinsert(m1, ids, ins).insert(id, Some(out)) =~= goal);
    assert forall|k: u128| #[trigger] goal.contains_key(k) implies reinsert(m2, ids, ins).insert(id, Some(out)).contains_key(k)
        && reinsert(m2, ids, ins).insert(id, Some(out))[k] == goal[k] by {
        if k != id && ids.contains(k) {
            let j = choose|j: int| 0 <= j < ids.len() && ids[j] == k;
            assert(before.contains_key(ids[j]) && before[ids[j]]@ == Some(ins[j]));
        }
    }
    assert(reinsert(m2, ids, ins).insert(id, Some(out)) =~= goal);
}

pub(crate) proof fn lemma_lower_result_same(
    g0: EquationGraph,
    h0: EquationGraph,
    g1: EquationGraph,
    given: Map<Seq<char>, Seq<usize>>,
    r: Result<Seq<usize>, GraphError>,
)
    requires
        g0.nodes == h0.nodes,
        g0.input_vars == h0.input_vars,
        g0.output_id == h0.output_id,
        EquationNode::lower_result(g0, g1, given, r),
    ensures
        EquationNode::lower_result(h0, g1, given, r),
{
    assert(g0.ids() == h0.ids());
    assert(g0.deps() == h0.deps());
    if exists|o: Seq<u128>| deps_known(g0.ids(), g0.deps()) && #[trigger] is_schedule(g0.ids(), g0.deps(), o) {
        crate::equation::lemma_trace_result_same(g0, h0, g1, given, r);
    }
}

/// Every outer id an input name is bound to is among the node's
/// dependencies.
pub(crate) proof fn lemma_mapped_are_deps(n: EquationNode, k: Seq<char>)
    requires
        n.input_mapping.wf(),
        n.input_mapping.map().contains_key(k),
    ensures
        n.spec_deps().contains(n.input_mapping.map()[k]),
{
    let es = n.input_mapping.entries@;
    lemma_entry_map_dom(es, k);
    let j = choose|j: int| 0 <= j < es.len() && (#[trigger] es[j]).0@ == k;
    lemma_entry_map_at(es, j);
    let vals = es.map_values(|e: (String, u128)| e.1);
    assert(vals[j] == n.input_mapping.map()[k]);
    assert(vals.contains(n.input_mapping.map()[k]));
    lemma_equation_deps(n);
    vals.to_multiset_ensures();
    n.spec_deps().to_multiset_ensures();
    let v = n.input_mapping.map()[k];
    assert(vals.to_multiset().count(v) > 0);
    assert(n.spec_deps().to_multiset().count(v) > 0);
}

/// No two entries are bound to the same outer id.
pub open spec fn values_distinct(es: Seq<(String, u128)>) -> bool {
    forall|i: int, j: int| 0 <= i < j < es.len() ==> (#[trigger] es[i]).1 != (#[trigger] es[j]).1
}

/// Some entry is bound to `id`.
spec fn bound_somewhere(es: Seq<(String, u128)>, id: u128) -> bool {
    exists|j: int| 0 <= j < es.len() && (#[trigger] es[j]).1 == id
}

proof fn lemma_named_prefix(es: Seq<(String, u128)>, deps: Seq<u128>, ins: Seq<Seq<usize>>, k: nat)
    requires
        names_distinct(es),
        values_distinct(es),
        deps.no_duplicates(),
        k <= deps.len(),
        k <= ins.len(),
        forall|q: int| 0 <= q < deps.len() ==> bound_somewhere(es, #[trigger] deps[q]),
    ensures
        forall|name: Seq<char>| #[trigger] named_inputs(es, deps, ins, k).contains_key(name) ==> exists|q: int, j: int|
            0 <= q < k && 0 <= j < es.len() && es[j].1 == deps[q] && es[j].0@ == name,
        forall|q: int, j: int| 0 <= q < k && 0 <= j < es.len() && (#[trigger] es[j]).1 == #[trigger] deps[q] ==>
            named_inputs(es, deps, ins, k).contains_key(es[j].0@) && named_inputs(es, deps, ins, k)[es[j].0@] == ins[q],
    decreases k,
{
    if k > 0 {
        lemma_named_prefix(es, deps, ins, (k - 1) as nat);
        let d = deps[k - 1];
        assert(bound_somewhere(es, deps[k - 1]));
        let js = choose|j: int| 0 <= j < es.len() && (#[trigger] es[j]).1 == d;
        assert forall|q: int| 0 <= q < js implies (#[trigger] es[q]).1 != d by {
            assert(es[q].1 != es[js].1);
        }
        lemma_first_name_of(es, d, js);
        assert forall|q: int, j: int| 0 <= q < k && 0 <= j < es.len() && (#[trigger] es[j]).1 == #[trigger] deps[q] implies
            named_inputs(es, deps, ins, k).contains_key(es[j].0@) && named_inputs(es, deps, ins, k)[es[j].0@] == ins[q] by {
            if q == k - 1 {
                if j != js {
                    assert(es[j].1 == es[js].1);
                    if j < js {
                        assert(es[j].1 != es[js].1);
                    } else {
                        assert(es[js].1 != es[j].1);
                    }
                }
            } else {
                assert(deps[q] != deps[k - 1]);
                assert(j != js);
                if j < js {
                    assert(es[j].0@ != es[js].0@);
                } else {
                    assert(es[js].0@ != es[j].0@);
                }
            }
        }
        assert forall|name: Seq<char>| #[trigger] named_inputs(es, deps, ins, k).contains_key(name) implies exists|q: int, j: int|
            0 <= q < k && 0 <= j < es.len() && es[j].1 == deps[q] && es[j].0@ == name by {
            if name != es[js].0@ {
                assert(named_inputs(es, deps, ins, (k - 1) as nat).contains_key(name));
            } else {
                assert(es[js].1 == deps[k - 1]);
            }
        }
    }
}

/// When the input names are bound to distinct outer ids, the shapes that
/// an equation node traces from are these: every input name, and no other
/// name, gets the shape at the position of its outer id among the node's
/// sorted dependencies; further shapes are ignored.
pub proof fn lemma_equation_inputs(n: EquationNode, ins: Seq<Seq<usize>>)
    requires
        n.input_mapping.wf(),
        values_distinct(n.input_mapping.entries@),
        ins.len() >= n.input_mapping.entries@.len(),
    ensures
        ({
            let deps = n.spec_deps();
            let named = named_inputs(n.input_mapping.entries@, deps, ins, deps.len());
            let mp = n.input_mapping.map();
            &&& deps.len() <= ins.len()
            &&& forall|name: Seq<char>| #[trigger] named.contains_key(name) <==> mp.contains_key(name)
            &&& forall|name: Seq<char>, q: int| mp.contains_key(name) && 0 <= q < deps.len() && #[trigger] deps[q] == mp[name]
                ==> #[trigger] named[name] == ins[q]
        }),
{
    let es = n.input_mapping.entries@;
    let deps = n.spec_deps();
    let vals = es.map_values(|e: (String, u128)| e.1);
    lemma_equation_deps(n);
    vals.to_multiset_ensures();
    deps.to_multiset_ensures();
    assert forall|q: int| 0 <= q < deps.len() implies bound_somewhere(es, #[trigger] deps[q]) by {
        assert(deps.to_multiset().count(deps[q]) > 0);
        assert(vals.contains(deps[q]));
        let j = choose|j: int| 0 <= j < vals.len() && vals[j] == deps[q];
        assert(es[j].1 == deps[q]);
    }
    // distinct values make every count at most one, so the sorted values repeat none
    assert(deps.no_duplicates()) by {
        assert forall|a: int, b: int| 0 <= a < deps.len() && 0 <= b < deps.len() && a != b implies deps[a] != deps[b] by {
            if deps[a] == deps[b] {
                lemma_count_two(deps, a, b);
                lemma_count_distinct(vals, deps[a]);
                assert(vals.to_multiset().count(deps[a]) <= 1) by {
                    assert forall|i: int, j: int| 0 <= i < j < vals.len() implies vals[i] != vals[j] by {
                        assert(vals[i] == es[i].1 && vals[j] == es[j].1);
                    }
                }
            }
        }
    }
    lemma_named_prefix(es, deps, ins, deps.len());
    let named = named_inputs(es, deps, ins, deps.len());
    let mp = n.input_mapping.map();
    assert forall|name: Seq<char>| #[trigger] named.contains_key(name) <==> mp.contains_key(name) by {
        lemma_entry_map_dom(es, name);
        if mp.contains_key(name) {
            let j = choose|j: int| 0 <= j < es.len() && (#[trigger] es[j]).0@ == name;
            assert(vals.to_multiset().count(es[j].1) > 0) by {
                assert(vals[j] == es[j].1);
            }
            let q = choose|q: int| 0 <= q < deps.len() && deps[q] == es[j].1;
            assert(es[j].1 == deps[q]);
        }
    }
    assert forall|name: Seq<char>, q: int| mp.contains_key(name) && 0 <= q < deps.len() && #[trigger] deps[q] == mp[name]
        implies #[trigger] named[name] == ins[q] by {
        lemma_entry_map_dom(es, name);
        let j = choose|j: int| 0 <= j < es.len() && (#[trigger] es[j]).0@ == name;
        lemma_entry_map_at(es, j);
        assert(es[j].1 == deps[q]);
    }
}

/// The shapes an equation node's inputs get from the shapes of its
/// dependencies `ins`, given in the order of `dependencies()`: each input
/// name gets the shape at the position of its outer id.
pub open spec fn shapes_by_dependency(n: EquationNode, ins: Seq<Seq<usize>>) -> Map<Seq<char>, Seq<usize>> {
    Map::new(
        |k: Seq<char>| n.input_mapping.map().contains_key(k),
        |k: Seq<char>| ins[n.spec_deps().index_of(n.input_mapping.map()[k])],
    )
}

/// When the input names are bound to distinct outer ids and a shape is
/// given for each dependency, what `infer_shape` states of its result is
/// what `EquationGraph::trace_output_shape` states of tracing the graph
/// from the named shapes `shapes_by_dependency`.
pub proof fn lemma_infer_shape_is_trace(n: EquationNode, ins: Seq<Seq<usize>>, g1: EquationGraph, r: Result<Seq<usize>, GraphError>)
    requires
        n.input_mapping.wf(),
        values_distinct(n.input_mapping.entries@),
        ins.len() >= n.input_mapping.entries@.len(),
    ensures
        trace_result(
            n.graph,
            g1,
            named_inputs(
                n.input_mapping.entries@,
                n.spec_deps(),
                ins,
                if n.spec_deps().len() <= ins.len() { n.spec_deps().len() } else { ins.len() },
            ),
            r,
        ) == trace_result(n.graph, g1, shapes_by_dependency(n, ins), r),
{
    lemma_equation_inputs(n, ins);
    let deps = n.spec_deps();
    let mp = n.input_mapping.map();
    let named = named_inputs(n.input_mapping.entries@, deps, ins, deps.len());
    let by_dep = shapes_by_dependency(n, ins);
    assert forall|k: Seq<char>| mp.contains_key(k) implies #[trigger] named[k] == by_dep[k] by {
        lemma_mapped_are_deps(n, k);
        let q = deps.index_of(mp[k]);
        assert(0 <= q < deps.len() && deps[q] == mp[k]);
    }
    assert(named =~= by_dep);
}

proof fn lemma_count_two(s: Seq<u128>, a: int, b: int)
    requires
        0 <= a < s.len(),
        0 <= b < s.len(),
        a != b,
        s[a] == s[b],
    ensures
        s.to_multiset().count(s[a]) >= 2,
    decreases s.len(),
{
    let x = s[a];
    let last = s.len() - 1;
    assert(s =~= s.drop_last().push(s.last()));
    s.drop_last().to_multiset_ensures();
    assert(s.to_multiset() =~= s.drop_last().push(s.last()).to_multiset());
    if a == last || b == last {
        let o = if a == last { b } else { a };
        assert(s.drop_last()[o] == x);
        assert(s.drop_last().contains(x));
    } else {
        lemma_count_two(s.drop_last(), a, b);
    }
}

proof fn lemma_count_distinct(s: Seq<u128>, x: u128)
    requires
        forall|i: int, j: int| 0 <= i < j < s.len() ==> s[i] != s[j],
    ensures
        s.to_multiset().count(x) <= 1,
    decreases s.len(),
{
    s.to_multiset_ensures();
    if s.len() > 0 {
        let d = s.drop_last();
        lemma_count_distinct(d, x);
        assert(s =~= d.push(s.last()));
        d.to_multiset_ensures();
        assert(s.to_multiset() =~= d.push(s.last()).to_multiset());
        if s.last() == x {
            assert(!d.contains(x)) by {
                if d.contains(x) {
                    let i = choose|i: int| 0 <= i < d.len() && d[i] == x;
                    assert(s[i] == s[s.len() - 1]);
                }
            }
            assert(d.to_multiset().count(x) == 0);
            assert(s.to_multiset().count(x) == d.to_multiset().count(x) + 1);
        } else {
            assert(s.to_multiset().count(x) == d.to_multiset().count(x));
        }
    }
}

} // verus!
