use vstd::prelude::*;
use std::collections::HashMap;
use crate::equation::EquationGraph;
use crate::equation_node::{lemma_lower_result_same, lemma_mapped_are_deps, named_inputs, compiled_by, compiles_all, EquationNode};
use crate::equation::{lemma_trace_result_same, result_view, shape_views, trace_result};
use crate::error::{GraphError, NodeKind};
use crate::name_map::{lemma_entry_map_at, lemma_entry_map_dom, NameMap};
use crate::nodes::{
    BoundaryConditionNode, ConstantNode, ExportNode, MigrateNode, NextStateNode, ProbeNode,
    StateNode,
};
use crate::schedule::{deps_known, deps_view, ids_distinct, is_schedule, picks_first_ready, schedule};
use crate::shape::Shape;
use crate::context::holds_tensor;
use crate::tensor::NumericsContextValue;

verus! {

broadcast use vstd::std_specs::hash::group_hash_axioms;

/// A node of a numerics graph.
#[derive(Debug)]
pub enum AnyNode {
    State(StateNode),
    Constant(ConstantNode),
    NextState(NextStateNode),
    BoundaryCondition(BoundaryConditionNode),
    Export(ExportNode),
    Probe(ProbeNode),
    Migrate(MigrateNode),
    Equation(EquationNode),
}

/// The shape of a node that passes its first input through; a node without
/// inputs has none.
pub open spec fn pass_through(kind: NodeKind, ins: Seq<Seq<usize>>) -> Result<Seq<usize>, GraphError> {
    if ins.len() == 0 {
        Err(GraphError::MissingInput(kind))
    } else {
        Ok(ins[0])
    }
}

/// The named input shapes that an equation node traces its graph from,
/// given the shapes of its dependencies in the order of its dependencies.
pub open spec fn equation_inputs(n: EquationNode, ins: Seq<Seq<usize>>) -> Map<Seq<char>, Seq<usize>> {
    named_inputs(
        n.input_mapping.entries@,
        n.spec_deps(),
        ins,
        if n.spec_deps().len() <= ins.len() { n.spec_deps().len() } else { ins.len() },
    )
}

/// `r` is what the node's shape rule gives from `ins`, the shapes of its
/// dependencies: a state node's shape only comes from its state, a
/// constant has its tensor's shape, a next-state node has rank 0, the
/// other plain nodes pass their first input through, and an equation node
/// traces its graph along its execution order (`after` is the node once
/// traced) from the named shapes of its inputs.
pub open spec fn node_shape(n: AnyNode, after: AnyNode, ins: Seq<Seq<usize>>, r: Result<Seq<usize>, GraphError>) -> bool {
    match n {
        AnyNode::State(_) => r == Err::<Seq<usize>, GraphError>(GraphError::StateShapeFromContext),
        AnyNode::Constant(c) => r == Ok::<Seq<usize>, GraphError>(c.tensor.shape@),
        AnyNode::NextState(_) => r == Ok::<Seq<usize>, GraphError>(Seq::empty()),
        AnyNode::BoundaryCondition(_) => r == pass_through(NodeKind::BoundaryCondition, ins),
        AnyNode::Export(_) => r == pass_through(NodeKind::Export, ins),
        AnyNode::Probe(_) => r == pass_through(NodeKind::Probe, ins),
        AnyNode::Migrate(_) => r == pass_through(NodeKind::Migrate, ins),
        AnyNode::Equation(e) => match r {
            _ => {
                &&& after is Equation
                &&& after->Equation_0.graph.wf()
                &&& after->Equation_0.graph.nodes == e.graph.nodes
                &&& trace_result(e.graph, after->Equation_0.graph, equation_inputs(e, ins), r)
            },
        },
    }
}

impl AnyNode {
    pub open spec fn spec_id(&self) -> u128 {
        match self {
            AnyNode::State(n) => n.id,
            AnyNode::Constant(n) => n.id,
            AnyNode::NextState(n) => n.id,
            AnyNode::BoundaryCondition(n) => n.id,
            AnyNode::Export(n) => n.id,
            AnyNode::Probe(n) => n.id,
            AnyNode::Migrate(n) => n.id,
            AnyNode::Equation(n) => n.id,
        }
    }

    /// The ids whose values the node reads.
    pub open spec fn spec_deps(&self) -> Seq<u128> {
        match self {
            AnyNode::State(_) => Seq::empty(),
            AnyNode::Constant(_) => Seq::empty(),
            AnyNode::NextState(n) => seq![n.source_id],
            AnyNode::BoundaryCondition(n) => seq![n.state_id, n.mask_id, n.values_id],
            AnyNode::Export(n) => seq![n.source_id],
            AnyNode::Probe(n) => seq![n.source_id],
            AnyNode::Migrate(n) => seq![n.source_id],
            AnyNode::Equation(n) => n.spec_deps(),
        }
    }

    pub open spec fn wf(&self) -> bool {
        match self {
            AnyNode::Equation(n) => n.wf(),
            _ => true,
        }
    }

    /// The node is the same but for what lowering an equation node sets:
    /// the execution order kept by its graph and its output shape.
    pub open spec fn same_but_lowering(&self, other: &AnyNode) -> bool {
        match (self, other) {
            (AnyNode::Equation(a), AnyNode::Equation(b)) => a.id == b.id && a.input_mapping == b.input_mapping
                && a.graph.nodes == b.graph.nodes
                && a.graph.input_vars == b.graph.input_vars && a.graph.output_id == b.graph.output_id,
            _ => self == other,
        }
    }

    pub fn id(&self) -> (r: u128)
        ensures
            r == self.spec_id(),
    {
        match self {
            AnyNode::State(n) => n.id,
            AnyNode::Constant(n) => n.id,
            AnyNode::NextState(n) => n.id,
            AnyNode::BoundaryCondition(n) => n.id,
            AnyNode::Export(n) => n.id,
            AnyNode::Probe(n) => n.id,
            AnyNode::Migrate(n) => n.id,
            AnyNode::Equation(n) => n.id,
        }
    }

    pub fn dependencies(&self) -> (r: Vec<u128>)
        ensures
            r@ == self.spec_deps(),
    {
        let mut v: Vec<u128> = Vec::new();
        match self {
            AnyNode::State(_) => {},
            AnyNode::Constant(_) => {},
            AnyNode::NextState(n) => {
                v.push(n.source_id);
            },
            AnyNode::BoundaryCondition(n) => {
                v.push(n.state_id);
                v.push(n.mask_id);
                v.push(n.values_id);
            },
            AnyNode::Export(n) => {
                v.push(n.source_id);
            },
            AnyNode::Probe(n) => {
                v.push(n.source_id);
            },
            AnyNode::Migrate(n) => {
                v.push(n.source_id);
            },
            AnyNode::Equation(n) => {
                return n.dependencies();
            },
        }
        assert(v@ =~= self.spec_deps());
        v
    }

    /// The node's shape from the shapes of its dependencies, by the rule of
    /// its kind.
    pub fn infer_shape(&mut self, inputs: &Vec<Shape>) -> (r: Result<Shape, GraphError>)
        requires
            old(self).wf(),
        ensures
            final(self).wf(),
            final(self).spec_id() == old(self).spec_id(),
            final(self).spec_deps() == old(self).spec_deps(),
            final(self).same_but_lowering(old(self)),
            *old(self) is Equation ==> final(self)->Equation_0.output_shape == old(self)->Equation_0.output_shape,
            node_shape(*old(self), *final(self), crate::equation::shapes_view(inputs@), result_view(r)),
            *old(self) is Equation ==> (r matches Err(e) ==> !(e is StateShapeFromContext)),
    {
        proof {
            if inputs@.len() > 0 {
                assert(crate::equation::shapes_view(inputs@)[0] == inputs@[0]@);
            }
        }
        match self {
            AnyNode::State(n) => n.infer_shape(inputs),
            AnyNode::Constant(n) => n.infer_shape(inputs),
            AnyNode::NextState(n) => n.infer_shape(inputs),
            AnyNode::BoundaryCondition(n) => n.infer_shape(inputs),
            AnyNode::Export(n) => n.infer_shape(inputs),
            AnyNode::Probe(n) => n.infer_shape(inputs),
            AnyNode::Migrate(n) => n.infer_shape(inputs),
            AnyNode::Equation(n) => n.infer_shape(inputs),
        }
    }

    /// Lowers an equation node for the shapes of the outer nodes and has
    /// `compile_kernel` compile its kernel; other nodes have nothing to lower.
    pub fn try_lower<F: Fn(u128, &EquationGraph) -> u64>(&mut self, outer_shape: &HashMap<u128, Shape>, compile_kernel: &F) -> (r: Result<(), GraphError>)
        requires
            old(self).wf(),
            compiles_all(*compile_kernel),
        ensures
            final(self).wf(),
            final(self).spec_id() == old(self).spec_id(),
            final(self).spec_deps() == old(self).spec_deps(),
            final(self).same_but_lowering(old(self)),
            !(*old(self) is Equation) ==> r is Ok,
            r matches Err(e) ==> !(e is StateShapeFromContext),
            *old(self) is Equation ==> *final(self) is Equation && {
                let before = old(self)->Equation_0;
                let after = final(self)->Equation_0;
                let mp = before.input_mapping.map();
                let given = Map::new(|k: Seq<char>| mp.contains_key(k), |k: Seq<char>| outer_shape@[mp[k]]@);
                &&& (forall|k: Seq<char>| #[trigger] mp.contains_key(k) ==> outer_shape@.contains_key(mp[k]))
                    <==> !(r matches Err(GraphError::MissingOuterShape(_)))
                &&& (r is Ok ==> (after.output_shape matches Some(s) && EquationNode::lower_result(before.graph, after.graph, given, Ok(s@))))
                &&& (r is Ok ==> (after.compiled_kernel matches Some(k) && compiled_by(*compile_kernel, after.id, after.graph, k)))
                &&& (r matches Err(e) ==> (e is MissingOuterShape || EquationNode::lower_result(before.graph, after.graph, given, Err(e))))
            },
    {
        match self {
            AnyNode::Equation(n) => n.try_lower(outer_shape, compile_kernel),
            _ => Ok(()),
        }
    }
}

pub open spec fn any_ids(ns: Seq<AnyNode>) -> Seq<u128> {
    ns.map_values(|n: AnyNode| n.spec_id())
}

pub open spec fn any_deps(ns: Seq<AnyNode>) -> Seq<Seq<u128>> {
    ns.map_values(|n: AnyNode| n.spec_deps())
}

/// The node list after adding `n`: it takes the place of a node with the
/// same id, and otherwise comes last.
pub open spec fn insert_any(ns: Seq<AnyNode>, n: AnyNode) -> Seq<AnyNode> {
    if exists|i: int| 0 <= i < ns.len() && (#[trigger] ns[i]).spec_id() == n.spec_id() {
        ns.update(choose|i: int| 0 <= i < ns.len() && (#[trigger] ns[i]).spec_id() == n.spec_id(), n)
    } else {
        ns.push(n)
    }
}

/// The shapes `m` gives the dependencies of `n`, in order.
pub open spec fn dep_shapes(n: AnyNode, m: Map<u128, Seq<usize>>) -> Seq<Seq<usize>> {
    n.spec_deps().map_values(|d: u128| m[d])
}

/// The node with id `id`.
pub open spec fn node_at(ns: Seq<AnyNode>, id: u128) -> AnyNode {
    ns[choose|i: int| 0 <= i < ns.len() && (#[trigger] ns[i]).spec_id() == id]
}

/// The shape `m` gives the outer node `id` is the one compilation infers for
/// it: the shape of the tensor the state map holds for it, or else, with the
/// shapes of all its dependencies in `m`, what its shape rule gives from
/// them.
pub open spec fn outer_entry(ns: Seq<AnyNode>, state: Map<u128, NumericsContextValue>, m: Map<u128, Seq<usize>>, id: u128) -> bool {
    if holds_tensor(state, id) {
        m[id] == state[id]->Tensor_0.shape@
    } else {
        let n = node_at(ns, id);
        &&& forall|k: int| 0 <= k < n.spec_deps().len() ==> m.contains_key(#[trigger] n.spec_deps()[k])
        &&& exists|after: AnyNode| #[trigger] node_shape(n, after, dep_shapes(n, m), Ok(m[id]))
    }
}

/// Where compilation infers a node's shape from its dependencies, a
/// boundary condition gets the shape of the state it updates (not of its
/// mask or values), an export, probe or migration the shape of its source,
/// a next-state node rank 0 and a constant its tensor's shape.
pub proof fn lemma_inferred_shapes_follow_inputs(
    ns: Seq<AnyNode>,
    state: Map<u128, NumericsContextValue>,
    order: Seq<u128>,
    m: Map<u128, Seq<usize>>,
    p: int,
)
    requires
        outer_shapes(ns, state, order, m),
        0 <= p < order.len(),
        !holds_tensor(state, order[p]),
    ensures
        node_at(ns, order[p]) matches AnyNode::BoundaryCondition(b) ==> m.contains_key(b.state_id) && m[order[p]] == m[b.state_id],
        node_at(ns, order[p]) matches AnyNode::Export(x) ==> m.contains_key(x.source_id) && m[order[p]] == m[x.source_id],
        node_at(ns, order[p]) matches AnyNode::Probe(x) ==> m.contains_key(x.source_id) && m[order[p]] == m[x.source_id],
        node_at(ns, order[p]) matches AnyNode::Migrate(x) ==> m.contains_key(x.source_id) && m[order[p]] == m[x.source_id],
        node_at(ns, order[p]) is NextState ==> m[order[p]] == Seq::<usize>::empty(),
        node_at(ns, order[p]) matches AnyNode::Constant(c) ==> m[order[p]] == c.tensor.shape@,
{
    let id = order[p];
    assert(m.contains_key(order[p]) && outer_entry(ns, state, m, order[p]));
    let n = node_at(ns, id);
    let after = choose|after: AnyNode| #[trigger] node_shape(n, after, dep_shapes(n, m), Ok(m[id]));
    assert(node_shape(n, after, dep_shapes(n, m), Ok(m[id])));
    if n.spec_deps().len() > 0 {
        assert(m.contains_key(n.spec_deps()[0]));
        assert(dep_shapes(n, m)[0] == m[n.spec_deps()[0]]);
    }
}

/// `m` gives every node of `order` the shape that compilation infers for it.
pub open spec fn outer_shapes(ns: Seq<AnyNode>, state: Map<u128, NumericsContextValue>, order: Seq<u128>, m: Map<u128, Seq<usize>>) -> bool {
    forall|p: int| 0 <= p < order.len() ==> m.contains_key(#[trigger] order[p]) && outer_entry(ns, state, m, order[p])
}

/// `m` gives the first `p` nodes of `order` the shapes compilation infers
/// for them.
pub open spec fn outer_prefix(ns: Seq<AnyNode>, state: Map<u128, NumericsContextValue>, order: Seq<u128>, p: int, m: Map<u128, Seq<usize>>) -> bool {
    forall|q: int| 0 <= q < p ==> m.contains_key(#[trigger] order[q]) && outer_entry(ns, state, m, order[q])
}

/// Shape inference stops at the node `order[p]`: the nodes before it have
/// their shapes in `m`, the state holds no tensor for it, and its rule
/// fails with `e` on the shapes of its dependencies.
pub open spec fn shape_fails_at(ns: Seq<AnyNode>, state: Map<u128, NumericsContextValue>, order: Seq<u128>, p: int, m: Map<u128, Seq<usize>>, e: GraphError) -> bool {
    let n = node_at(ns, order[p]);
    &&& 0 <= p < order.len()
    &&& outer_prefix(ns, state, order, p, m)
    &&& !holds_tensor(state, order[p])
    &&& forall|k: int| 0 <= k < n.spec_deps().len() ==> m.contains_key(#[trigger] n.spec_deps()[k])
    &&& exists|after: AnyNode| #[trigger] node_shape(n, after, dep_shapes(n, m), Err(e))
}

/// Lowering stops at the equation node `order[p]`: every equation node
/// before it lowers for the shapes in `m`, and it fails with `e`.
pub open spec fn lowering_fails_at<F: Fn(u128, &EquationGraph) -> u64>(compile_kernel: F, ns: Seq<AnyNode>, order: Seq<u128>, p: int, m: Map<u128, Seq<usize>>, e: GraphError) -> bool {
    &&& 0 <= p < order.len()
    &&& node_at(ns, order[p]) is Equation
    &&& exists|g1: EquationGraph| #[trigger] lowers_to(node_at(ns, order[p])->Equation_0, g1, m, Err(e))
    &&& forall|q: int| 0 <= q < p && (#[trigger] node_at(ns, order[q])) is Equation ==> exists|after: EquationNode|
        #[trigger] lowered_for(compile_kernel, node_at(ns, order[q])->Equation_0, after, m)
}

/// The shapes an equation node's inputs are given from the shapes of the
/// outer nodes in `m`: each input name gets the shape of the outer node it
/// is bound to.
pub open spec fn bound_shapes(n: EquationNode, m: Map<u128, Seq<usize>>) -> Map<Seq<char>, Seq<usize>> {
    Map::new(|k: Seq<char>| n.input_mapping.map().contains_key(k), |k: Seq<char>| m[n.input_mapping.map()[k]])
}

/// Lowering `before` for the shapes of the outer nodes in `m` gives `r`,
/// its graph becoming `g1`.
pub open spec fn lowers_to(before: EquationNode, g1: EquationGraph, m: Map<u128, Seq<usize>>, r: Result<Seq<usize>, GraphError>) -> bool {
    &&& g1.wf()
    &&& g1.nodes == before.graph.nodes
    &&& EquationNode::lower_result(before.graph, g1, bound_shapes(before, m), r)
}

/// The equation node `after` is `before` lowered for the shapes of the
/// outer nodes in `m`: tracing its graph from the shapes of its inputs gives
/// its output shape, and its kernel is one that `compile_kernel` gives for
/// it and its lowered graph.
pub open spec fn lowered_for<F: Fn(u128, &EquationGraph) -> u64>(compile_kernel: F, before: EquationNode, after: EquationNode, m: Map<u128, Seq<usize>>) -> bool {
    &&& after.output_shape matches Some(s) && lowers_to(before, after.graph, m, Ok(s@))
    &&& after.compiled_kernel matches Some(k) && compiled_by(compile_kernel, after.id, after.graph, k)
}

proof fn lemma_node_shape_same(a: AnyNode, b: AnyNode, after: AnyNode, ins: Seq<Seq<usize>>, r: Result<Seq<usize>, GraphError>)
    requires
        a.same_but_lowering(&b),
        node_shape(a, after, ins, r),
    ensures
        node_shape(b, after, ins, r),
{
    if a is Equation {
        let ea = a->Equation_0;
        let eb = b->Equation_0;
        lemma_trace_result_same(ea.graph, eb.graph, after->Equation_0.graph, equation_inputs(ea, ins), r);
    }
}

/// A graph of numerical nodes over tensors, with the state that its steps
/// start from.
#[derive(Debug)]
pub struct NumericsGraph {
    pub nodes: Vec<AnyNode>,
    pub state_map: HashMap<u128, NumericsContextValue>,
    /// The execution order, kept from the last compilation while the nodes'
    /// dependencies stay the same.
    pub schedule: Option<Vec<u128>>,
}

impl NumericsGraph {
    pub open spec fn ids(&self) -> Seq<u128> {
        any_ids(self.nodes@)
    }

    pub open spec fn deps(&self) -> Seq<Seq<u128>> {
        any_deps(self.nodes@)
    }

    /// Node ids are distinct, every node is well formed, and a kept
    /// execution order is the order that `schedule` gives the current nodes.
    pub open spec fn wf(&self) -> bool {
        &&& ids_distinct(self.ids())
        &&& forall|i: int| 0 <= i < self.nodes@.len() ==> (#[trigger] self.nodes@[i]).wf()
        &&& self.schedule matches Some(o) ==> deps_known(self.ids(), self.deps()) && is_schedule(self.ids(), self.deps(), o@)
            && picks_first_ready(self.ids(), self.deps(), o@)
    }

    pub fn new() -> (r: NumericsGraph)
        ensures
            r.wf(),
            r.nodes@.len() == 0,
            r.state_map@ == Map::<u128, NumericsContextValue>::empty(),
            r.schedule is None,
    {
        NumericsGraph { nodes: Vec::new(), state_map: HashMap::new(), schedule: None }
    }

    fn find_node(&self, id: u128) -> (r: Option<usize>)
        ensures
            r matches Some(i) ==> i < self.nodes@.len() && self.nodes@[i as int].spec_id() == id,
            r is None ==> !self.ids().contains(id),
    {
        let mut i: usize = 0;
        while i < self.nodes.len()
            invariant
                i <= self.nodes@.len(),
                forall|j: int| 0 <= j < i ==> (#[trigger] self.nodes@[j]).spec_id() != id,
            decreases self.nodes@.len() - i,
        {
            if self.nodes[i].id() == id {
                return Some(i);
            }
            i = i + 1;
        }
        proof {
            if self.ids().contains(id) {
                let j = choose|j: int| 0 <= j < self.ids().len() && self.ids()[j] == id;
                assert(self.nodes@[j].spec_id() == id);
            }
        }
        None
    }

    /// Adds `node`, in the place of a node with the same id if there is one.
    /// The kept execution order is dropped.
    pub fn add_node(&mut self, node: AnyNode) -> (r: u128)
        requires
            old(self).wf(),
            node.wf(),
        ensures
            final(self).wf(),
            r == node.spec_id(),
            final(self).ids().contains(r),
            final(self).nodes@ == insert_any(old(self).nodes@, node),
            final(self).state_map@ == old(self).state_map@,
            final(self).schedule is None,
    {
        let id = node.id();
        let ghost ns = self.nodes@;
        let ghost n = node;
        self.schedule = None;
        match self.find_node(id) {
            Some(i) => {
                proof {
                    let c = choose|j: int| 0 <= j < ns.len() && (#[trigger] ns[j]).spec_id() == n.spec_id();
                    assert(any_ids(ns)[c] == any_ids(ns)[i as int]);
                    assert(c == i as int);
                }
                self.nodes.set(i, node);
                proof {
                    assert(self.ids() =~= any_ids(ns).update(i as int, id));
                    assert(self.ids()[i as int] == id);
                    assert(self.ids() =~= any_ids(ns));
                }
            },
            None => {
                proof {
                    assert forall|j: int| 0 <= j < ns.len() implies (#[trigger] ns[j]).spec_id() != n.spec_id() by {
                        assert(any_ids(ns)[j] == ns[j].spec_id());
                    }
                }
                self.nodes.push(node);
                proof {
                    assert(self.ids() =~= any_ids(ns).push(id));
                    assert(self.ids()[ns.len() as int] == id);
                }
            },
        }
        id
    }

    /// The node with id `id`.
    pub fn get_node_dyn(&self, id: u128) -> (r: Result<&AnyNode, GraphError>)
        ensures
            r matches Ok(n) ==> n.spec_id() == id && self.nodes@.contains(*n),
            r is Err ==> r == Err::<&AnyNode, GraphError>(GraphError::UnknownNode(id)) && !self.ids().contains(id),
    {
        match self.find_node(id) {
            Some(i) => Ok(&self.nodes[i]),
            None => Err(GraphError::UnknownNode(id)),
        }
    }

    /// The kept execution order.
    pub fn get_execution_order(&self) -> (r: Result<Vec<u128>, GraphError>)
        ensures
            match self.schedule {
                Some(o) => r matches Ok(v) && v@ == o@,
                None => r == Err::<Vec<u128>, GraphError>(GraphError::NotCompiled),
            },
    {
        match &self.schedule {
            Some(o) => Ok(o.clone()),
            None => Err(GraphError::NotCompiled),
        }
    }

    fn ids_and_deps(&self) -> (r: (Vec<u128>, Vec<Vec<u128>>))
        ensures
            r.0@ == self.ids(),
            r.1@.len() == self.nodes@.len(),
            deps_view(r.1@) == self.deps(),
    {
        let mut ids: Vec<u128> = Vec::new();
        let mut deps: Vec<Vec<u128>> = Vec::new();
        let mut i: usize = 0;
        while i < self.nodes.len()
            invariant
                i <= self.nodes@.len(),
                ids@ == self.ids().subrange(0, i as int),
                deps@.len() == i,
                forall|j: int| 0 <= j < i ==> (#[trigger] deps@[j])@ == self.deps()[j],
            decreases self.nodes@.len() - i,
        {
            ids.push(self.nodes[i].id());
            deps.push(self.nodes[i].dependencies());
            i = i + 1;
        }
        assert(deps_view(deps@) =~= self.deps());
        (ids, deps)
    }

    /// Orders the nodes for execution and keeps the order.
    pub fn rebuild_schedule(&mut self) -> (r: Result<(), GraphError>)
        requires
            old(self).wf(),
        ensures
            final(self).wf(),
            final(self).nodes == old(self).nodes,
            final(self).state_map == old(self).state_map,
            r is Ok ==> final(self).schedule is Some,
            r matches Err(e) ==> (e is Cycle || e is UnknownDependency) && final(self).schedule == old(self).schedule
                && forall|o: Seq<u128>| !(deps_known(old(self).ids(), old(self).deps()) && is_schedule(old(self).ids(), old(self).deps(), o)),
            r matches Err(GraphError::UnknownDependency { node, dep }) ==> (!deps_known(old(self).ids(), old(self).deps()) ==> exists|i: int, k: int|
                0 <= i < old(self).ids().len() && 0 <= k < old(self).deps()[i].len() && old(self).ids()[i] == node
                    && #[trigger] old(self).deps()[i][k] == dep && !old(self).ids().contains(dep)),
    {
        let (ids, deps) = self.ids_and_deps();
        match schedule(&ids, &deps) {
            Ok(o) => {
                self.schedule = Some(o);
                Ok(())
            },
            Err(e) => {
                proof {
                    assert forall|o: Seq<u128>| !(deps_known(self.ids(), self.deps()) && is_schedule(self.ids(), self.deps(), o)) by {
                        if e is UnknownDependency {
                            let (i, k) = choose|i: int, k: int| 0 <= i < ids.len() && 0 <= k < deps@[i]@.len() && ids@[i] == e->node && deps@[i]@[k] == e->dep && !ids@.contains(e->dep);
                            assert(deps_view(deps@)[i] == deps@[i]@);
                            assert(self.deps()[i][k] == e->dep);
                        }
                    }
                    if e is UnknownDependency {
                        let (i, k) = choose|i: int, k: int| 0 <= i < ids.len() && 0 <= k < deps@[i]@.len() && ids@[i] == e->node && deps@[i]@[k] == e->dep && !ids@.contains(e->dep);
                        assert(deps_view(deps@)[i] == deps@[i]@);
                        assert(self.deps()[i][k] == e->dep);
                        assert(self.deps()[i].len() == deps@[i]@.len());
                    }
                }
                Err(e)
            },
        }
    }

    /// The shape of the tensor that the state holds for `id`.
    pub fn get_outer_shape(&self, id: u128) -> (r: Result<Shape, GraphError>)
        ensures
            match r {
                Ok(s) => self.state_map@.contains_key(id) && (self.state_map@[id] matches NumericsContextValue::Tensor(t) && s@ == t.shape@),
                Err(e) => e == GraphError::OuterShapeUnknown(id) && !(self.state_map@.contains_key(id) && self.state_map@[id] is Tensor),
            },
    {
        match self.state_map.get(&id) {
            Some(NumericsContextValue::Tensor(t)) => Ok(t.shape.duplicate()),
            _ => Err(GraphError::OuterShapeUnknown(id)),
        }
    }

    /// The shapes that the state gives the named inputs of a mapping.
    pub open spec fn state_shapes(&self, mapping: Map<Seq<char>, u128>) -> Map<Seq<char>, Seq<usize>> {
        Map::new(|k: Seq<char>| mapping.contains_key(k), |k: Seq<char>| self.state_map@[mapping[k]]->Tensor_0.shape@)
    }

    /// The state holds a tensor for `id`.
    pub open spec fn state_has_tensor(&self, id: u128) -> bool {
        self.state_map@.contains_key(id) && self.state_map@[id] is Tensor
    }

    /// Gives the equation node `eq_node_id` a new equation graph and input
    /// binding: the shapes of the bound outer tensors are read from the
    /// state, the node takes the new graph and binding, drops its kernel, is
    /// lowered for those shapes, and the execution order is rebuilt for the
    /// changed dependencies. Once the node has changed, the order kept from
    /// before no longer fits its dependencies and is dropped, so a failed
    /// lowering or rebuild leaves none.
    pub fn mutate_equation<F: Fn(u128, &EquationGraph) -> u64>(&mut self, eq_node_id: u128, new_graph: EquationGraph, new_mapping: NameMap<u128>, compile_kernel: &F) -> (r: Result<(), GraphError>)
        requires
            old(self).wf(),
            compiles_all(*compile_kernel),
            new_graph.wf(),
            new_mapping.wf(),
        ensures
            final(self).wf(),
            final(self).state_map == old(self).state_map,
            final(self).nodes@.len() == old(self).nodes@.len(),
            r matches Err(GraphError::OuterShapeUnknown(id)) ==> (exists|k: Seq<char>| #[trigger] new_mapping.map().contains_key(k) && new_mapping.map()[k] == id)
                && !old(self).state_has_tensor(id) && final(self).nodes == old(self).nodes && final(self).schedule == old(self).schedule,
            r matches Err(GraphError::NotAnEquationNode(id)) ==> id == eq_node_id
                && (forall|i: int| 0 <= i < old(self).nodes@.len() ==> !((#[trigger] old(self).nodes@[i]) is Equation && old(self).nodes@[i].spec_id() == id))
                && final(self).nodes == old(self).nodes && final(self).schedule == old(self).schedule,
            (forall|k: Seq<char>| #[trigger] new_mapping.map().contains_key(k) ==> old(self).state_has_tensor(new_mapping.map()[k]))
                <==> !(r matches Err(GraphError::OuterShapeUnknown(_))),
            !(r matches Err(GraphError::OuterShapeUnknown(_))) && !(r matches Err(GraphError::NotAnEquationNode(_))) ==> exists|i: int| {
                &&& 0 <= i < old(self).nodes@.len()
                &&& old(self).nodes@[i] is Equation
                &&& old(self).nodes@[i].spec_id() == eq_node_id
                &&& final(self).nodes@ == old(self).nodes@.update(i, final(self).nodes@[i])
                &&& final(self).nodes@[i] matches AnyNode::Equation(n)
                &&& n.id == eq_node_id
                &&& n.input_mapping == new_mapping
                &&& n.graph.nodes == new_graph.nodes
                &&& n.graph.input_vars == new_graph.input_vars
                &&& n.graph.output_id == new_graph.output_id
                &&& (r is Ok ==> (n.output_shape matches Some(sh) && EquationNode::lowered_to(new_graph, n.graph, old(self).state_shapes(new_mapping.map()), sh@)))
                &&& (r is Ok ==> (n.output_shape matches Some(sh) && EquationNode::lower_result(new_graph, n.graph, old(self).state_shapes(new_mapping.map()), Ok(sh@))))
                &&& (r is Ok ==> (n.compiled_kernel matches Some(k) && compiled_by(*compile_kernel, n.id, n.graph, k)))
                &&& (r is Err ==> final(self).schedule is None)
                &&& (r matches Err(e) ==> {
                    ||| {
                        &&& EquationNode::lower_result(new_graph, n.graph, old(self).state_shapes(new_mapping.map()), Err(e))
                        &&& n.compiled_kernel is None
                        &&& n.output_shape == old(self).nodes@[i]->Equation_0.output_shape
                    }
                    ||| {
                        &&& n.compiled_kernel matches Some(k) && compiled_by(*compile_kernel, n.id, n.graph, k)
                        &&& n.output_shape matches Some(sh)
                        &&& EquationNode::lower_result(new_graph, n.graph, old(self).state_shapes(new_mapping.map()), Ok(sh@))
                        &&& (e is Cycle || e is UnknownDependency)
                        &&& forall|o: Seq<u128>| !(deps_known(final(self).ids(), final(self).deps()) && is_schedule(final(self).ids(), final(self).deps(), o))
                    }
                })
            },
            r is Ok ==> final(self).schedule is Some,
    {
        // shapes of the bound outer tensors
        let ghost es = new_mapping.entries@;
        let mut named: NameMap<Shape> = NameMap::new();
        let mut i: usize = 0;
        while i < new_mapping.entries.len()
            invariant
                self.wf(),
                *self == *old(self),
                new_mapping.wf(),
                es == new_mapping.entries@,
                i <= es.len(),
                named.wf(),
                forall|k: Seq<char>| #[trigger] named.map().contains_key(k) ==> exists|j: int| 0 <= j < i && (#[trigger] es[j]).0@ == k,
                forall|j: int| 0 <= j < i ==> named.map().contains_key((#[trigger] es[j]).0@) && self.state_has_tensor(es[j].1)
                    && named.map()[es[j].0@]@ == self.state_map@[es[j].1]->Tensor_0.shape@,
            decreases es.len() - i,
        {
            let entry = &new_mapping.entries[i];
            match self.get_outer_shape(entry.1) {
                Err(e) => {
                    proof {
                        lemma_entry_map_at(es, i as int);
                        assert(new_mapping.map().contains_key(entry.0@));
                    }
                    return Err(e);
                },
                Ok(sh) => {
                    let ghost old_named = named.map();
                    named.insert(entry.0.clone(), sh);
                    proof {
                        assert forall|j: int| 0 <= j < i + 1 implies named.map().contains_key((#[trigger] es[j]).0@) && self.state_has_tensor(es[j].1)
                            && named.map()[es[j].0@]@ == self.state_map@[es[j].1]->Tensor_0.shape@ by {
                            if j < i {
                                assert(es[j].0@ != es[i as int].0@);
                            }
                        }
                        assert forall|k: Seq<char>| #[trigger] named.map().contains_key(k) implies exists|j: int| 0 <= j < i + 1 && (#[trigger] es[j]).0@ == k by {
                            if k != entry.0@ {
                                assert(old_named.contains_key(k));
                            } else {
                                assert(es[i as int].0@ == k);
                            }
                        }
                    }
                },
            }
            i = i + 1;
        }
        proof {
            let gv = old(self).state_shapes(new_mapping.map());
            assert forall|k: Seq<char>| #[trigger] shape_views(named.map()).contains_key(k) <==> gv.contains_key(k) by {
                lemma_entry_map_dom(es, k);
                if gv.contains_key(k) {
                    let j = choose|j: int| 0 <= j < es.len() && (#[trigger] es[j]).0@ == k;
                    assert(named.map().contains_key(es[j].0@));
                }
            }
            assert forall|k: Seq<char>| gv.contains_key(k) implies #[trigger] shape_views(named.map())[k] == gv[k] by {
                lemma_entry_map_dom(es, k);
                let j = choose|j: int| 0 <= j < es.len() && (#[trigger] es[j]).0@ == k;
                lemma_entry_map_at(es, j);
                assert(named.map().contains_key(es[j].0@));
            }
            assert(shape_views(named.map()) =~= gv);
            assert forall|k: Seq<char>| #[trigger] new_mapping.map().contains_key(k) implies old(self).state_has_tensor(new_mapping.map()[k]) by {
                lemma_entry_map_dom(es, k);
                let j = choose|j: int| 0 <= j < es.len() && (#[trigger] es[j]).0@ == k;
                lemma_entry_map_at(es, j);
            }
        }
        // the equation node
        let idx = match self.find_node(eq_node_id) {
            Some(j) => j,
            None => {
                proof {
                    assert forall|j: int| 0 <= j < old(self).nodes@.len() implies !((#[trigger] old(self).nodes@[j]) is Equation && old(self).nodes@[j].spec_id() == eq_node_id) by {
                        assert(self.ids()[j] == self.nodes@[j].spec_id());
                    }
                }
                return Err(GraphError::NotAnEquationNode(eq_node_id));
            },
        };
        if !(matches!(self.nodes[idx], AnyNode::Equation(_))) {
            proof {
                assert forall|j: int| 0 <= j < old(self).nodes@.len() implies !((#[trigger] old(self).nodes@[j]) is Equation && old(self).nodes@[j].spec_id() == eq_node_id) by {
                    if old(self).nodes@[j].spec_id() == eq_node_id {
                        assert(self.ids()[j] == self.ids()[idx as int]);
                    }
                }
            }
            return Err(GraphError::NotAnEquationNode(eq_node_id));
        }
        let ghost old_nodes = self.nodes@;
        self.schedule = None;
        let mut new_graph = new_graph;
        let mut new_mapping = new_mapping;
        let r = match &mut self.nodes[idx] {
            AnyNode::Equation(node) => {
                std::mem::swap(&mut node.graph, &mut new_graph);
                std::mem::swap(&mut node.input_mapping, &mut new_mapping);
                node.invalidate();
                node.lower(&named, compile_kernel)
            },
            _ => Ok(()),
        };
        proof {
            assert(self.nodes@ =~= old_nodes.update(idx as int, self.nodes@[idx as int]));
            assert forall|j: int| 0 <= j < self.nodes@.len() && j != idx implies #[trigger] self.ids()[j] == old(self).ids()[j] by {}
            assert(self.ids() =~= old(self).ids());
            assert forall|j: int| 0 <= j < self.nodes@.len() implies (#[trigger] self.nodes@[j]).wf() by {
                if j != idx as int {
                    assert(self.nodes@[j] == old(self).nodes@[j]);
                }
            }
        }
        match r {
            Ok(()) => {},
            Err(e) => {
                return Err(e);
            },
        }
        match self.rebuild_schedule() {
            Ok(()) => Ok(()),
            Err(e) => Err(e),
        }
    }

    /// Compiles the graph: orders the nodes, infers every node's shape in
    /// that order (a node whose tensor the state holds takes that tensor's
    /// shape, any other applies its rule to its dependencies' shapes),
    /// lowers the equation nodes for those shapes, compiling their kernels
    /// with `compile_kernel`, and keeps the order.
    /// The error is that of the first step that fails: ordering, the first
    /// node whose shape cannot be inferred, or the first equation node in
    /// the order that cannot be lowered.
    pub fn compile<F: Fn(u128, &EquationGraph) -> u64>(&mut self, compile_kernel: &F) -> (r: Result<(), GraphError>)
        requires
            old(self).wf(),
            compiles_all(*compile_kernel),
        ensures
            final(self).wf(),
            final(self).state_map == old(self).state_map,
            final(self).nodes@.len() == old(self).nodes@.len(),
            forall|i: int| 0 <= i < final(self).nodes@.len() ==> (#[trigger] final(self).nodes@[i]).same_but_lowering(&old(self).nodes@[i]),
            r is Ok ==> final(self).schedule is Some,
            r is Ok ==> exists|m: Map<u128, Seq<usize>>| {
                &&& outer_shapes(old(self).nodes@, old(self).state_map@, final(self).schedule->0@, m)
                &&& forall|i: int| 0 <= i < final(self).nodes@.len() && (#[trigger] final(self).nodes@[i]) is Equation
                    ==> lowered_for(*compile_kernel, old(self).nodes@[i]->Equation_0, final(self).nodes@[i]->Equation_0, m)
            },
            r matches Err(GraphError::UnknownDependency { node, dep }) ==> (!deps_known(old(self).ids(), old(self).deps()) ==> exists|i: int, k: int|
                0 <= i < old(self).ids().len() && 0 <= k < old(self).deps()[i].len() && old(self).ids()[i] == node
                    && #[trigger] old(self).deps()[i][k] == dep && !old(self).ids().contains(dep)),
            r matches Err(e) ==> {
                let ids = old(self).ids();
                let deps = old(self).deps();
                let ns = old(self).nodes@;
                let state = old(self).state_map@;
                ||| !deps_known(ids, deps) && e is UnknownDependency
                ||| deps_known(ids, deps) && (forall|o: Seq<u128>| !is_schedule(ids, deps, o)) && e is Cycle
                ||| exists|o: Seq<u128>| {
                    &&& deps_known(ids, deps)
                    &&& #[trigger] is_schedule(ids, deps, o)
                    &&& picks_first_ready(ids, deps, o)
                    &&& {
                        ||| exists|p: int, m: Map<u128, Seq<usize>>| #[trigger] shape_fails_at(ns, state, o, p, m, e)
                        ||| exists|p: int, m: Map<u128, Seq<usize>>| outer_shapes(ns, state, o, m) && #[trigger] lowering_fails_at(*compile_kernel, ns, o, p, m, e)
                    }
                }
            },
    {
        let (ids, deps) = self.ids_and_deps();
        let order = match schedule(&ids, &deps) {
            Ok(o) => o,
            Err(e) => {
                proof {
                    assert forall|o: Seq<u128>| !(deps_known(self.ids(), self.deps()) && is_schedule(self.ids(), self.deps(), o)) by {
                        if e is UnknownDependency {
                            let (i, k) = choose|i: int, k: int| 0 <= i < ids.len() && 0 <= k < deps@[i]@.len() && ids@[i] == e->node && deps@[i]@[k] == e->dep && !ids@.contains(e->dep);
                            assert(deps_view(deps@)[i] == deps@[i]@);
                            assert(self.deps()[i][k] == e->dep);
                        }
                    }
                    if e is UnknownDependency {
                        let (i, k) = choose|i: int, k: int| 0 <= i < ids.len() && 0 <= k < deps@[i]@.len() && ids@[i] == e->node && deps@[i]@[k] == e->dep && !ids@.contains(e->dep);
                        assert(deps_view(deps@)[i] == deps@[i]@);
                        assert(self.deps()[i][k] == e->dep);
                        assert(!deps_known(self.ids(), self.deps()));
                    }
                }
                return Err(e);
            },
        };
        let ghost gids = self.ids();
        let ghost gdeps = self.deps();
        let ghost ons = old(self).nodes@;
        let ghost ostate = old(self).state_map@;
        // shapes of the outer nodes, in execution order
        let mut outer: HashMap<u128, Shape> = HashMap::new();
        let ghost mut gm: Map<u128, Seq<usize>> = Map::empty();
        let mut p: usize = 0;
        while p < order.len()
            invariant
                self.wf(),
                self.state_map == old(self).state_map,
                self.schedule == old(self).schedule,
                self.nodes@.len() == old(self).nodes@.len(),
                ons == old(self).nodes@,
                ostate == old(self).state_map@,
                forall|i: int| 0 <= i < self.nodes@.len() ==> (#[trigger] self.nodes@[i]).same_but_lowering(&old(self).nodes@[i]),
                gids == self.ids(),
                gids == old(self).ids(),
                gdeps == self.deps(),
                gdeps == old(self).deps(),
                ids_distinct(gids),
                deps_known(gids, gdeps),
                is_schedule(gids, gdeps, order@),
                picks_first_ready(gids, gdeps, order@),
                p <= order@.len(),
                forall|q: int| 0 <= q < p ==> outer@.contains_key(#[trigger] order@[q]),
                forall|x: u128| #[trigger] outer@.contains_key(x) <==> gm.contains_key(x),
                forall|x: u128| #[trigger] outer@.contains_key(x) ==> outer@[x]@ == gm[x],
                forall|x: u128| #[trigger] gm.contains_key(x) ==> order@.subrange(0, p as int).contains(x),
                forall|q: int| 0 <= q < p ==> outer_entry(ons, ostate, gm, #[trigger] order@[q]),
            decreases order@.len() - p,
        {
            let id = order[p];
            proof {
                assert(!gm.contains_key(id)) by {
                    if gm.contains_key(id) {
                        let q = choose|q: int| 0 <= q < p && #[trigger] order@.subrange(0, p as int)[q] == id;
                        assert(order@[q] == order@[p as int]);
                    }
                }
            }
            let ghost gm0 = gm;
            match self.state_map.get(&id) {
                Some(NumericsContextValue::Tensor(t)) => {
                    let ghost sv = t.shape@;
                    outer.insert(id, t.shape.duplicate());
                    proof {
                        gm = gm.insert(id, sv);
                        assert(holds_tensor(ostate, id));
                    }
                },
                _ => {
                    proof {
                        assert(!holds_tensor(ostate, id));
                    }
                    assert(gids.contains(order@[p as int]));
                    let ni = match self.find_node(id) {
                        Some(ni) => ni,
                        None => {
                            return Err(GraphError::UnknownNode(id));
                        },
                    };
                    let ds = self.nodes[ni].dependencies();
                    let mut ins: Vec<Shape> = Vec::new();
                    let mut k: usize = 0;
                    while k < ds.len()
                        invariant
                            ni < self.nodes@.len(),
                            gids == self.ids(),
                            gdeps == self.deps(),
                            deps_known(gids, gdeps),
                            is_schedule(gids, gdeps, order@),
                            gids[ni as int] == order@[p as int],
                            ds@ == self.nodes@[ni as int].spec_deps(),
                            p < order@.len(),
                            forall|q: int| 0 <= q < p ==> outer@.contains_key(#[trigger] order@[q]),
                            forall|x: u128| #[trigger] outer@.contains_key(x) ==> outer@[x]@ == gm[x],
                            k <= ds@.len(),
                            ins@.len() == k,
                            gm == gm0,
                            ons == old(self).nodes@,
                            ids_distinct(gids),
                            picks_first_ready(gids, gdeps, order@),
                            outer_prefix(ons, ostate, order@, p as int, gm),
                            ostate == old(self).state_map@,
                            !holds_tensor(ostate, id),
                            id == order@[p as int],
                            forall|x: u128| #[trigger] outer@.contains_key(x) <==> gm.contains_key(x),
                            forall|kk: int| 0 <= kk < k ==> gm.contains_key(#[trigger] ds@[kk]),
                            forall|kk: int| 0 <= kk < k ==> (#[trigger] ins@[kk])@ == gm[ds@[kk]],
                        decreases ds@.len() - k,
                    {
                        let d = ds[k];
                        proof {
                            assert(gdeps[ni as int] == ds@);
                            assert(gdeps[ni as int][k as int] == d);
                            assert(gids.contains(d));
                            let dq = choose|dq: int| 0 <= dq < order@.len() && order@[dq] == d;
                            assert(gdeps[ni as int].contains(d));
                            assert(crate::schedule::depends_on(gids, gdeps, order@[p as int], d));
                            if dq >= p {
                                assert(!crate::schedule::depends_on(gids, gdeps, order@[p as int], order@[dq]));
                            }
                            assert(outer@.contains_key(order@[dq]));
                        }
                        match outer.get(&d) {
                            Some(s) => {
                                let sd = s.duplicate();
                                ins.push(sd);
                                proof {
                                    assert(ins@[k as int]@ == gm[ds@[k as int]]);
                                }
                            },
                            None => {
                                return Err(GraphError::UnknownNode(d));
                            },
                        }
                        k = k + 1;
                    }
                    let ghost before = self.nodes@;
                    let ghost nb = self.nodes@[ni as int];
                    proof {
                        assert(crate::equation::shapes_view(ins@) =~= dep_shapes(nb, gm));
                    }
                    let res = self.nodes[ni].infer_shape(&ins);
                    proof {
                        assert(self.nodes@ =~= before.update(ni as int, self.nodes@[ni as int]));
                        assert forall|j: int| 0 <= j < self.nodes@.len() implies #[trigger] self.ids()[j] == gids[j] by {
                            if j != ni as int {
                                assert(self.nodes@[j] == before[j]);
                            }
                        }
                        assert(self.ids() =~= gids);
                        assert forall|j: int| 0 <= j < self.nodes@.len() implies #[trigger] self.deps()[j] == gdeps[j] by {
                            if j != ni as int {
                                assert(self.nodes@[j] == before[j]);
                            }
                        }
                        assert(self.deps() =~= gdeps);
                        assert forall|j: int| 0 <= j < self.nodes@.len() implies (#[trigger] self.nodes@[j]).wf()
                            && self.nodes@[j].same_but_lowering(&old(self).nodes@[j]) by {
                            if j != ni as int {
                                assert(self.nodes@[j] == before[j]);
                            }
                        }
                    }
                    match res {
                        Ok(s) => {
                            let ghost sv = s@;
                            outer.insert(id, s);
                            proof {
                                gm = gm.insert(id, sv);
                                // the node with this id when compilation started
                                let c = choose|c: int| 0 <= c < ons.len() && (#[trigger] ons[c]).spec_id() == id;
                                assert(gids[c] == ons[c].spec_id());
                                assert(c == ni as int);
                                assert(node_at(ons, id) == ons[ni as int]);
                                let on = ons[ni as int];
                                lemma_node_shape_same(nb, on, self.nodes@[ni as int], dep_shapes(nb, gm0), Ok(sv));
                                assert(nb.spec_deps() == on.spec_deps()) by {
                                    assert(gdeps[ni as int] == nb.spec_deps());
                                    assert(old(self).deps()[ni as int] == on.spec_deps());
                                }
                                assert forall|kk: int| 0 <= kk < on.spec_deps().len() implies gm0.contains_key(#[trigger] on.spec_deps()[kk]) by {
                                    assert(gm0.contains_key(ds@[kk]));
                                }
                                assert(dep_shapes(on, gm) =~= dep_shapes(on, gm0)) by {
                                    assert forall|kk: int| 0 <= kk < on.spec_deps().len() implies on.spec_deps()[kk] != id by {
                                        assert(gm0.contains_key(on.spec_deps()[kk]));
                                    }
                                }
                                assert(dep_shapes(nb, gm0) == dep_shapes(on, gm0));
                                assert(node_shape(on, self.nodes@[ni as int], dep_shapes(on, gm), Ok(gm[id])));
                                assert(outer_entry(ons, ostate, gm, id));
                            }
                        },
                        Err(e) => {
                            proof {
                                let c = choose|c: int| 0 <= c < ons.len() && (#[trigger] ons[c]).spec_id() == id;
                                assert(gids[c] == ons[c].spec_id());
                                assert(c == ni as int);
                                assert(node_at(ons, id) == ons[ni as int]);
                                let on = ons[ni as int];
                                assert(nb.spec_deps() == on.spec_deps()) by {
                                    assert(gdeps[ni as int] == nb.spec_deps());
                                    assert(old(self).deps()[ni as int] == on.spec_deps());
                                }
                                lemma_node_shape_same(nb, on, self.nodes@[ni as int], dep_shapes(nb, gm0), Err(e));
                                assert(dep_shapes(nb, gm0) == dep_shapes(on, gm0));
                                assert(node_shape(on, self.nodes@[ni as int], dep_shapes(on, gm), Err(e)));
                                assert forall|kk: int| 0 <= kk < on.spec_deps().len() implies gm.contains_key(#[trigger] on.spec_deps()[kk]) by {
                                    assert(gm0.contains_key(ds@[kk]));
                                }
                                assert(shape_fails_at(ons, ostate, order@, p as int, gm, e));
                            }
                            return Err(e);
                        },
                    }
                },
            }
            proof {
                assert forall|q: int| 0 <= q < p + 1 implies outer_entry(ons, ostate, gm, #[trigger] order@[q]) by {
                    if q < p {
                        let x = order@[q];
                        assert(x != id);
                        assert(outer_entry(ons, ostate, gm0, x));
                        if !holds_tensor(ostate, x) {
                            let n = node_at(ons, x);
                            assert forall|kk: int| 0 <= kk < n.spec_deps().len() implies gm.contains_key(#[trigger] n.spec_deps()[kk]) by {
                                assert(gm0.contains_key(n.spec_deps()[kk]));
                            }
                            assert(dep_shapes(n, gm) =~= dep_shapes(n, gm0)) by {
                                assert forall|kk: int| 0 <= kk < n.spec_deps().len() implies n.spec_deps()[kk] != id by {
                                    assert(gm0.contains_key(n.spec_deps()[kk]));
                                }
                            }
                            let after = choose|after: AnyNode| #[trigger] node_shape(n, after, dep_shapes(n, gm0), Ok(gm0[x]));
                            assert(node_shape(n, after, dep_shapes(n, gm), Ok(gm[x])));
                        }
                    }
                }
                assert forall|x: u128| #[trigger] gm.contains_key(x) implies order@.subrange(0, p + 1).contains(x) by {
                    if x == id {
                        assert(order@.subrange(0, p + 1)[p as int] == id);
                    } else {
                        let q = choose|q: int| 0 <= q < p && #[trigger] order@.subrange(0, p as int)[q] == x;
                        assert(order@.subrange(0, p + 1)[q] == x);
                    }
                }
            }
            p = p + 1;
        }
        let ghost m = gm;
        proof {
            assert(outer_shapes(ons, ostate, order@, m));
        }
        // lower the equation nodes
        let mut p: usize = 0;
        while p < order.len()
            invariant
                self.wf(),
                self.state_map == old(self).state_map,
                self.schedule == old(self).schedule,
                self.nodes@.len() == old(self).nodes@.len(),
                forall|i: int| 0 <= i < self.nodes@.len() ==> (#[trigger] self.nodes@[i]).same_but_lowering(&old(self).nodes@[i]),
                gids == self.ids(),
                gdeps == self.deps(),
                deps_known(gids, gdeps),
                is_schedule(gids, gdeps, order@),
                picks_first_ready(gids, gdeps, order@),
                outer_shapes(ons, ostate, order@, m),
                ons == old(self).nodes@,
                ostate == old(self).state_map@,
                forall|x: u128| #[trigger] outer@.contains_key(x) ==> outer@[x]@ == m[x],
                forall|x: u128| #[trigger] m.contains_key(x) ==> outer@.contains_key(x),
                ids_distinct(gids),
                gids == old(self).ids(),
                gdeps == old(self).deps(),
                compiles_all(*compile_kernel),
                p <= order@.len(),
                forall|i: int| 0 <= i < self.nodes@.len() && (#[trigger] self.nodes@[i]) is Equation
                    && order@.subrange(0, p as int).contains(gids[i]) ==> lowered_for(*compile_kernel, ons[i]->Equation_0, self.nodes@[i]->Equation_0, m),
            decreases order@.len() - p,
        {
            let id = order[p];
            assert(gids.contains(order@[p as int]));
            let ni = match self.find_node(id) {
                Some(ni) => ni,
                None => {
                    return Err(GraphError::UnknownNode(id));
                },
            };
            let ghost before = self.nodes@;
            let ghost nb = self.nodes@[ni as int];
            let res = self.nodes[ni].try_lower(&outer, compile_kernel);
            proof {
                assert(self.nodes@ =~= before.update(ni as int, self.nodes@[ni as int]));
                assert forall|j: int| 0 <= j < self.nodes@.len() implies #[trigger] self.ids()[j] == gids[j] by {
                    if j != ni as int {
                        assert(self.nodes@[j] == before[j]);
                    }
                }
                assert(self.ids() =~= gids);
                assert forall|j: int| 0 <= j < self.nodes@.len() implies #[trigger] self.deps()[j] == gdeps[j] by {
                    if j != ni as int {
                        assert(self.nodes@[j] == before[j]);
                    }
                }
                assert(self.deps() =~= gdeps);
                assert forall|j: int| 0 <= j < self.nodes@.len() implies (#[trigger] self.nodes@[j]).wf()
                    && self.nodes@[j].same_but_lowering(&old(self).nodes@[j]) by {
                    if j != ni as int {
                        assert(self.nodes@[j] == before[j]);
                    }
                }
            }
            match res {
                Ok(()) => {},
                Err(e) => {
                    proof {
                        assert(old(self).nodes@[ni as int] is Equation);
                        let c = choose|c: int| 0 <= c < ons.len() && (#[trigger] ons[c]).spec_id() == id;
                        assert(gids[c] == ons[c].spec_id());
                        assert(c == ni as int);
                        assert(node_at(ons, order@[p as int]) == ons[ni as int]);
                        let eo = ons[ni as int]->Equation_0;
                        let eb = nb->Equation_0;
                        let ea = self.nodes@[ni as int]->Equation_0;
                        let mp = eb.input_mapping.map();
                        assert(before[ni as int].wf());
                        assert forall|k: Seq<char>| #[trigger] mp.contains_key(k) implies outer@.contains_key(mp[k]) by {
                            lemma_mapped_are_deps(eb, k);
                            let d = mp[k];
                            assert(gdeps[ni as int] == eb.spec_deps());
                            let kk = choose|kk: int| 0 <= kk < eb.spec_deps().len() && eb.spec_deps()[kk] == d;
                            assert(gdeps[ni as int][kk] == d);
                            assert(gids.contains(d));
                            let j = choose|j: int| 0 <= j < gids.len() && gids[j] == d;
                            assert(order@.contains(gids[j]));
                            let q = choose|q: int| 0 <= q < order@.len() && order@[q] == d;
                            assert(m.contains_key(order@[q]));
                        }
                        assert(!(e is MissingOuterShape));
                        assert(Map::new(|k: Seq<char>| mp.contains_key(k), |k: Seq<char>| outer@[mp[k]]@) =~= bound_shapes(eo, m));
                        lemma_lower_result_same(eb.graph, eo.graph, ea.graph, bound_shapes(eo, m), Err(e));
                        assert(self.nodes@[ni as int].wf());
                        assert(lowers_to(eo, ea.graph, m, Err(e)));
                        assert forall|q: int| 0 <= q < p && (#[trigger] node_at(ons, order@[q])) is Equation implies exists|after: EquationNode|
                            #[trigger] lowered_for(*compile_kernel, node_at(ons, order@[q])->Equation_0, after, m) by {
                            let x = order@[q];
                            assert(gids.contains(x));
                            let cq = choose|cq: int| 0 <= cq < ons.len() && (#[trigger] ons[cq]).spec_id() == x;
                            assert(gids[cq] == ons[cq].spec_id());
                            assert(node_at(ons, x) == ons[cq]);
                            assert(order@.subrange(0, p as int)[q] == x);
                            assert(order@.subrange(0, p as int).contains(gids[cq]));
                            assert(cq != ni as int) by {
                                if cq == ni as int {
                                    assert(order@[q] == order@[p as int]);
                                }
                            }
                            assert(self.nodes@[cq] == before[cq]);
                            assert(before[cq].same_but_lowering(&ons[cq]));
                            assert(before[cq] is Equation);
                            assert(lowered_for(*compile_kernel, ons[cq]->Equation_0, before[cq]->Equation_0, m));
                        }
                        assert(lowering_fails_at(*compile_kernel, ons, order@, p as int, m, e));
                        assert(outer_shapes(ons, ostate, order@, m) && lowering_fails_at(*compile_kernel, ons, order@, p as int, m, e));
                        assert(is_schedule(gids, gdeps, order@));
                    }
                    return Err(e);
                },
            }
            proof {
                if nb is Equation {
                    let eb = nb->Equation_0;
                    let ea = self.nodes@[ni as int]->Equation_0;
                    let eo = ons[ni as int]->Equation_0;
                    let mp = eb.input_mapping.map();
                    assert(eb.input_mapping == eo.input_mapping);
                    assert(Map::new(|k: Seq<char>| mp.contains_key(k), |k: Seq<char>| outer@[mp[k]]@)
                        =~= bound_shapes(eo, m));
                    let s = ea.output_shape->0;
                    lemma_lower_result_same(eb.graph, eo.graph, ea.graph, bound_shapes(eo, m), Ok(s@));
                    assert(self.nodes@[ni as int].wf());
                    assert(lowered_for(*compile_kernel, eo, ea, m));
                }
                assert forall|i: int| 0 <= i < self.nodes@.len() && (#[trigger] self.nodes@[i]) is Equation
                    && order@.subrange(0, p + 1).contains(gids[i]) implies lowered_for(*compile_kernel, ons[i]->Equation_0, self.nodes@[i]->Equation_0, m) by {
                    if i != ni as int {
                        assert(self.nodes@[i] == before[i]);
                        let q = choose|q: int| 0 <= q < p + 1 && #[trigger] order@.subrange(0, p + 1)[q] == gids[i];
                        if q == p as int {
                            assert(gids[i] == gids[ni as int]);
                        }
                        assert(order@.subrange(0, p as int)[q] == gids[i]);
                    }
                }
            }
            p = p + 1;
        }
        proof {
            assert(order@.subrange(0, order@.len() as int) =~= order@);
            assert forall|i: int| 0 <= i < self.nodes@.len() && (#[trigger] self.nodes@[i]) is Equation
                implies lowered_for(*compile_kernel, ons[i]->Equation_0, self.nodes@[i]->Equation_0, m) by {
                assert(gids[i] == self.nodes@[i].spec_id());
                assert(order@.contains(gids[i]));
            }
        }
        self.schedule = Some(order);
        Ok(())
    }

    /// The equation node with id `id`.
    pub fn get_equation_node(&self, id: u128) -> (r: Option<&EquationNode>)
        requires
            self.wf(),
        ensures
            r matches Some(n) ==> n.id == id && self.nodes@.contains(AnyNode::Equation(*n)),
            r is None ==> forall|i: int| 0 <= i < self.nodes@.len() ==> !((#[trigger] self.nodes@[i]) is Equation && self.nodes@[i].spec_id() == id),
    {
        match self.find_node(id) {
            Some(i) => match &self.nodes[i] {
                AnyNode::Equation(n) => Some(n),
                _ => {
                    proof {
                        assert forall|j: int| 0 <= j < self.nodes@.len() implies !((#[trigger] self.nodes@[j]) is Equation && self.nodes@[j].spec_id() == id) by {
                            if self.nodes@[j].spec_id() == id {
                                assert(self.ids()[j] == self.ids()[i as int]);
                            }
                        }
                    }
                    None
                },
            },
            None => {
                proof {
                    assert forall|j: int| 0 <= j < self.nodes@.len() implies !((#[trigger] self.nodes@[j]) is Equation && self.nodes@[j].spec_id() == id) by {
                        assert(self.ids()[j] == self.nodes@[j].spec_id());
                    }
                }
                None
            },
        }
    }
}

/// A node added to a graph is what looking up its id gives back: the node
/// list holds it, ids stay distinct, and no other node has its id.
pub proof fn lemma_add_then_get(ns: Seq<AnyNode>, n: AnyNode)
    requires
        ids_distinct(any_ids(ns)),
    ensures
        insert_any(ns, n).contains(n),
        ids_distinct(any_ids(insert_any(ns, n))),
        forall|m: AnyNode| #[trigger] insert_any(ns, n).contains(m) && m.spec_id() == n.spec_id() ==> m == n,
{
    let r = insert_any(ns, n);
    if exists|i: int| 0 <= i < ns.len() && (#[trigger] ns[i]).spec_id() == n.spec_id() {
        let c = choose|i: int| 0 <= i < ns.len() && (#[trigger] ns[i]).spec_id() == n.spec_id();
        assert(r[c] == n);
        assert forall|m: AnyNode| #[trigger] r.contains(m) && m.spec_id() == n.spec_id() implies m == n by {
            let j = choose|j: int| 0 <= j < r.len() && r[j] == m;
            if j != c {
                assert(any_ids(ns)[j] == ns[j].spec_id());
                assert(any_ids(ns)[c] == ns[c].spec_id());
            }
        }
        assert forall|p: int, q: int| 0 <= p < r.len() && 0 <= q < r.len() && p != q implies any_ids(r)[p] != any_ids(r)[q] by {
            assert(any_ids(ns)[p] == ns[p].spec_id());
            assert(any_ids(ns)[q] == ns[q].spec_id());
            assert(any_ids(ns)[c] == ns[c].spec_id());
        }
    } else {
        assert(r[ns.len() as int] == n);
        assert forall|m: AnyNode| #[trigger] r.contains(m) && m.spec_id() == n.spec_id() implies m == n by {
            let j = choose|j: int| 0 <= j < r.len() && r[j] == m;
            if j < ns.len() {
                assert(ns[j].spec_id() == n.spec_id());
            }
        }
        assert forall|p: int, q: int| 0 <= p < r.len() && 0 <= q < r.len() && p != q implies any_ids(r)[p] != any_ids(r)[q] by {
            if p < ns.len() {
                assert(any_ids(ns)[p] == ns[p].spec_id());
            }
            if q < ns.len() {
                assert(any_ids(ns)[q] == ns[q].spec_id());
            }
        }
    }
}

} // verus!
