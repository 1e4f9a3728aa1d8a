use vstd::prelude::*;
use std::collections::HashMap;
use crate::error::GraphError;
use crate::ids::{node_id, spec_node_id};
use crate::name_map::{lemma_entry_map_dom, NameMap};
use crate::schedule::{depends_on, deps_known, ids_distinct, is_schedule, picks_first_ready, schedule};
use crate::shape::{broadcast_shape, broadcast_shapes, broadcastable, lemma_broadcast_commutative, lemma_broadcast_scalar, Shape};
use crate::context::{holds_tensor, peek_tensor, values_view, GraphContext};
use crate::tensor::{Device, NumericsContextValue, TensorRef};

verus! {

broadcast use vstd::std_specs::hash::group_hash_axioms;

/// Elementwise binary operations of an equation.
#[derive(Clone, Copy, Debug, PartialEq, Eq, Structural)]
pub enum EqBinaryOp {
    Add,
    Sub,
    Mul,
    Div,
}

/// Elementwise unary operations of an equation.
#[derive(Clone, Copy, Debug, PartialEq, Eq, Structural)]
pub enum EqUnaryOp {
    Neg,
    Sqrt,
    Exp,
    Abs,
}

/// A named input of an equation, bound to an outer value when the equation
/// runs.
#[derive(Debug)]
pub struct EqVariableNode {
    pub id: u128,
    pub name: String,
}

impl EqVariableNode {
    pub fn new(name: &str, random: u128) -> (r: EqVariableNode)
        ensures
            r.id == spec_node_id(random),
            r.name@ == name@,
    {
        EqVariableNode { id: node_id(random), name: name.to_owned() }
    }

    /// Whether the outer graph has put the variable's value among the step's
    /// values; a variable computes nothing itself.
    pub fn is_bound(&self, ctx: &GraphContext) -> (r: bool)
        ensures
            r == ctx.temp@.contains_key(self.id),
    {
        ctx.temp.contains_key(&self.id)
    }
}

/// The value of an equation constant. Element values are kept as the bit
/// patterns of 32-bit floats.
#[derive(Debug)]
pub enum EqConstant {
    Scalar(u32),
    Vector(Vec<u32>),
    Tensor(TensorRef),
}

impl EqConstant {
    /// The shape of the constant: a scalar has rank 0, a vector of `n`
    /// elements has shape `[n]`, a tensor has its own shape.
    pub open spec fn spec_shape(&self) -> Seq<usize> {
        match self {
            EqConstant::Scalar(_) => Seq::empty(),
            EqConstant::Vector(v) => seq![v.len()],
            EqConstant::Tensor(t) => t.shape@,
        }
    }

    pub fn shape(&self) -> (r: Shape)
        ensures
            r@ == self.spec_shape(),
    {
        match self {
            EqConstant::Scalar(_) => Shape(Vec::new()),
            EqConstant::Vector(v) => {
                let mut s: Vec<usize> = Vec::new();
                s.push(v.len());
                assert(s@ =~= seq![v.len()]);
                Shape(s)
            },
            EqConstant::Tensor(t) => t.shape.duplicate(),
        }
    }
}

/// A constant's shape describes its values: a scalar has rank 0, a vector
/// of `n` values has rank 1 and extent `n`, a tensor constant has its
/// tensor's shape.
pub proof fn lemma_constant_rank(c: EqConstant)
    ensures
        c is Scalar ==> c.spec_shape().len() == 0,
        c matches EqConstant::Vector(v) ==> c.spec_shape().len() == 1 && c.spec_shape()[0] == v@.len(),
        c matches EqConstant::Tensor(t) ==> c.spec_shape() == t.shape@,
{
}

/// A binary operation between a scalar constant and a vector constant of
/// `n` values, in either order, has shape `[n]`.
pub proof fn lemma_scalar_and_vector(op: EqBinaryNode, bits: u32, values: Vec<u32>)
    ensures
        EqNode::Binary(op).shape_rule(seq![EqConstant::Scalar(bits).spec_shape(), EqConstant::Vector(values).spec_shape()])
            == Some(seq![values@.len() as usize]),
        EqNode::Binary(op).shape_rule(seq![EqConstant::Vector(values).spec_shape(), EqConstant::Scalar(bits).spec_shape()])
            == Some(seq![values@.len() as usize]),
{
    let v = EqConstant::Vector(values).spec_shape();
    lemma_broadcast_scalar(v);
    lemma_broadcast_commutative(Seq::<usize>::empty(), v);
    assert(EqConstant::Scalar(bits).spec_shape() =~= Seq::<usize>::empty());
    assert(v =~= seq![values@.len() as usize]);
}

/// A constant operand of an equation.
#[derive(Debug)]
pub struct EqConstantNode {
    pub id: u128,
    pub value: EqConstant,
}

impl EqConstantNode {
    /// A scalar constant, given by the bits of its `f32` value.
    pub fn scalar(bits: u32, random: u128) -> (r: EqConstantNode)
        ensures
            r.id == spec_node_id(random),
            r.value == EqConstant::Scalar(bits),
    {
        EqConstantNode { id: node_id(random), value: EqConstant::Scalar(bits) }
    }

    /// A vector constant, given by the bits of its `f32` elements.
    pub fn vector(bits: Vec<u32>, random: u128) -> (r: EqConstantNode)
        ensures
            r.id == spec_node_id(random),
            r.value matches EqConstant::Vector(v) && v@ == bits@,
    {
        EqConstantNode { id: node_id(random), value: EqConstant::Vector(bits) }
    }

    pub fn tensor(t: TensorRef, random: u128) -> (r: EqConstantNode)
        ensures
            r.id == spec_node_id(random),
            r.value matches EqConstant::Tensor(u) && u@ == t@,
    {
        EqConstantNode { id: node_id(random), value: EqConstant::Tensor(t) }
    }
}

#[derive(Debug)]
pub struct EqUnaryNode {
    pub id: u128,
    pub op: EqUnaryOp,
    pub input: u128,
}

impl EqUnaryNode {
    pub fn new(op: EqUnaryOp, input: u128, random: u128) -> (r: EqUnaryNode)
        ensures
            r.id == spec_node_id(random),
            r.op == op,
            r.input == input,
    {
        EqUnaryNode { id: node_id(random), op, input }
    }

    /// An elementwise operation keeps the shape of its operand.
    pub fn infer_shape(&self, inputs: &Vec<Shape>) -> (r: Result<Shape, GraphError>)
        requires
            inputs.len() >= 1,
        ensures
            r matches Ok(s) && s@ == inputs@[0]@,
    {
        Ok(inputs[0].duplicate())
    }

    /// The operand of the operation, from the step's values. The elements of
    /// the result are computed from it elementwise, keeping its shape.
    pub fn operand(&self, ctx: &GraphContext) -> (r: TensorRef)
        requires
            holds_tensor(ctx.temp@, self.input),
        ensures
            Some(r@) == ctx.temp@[self.input]@,
    {
        peek_tensor(ctx, self.input)
    }

    /// Records the result of the operation as the node's value: a tensor in
    /// main memory with the shape of the operand.
    pub fn store_result(&self, ctx: &mut GraphContext, result: TensorRef)
        requires
            holds_tensor(old(ctx).temp@, self.input),
            result.device == Device::Cpu,
            result.shape@ == old(ctx).temp@[self.input]->Tensor_0.shape@,
        ensures
            values_view(final(ctx).temp@) == values_view(old(ctx).temp@).insert(self.id, Some(result@)),
            final(ctx).state@ == old(ctx).state@,
            final(ctx).next_state@ == old(ctx).next_state@,
    {
        let ghost rv = result@;
        ctx.temp.insert(self.id, NumericsContextValue::Tensor(result));
        assert(values_view(ctx.temp@) =~= values_view(old(ctx).temp@).insert(self.id, Some(rv)));
    }
}

#[derive(Debug)]
pub struct EqBinaryNode {
    pub id: u128,
    pub op: EqBinaryOp,
    pub lhs: u128,
    pub rhs: u128,
}

impl EqBinaryNode {
    pub fn new(op: EqBinaryOp, lhs: u128, rhs: u128, random: u128) -> (r: EqBinaryNode)
        ensures
            r.id == spec_node_id(random),
            r.op == op,
            r.lhs == lhs,
            r.rhs == rhs,
    {
        EqBinaryNode { id: node_id(random), op, lhs, rhs }
    }

    /// The operands broadcast to a common shape (NumPy's trailing-dimension
    /// rule); the error carries both operand shapes when they do not.
    pub fn infer_shape(&self, inputs: &Vec<Shape>) -> (r: Result<Shape, GraphError>)
        requires
            inputs.len() >= 2,
        ensures
            r is Ok <==> broadcastable(inputs@[0]@, inputs@[1]@),
            r matches Ok(s) ==> s@ == broadcast_shape(inputs@[0]@, inputs@[1]@),
            r matches Err(e) ==> e matches GraphError::Broadcast { op, lhs, rhs } && op == self.op && lhs@ == inputs@[0]@
                && rhs@ == inputs@[1]@,
    {
        match broadcast_shapes(&inputs[0], &inputs[1]) {
            Some(s) => Ok(s),
            None => Err(GraphError::Broadcast { op: self.op, lhs: inputs[0].duplicate(), rhs: inputs[1].duplicate() }),
        }
    }

    /// The two operands, from the step's values, and the shape of the
    /// result: their broadcast, over which the operation runs elementwise.
    /// `None` when the operand shapes do not broadcast.
    pub fn operands(&self, ctx: &GraphContext) -> (r: Option<(TensorRef, TensorRef, Shape)>)
        requires
            holds_tensor(ctx.temp@, self.lhs),
            holds_tensor(ctx.temp@, self.rhs),
        ensures
            r is Some <==> broadcastable(ctx.temp@[self.lhs]->Tensor_0.shape@, ctx.temp@[self.rhs]->Tensor_0.shape@),
            r matches Some((a, b, s)) ==> Some(a@) == ctx.temp@[self.lhs]@ && Some(b@) == ctx.temp@[self.rhs]@
                && s@ == broadcast_shape(a.shape@, b.shape@),
    {
        let a = peek_tensor(ctx, self.lhs);
        let b = peek_tensor(ctx, self.rhs);
        match broadcast_shapes(&a.shape, &b.shape) {
            Some(s) => Some((a, b, s)),
            None => None,
        }
    }

    /// Records the result of the operation as the node's value: a tensor in
    /// main memory with the broadcast shape of the operands.
    pub fn store_result(&self, ctx: &mut GraphContext, result: TensorRef)
        requires
            holds_tensor(old(ctx).temp@, self.lhs),
            holds_tensor(old(ctx).temp@, self.rhs),
            broadcastable(old(ctx).temp@[self.lhs]->Tensor_0.shape@, old(ctx).temp@[self.rhs]->Tensor_0.shape@),
            result.device == Device::Cpu,
            result.shape@ == broadcast_shape(old(ctx).temp@[self.lhs]->Tensor_0.shape@, old(ctx).temp@[self.rhs]->Tensor_0.shape@),
        ensures
            values_view(final(ctx).temp@) == values_view(old(ctx).temp@).insert(self.id, Some(result@)),
            final(ctx).state@ == old(ctx).state@,
            final(ctx).next_state@ == old(ctx).next_state@,
    {
        let ghost rv = result@;
        ctx.temp.insert(self.id, NumericsContextValue::Tensor(result));
        assert(values_view(ctx.temp@) =~= values_view(old(ctx).temp@).insert(self.id, Some(rv)));
    }
}

/// A node of an equation graph.
#[derive(Debug)]
pub enum EqNode {
    Variable(EqVariableNode),
    Constant(EqConstantNode),
    Unary(EqUnaryNode),
    Binary(EqBinaryNode),
}

pub open spec fn shapes_view(v: Seq<Shape>) -> Seq<Seq<usize>> {
    v.map_values(|s: Shape| s@)
}

impl EqNode {
    pub open spec fn spec_id(&self) -> u128 {
        match self {
            EqNode::Variable(n) => n.id,
            EqNode::Constant(n) => n.id,
            EqNode::Unary(n) => n.id,
            EqNode::Binary(n) => n.id,
        }
    }

    pub open spec fn spec_deps(&self) -> Seq<u128> {
        match self {
            EqNode::Variable(_) => Seq::empty(),
            EqNode::Constant(_) => Seq::empty(),
            EqNode::Unary(n) => seq![n.input],
            EqNode::Binary(n) => seq![n.lhs, n.rhs],
        }
    }

    /// The shape of the node's result from the shapes of its dependencies;
    /// `None` when the node cannot give one.
    pub open spec fn shape_rule(&self, ins: Seq<Seq<usize>>) -> Option<Seq<usize>> {
        match self {
            EqNode::Variable(_) => None,
            EqNode::Constant(n) => Some(n.value.spec_shape()),
            EqNode::Unary(_) => Some(ins[0]),
            EqNode::Binary(_) => if broadcastable(ins[0], ins[1]) {
                Some(broadcast_shape(ins[0], ins[1]))
            } else {
                None
            },
        }
    }

    pub fn id(&self) -> (r: u128)
        ensures
            r == self.spec_id(),
    {
        match self {
            EqNode::Variable(n) => n.id,
            EqNode::Constant(n) => n.id,
            EqNode::Unary(n) => n.id,
            EqNode::Binary(n) => n.id,
        }
    }

    pub fn dependencies(&self) -> (r: Vec<u128>)
        ensures
            r@ == self.spec_deps(),
    {
        let mut v: Vec<u128> = Vec::new();
        match self {
            EqNode::Variable(_) => {},
            EqNode::Constant(_) => {},
            EqNode::Unary(n) => {
                v.push(n.input);
            },
            EqNode::Binary(n) => {
                v.push(n.lhs);
                v.push(n.rhs);
            },
        }
        assert(v@ =~= self.spec_deps());
        v
    }

    /// The node's shape from the shapes of its dependencies, in the order of
    /// `dependencies()`; further shapes are ignored. A variable has no shape of its own: it is supplied
    /// from outside, so asking for one is an error.
    pub fn infer_shape(&self, inputs: &Vec<Shape>) -> (r: Result<Shape, GraphError>)
        requires
            inputs.len() >= self.spec_deps().len(),
        ensures
            r is Ok <==> self.shape_rule(shapes_view(inputs@)) is Some,
            r matches Ok(s) ==> s@ == self.shape_rule(shapes_view(inputs@))->0,
            r matches Err(e) ==> node_error(*self, shapes_view(inputs@), e),
    {
        proof {
            if inputs.len() >= 1 {
                assert(shapes_view(inputs@)[0] == inputs@[0]@);
            }
            if inputs.len() >= 2 {
                assert(shapes_view(inputs@)[1] == inputs@[1]@);
            }
        }
        match self {
            EqNode::Variable(n) => Err(GraphError::VariableShapeExternal(n.name.clone())),
            EqNode::Constant(n) => Ok(n.value.shape()),
            EqNode::Unary(n) => n.infer_shape(inputs),
            EqNode::Binary(n) => n.infer_shape(inputs),
        }
    }
}

pub open spec fn node_ids(ns: Seq<EqNode>) -> Seq<u128> {
    ns.map_values(|n: EqNode| n.spec_id())
}

pub open spec fn node_deps(ns: Seq<EqNode>) -> Seq<Seq<u128>> {
    ns.map_values(|n: EqNode| n.spec_deps())
}

/// The node list after adding `n`: it takes the place of a node with the
/// same id, and otherwise comes last.
pub open spec fn insert_node(ns: Seq<EqNode>, n: EqNode) -> Seq<EqNode> {
    if exists|i: int| 0 <= i < ns.len() && (#[trigger] ns[i]).spec_id() == n.spec_id() {
        ns.update(choose|i: int| 0 <= i < ns.len() && (#[trigger] ns[i]).spec_id() == n.spec_id(), n)
    } else {
        ns.push(n)
    }
}

/// The node with id `id`.
pub open spec fn node_by_id(ns: Seq<EqNode>, id: u128) -> EqNode {
    ns[choose|i: int| 0 <= i < ns.len() && (#[trigger] ns[i]).spec_id() == id]
}

/// The error a node's shape rule reports when it gives no shape: a variable
/// names itself, a binary node carries its operation and the shapes of its
/// two operands.
pub open spec fn node_error(n: EqNode, ins: Seq<Seq<usize>>, e: GraphError) -> bool {
    match n {
        EqNode::Variable(v) => e == GraphError::VariableShapeExternal(v.name),
        EqNode::Binary(b) => e matches GraphError::Broadcast { op, lhs, rhs } && op == b.op && lhs@ == ins[0] && rhs@ == ins[1],
        _ => false,
    }
}

/// Tracing along `order` from `seed` stops at a node without a shape whose
/// rule gives none, and that node reports `e`.
pub open spec fn trace_fails_with(ns: Seq<EqNode>, seed: Map<u128, Seq<usize>>, order: Seq<u128>, e: GraphError) -> bool {
    exists|p: int|
        #![trigger order[p]]
        {
            &&& 0 <= p < order.len()
            &&& trace_fold(ns, seed, order.subrange(0, p)) matches Some(m)
            &&& !m.contains_key(order[p])
            &&& node_error(
                node_by_id(ns, order[p]),
                node_by_id(ns, order[p]).spec_deps().map_values(|d: u128| m[d]),
                e,
            )
        }
}

/// `r` is what tracing `g0` for the shapes `given` of its input variables
/// gives, `g1` being the graph afterwards, with its execution order: the
/// output's shape; `OutputNotSet` without an output; `MissingInputShape`
/// for an input variable without a given shape; `Cycle` or
/// `UnknownDependency` when the graph has no execution order;
/// `OutputShapeNotFound` when tracing leaves the output without a shape;
/// else the error of the node at which tracing stops.
pub open spec fn trace_result(
    g0: EquationGraph,
    g1: EquationGraph,
    given: Map<Seq<char>, Seq<usize>>,
    r: Result<Seq<usize>, GraphError>,
) -> bool {
    match r {
        Ok(s) => {
            &&& g0.inputs_given(given)
            &&& g0.output_id matches Some(out)
            &&& g1.schedule matches Some(o)
            &&& trace_fold(g0.nodes@, g0.seed(given), o@) matches Some(m)
            &&& m.contains_key(out)
            &&& s == m[out]
        },
        Err(GraphError::OutputNotSet) => g0.output_id is None,
        Err(GraphError::MissingInputShape(name)) => g0.output_id is Some && g0.input_vars.map().contains_key(name@)
            && !given.contains_key(name@),
        Err(GraphError::Cycle) => g0.output_id is Some && g0.inputs_given(given) && forall|o: Seq<u128>|
            !(deps_known(g0.ids(), g0.deps()) && is_schedule(g0.ids(), g0.deps(), o)),
        Err(GraphError::UnknownDependency { .. }) => g0.output_id is Some && g0.inputs_given(given) && forall|o: Seq<u128>|
            !(deps_known(g0.ids(), g0.deps()) && is_schedule(g0.ids(), g0.deps(), o)),
        Err(GraphError::OutputShapeNotFound(id)) => {
            &&& g0.output_id == Some(id)
            &&& g0.inputs_given(given)
            &&& g1.schedule matches Some(o)
            &&& trace_fold(g0.nodes@, g0.seed(given), o@) matches Some(m)
            &&& !m.contains_key(id)
        },
        Err(e) => {
            &&& g0.output_id is Some
            &&& g0.inputs_given(given)
            &&& g1.schedule matches Some(o)
            &&& trace_fails_with(g0.nodes@, g0.seed(given), o@, e)
        },
    }
}

/// What tracing gives depends on the graph's nodes, input variables and
/// output, not on the execution order it keeps beforehand.
pub proof fn lemma_trace_result_same(
    g0: EquationGraph,
    h0: EquationGraph,
    g1: EquationGraph,
    given: Map<Seq<char>, Seq<usize>>,
    r: Result<Seq<usize>, GraphError>,
)
    requires
        g0.nodes == h0.nodes,
        g0.input_vars == h0.input_vars,
        g0.output_id == h0.output_id,
        trace_result(g0, g1, given, r),
    ensures
        trace_result(h0, g1, given, r),
{
    assert(g0.ids() == h0.ids());
    assert(g0.deps() == h0.deps());
    assert(g0.seed(given) == h0.seed(given));
    assert(g0.inputs_given(given) == h0.inputs_given(given));
    assert(g0.input_vars.map() == h0.input_vars.map());
}

/// The view of a shape result.
pub open spec fn result_view(r: Result<Shape, GraphError>) -> Result<Seq<usize>, GraphError> {
    match r {
        Ok(s) => Ok(s@),
        Err(e) => Err(e),
    }
}

/// One step of shape tracing: a node that already has a shape keeps it;
/// otherwise its rule is applied to the shapes of its dependencies.
pub open spec fn trace_step(
    ns: Seq<EqNode>,
    m: Map<u128, Seq<usize>>,
    id: u128,
) -> Option<Map<u128, Seq<usize>>> {
    if m.contains_key(id) {
        Some(m)
    } else {
        let n = node_by_id(ns, id);
        match n.shape_rule(n.spec_deps().map_values(|d: u128| m[d])) {
            Some(s) => Some(m.insert(id, s)),
            None => None,
        }
    }
}

/// Shape tracing along `order`, from the shapes in `m`.
pub open spec fn trace_fold(
    ns: Seq<EqNode>,
    m: Map<u128, Seq<usize>>,
    order: Seq<u128>,
) -> Option<Map<u128, Seq<usize>>>
    decreases order.len(),
{
    if order.len() == 0 {
        Some(m)
    } else {
        match trace_fold(ns, m, order.drop_last()) {
            Some(m2) => trace_step(ns, m2, order.last()),
            None => None,
        }
    }
}

/// The shapes that the input variables start with: each variable's node gets
/// the shape given for its name, entries taken in order.
pub open spec fn seed_shapes(
    vars: Seq<(String, u128)>,
    given: Map<Seq<char>, Seq<usize>>,
) -> Map<u128, Seq<usize>>
    decreases vars.len(),
{
    if vars.len() == 0 {
        Map::empty()
    } else {
        seed_shapes(vars.drop_last(), given).insert(vars.last().1, given[vars.last().0@])
    }
}

/// A map of shapes, by their views.
pub open spec fn shape_views(m: Map<Seq<char>, Shape>) -> Map<Seq<char>, Seq<usize>> {
    m.map_values(|s: Shape| s@)
}

proof fn lemma_fold_none_extends(ns: Seq<EqNode>, m: Map<u128, Seq<usize>>, o: Seq<u128>, p: int)
    requires
        0 <= p <= o.len(),
        trace_fold(ns, m, o.subrange(0, p)) is None,
    ensures
        trace_fold(ns, m, o) is None,
    decreases o.len() - p,
{
    if p < o.len() {
        assert(o.subrange(0, p + 1).drop_last() =~= o.subrange(0, p));
        lemma_fold_none_extends(ns, m, o, p + 1);
    } else {
        assert(o.subrange(0, p) =~= o);
    }
}

proof fn lemma_fold_keys(ns: Seq<EqNode>, m: Map<u128, Seq<usize>>, o: Seq<u128>)
    requires
        trace_fold(ns, m, o) is Some,
    ensures
        forall|k: u128| m.contains_key(k) ==> trace_fold(ns, m, o)->0.contains_key(k),
        forall|q: int| 0 <= q < o.len() ==> trace_fold(ns, m, o)->0.contains_key(#[trigger] o[q]),
    decreases o.len(),
{
    if o.len() > 0 {
        lemma_fold_keys(ns, m, o.drop_last());
        assert forall|q: int| 0 <= q < o.len() implies trace_fold(ns, m, o)->0.contains_key(
            #[trigger] o[q],
        ) by {
            if q < o.len() - 1 {
                assert(o.drop_last()[q] == o[q]);
            }
        }
    }
}

/// A graph of elementwise tensor operations, traced for shapes and handed to
/// a domain compiler as one kernel.
#[derive(Debug)]
pub struct EquationGraph {
    pub nodes: Vec<EqNode>,
    pub input_vars: NameMap<u128>,
    pub output_id: Option<u128>,
    /// The execution order, kept from the last compilation while the nodes
    /// stay the same.
    pub schedule: Option<Vec<u128>>,
}

impl EquationGraph {
    pub open spec fn ids(&self) -> Seq<u128> {
        node_ids(self.nodes@)
    }

    pub open spec fn deps(&self) -> Seq<Seq<u128>> {
        node_deps(self.nodes@)
    }

    /// Node ids are distinct, every input variable names a node, and a kept
    /// execution order is the order that `schedule` gives the current nodes.
    pub open spec fn wf(&self) -> bool {
        &&& ids_distinct(self.ids())
        &&& self.input_vars.wf()
        &&& forall|k: Seq<char>| #[trigger] self.input_vars.map().contains_key(k) ==> self.ids().contains(self.input_vars.map()[k])
        &&& self.schedule matches Some(o) ==> deps_known(self.ids(), self.deps()) && is_schedule(self.ids(), self.deps(), o@)
            && picks_first_ready(self.ids(), self.deps(), o@)
    }

    pub fn new() -> (r: EquationGraph)
        ensures
            r.wf(),
            r.nodes@.len() == 0,
            r.input_vars.map() == Map::<Seq<char>, u128>::empty(),
            r.output_id is None,
            r.schedule is None,
    {
        EquationGraph { nodes: Vec::new(), input_vars: NameMap::new(), output_id: None, schedule: None }
    }

    fn find_node(&self, id: u128) -> (r: Option<usize>)
        ensures
            r matches Some(i) ==> i < self.nodes@.len() && self.nodes@[i as int].spec_id() == id,
            r is None ==> !self.ids().contains(id),
    {
        let mut i: usize = 0;
        while i < self.nodes.len()
            invariant
                i <= self.nodes@.len(),
                forall|j: int| 0 <= j < i ==> (#[trigger] self.nodes@[j]).spec_id() != id,
            decreases self.nodes@.len() - i,
        {
            if self.nodes[i].id() == id {
                return Some(i);
            }
            i = i + 1;
        }
        proof {
            if self.ids().contains(id) {
                let j = choose|j: int| 0 <= j < self.ids().len() && self.ids()[j] == id;
                assert(self.nodes@[j].spec_id() == id);
            }
        }
        None
    }

    /// Adds `node`, in the place of a node with the same id if there is one.
    /// The kept execution order is dropped.
    pub fn add_node(&mut self, node: EqNode) -> (r: u128)
        requires
            old(self).wf(),
        ensures
            final(self).wf(),
            r == node.spec_id(),
            final(self).ids().contains(r),
            final(self).nodes@ == insert_node(old(self).nodes@, node),
            final(self).input_vars == old(self).input_vars,
            final(self).output_id == old(self).output_id,
            final(self).schedule is None,
    {
        let id = node.id();
        let ghost ns = self.nodes@;
        let ghost n = node;
        self.schedule = None;
        match self.find_node(id) {
            Some(i) => {
                proof {
                    assert(exists|j: int| 0 <= j < ns.len() && (#[trigger] ns[j]).spec_id() == n.spec_id());
                    let c = choose|j: int| 0 <= j < ns.len() && (#[trigger] ns[j]).spec_id() == n.spec_id();
                    assert(node_ids(ns)[c] == node_ids(ns)[i as int]);
                    assert(c == i as int);
                }
                self.nodes.set(i, node);
                proof {
                    assert(self.ids() =~= node_ids(ns).update(i as int, id));
                    assert(self.ids()[i as int] == id);
                    assert(self.ids() =~= node_ids(ns));
                    assert forall|k: Seq<char>| #[trigger] self.input_vars.map().contains_key(k) implies self.ids().contains(self.input_vars.map()[k]) by {
                        assert(node_ids(ns).contains(self.input_vars.map()[k]));
                    }
                }
            },
            None => {
                proof {
                    assert forall|j: int| 0 <= j < ns.len() implies (#[trigger] ns[j]).spec_id() != n.spec_id() by {
                        assert(node_ids(ns)[j] == ns[j].spec_id());
                    }
                }
                self.nodes.push(node);
                proof {
                    assert(self.ids() =~= node_ids(ns).push(id));
                    assert(self.ids()[ns.len() as int] == id);
                    assert forall|k: Seq<char>| #[trigger] self.input_vars.map().contains_key(k) implies self.ids().contains(self.input_vars.map()[k]) by {
                        let v = self.input_vars.map()[k];
                        assert(node_ids(ns).contains(v));
                        let j = choose|j: int| 0 <= j < node_ids(ns).len() && node_ids(ns)[j] == v;
                        assert(self.ids()[j] == v);
                    }
                }
            },
        }
        id
    }

    /// Adds a variable `name` and registers it as the input of that name.
    pub fn var(&mut self, name: &str, random: u128) -> (r: u128)
        requires
            old(self).wf(),
        ensures
            r == spec_node_id(random),
            final(self).wf(),
            exists|v: EqVariableNode| v.id == r && v.name@ == name@ && final(self).nodes@ == insert_node(old(self).nodes@, EqNode::Variable(v)),
            final(self).input_vars.map() == old(self).input_vars.map().insert(name@, r),
            final(self).output_id == old(self).output_id,
            final(self).schedule is None,
    {
        let node = EqVariableNode::new(name, random);
        let ghost v = node;
        let id = self.add_node(EqNode::Variable(node));
        self.register_input(name, id);
        id
    }

    fn register_input(&mut self, name: &str, id: u128)
        requires
            old(self).wf(),
            old(self).ids().contains(id),
        ensures
            final(self).wf(),
            final(self).nodes == old(self).nodes,
            final(self).input_vars.map() == old(self).input_vars.map().insert(name@, id),
            final(self).output_id == old(self).output_id,
            final(self).schedule == old(self).schedule,
    {
        self.input_vars.insert(name.to_owned(), id);
    }

    fn add_binary(&mut self, op: EqBinaryOp, lhs: u128, rhs: u128, random: u128) -> (r: u128)
        requires
            old(self).wf(),
        ensures
            r == spec_node_id(random),
            final(self).wf(),
            exists|b: EqBinaryNode| b.id == r && b.op == op && b.lhs == lhs && b.rhs == rhs && final(self).nodes@ == insert_node(old(self).nodes@, EqNode::Binary(b)),
            final(self).input_vars == old(self).input_vars,
            final(self).output_id == old(self).output_id,
            final(self).schedule is None,
    {
        let node = EqBinaryNode::new(op, lhs, rhs, random);
        let ghost b = node;
        self.add_node(EqNode::Binary(node))
    }

    fn add_unary(&mut self, op: EqUnaryOp, input: u128, random: u128) -> (r: u128)
        requires
            old(self).wf(),
        ensures
            r == spec_node_id(random),
            final(self).wf(),
            exists|u: EqUnaryNode| u.id == r && u.op == op && u.input == input && final(self).nodes@ == insert_node(old(self).nodes@, EqNode::Unary(u)),
            final(self).input_vars == old(self).input_vars,
            final(self).output_id == old(self).output_id,
            final(self).schedule is None,
    {
        let node = EqUnaryNode::new(op, input, random);
        self.add_node(EqNode::Unary(node))
    }

    /// Adds `lhs + rhs`.
    pub fn add(&mut self, lhs: u128, rhs: u128, random: u128) -> (r: u128)
        requires
            old(self).wf(),
        ensures
            r == spec_node_id(random),
            final(self).wf(),
            exists|b: EqBinaryNode| b.id == r && b.op == EqBinaryOp::Add && b.lhs == lhs && b.rhs == rhs && final(self).nodes@ == insert_node(old(self).nodes@, EqNode::Binary(b)),
            final(self).input_vars == old(self).input_vars,
            final(self).output_id == old(self).output_id,
            final(self).schedule is None,
    {
        self.add_binary(EqBinaryOp::Add, lhs, rhs, random)
    }

    /// Adds `lhs - rhs`.
    pub fn sub(&mut self, lhs: u128, rhs: u128, random: u128) -> (r: u128)
        requires
            old(self).wf(),
        ensures
            r == spec_node_id(random),
            final(self).wf(),
            exists|b: EqBinaryNode| b.id == r && b.op == EqBinaryOp::Sub && b.lhs == lhs && b.rhs == rhs && final(self).nodes@ == insert_node(old(self).nodes@, EqNode::Binary(b)),
            final(self).input_vars == old(self).input_vars,
            final(self).output_id == old(self).output_id,
            final(self).schedule is None,
    {
        self.add_binary(EqBinaryOp::Sub, lhs, rhs, random)
    }

    /// Adds `lhs * rhs`.
    pub fn mul(&mut self, lhs: u128, rhs: u128, random: u128) -> (r: u128)
        requires
            old(self).wf(),
        ensures
            r == spec_node_id(random),
            final(self).wf(),
            exists|b: EqBinaryNode| b.id == r && b.op == EqBinaryOp::Mul && b.lhs == lhs && b.rhs == rhs && final(self).nodes@ == insert_node(old(self).nodes@, EqNode::Binary(b)),
            final(self).input_vars == old(self).input_vars,
            final(self).output_id == old(self).output_id,
            final(self).schedule is None,
    {
        self.add_binary(EqBinaryOp::Mul, lhs, rhs, random)
    }

    /// Adds `lhs / rhs`.
    pub fn div(&mut self, lhs: u128, rhs: u128, random: u128) -> (r: u128)
        requires
            old(self).wf(),
        ensures
            r == spec_node_id(random),
            final(self).wf(),
            exists|b: EqBinaryNode| b.id == r && b.op == EqBinaryOp::Div && b.lhs == lhs && b.rhs == rhs && final(self).nodes@ == insert_node(old(self).nodes@, EqNode::Binary(b)),
            final(self).input_vars == old(self).input_vars,
            final(self).output_id == old(self).output_id,
            final(self).schedule is None,
    {
        self.add_binary(EqBinaryOp::Div, lhs, rhs, random)
    }

    /// Adds `-input`.
    pub fn neg(&mut self, input: u128, random: u128) -> (r: u128)
        requires
            old(self).wf(),
        ensures
            r == spec_node_id(random),
            final(self).wf(),
            exists|u: EqUnaryNode| u.id == r && u.op == EqUnaryOp::Neg && u.input == input && final(self).nodes@ == insert_node(old(self).nodes@, EqNode::Unary(u)),
            final(self).input_vars == old(self).input_vars,
            final(self).output_id == old(self).output_id,
            final(self).schedule is None,
    {
        self.add_unary(EqUnaryOp::Neg, input, random)
    }

    /// Adds `sqrt(input)`.
    pub fn sqrt(&mut self, input: u128, random: u128) -> (r: u128)
        requires
            old(self).wf(),
        ensures
            r == spec_node_id(random),
            final(self).wf(),
            exists|u: EqUnaryNode| u.id == r && u.op == EqUnaryOp::Sqrt && u.input == input && final(self).nodes@ == insert_node(old(self).nodes@, EqNode::Unary(u)),
            final(self).input_vars == old(self).input_vars,
            final(self).output_id == old(self).output_id,
            final(self).schedule is None,
    {
        self.add_unary(EqUnaryOp::Sqrt, input, random)
    }

    /// Adds `exp(input)`.
    pub fn exp(&mut self, input: u128, random: u128) -> (r: u128)
        requires
            old(self).wf(),
        ensures
            r == spec_node_id(random),
            final(self).wf(),
            exists|u: EqUnaryNode| u.id == r && u.op == EqUnaryOp::Exp && u.input == input && final(self).nodes@ == insert_node(old(self).nodes@, EqNode::Unary(u)),
            final(self).input_vars == old(self).input_vars,
            final(self).output_id == old(self).output_id,
            final(self).schedule is None,
    {
        self.add_unary(EqUnaryOp::Exp, input, random)
    }

    /// Adds `|input|`.
    pub fn abs(&mut self, input: u128, random: u128) -> (r: u128)
        requires
            old(self).wf(),
        ensures
            r == spec_node_id(random),
            final(self).wf(),
            exists|u: EqUnaryNode| u.id == r && u.op == EqUnaryOp::Abs && u.input == input && final(self).nodes@ == insert_node(old(self).nodes@, EqNode::Unary(u)),
            final(self).input_vars == old(self).input_vars,
            final(self).output_id == old(self).output_id,
            final(self).schedule is None,
    {
        self.add_unary(EqUnaryOp::Abs, input, random)
    }

    /// Adds a scalar constant, given by the bits of its `f32` value.
    pub fn const_scalar(&mut self, bits: u32, random: u128) -> (r: u128)
        requires
            old(self).wf(),
        ensures
            r == spec_node_id(random),
            final(self).wf(),
            exists|c: EqConstantNode| c.id == r && c.value == EqConstant::Scalar(bits) && final(self).nodes@ == insert_node(old(self).nodes@, EqNode::Constant(c)),
            final(self).input_vars == old(self).input_vars,
            final(self).output_id == old(self).output_id,
            final(self).schedule is None,
    {
        let node = EqConstantNode::scalar(bits, random);
        self.add_node(EqNode::Constant(node))
    }

    /// Adds a vector constant, given by the bits of its `f32` elements.
    pub fn const_vector(&mut self, bits: Vec<u32>, random: u128) -> (r: u128)
        requires
            old(self).wf(),
        ensures
            r == spec_node_id(random),
            final(self).wf(),
            exists|c: EqConstantNode| c.id == r && (c.value matches EqConstant::Vector(v) && v@ == bits@) && final(self).nodes@ == insert_node(old(self).nodes@, EqNode::Constant(c)),
            final(self).input_vars == old(self).input_vars,
            final(self).output_id == old(self).output_id,
            final(self).schedule is None,
    {
        let node = EqConstantNode::vector(bits, random);
        self.add_node(EqNode::Constant(node))
    }

    /// Adds a tensor constant.
    pub fn const_tensor(&mut self, tensor: TensorRef, random: u128) -> (r: u128)
        requires
            old(self).wf(),
        ensures
            r == spec_node_id(random),
            final(self).wf(),
            exists|c: EqConstantNode| c.id == r && (c.value matches EqConstant::Tensor(t) && t@ == tensor@) && final(self).nodes@ == insert_node(old(self).nodes@, EqNode::Constant(c)),
            final(self).input_vars == old(self).input_vars,
            final(self).output_id == old(self).output_id,
            final(self).schedule is None,
    {
        let node = EqConstantNode::tensor(tensor, random);
        self.add_node(EqNode::Constant(node))
    }

    /// Adds `node` and registers it as the input named `name`.
    pub fn add_input(&mut self, name: &str, node: EqNode) -> (r: u128)
        requires
            old(self).wf(),
        ensures
            final(self).wf(),
            r == node.spec_id(),
            final(self).nodes@ == insert_node(old(self).nodes@, node),
            final(self).input_vars.map() == old(self).input_vars.map().insert(name@, r),
            final(self).output_id == old(self).output_id,
            final(self).schedule is None,
    {
        let id = self.add_node(node);
        self.register_input(name, id);
        id
    }

    pub fn set_output(&mut self, id: u128)
        ensures
            final(self).nodes == old(self).nodes,
            final(self).input_vars == old(self).input_vars,
            final(self).schedule == old(self).schedule,
            final(self).output_id == Some(id),
    {
        self.output_id = Some(id);
    }

    fn ids_and_deps(&self) -> (r: (Vec<u128>, Vec<Vec<u128>>))
        ensures
            r.0@ == self.ids(),
            r.1@.len() == self.nodes@.len(),
            forall|i: int| 0 <= i < r.1@.len() ==> (#[trigger] r.1@[i])@ == self.deps()[i],
    {
        let mut ids: Vec<u128> = Vec::new();
        let mut deps: Vec<Vec<u128>> = Vec::new();
        let mut i: usize = 0;
        while i < self.nodes.len()
            invariant
                i <= self.nodes@.len(),
                ids@ == self.ids().subrange(0, i as int),
                deps@.len() == i,
                forall|j: int| 0 <= j < i ==> (#[trigger] deps@[j])@ == self.deps()[j],
            decreases self.nodes@.len() - i,
        {
            ids.push(self.nodes[i].id());
            deps.push(self.nodes[i].dependencies());
            i = i + 1;
        }
        (ids, deps)
    }

    /// Orders the nodes for execution and keeps the order.
    pub fn compile(&mut self) -> (r: Result<(), GraphError>)
        requires
            old(self).wf(),
        ensures
            final(self).wf(),
            final(self).nodes == old(self).nodes,
            final(self).input_vars == old(self).input_vars,
            final(self).output_id == old(self).output_id,
            r is Ok ==> final(self).schedule is Some,
            r matches Err(e) ==> e is Cycle || e is UnknownDependency,
            r matches Err(e) && e is Cycle ==> deps_known(old(self).ids(), old(self).deps()),
            r matches Err(e) && e is UnknownDependency ==> !deps_known(old(self).ids(), old(self).deps()),
            r matches Err(GraphError::UnknownDependency { node, dep }) ==> exists|i: int, k: int|
                0 <= i < old(self).ids().len() && 0 <= k < old(self).deps()[i].len() && old(self).ids()[i] == node
                    && #[trigger] old(self).deps()[i][k] == dep && !old(self).ids().contains(dep),
            r is Err ==> final(self).schedule == old(self).schedule && forall|o: Seq<u128>| !(deps_known(old(self).ids(), old(self).deps()) && is_schedule(old(self).ids(), old(self).deps(), o)),
    {
        let (ids, deps) = self.ids_and_deps();
        proof {
            assert(crate::schedule::deps_view(deps@) =~= self.deps());
        }
        match schedule(&ids, &deps) {
            Ok(o) => {
                self.schedule = Some(o);
                Ok(())
            },
            Err(e) => {
                proof {
                    assert forall|o: Seq<u128>| !(deps_known(self.ids(), self.deps()) && is_schedule(self.ids(), self.deps(), o)) by {
                        if e is UnknownDependency {
                            let (i, k) = choose|i: int, k: int| 0 <= i < ids.len() && 0 <= k < deps@[i]@.len() && ids@[i] == e->node && deps@[i]@[k] == e->dep && !ids@.contains(e->dep);
                            assert(self.deps()[i][k] == e->dep);
                        }
                    }
                }
                Err(e)
            },
        }
    }

    /// The kept execution order.
    pub fn get_execution_order(&self) -> (r: Result<Vec<u128>, GraphError>)
        ensures
            match self.schedule {
                Some(o) => r matches Ok(v) && v@ == o@,
                None => r == Err::<Vec<u128>, GraphError>(GraphError::NotCompiled),
            },
    {
        match &self.schedule {
            Some(o) => Ok(o.clone()),
            None => Err(GraphError::NotCompiled),
        }
    }

    /// Every input variable has a shape among `given`.
    pub open spec fn inputs_given(&self, given: Map<Seq<char>, Seq<usize>>) -> bool {
        forall|i: int| 0 <= i < self.input_vars.entries@.len() ==> given.contains_key(
            (#[trigger] self.input_vars.entries@[i]).0@,
        )
    }

    /// The shapes that tracing starts from.
    pub open spec fn seed(&self, given: Map<Seq<char>, Seq<usize>>) -> Map<u128, Seq<usize>> {
        seed_shapes(self.input_vars.entries@, given)
    }

    /// Derives the shape of the output from the shapes of the inputs. Input
    /// variables get the shapes given for their names; then, in execution
    /// order, every node without a shape gets the one its rule gives from the
    /// shapes of its dependencies. The graph is compiled first when it has
    /// no kept execution order.
    pub fn trace_output_shape(&mut self, input_shapes: &NameMap<Shape>) -> (r: Result<Shape, GraphError>)
        requires
            old(self).wf(),
            input_shapes.wf(),
        ensures
            final(self).wf(),
            final(self).nodes == old(self).nodes,
            final(self).input_vars == old(self).input_vars,
            final(self).output_id == old(self).output_id,
            old(self).schedule is Some ==> final(self).schedule == old(self).schedule,
            trace_result(*old(self), *final(self), shape_views(input_shapes.map()), result_view(r)),
            r matches Err(e) && (e is OutputNotSet || e is MissingInputShape) ==> *final(self) == *old(self),
    {
        let output_id = match self.output_id {
            None => {
                return Err(GraphError::OutputNotSet);
            },
            Some(o) => o,
        };
        let ghost given = shape_views(input_shapes.map());
        let ghost vars = self.input_vars.entries@;
        // seed the input variables
        let mut hm: HashMap<u128, Shape> = HashMap::new();
        let ghost mut m: Map<u128, Seq<usize>> = Map::empty();
        let mut i: usize = 0;
        while i < self.input_vars.entries.len()
            invariant
                self.wf(),
                self.nodes == old(self).nodes,
                self.input_vars == old(self).input_vars,
                self.output_id == old(self).output_id,
                self.output_id == Some(output_id),
                self.schedule == old(self).schedule,
                vars == self.input_vars.entries@,
                self.input_vars.wf(),
                input_shapes.wf(),
                given == shape_views(input_shapes.map()),
                i <= vars.len(),
                m == seed_shapes(vars.subrange(0, i as int), given),
                forall|j: int| 0 <= j < i ==> given.contains_key((#[trigger] vars[j]).0@),
                forall|k: u128| #[trigger] hm@.contains_key(k) <==> m.contains_key(k),
                forall|k: u128| m.contains_key(k) ==> #[trigger] hm@[k]@ == m[k],
            decreases vars.len() - i,
        {
            let entry = &self.input_vars.entries[i];
            assert(vars.subrange(0, i + 1).drop_last() =~= vars.subrange(0, i as int));
            match input_shapes.get(entry.0.as_str()) {
                None => {
                    proof {
                        lemma_entry_map_dom(vars, entry.0@);
                    }
                    return Err(GraphError::MissingInputShape(entry.0.clone()));
                },
                Some(s) => {
                    let sd = s.duplicate();
                    hm.insert(entry.1, sd);
                    proof {
                        m = m.insert(entry.1, given[entry.0@]);
                    }
                },
            }
            i = i + 1;
        }
        assert(vars.subrange(0, vars.len() as int) =~= vars);
        let ghost seed = m;
        // execution order
        if self.schedule.is_none() {
            match self.compile() {
                Ok(()) => {},
                Err(e) => {
                    return Err(e);
                },
            }
        }
        let order = match &self.schedule {
            Some(o) => o.clone(),
            None => {
                return Err(GraphError::NotCompiled);
            },
        };
        let ghost ns = self.nodes@;
        let ghost ids = self.ids();
        let ghost deps = self.deps();
        assert(order@ =~= self.schedule->0@);
        let mut p: usize = 0;
        assert(order@.subrange(0, 0) =~= Seq::<u128>::empty());
        while p < order.len()
            invariant
                self.wf(),
                self.nodes == old(self).nodes,
                self.input_vars == old(self).input_vars,
                self.output_id == old(self).output_id,
                self.output_id == Some(output_id),
                old(self).schedule is Some ==> self.schedule == old(self).schedule,
                old(self).inputs_given(given),
                given == shape_views(input_shapes.map()),
                seed == old(self).seed(given),
                self.schedule matches Some(o) && o@ == order@,
                ns == self.nodes@,
                ids == self.ids(),
                deps == self.deps(),
                p <= order@.len(),
                trace_fold(ns, seed, order@.subrange(0, p as int)) == Some(m),
                forall|q: int| 0 <= q < p ==> m.contains_key(#[trigger] order@[q]),
                forall|k: u128| #[trigger] hm@.contains_key(k) <==> m.contains_key(k),
                forall|k: u128| m.contains_key(k) ==> #[trigger] hm@[k]@ == m[k],
            decreases order@.len() - p,
        {
            let id = order[p];
            let ghost prefix = order@.subrange(0, p as int);
            assert(order@.subrange(0, p + 1).drop_last() =~= prefix);
            assert(order@.subrange(0, p + 1).last() == id);
            if hm.contains_key(&id) {
                assert(forall|q: int| 0 <= q < p + 1 ==> m.contains_key(#[trigger] order@[q]));
            } else {
                assert(ids.contains(order@[p as int]));
                let ni = match self.find_node(id) {
                    Some(ni) => ni,
                    None => {
                        return Err(GraphError::NotCompiled);
                    },
                };
                let node = &self.nodes[ni];
                proof {
                    let c = choose|c: int| 0 <= c < ns.len() && (#[trigger] ns[c]).spec_id() == id;
                    assert(ids[c] == ids[ni as int]);
                    assert(node_by_id(ns, id) == ns[ni as int]);
                }
                let ds = node.dependencies();
                let mut ins: Vec<Shape> = Vec::new();
                let mut k: usize = 0;
                while k < ds.len()
                    invariant
                        self.wf(),
                        self.nodes == old(self).nodes,
                        self.input_vars == old(self).input_vars,
                        self.output_id == old(self).output_id,
                        old(self).schedule is Some ==> self.schedule == old(self).schedule,
                        self.schedule matches Some(o) && o@ == order@,
                        ns == self.nodes@,
                        ids == self.ids(),
                        deps == self.deps(),
                        p < order@.len(),
                        ni < ns.len(),
                        ids[ni as int] == order@[p as int],
                        ds@ == ns[ni as int].spec_deps(),
                        forall|q: int| 0 <= q < p ==> m.contains_key(#[trigger] order@[q]),
                        forall|k2: u128| #[trigger] hm@.contains_key(k2) <==> m.contains_key(k2),
                        forall|k2: u128| m.contains_key(k2) ==> #[trigger] hm@[k2]@ == m[k2],
                        k <= ds@.len(),
                        ins@.len() == k,
                        forall|k2: int| 0 <= k2 < k ==> (#[trigger] ins@[k2])@ == m[ds@[k2]],
                    decreases ds@.len() - k,
                {
                    let d = ds[k];
                    proof {
                        assert(deps[ni as int] == ds@);
                        assert(deps[ni as int][k as int] == d);
                        assert(ids.contains(d));
                        let dq = choose|dq: int| 0 <= dq < order@.len() && order@[dq] == d;
                        assert(deps[ni as int].contains(d));
                        assert(depends_on(ids, deps, order@[p as int], d));
                        if dq >= p {
                            assert(!depends_on(ids, deps, order@[p as int], order@[dq]));
                        }
                        assert(m.contains_key(order@[dq]));
                    }
                    let s = match hm.get(&d) {
                        Some(s) => s.duplicate(),
                        None => {
                            return Err(GraphError::NotCompiled);
                        },
                    };
                    ins.push(s);
                    k = k + 1;
                }
                proof {
                    assert(shapes_view(ins@) =~= ns[ni as int].spec_deps().map_values(|d: u128| m[d]));
                }
                match node.infer_shape(&ins) {
                    Ok(s) => {
                        hm.insert(id, s);
                        proof {
                            m = m.insert(id, node_by_id(ns, id).shape_rule(node_by_id(ns, id).spec_deps().map_values(|d: u128| trace_fold(ns, seed, prefix)->0[d]))->0);
                            assert forall|k2: u128| m.contains_key(k2) implies #[trigger] hm@[k2]@ == m[k2] by {}
                        }
                    },
                    Err(e) => {
                        proof {
                            assert(!m.contains_key(id));
                            assert(order@.subrange(0, p as int) == prefix);
                            assert(node_error(node_by_id(ns, order@[p as int]), node_by_id(ns, order@[p as int]).spec_deps().map_values(|d: u128| m[d]), e));
                            assert(trace_fails_with(ns, seed, order@, e));
                            assert(trace_step(ns, m, id) is None);
                            assert(trace_fold(ns, seed, order@.subrange(0, p + 1)) is None);
                            lemma_fold_none_extends(ns, seed, order@, p + 1);
                        }
                        return Err(e);
                    },
                }
            }
            p = p + 1;
        }
        assert(order@.subrange(0, order@.len() as int) =~= order@);
        match hm.get(&output_id) {
            Some(s) => Ok(s.duplicate()),
            None => Err(GraphError::OutputShapeNotFound(output_id)),
        }
    }
}

} // verus!
