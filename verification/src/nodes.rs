use vstd::prelude::*;
use crate::bc::BoundaryCondition;
use crate::context::{holds_tensor, peek_tensor, values_view, GraphContext};
use crate::error::{GraphError, NodeKind};
use crate::ids::{node_id, spec_node_id};
use crate::shape::Shape;
use crate::tensor::{Device, NumericsContextValue, TensorRef, TensorView};

verus! {

broadcast use vstd::std_specs::hash::group_hash_axioms;

/// `a` is a multiple of `b`; only 0 is a multiple of 0.
pub open spec fn is_multiple(a: usize, b: usize) -> bool {
    if b == 0 {
        a == 0
    } else {
        a % b == 0
    }
}

pub fn is_multiple_of(a: usize, b: usize) -> (r: bool)
    ensures
        r == is_multiple(a, b),
{
    if b == 0 {
        a == 0
    } else {
        a % b == 0
    }
}

/// The shape rule of a node that passes its first input through: its shape
/// is that of its first input.
pub fn pass_through_shape(kind: NodeKind, inputs: &Vec<Shape>) -> (r: Result<Shape, GraphError>)
    ensures
        inputs.len() == 0 ==> r == Err::<Shape, GraphError>(GraphError::MissingInput(kind)),
        inputs.len() > 0 ==> (r matches Ok(s) && s@ == inputs@[0]@),
{
    if inputs.len() == 0 {
        Err(GraphError::MissingInput(kind))
    } else {
        Ok(inputs[0].duplicate())
    }
}

/// Brings a value of the state into the step.
#[derive(Debug)]
pub struct StateNode {
    pub id: u128,
    pub name: String,
}

impl StateNode {
    pub fn new(name: &str, random: u128) -> (r: StateNode)
        ensures
            r.id == spec_node_id(random),
            r.name@ == name@,
    {
        StateNode { id: node_id(random), name: name.to_owned() }
    }

    /// A state node's shape comes only from the state it holds.
    pub fn infer_shape(&self, _inputs: &Vec<Shape>) -> (r: Result<Shape, GraphError>)
        ensures
            r == Err::<Shape, GraphError>(GraphError::StateShapeFromContext),
    {
        Err(GraphError::StateShapeFromContext)
    }

    /// Copies the node's state value into the step's values.
    pub fn compute(&self, ctx: &mut GraphContext)
        requires
            old(ctx).state@.contains_key(self.id),
        ensures
            values_view(final(ctx).temp@) == values_view(old(ctx).temp@).insert(self.id, old(ctx).state@[self.id]@),
            final(ctx).state@ == old(ctx).state@,
            final(ctx).next_state@ == old(ctx).next_state@,
    {
        let v = match ctx.state.get(&self.id) {
            Some(v) => v.duplicate(),
            None => NumericsContextValue::Empty,
        };
        ctx.temp.insert(self.id, v);
        assert(values_view(ctx.temp@) =~= values_view(old(ctx).temp@).insert(self.id, old(ctx).state@[self.id]@));
    }
}

/// A fixed tensor.
#[derive(Debug)]
pub struct ConstantNode {
    pub id: u128,
    pub tensor: TensorRef,
}

impl ConstantNode {
    pub fn new(tensor: TensorRef, random: u128) -> (r: ConstantNode)
        ensures
            r.id == spec_node_id(random),
            r.tensor@ == tensor@,
    {
        ConstantNode { id: node_id(random), tensor }
    }

    /// The constant's shape is that of its tensor.
    pub fn infer_shape(&self, _inputs: &Vec<Shape>) -> (r: Result<Shape, GraphError>)
        ensures
            r matches Ok(s) && s@ == self.tensor.shape@,
    {
        Ok(self.tensor.shape.duplicate())
    }

    /// Puts the constant among the step's values.
    pub fn compute(&self, ctx: &mut GraphContext)
        ensures
            values_view(final(ctx).temp@) == values_view(old(ctx).temp@).insert(self.id, Some(self.tensor@)),
            final(ctx).state@ == old(ctx).state@,
            final(ctx).next_state@ == old(ctx).next_state@,
    {
        ctx.temp.insert(self.id, NumericsContextValue::Tensor(self.tensor.duplicate()));
        assert(values_view(ctx.temp@) =~= values_view(old(ctx).temp@).insert(self.id, Some(self.tensor@)));
    }
}

/// Hands the value of `source_id` on as the next value of state `state_id`.
#[derive(Debug)]
pub struct NextStateNode {
    pub id: u128,
    pub state_id: u128,
    pub source_id: u128,
}

impl NextStateNode {
    pub fn new(state_id: u128, source_id: u128, random: u128) -> (r: NextStateNode)
        ensures
            r.id == spec_node_id(random),
            r.state_id == state_id,
            r.source_id == source_id,
    {
        NextStateNode { id: node_id(random), state_id, source_id }
    }

    /// The node itself yields nothing: rank 0.
    pub fn infer_shape(&self, _inputs: &Vec<Shape>) -> (r: Result<Shape, GraphError>)
        ensures
            r matches Ok(s) && s@ == Seq::<usize>::empty(),
    {
        Ok(Shape(Vec::new()))
    }

    /// Moves the source value out of the step's values into the next state,
    /// and records an empty value for the node.
    pub fn compute(&self, ctx: &mut GraphContext)
        requires
            old(ctx).temp@.contains_key(self.source_id),
        ensures
            values_view(final(ctx).temp@) == values_view(old(ctx).temp@).remove(self.source_id).insert(self.id, None),
            values_view(final(ctx).next_state@) == values_view(old(ctx).next_state@).insert(self.state_id, old(ctx).temp@[self.source_id]@),
            final(ctx).state@ == old(ctx).state@,
    {
        let v = match ctx.temp.remove(&self.source_id) {
            Some(v) => v,
            None => NumericsContextValue::Empty,
        };
        ctx.next_state.insert(self.state_id, v);
        ctx.temp.insert(self.id, NumericsContextValue::Empty);
        assert(values_view(ctx.temp@) =~= values_view(old(ctx).temp@).remove(self.source_id).insert(self.id, None));
        assert(values_view(ctx.next_state@) =~= values_view(old(ctx).next_state@).insert(self.state_id, old(ctx).temp@[self.source_id]@));
    }
}

/// Applies a boundary condition to a state tensor, given a mask and values.
/// The evaluator that changes the state's elements runs between
/// `take_inputs` and `store_outputs`.
#[derive(Debug)]
pub struct BoundaryConditionNode {
    pub id: u128,
    pub state_id: u128,
    pub mask_id: u128,
    pub values_id: u128,
    pub bc: BoundaryCondition,
}

impl BoundaryConditionNode {
    pub fn new(state_id: u128, mask_id: u128, values_id: u128, bc: BoundaryCondition, random: u128) -> (r: BoundaryConditionNode)
        ensures
            r.id == spec_node_id(random),
            r.state_id == state_id,
            r.mask_id == mask_id,
            r.values_id == values_id,
            r.bc == bc,
    {
        BoundaryConditionNode { id: node_id(random), state_id, mask_id, values_id, bc }
    }

    /// The result has the shape of the state, the first input.
    pub fn infer_shape(&self, inputs: &Vec<Shape>) -> (r: Result<Shape, GraphError>)
        ensures
            inputs.len() == 0 ==> r == Err::<Shape, GraphError>(GraphError::MissingInput(NodeKind::BoundaryCondition)),
            inputs.len() > 0 ==> (r matches Ok(s) && s@ == inputs@[0]@),
    {
        pass_through_shape(NodeKind::BoundaryCondition, inputs)
    }

    /// Takes the state, mask and values tensors out of the step's values.
    pub fn take_inputs(&self, ctx: &mut GraphContext) -> (r: (TensorRef, TensorRef, TensorRef))
        requires
            holds_tensor(old(ctx).temp@, self.state_id),
            holds_tensor(old(ctx).temp@, self.mask_id),
            holds_tensor(old(ctx).temp@, self.values_id),
            self.state_id != self.mask_id,
            self.state_id != self.values_id,
            self.mask_id != self.values_id,
        ensures
            Some(r.0@) == old(ctx).temp@[self.state_id]@,
            Some(r.1@) == old(ctx).temp@[self.mask_id]@,
            Some(r.2@) == old(ctx).temp@[self.values_id]@,
            final(ctx).temp@ == old(ctx).temp@.remove(self.state_id).remove(self.mask_id).remove(self.values_id),
            final(ctx).state@ == old(ctx).state@,
            final(ctx).next_state@ == old(ctx).next_state@,
    {
        let s = take_tensor(ctx, self.state_id);
        let m = take_tensor(ctx, self.mask_id);
        let v = take_tensor(ctx, self.values_id);
        (s, m, v)
    }

    /// Returns mask and values to their places and records the updated
    /// state as the node's value.
    pub fn store_outputs(&self, ctx: &mut GraphContext, state: TensorRef, mask: TensorRef, values: TensorRef)
        ensures
            values_view(final(ctx).temp@) == values_view(old(ctx).temp@).insert(self.mask_id, Some(mask@)).insert(self.values_id, Some(values@)).insert(self.id, Some(state@)),
            final(ctx).state@ == old(ctx).state@,
            final(ctx).next_state@ == old(ctx).next_state@,
    {
        let ghost (sv, mv, vv) = (state@, mask@, values@);
        ctx.temp.insert(self.mask_id, NumericsContextValue::Tensor(mask));
        ctx.temp.insert(self.values_id, NumericsContextValue::Tensor(values));
        ctx.temp.insert(self.id, NumericsContextValue::Tensor(state));
        assert(values_view(ctx.temp@) =~= values_view(old(ctx).temp@).insert(self.mask_id, Some(mv)).insert(self.values_id, Some(vv)).insert(self.id, Some(sv)));
    }
}

/// Takes the tensor stored under `id` out of the step's values.
pub fn take_tensor(ctx: &mut GraphContext, id: u128) -> (r: TensorRef)
    requires
        holds_tensor(old(ctx).temp@, id),
    ensures
        Some(r@) == old(ctx).temp@[id]@,
        final(ctx).temp@ == old(ctx).temp@.remove(id),
        final(ctx).state@ == old(ctx).state@,
        final(ctx).next_state@ == old(ctx).next_state@,
{
    match ctx.temp.remove(&id) {
        Some(NumericsContextValue::Tensor(t)) => t,
        _ => TensorRef { handle: 0, shape: Shape(Vec::new()), device: Device::Cpu },
    }
}

/// Writes a tensor out every `interval` steps.
#[derive(Debug)]
pub struct ExportNode {
    pub id: u128,
    pub source_id: u128,
    pub interval: usize,
    pub counter: usize,
    pub base_path: String,
}

impl ExportNode {
    pub fn new(source_id: u128, interval: usize, base_path: &str, random: u128) -> (r: ExportNode)
        ensures
            r.id == spec_node_id(random),
            r.source_id == source_id,
            r.interval == interval,
            r.counter == 0,
            r.base_path@ == base_path@,
    {
        ExportNode { id: node_id(random), source_id, interval, counter: 0, base_path: base_path.to_owned() }
    }

    /// The node passes its source through, so it has the source's shape.
    pub fn infer_shape(&self, inputs: &Vec<Shape>) -> (r: Result<Shape, GraphError>)
        ensures
            inputs.len() == 0 ==> r == Err::<Shape, GraphError>(GraphError::MissingInput(NodeKind::Export)),
            inputs.len() > 0 ==> (r matches Ok(s) && s@ == inputs@[0]@),
    {
        pass_through_shape(NodeKind::Export, inputs)
    }

    /// Counts the step and passes the source through. Returns whether this
    /// step is one to export: its count is a multiple of the interval.
    pub fn compute(&mut self, ctx: &mut GraphContext) -> (export: bool)
        requires
            old(self).counter < usize::MAX,
            holds_tensor(old(ctx).temp@, old(self).source_id),
        ensures
            final(self).counter == old(self).counter + 1,
            final(self).id == old(self).id,
            final(self).source_id == old(self).source_id,
            final(self).interval == old(self).interval,
            final(self).base_path == old(self).base_path,
            export == is_multiple(final(self).counter, old(self).interval),
            values_view(final(ctx).temp@) == values_view(old(ctx).temp@).insert(old(self).id, old(ctx).temp@[old(self).source_id]@),
            final(ctx).state@ == old(ctx).state@,
            final(ctx).next_state@ == old(ctx).next_state@,
    {
        self.counter = self.counter + 1;
        let t = peek_tensor(ctx, self.source_id);
        let export = is_multiple_of(self.counter, self.interval);
        ctx.temp.insert(self.id, NumericsContextValue::Tensor(t));
        assert(values_view(ctx.temp@) =~= values_view(old(ctx).temp@).insert(old(self).id, old(ctx).temp@[old(self).source_id]@));
        export
    }
}

/// Reports values of a tensor at given coordinates every `interval` steps.
#[derive(Debug)]
pub struct ProbeNode {
    pub id: u128,
    pub source_id: u128,
    pub name: String,
    pub coordinates: Vec<Vec<usize>>,
    pub interval: usize,
    pub counter: usize,
}

impl ProbeNode {
    pub fn new(name: &str, source_id: u128, coordinates: Vec<Vec<usize>>, interval: usize, random: u128) -> (r: ProbeNode)
        ensures
            r.id == spec_node_id(random),
            r.name@ == name@,
            r.source_id == source_id,
            r.coordinates@ == coordinates@,
            r.interval == interval,
            r.counter == 0,
    {
        ProbeNode { id: node_id(random), source_id, name: name.to_owned(), coordinates, interval, counter: 0 }
    }

    /// The node passes its source through, so it has the source's shape.
    pub fn infer_shape(&self, inputs: &Vec<Shape>) -> (r: Result<Shape, GraphError>)
        ensures
            inputs.len() == 0 ==> r == Err::<Shape, GraphError>(GraphError::MissingInput(NodeKind::Probe)),
            inputs.len() > 0 ==> (r matches Ok(s) && s@ == inputs@[0]@),
    {
        pass_through_shape(NodeKind::Probe, inputs)
    }

    /// Counts the step and passes the source through. Returns whether this
    /// step is one to report: its count is a multiple of the interval.
    pub fn compute(&mut self, ctx: &mut GraphContext) -> (report: bool)
        requires
            old(self).counter < usize::MAX,
            holds_tensor(old(ctx).temp@, old(self).source_id),
        ensures
            final(self).counter == old(self).counter + 1,
            final(self).id == old(self).id,
            final(self).source_id == old(self).source_id,
            final(self).interval == old(self).interval,
            final(self).name == old(self).name,
            final(self).coordinates == old(self).coordinates,
            report == is_multiple(final(self).counter, old(self).interval),
            values_view(final(ctx).temp@) == values_view(old(ctx).temp@).insert(old(self).id, old(ctx).temp@[old(self).source_id]@),
            final(ctx).state@ == old(ctx).state@,
            final(ctx).next_state@ == old(ctx).next_state@,
    {
        self.counter = self.counter + 1;
        let t = peek_tensor(ctx, self.source_id);
        let report = is_multiple_of(self.counter, self.interval);
        ctx.temp.insert(self.id, NumericsContextValue::Tensor(t));
        assert(values_view(ctx.temp@) =~= values_view(old(ctx).temp@).insert(old(self).id, old(ctx).temp@[old(self).source_id]@));
        report
    }
}

/// What moving a tensor to the target device takes.
#[derive(Clone, Copy, Debug, PartialEq, Eq, Structural)]
pub enum MigrationPlan {
    /// The tensor is already on the target device.
    PassThrough,
    /// Copy the elements from main memory to the given GPU.
    Upload { gpu_id: usize },
    /// Copy the elements from the GPU to main memory.
    Download,
    /// No transfer between these devices is supported.
    Unsupported,
}

/// The transfer that moves a tensor from `source` to `target`: none when
/// they agree, an upload from the CPU to a GPU, a download from a GPU to the
/// CPU; moves between two different GPUs are not supported.
pub open spec fn spec_plan_migration(source: Device, target: Device) -> MigrationPlan {
    if source == target {
        MigrationPlan::PassThrough
    } else {
        match (source, target) {
            (Device::Cpu, Device::Gpu(g)) => MigrationPlan::Upload { gpu_id: g },
            (Device::Gpu(_), Device::Cpu) => MigrationPlan::Download,
            _ => MigrationPlan::Unsupported,
        }
    }
}

pub fn plan_migration(source: Device, target: Device) -> (r: MigrationPlan)
    ensures
        r == spec_plan_migration(source, target),
{
    if source == target {
        MigrationPlan::PassThrough
    } else {
        match (source, target) {
            (Device::Cpu, Device::Gpu(g)) => MigrationPlan::Upload { gpu_id: g },
            (Device::Gpu(_), Device::Cpu) => MigrationPlan::Download,
            _ => MigrationPlan::Unsupported,
        }
    }
}

/// Moves a tensor to another device. The copy itself runs between `begin`
/// and `finish`.
#[derive(Debug)]
pub struct MigrateNode {
    pub id: u128,
    pub source_id: u128,
    pub target_device: Device,
}

impl MigrateNode {
    pub fn new(source_id: u128, target_device: Device, random: u128) -> (r: MigrateNode)
        ensures
            r.id == spec_node_id(random),
            r.source_id == source_id,
            r.target_device == target_device,
    {
        MigrateNode { id: node_id(random), source_id, target_device }
    }

    /// A moved tensor keeps its shape.
    pub fn infer_shape(&self, inputs: &Vec<Shape>) -> (r: Result<Shape, GraphError>)
        ensures
            inputs.len() == 0 ==> r == Err::<Shape, GraphError>(GraphError::MissingInput(NodeKind::Migrate)),
            inputs.len() > 0 ==> (r matches Ok(s) && s@ == inputs@[0]@),
    {
        pass_through_shape(NodeKind::Migrate, inputs)
    }

    /// Takes the source tensor out of the step's values and plans its move,
    /// which must be one the devices support (not between two GPUs). When it
    /// is already on the target device it becomes the node's value at once.
    pub fn begin(&self, ctx: &mut GraphContext) -> (r: (MigrationPlan, TensorRef))
        requires
            holds_tensor(old(ctx).temp@, self.source_id),
            ({
                let d = old(ctx).temp@[self.source_id]->Tensor_0.device;
                ||| d == self.target_device
                ||| d is Cpu && self.target_device is Gpu
                ||| d is Gpu && self.target_device is Cpu
            }),
        ensures
            r.0 != MigrationPlan::Unsupported,
            Some(r.1@) == old(ctx).temp@[self.source_id]@,
            r.0 == spec_plan_migration(r.1.device, self.target_device),
            r.0 == MigrationPlan::PassThrough ==> values_view(final(ctx).temp@) == values_view(old(ctx).temp@).remove(self.source_id).insert(self.id, Some(r.1@)),
            r.0 != MigrationPlan::PassThrough ==> final(ctx).temp@ == old(ctx).temp@.remove(self.source_id),
            final(ctx).state@ == old(ctx).state@,
            final(ctx).next_state@ == old(ctx).next_state@,
    {
        let source = take_tensor(ctx, self.source_id);
        let plan = plan_migration(source.device, self.target_device);
        if plan == MigrationPlan::PassThrough {
            let ghost sv = source@;
            let back = source.duplicate();
            ctx.temp.insert(self.id, NumericsContextValue::Tensor(source));
            assert(values_view(ctx.temp@) =~= values_view(old(ctx).temp@).remove(self.source_id).insert(self.id, Some(sv)));
            (plan, back)
        } else {
            (plan, source)
        }
    }

    /// Records the moved tensor, which is on the target device and keeps the
    /// shape of `source`, the tensor `begin` took, as the node's value.
    pub fn finish(&self, ctx: &mut GraphContext, source: &TensorRef, moved: TensorRef)
        requires
            moved.device == self.target_device,
            moved.shape@ == source.shape@,
        ensures
            values_view(final(ctx).temp@) == values_view(old(ctx).temp@).insert(self.id, Some(moved@)),
            final(ctx).state@ == old(ctx).state@,
            final(ctx).next_state@ == old(ctx).next_state@,
    {
        let ghost mv = moved@;
        ctx.temp.insert(self.id, NumericsContextValue::Tensor(moved));
        assert(values_view(ctx.temp@) =~= values_view(old(ctx).temp@).insert(self.id, Some(mv)));
    }
}

/// Moving a tensor from the CPU to a GPU is an upload to that GPU, moving
/// it back is a download, and a move to the device a tensor is already on
/// copies nothing.
pub proof fn lemma_migration_round_trip(g: usize, d: Device)
    ensures
        spec_plan_migration(Device::Cpu, Device::Gpu(g)) == (MigrationPlan::Upload { gpu_id: g }),
        spec_plan_migration(Device::Gpu(g), Device::Cpu) == MigrationPlan::Download,
        spec_plan_migration(d, d) == MigrationPlan::PassThrough,
{
}

/// The number of steps among the first `n` (counted from 1) whose count is
/// a multiple of `interval`.
pub open spec fn count_multiples(n: nat, interval: usize) -> nat
    decreases n,
{
    if n == 0 {
        0
    } else {
        count_multiples((n - 1) as nat, interval) + if is_multiple(n as usize, interval) { 1nat } else { 0nat }
    }
}

/// Over the first `n` steps, a node with a positive interval exports (or
/// reports) `n / interval` times, and one with interval 0 never does.
pub proof fn lemma_count_multiples(n: nat, interval: usize)
    requires
        n <= usize::MAX,
    ensures
        interval > 0 ==> count_multiples(n, interval) == n / (interval as nat),
        interval == 0 ==> count_multiples(n, interval) == 0,
    decreases n,
{
    if n > 0 {
        lemma_count_multiples((n - 1) as nat, interval);
        if interval > 0 {
            let i = interval as nat;
            assert(((n - 1) as nat) / i + (if n % i == 0 { 1nat } else { 0nat }) == n / i) by (nonlinear_arith)
                requires
                    i > 0,
                    n > 0,
            {
                vstd::arithmetic::div_mod::lemma_fundamental_div_mod(n as int, i as int);
                vstd::arithmetic::div_mod::lemma_fundamental_div_mod((n - 1) as int, i as int);
            }
        }
    }
}

} // verus!
