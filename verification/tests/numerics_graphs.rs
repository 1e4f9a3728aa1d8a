use std::collections::HashMap;

use arclib_numerics::context::GraphContext;
use arclib_numerics::equation::{EqBinaryNode, EqBinaryOp, EqNode, EqUnaryNode, EqUnaryOp, EqVariableNode, EquationGraph};
use std::cell::RefCell;

use arclib_numerics::equation_node::{EquationNode, OutputSlot};
use arclib_numerics::error::GraphError;
use arclib_numerics::graph::{AnyNode, NumericsGraph};
use arclib_numerics::name_map::NameMap;
use arclib_numerics::bc::BoundaryCondition;
use arclib_numerics::nodes::{BoundaryConditionNode, ConstantNode, ExportNode, MigrateNode, NextStateNode, ProbeNode, StateNode};
use arclib_numerics::shape::Shape;
use arclib_numerics::tensor::{Device, NumericsContextValue, TensorRef};

fn rnd() -> u128 {
    uuid::Uuid::new_v4().as_u128()
}

/// Hands out kernel handles 1, 2, 3, ... and remembers what it compiled.
#[derive(Default)]
struct MockCompiler {
    compiled: RefCell<Vec<u128>>,
}

impl MockCompiler {
    fn compile(&self, node_id: u128, _graph: &EquationGraph) -> u64 {
        let mut c = self.compiled.borrow_mut();
        c.push(node_id);
        c.len() as u64
    }

    fn calls(&self) -> Vec<u128> {
        self.compiled.borrow().clone()
    }
}

/// A kernel compiler that hands out handle 1 for every graph.
fn any_kernel(_node_id: u128, _graph: &EquationGraph) -> u64 {
    1
}

fn cpu_tensor(handle: u64, shape: Vec<usize>) -> TensorRef {
    TensorRef::new(handle, Shape(shape), Device::Cpu)
}

#[test]
fn test_shape_inference_and_broadcasting() {
    // vel + (dt * gravity)
    // vel: [10, 10, 3], dt: [], gravity: [3]
    let mut eq = EquationGraph::new();

    let vel_id = eq.var("vel", rnd());
    let dt_id = eq.const_scalar(0.01f32.to_bits(), rnd());
    let grav_id = eq.const_vector(vec![0.0f32.to_bits(), (-9.81f32).to_bits(), 0.0f32.to_bits()], rnd());

    let dt_grav = eq.mul(dt_id, grav_id, rnd()); // [] * [3] -> [3]
    let result = eq.add(vel_id, dt_grav, rnd()); // [10, 10, 3] + [3] -> [10, 10, 3]

    eq.set_output(result);
    eq.compile().unwrap();

    let mut shapes = NameMap::new();
    shapes.insert("vel".to_string(), Shape(vec![10, 10, 3]));

    let out_shape = eq.trace_output_shape(&shapes).unwrap();
    assert_eq!(out_shape, Shape(vec![10, 10, 3]), "Broadcasting failed!");
}

#[test]
fn test_equation_node_ffi_execution() {
    let eq_graph = EquationGraph::new();
    let mut eq_node = EquationNode::new(eq_graph, NameMap::new(), rnd());

    let id_a: u128 = 0x1234;
    eq_node.input_mapping.insert("a".to_string(), id_a);
    eq_node.output_shape = Some(Shape(vec![4]));

    // a kernel that adds one to each of 4 elements, kept under handle 7
    eq_node.attach_kernel(7);

    // element store of the tensors, by handle
    let mut store: HashMap<u64, Vec<f32>> = HashMap::new();
    store.insert(1, vec![1.0, 2.0, 3.0, 4.0]);

    let mut ctx = GraphContext::new();
    ctx.temp.insert(id_a, NumericsContextValue::Tensor(cpu_tensor(1, vec![4])));

    let (ids, ins, slot) = eq_node.begin_compute(&mut ctx);
    assert_eq!(ids, vec![id_a]);
    let out_shape = match slot {
        OutputSlot::Allocate(s) => s,
        OutputSlot::Reuse(_) => panic!("no output existed"),
    };
    assert_eq!(out_shape, Shape(vec![4]));
    let input = &store[&ins[0].handle];
    let output: Vec<f32> = input.iter().map(|x| x + 1.0).collect();
    store.insert(2, output);
    eq_node.finish_compute(&mut ctx, &ids, ins, cpu_tensor(2, vec![4]));

    if let Some(NumericsContextValue::Tensor(out)) = ctx.temp.get(&eq_node.id) {
        assert_eq!(store[&out.handle], vec![2.0, 3.0, 4.0, 5.0], "C-Kernel FFI addition failed");
    } else {
        panic!("Output tensor missing from context");
    }

    assert!(ctx.temp.contains_key(&id_a), "Input tensor was lost!");
}

#[test]
fn test_dynamic_mutation_and_rewiring() {
    let mut num_graph = NumericsGraph::new();

    let id_u = num_graph.add_node(AnyNode::State(StateNode::new("u", rnd())));
    let id_v = num_graph.add_node(AnyNode::State(StateNode::new("v", rnd())));

    num_graph
        .state_map
        .insert(id_u, NumericsContextValue::Tensor(cpu_tensor(1, vec![2])));
    num_graph
        .state_map
        .insert(id_v, NumericsContextValue::Tensor(cpu_tensor(2, vec![2])));

    // Initial equation u + v
    let mut initial_eq = EquationGraph::new();
    let var_u = initial_eq.var("u", rnd());
    let var_v = initial_eq.var("v", rnd());
    let result = initial_eq.add(var_u, var_v, rnd());
    initial_eq.set_output(result);

    let mut mapping = NameMap::new();
    mapping.insert("u".to_string(), id_u);
    mapping.insert("v".to_string(), id_v);

    let eq_node_id = num_graph.add_node(AnyNode::Equation(EquationNode::new(initial_eq, mapping, rnd())));

    let compiler = MockCompiler::default();
    let compile_kernel = |id: u128, g: &EquationGraph| compiler.compile(id, g);
    num_graph.compile(&compile_kernel).unwrap();
    assert!(num_graph.get_equation_node(eq_node_id).unwrap().compiled_kernel.is_some());
    assert_eq!(compiler.calls(), vec![eq_node_id]);

    let deps = num_graph.get_node_dyn(eq_node_id).unwrap().dependencies();
    assert_eq!(deps.len(), 2);

    let mut new_eq = EquationGraph::new();
    let new_var_u = new_eq.var("u", rnd());
    let c_2 = new_eq.const_scalar(2.0f32.to_bits(), rnd());
    let new_result = new_eq.mul(new_var_u, c_2, rnd());
    new_eq.set_output(new_result);

    let mut new_mapping = NameMap::new();
    new_mapping.insert("u".to_string(), id_u); // no 'v' in the new mapping

    num_graph
        .mutate_equation(eq_node_id, new_eq, new_mapping, &compile_kernel)
        .unwrap();

    // Verify the graph was rewired dynamically
    let new_deps = num_graph.get_node_dyn(eq_node_id).unwrap().dependencies();
    assert_eq!(
        new_deps.len(),
        1,
        "Dependency on 'v' should have been dropped!"
    );
    assert_eq!(new_deps[0], id_u);

    // Verify the state was NOT wiped (Context still holds u and v)
    assert!(num_graph.state_map.contains_key(&id_u));
    assert!(num_graph.state_map.contains_key(&id_v));

    // Verify the shape was successfully re-inferred for the new equation
    let node = num_graph.get_equation_node(eq_node_id).unwrap();
    assert_eq!(
        node.output_shape,
        Some(Shape(vec![2])),
        "Shape re-inference failed!"
    );
}

#[test]
fn compile_infers_equation_output_from_state_shapes() {
    let mut g = NumericsGraph::new();
    let id_u = g.add_node(AnyNode::State(StateNode::new("u", rnd())));
    g.state_map.insert(id_u, NumericsContextValue::Tensor(cpu_tensor(1, vec![3, 4])));
    let mut eq = EquationGraph::new();
    let u = eq.var("u", rnd());
    let n = eq.neg(u, rnd());
    eq.set_output(n);
    let mut mapping = NameMap::new();
    mapping.insert("u".to_string(), id_u);
    let eq_id = g.add_node(AnyNode::Equation(EquationNode::new(eq, mapping, rnd())));
    g.compile(&any_kernel).unwrap();
    let order = g.get_execution_order().unwrap();
    assert_eq!(order, vec![id_u, eq_id]);
    assert_eq!(g.get_equation_node(eq_id).unwrap().output_shape, Some(Shape(vec![3, 4])));
}

#[test]
fn compile_fails_for_state_without_tensor() {
    let mut g = NumericsGraph::new();
    g.add_node(AnyNode::State(StateNode::new("u", rnd())));
    assert_eq!(g.compile(&any_kernel), Err(GraphError::StateShapeFromContext));
    assert_eq!(g.get_execution_order(), Err(GraphError::NotCompiled));
}

#[test]
fn mutate_equation_reports_missing_state_and_wrong_node() {
    let mut g = NumericsGraph::new();
    let id_u = g.add_node(AnyNode::State(StateNode::new("u", rnd())));
    let mut mapping = NameMap::new();
    mapping.insert("u".to_string(), id_u);
    let r = g.mutate_equation(id_u, EquationGraph::new(), mapping, &any_kernel);
    assert_eq!(r, Err(GraphError::OuterShapeUnknown(id_u)));

    g.state_map.insert(id_u, NumericsContextValue::Tensor(cpu_tensor(1, vec![2])));
    let mut mapping = NameMap::new();
    mapping.insert("u".to_string(), id_u);
    let r = g.mutate_equation(id_u, EquationGraph::new(), mapping, &any_kernel);
    assert_eq!(r, Err(GraphError::NotAnEquationNode(id_u)));
    assert_eq!(g.get_outer_shape(id_u + 1), Err(GraphError::OuterShapeUnknown(id_u + 1)));
    assert_eq!(g.get_outer_shape(id_u), Ok(Shape(vec![2])));
}

#[test]
fn trace_reports_its_errors() {
    let mut eq = EquationGraph::new();
    let a = eq.var("a", rnd());
    let b = eq.var("b", rnd());
    let s = eq.sub(a, b, rnd());
    let shapes = NameMap::new();
    assert_eq!(eq.trace_output_shape(&shapes), Err(GraphError::OutputNotSet));
    eq.set_output(s);
    let mut shapes = NameMap::new();
    shapes.insert("a".to_string(), Shape(vec![2, 3]));
    assert_eq!(eq.trace_output_shape(&shapes), Err(GraphError::MissingInputShape("b".to_string())));
    shapes.insert("b".to_string(), Shape(vec![4, 3]));
    assert_eq!(
        eq.trace_output_shape(&shapes),
        Err(GraphError::Broadcast { op: EqBinaryOp::Sub, lhs: Shape(vec![2, 3]), rhs: Shape(vec![4, 3]) })
    );
    shapes.insert("b".to_string(), Shape(vec![1, 3]));
    assert_eq!(eq.trace_output_shape(&shapes), Ok(Shape(vec![2, 3])));
}

#[test]
fn trace_of_unregistered_variable_fails() {
    let mut eq = EquationGraph::new();
    let x = EqVariableNode::new("x", rnd());
    let id = eq.add_node(EqNode::Variable(x));
    eq.set_output(id);
    let shapes = NameMap::new();
    assert_eq!(eq.trace_output_shape(&shapes), Err(GraphError::VariableShapeExternal("x".to_string())));
}

#[test]
fn equation_node_lowering_and_deps() {
    let mut eq = EquationGraph::new();
    let a = eq.var("a", rnd());
    let e = eq.exp(a, rnd());
    let q = eq.sqrt(e, rnd());
    let r = eq.abs(q, rnd());
    let d = eq.div(r, a, rnd());
    eq.set_output(d);
    let mut mapping = NameMap::new();
    mapping.insert("a".to_string(), 50);
    mapping.insert("b".to_string(), 10);
    mapping.insert("c".to_string(), 30);
    let mut node = EquationNode::new(eq, mapping, rnd());
    assert_eq!(node.dependencies(), vec![10, 30, 50]);
    assert_eq!(node.input_order(), vec![50, 10, 30]);

    let mut outer: HashMap<u128, Shape> = HashMap::new();
    outer.insert(50, Shape(vec![5]));
    outer.insert(10, Shape(vec![5]));
    assert_eq!(node.try_lower(&outer, &any_kernel), Err(GraphError::MissingOuterShape("c".to_string())));
    outer.insert(30, Shape(vec![1]));
    assert_eq!(node.try_lower(&outer, &any_kernel), Ok(()));
    assert_eq!(node.output_shape, Some(Shape(vec![5])));
    node.attach_kernel(3);
    assert_eq!(node.compiled_kernel, Some(3));
    node.invalidate();
    assert_eq!(node.compiled_kernel, None);

    // shapes in the order of the sorted dependencies: 10, 30, 50
    let inferred = node.infer_shape(&vec![Shape(vec![5]), Shape(vec![1]), Shape(vec![7, 1])]);
    assert_eq!(inferred, Ok(Shape(vec![7, 1])));
}

#[test]
fn begin_compute_reuses_output_of_right_shape() {
    let mut eq = EquationGraph::new();
    let a = eq.var("a", rnd());
    eq.set_output(a);
    let mut mapping = NameMap::new();
    mapping.insert("a".to_string(), 1);
    let mut node = EquationNode::new(eq, mapping, rnd());
    node.output_shape = Some(Shape(vec![2]));
    node.attach_kernel(1);
    let mut ctx = GraphContext::new();
    ctx.temp.insert(1, NumericsContextValue::Tensor(cpu_tensor(10, vec![2])));
    ctx.temp.insert(node.id, NumericsContextValue::Tensor(cpu_tensor(11, vec![2])));
    let (ids, ins, slot) = node.begin_compute(&mut ctx);
    assert_eq!(ids, vec![1]);
    assert_eq!(ins[0].handle, 10);
    match slot {
        OutputSlot::Reuse(t) => assert_eq!(t.handle, 11),
        OutputSlot::Allocate(_) => panic!("the output had the right shape"),
    }
    assert!(ctx.temp.is_empty());

    let mut ctx = GraphContext::new();
    ctx.temp.insert(1, NumericsContextValue::Tensor(cpu_tensor(10, vec![2])));
    ctx.temp.insert(node.id, NumericsContextValue::Tensor(cpu_tensor(11, vec![3])));
    let (_, _, slot) = node.begin_compute(&mut ctx);
    assert!(matches!(slot, OutputSlot::Allocate(_)));
    assert!(ctx.temp.contains_key(&node.id));
}

#[test]
fn test_lbm_cavity() {
    let nx = 100;
    let ny = 100;
    let mut graph = NumericsGraph::new();

    let solid_id = graph.add_node(AnyNode::Constant(ConstantNode::new(cpu_tensor(1, vec![nx, ny]), rnd())));
    let f_id = graph.add_node(AnyNode::State(StateNode::new("f", rnd())));
    graph
        .state_map
        .insert(f_id, NumericsContextValue::Tensor(cpu_tensor(2, vec![nx, ny, 9])));

    let mut eq = EquationGraph::new();
    let f_var = eq.var("f", rnd());
    let _solid_var = eq.var("solid", rnd());
    eq.set_output(f_var);
    let mut mapping = NameMap::new();
    mapping.insert("f".to_string(), f_id);
    mapping.insert("solid".to_string(), solid_id);
    let eq_node_id = graph.add_node(AnyNode::Equation(EquationNode::new(eq, mapping, rnd())));

    let lid_mask_id = graph.add_node(AnyNode::Constant(ConstantNode::new(cpu_tensor(3, vec![nx, ny]), rnd())));
    let u_lid_id = graph.add_node(AnyNode::Constant(ConstantNode::new(cpu_tensor(4, vec![nx, ny, 2]), rnd())));
    let bc_node_id = graph.add_node(AnyNode::BoundaryCondition(BoundaryConditionNode::new(
        eq_node_id,
        lid_mask_id,
        u_lid_id,
        BoundaryCondition::dirichlet(),
        rnd(),
    )));
    let mask_probe_id = graph.add_node(AnyNode::Probe(ProbeNode::new(
        "Solid Mask",
        solid_id,
        vec![vec![0, 0], vec![nx - 1, 0], vec![nx / 2, ny / 2]],
        1000,
        rnd(),
    )));
    let fluid_probe_id = graph.add_node(AnyNode::Probe(ProbeNode::new(
        "Fluid State",
        bc_node_id,
        vec![vec![50, ny - 1], vec![50, 50], vec![50, 1]],
        1000,
        rnd(),
    )));
    let export_node_id = graph.add_node(AnyNode::Export(ExportNode::new(bc_node_id, 1000, "lid-driven-cavity", rnd())));
    let next_state_id = graph.add_node(AnyNode::NextState(NextStateNode::new(f_id, fluid_probe_id, rnd())));

    graph.compile(&any_kernel).unwrap();
    // the steps themselves run the compiled lattice kernels
    let order = graph.get_execution_order().unwrap();
    assert_eq!(order.len(), 10);
    let pos = |id: u128| order.iter().position(|x| *x == id).unwrap();
    assert!(pos(f_id) < pos(eq_node_id));
    assert!(pos(solid_id) < pos(eq_node_id));
    assert!(pos(eq_node_id) < pos(bc_node_id));
    assert!(pos(bc_node_id) < pos(fluid_probe_id));
    assert!(pos(bc_node_id) < pos(export_node_id));
    assert!(pos(solid_id) < pos(mask_probe_id));
    assert!(pos(fluid_probe_id) < pos(next_state_id));
    assert_eq!(
        graph.get_equation_node(eq_node_id).unwrap().output_shape,
        Some(Shape(vec![nx, ny, 9]))
    );

    assert!(graph.state_map.contains_key(&f_id));
}

#[test]
fn test_lbm_d3q19_cavity() {
    let nx = 40;
    let ny = 40;
    let nz = 40;
    let mut graph = NumericsGraph::new();

    let solid_id = graph.add_node(AnyNode::Constant(ConstantNode::new(cpu_tensor(1, vec![nx, ny, nz]), rnd())));
    let f_id = graph.add_node(AnyNode::State(StateNode::new("f", rnd())));
    graph
        .state_map
        .insert(f_id, NumericsContextValue::Tensor(cpu_tensor(2, vec![nx, ny, nz, 19])));

    let mut eq = EquationGraph::new();
    let f_var = eq.var("f", rnd());
    let _solid_var = eq.var("solid", rnd());
    eq.set_output(f_var);
    let mut mapping = NameMap::new();
    mapping.insert("f".to_string(), f_id);
    mapping.insert("solid".to_string(), solid_id);
    let eq_node_id = graph.add_node(AnyNode::Equation(EquationNode::new(eq, mapping, rnd())));

    let lid_mask_id = graph.add_node(AnyNode::Constant(ConstantNode::new(cpu_tensor(3, vec![nx, ny, nz]), rnd())));
    let u_lid_id = graph.add_node(AnyNode::Constant(ConstantNode::new(cpu_tensor(4, vec![nx, ny, nz, 3]), rnd())));
    let bc_node_id = graph.add_node(AnyNode::BoundaryCondition(BoundaryConditionNode::new(
        eq_node_id,
        lid_mask_id,
        u_lid_id,
        BoundaryCondition::dirichlet(),
        rnd(),
    )));
    let _mask_probe_id = graph.add_node(AnyNode::Probe(ProbeNode::new(
        "Solid Mask",
        solid_id,
        vec![vec![0, 0, 0], vec![nx - 1, 0, nz - 1], vec![nx / 2, ny / 2, nz / 2]],
        1000,
        rnd(),
    )));
    let fluid_probe_id = graph.add_node(AnyNode::Probe(ProbeNode::new(
        "Fluid State",
        bc_node_id,
        vec![vec![nx / 2, ny - 1, nz / 2], vec![nx / 2, ny / 2, nz / 2], vec![nx / 2, 1, nz / 2]],
        1000,
        rnd(),
    )));
    let _export_node_id =
        graph.add_node(AnyNode::Export(ExportNode::new(bc_node_id, 1000, "lid-driven-cavity-d3q19", rnd())));
    let _next_state_id = graph.add_node(AnyNode::NextState(NextStateNode::new(f_id, fluid_probe_id, rnd())));

    graph.compile(&any_kernel).unwrap();
    assert_eq!(graph.get_execution_order().unwrap().len(), 10);
    assert_eq!(
        graph.get_equation_node(eq_node_id).unwrap().output_shape,
        Some(Shape(vec![nx, ny, nz, 19]))
    );

    assert!(graph.state_map.contains_key(&f_id));
}

#[test]
fn equation_nodes_read_operands_and_store_results() {
    let a = EqVariableNode::new("a", rnd());
    let b = EqVariableNode::new("b", rnd());
    let mut ctx = GraphContext::new();
    assert!(!a.is_bound(&ctx));
    ctx.temp.insert(a.id, NumericsContextValue::Tensor(cpu_tensor(1, vec![4, 1])));
    ctx.temp.insert(b.id, NumericsContextValue::Tensor(cpu_tensor(2, vec![3])));
    assert!(a.is_bound(&ctx));

    let add = EqBinaryNode::new(EqBinaryOp::Add, a.id, b.id, rnd());
    let (l, r, s) = add.operands(&ctx).unwrap();
    assert_eq!((l.handle, r.handle), (1, 2));
    assert_eq!(s, Shape(vec![4, 3]));
    add.store_result(&mut ctx, cpu_tensor(3, vec![4, 3]));
    assert!(matches!(ctx.temp.get(&add.id), Some(NumericsContextValue::Tensor(t)) if t.handle == 3));

    let neg = EqUnaryNode::new(EqUnaryOp::Neg, add.id, rnd());
    assert_eq!(neg.operand(&ctx).handle, 3);
    neg.store_result(&mut ctx, cpu_tensor(4, vec![4, 3]));
    assert!(matches!(ctx.temp.get(&neg.id), Some(NumericsContextValue::Tensor(t)) if t.handle == 4));

    ctx.temp.insert(b.id, NumericsContextValue::Tensor(cpu_tensor(5, vec![3, 2])));
    assert!(add.operands(&ctx).is_none());
}

#[test]
fn added_nodes_are_found_again_and_replaced_by_id() {
    let mut g = NumericsGraph::new();
    let a = g.add_node(AnyNode::State(StateNode::new("a", rnd())));
    let c = g.add_node(AnyNode::Constant(ConstantNode::new(cpu_tensor(1, vec![2]), rnd())));
    assert_eq!(g.get_node_dyn(a).unwrap().id(), a);
    assert_eq!(g.get_node_dyn(c).unwrap().id(), c);
    assert_eq!(g.get_node_dyn(a ^ c ^ 1).err(), Some(GraphError::UnknownNode(a ^ c ^ 1)));
    // a node with the id of another takes its place
    let again = g.add_node(AnyNode::State(StateNode { id: a, name: "b".to_string() }));
    assert_eq!(again, a);
    assert_eq!(g.nodes.len(), 2);
    match g.get_node_dyn(a).unwrap() {
        AnyNode::State(s) => assert_eq!(s.name, "b"),
        _ => panic!("the state node was replaced by another kind"),
    }
}

#[test]
fn compile_reports_cycles_and_unknown_dependencies() {
    let mut g = NumericsGraph::new();
    g.add_node(AnyNode::Constant(ConstantNode::new(cpu_tensor(1, vec![2]), rnd())));
    g.add_node(AnyNode::NextState(NextStateNode { id: 5, state_id: 1, source_id: 5 }));
    assert_eq!(g.compile(&any_kernel), Err(GraphError::Cycle));

    let mut g = NumericsGraph::new();
    let e = g.add_node(AnyNode::Export(ExportNode::new(999, 10, "out", rnd())));
    assert_eq!(g.compile(&any_kernel), Err(GraphError::UnknownDependency { node: e, dep: 999 }));
    assert_eq!(g.rebuild_schedule(), Err(GraphError::UnknownDependency { node: e, dep: 999 }));
}

#[test]
fn compile_infers_plain_node_shapes() {
    let mut g = NumericsGraph::new();
    let c = g.add_node(AnyNode::Constant(ConstantNode::new(cpu_tensor(1, vec![4, 4, 9]), rnd())));
    let m = g.add_node(AnyNode::Migrate(MigrateNode::new(c, Device::Gpu(0), rnd())));
    let p = g.add_node(AnyNode::Probe(ProbeNode::new("p", m, vec![vec![0, 0]], 5, rnd())));
    assert_eq!(g.compile(&any_kernel), Ok(()));
    assert_eq!(g.get_execution_order(), Ok(vec![c, m, p]));
    let mut eq = EquationGraph::new();
    let x = eq.var("x", rnd());
    let y = eq.var("y", rnd());
    let s = eq.add(x, y, rnd());
    eq.set_output(s);
    let mut mapping = NameMap::new();
    mapping.insert("x".to_string(), p);
    mapping.insert("y".to_string(), c);
    let e = g.add_node(AnyNode::Equation(EquationNode::new(eq, mapping, rnd())));
    assert_eq!(g.get_execution_order(), Err(GraphError::NotCompiled));
    assert_eq!(g.compile(&any_kernel), Ok(()));
    assert_eq!(g.get_equation_node(e).unwrap().output_shape, Some(Shape(vec![4, 4, 9])));
}

#[test]
fn early_trace_errors_leave_the_graph_alone() {
    let mut eq = EquationGraph::new();
    let a = eq.var("a", rnd());
    let n = eq.neg(a, rnd());
    assert_eq!(eq.trace_output_shape(&NameMap::new()), Err(GraphError::OutputNotSet));
    assert!(eq.schedule.is_none());
    eq.set_output(n);
    assert_eq!(eq.trace_output_shape(&NameMap::new()), Err(GraphError::MissingInputShape("a".to_string())));
    assert!(eq.schedule.is_none());
    let mut shapes = NameMap::new();
    shapes.insert("a".to_string(), Shape(vec![3]));
    assert_eq!(eq.trace_output_shape(&shapes), Ok(Shape(vec![3])));
    assert_eq!(eq.get_execution_order(), Ok(vec![a, n]));
}

#[test]
fn failed_mutation_keeps_the_old_output_shape() {
    let mut g = NumericsGraph::new();
    let id_u = g.add_node(AnyNode::State(StateNode::new("u", rnd())));
    g.state_map.insert(id_u, NumericsContextValue::Tensor(cpu_tensor(1, vec![5])));
    let mut eq = EquationGraph::new();
    let u = eq.var("u", rnd());
    eq.set_output(u);
    let mut mapping = NameMap::new();
    mapping.insert("u".to_string(), id_u);
    let e = g.add_node(AnyNode::Equation(EquationNode::new(eq, mapping, rnd())));
    let compiler = MockCompiler::default();
    let compile_kernel = |id: u128, g: &EquationGraph| compiler.compile(id, g);
    g.compile(&compile_kernel).unwrap();
    assert_eq!(g.get_equation_node(e).unwrap().compiled_kernel, Some(1));

    // a new graph without an output cannot be lowered
    let mut bad = EquationGraph::new();
    bad.var("u", rnd());
    let mut mapping = NameMap::new();
    mapping.insert("u".to_string(), id_u);
    assert_eq!(g.mutate_equation(e, bad, mapping, &compile_kernel), Err(GraphError::OutputNotSet));
    let node = g.get_equation_node(e).unwrap();
    assert_eq!(node.output_shape, Some(Shape(vec![5])));
    assert_eq!(node.compiled_kernel, None);
    assert_eq!(compiler.calls(), vec![e]);
    assert!(g.schedule.is_none());
}

#[test]
fn equation_node_binds_shapes_by_sorted_outer_ids() {
    let mut eq = EquationGraph::new();
    let a = eq.var("a", rnd());
    let b = eq.var("b", rnd());
    let s = eq.sub(a, b, rnd());
    eq.set_output(s);
    let mut mapping = NameMap::new();
    mapping.insert("a".to_string(), 20);
    mapping.insert("b".to_string(), 10);
    let mut node = EquationNode::new(eq, mapping, rnd());
    // dependencies are 10 (b) then 20 (a); the third shape is ignored
    let shapes = vec![Shape(vec![4, 1]), Shape(vec![3]), Shape(vec![9])];
    assert_eq!(node.infer_shape(&shapes), Ok(Shape(vec![4, 3])));
}

#[test]
fn equation_node_shape_is_the_traced_shape_of_its_named_inputs() {
    let build = || {
        let mut eq = EquationGraph::new();
        let a = eq.var("a", 1);
        let b = eq.var("b", 2);
        let s = eq.add(a, b, 3);
        eq.set_output(s);
        eq
    };
    let mut mapping = NameMap::new();
    mapping.insert("a".to_string(), 20);
    mapping.insert("b".to_string(), 10);
    let mut node = EquationNode::new(build(), mapping, rnd());
    // in dependency order: 10 (b), then 20 (a)
    let by_dependency = vec![Shape(vec![5, 1]), Shape(vec![2, 5, 7])];
    let mut named = NameMap::new();
    named.insert("a".to_string(), Shape(vec![2, 5, 7]));
    named.insert("b".to_string(), Shape(vec![5, 1]));
    let mut traced = build();
    assert_eq!(node.infer_shape(&by_dependency), traced.trace_output_shape(&named));
    assert_eq!(node.infer_shape(&by_dependency), Ok(Shape(vec![2, 5, 7])));
}

#[test]
fn lowering_keeps_the_handle_the_compiler_gave() {
    let mut g = NumericsGraph::new();
    let id_u = g.add_node(AnyNode::State(StateNode::new("u", rnd())));
    g.state_map.insert(id_u, NumericsContextValue::Tensor(cpu_tensor(1, vec![3])));
    let mut eq = EquationGraph::new();
    let u = eq.var("u", rnd());
    let n = eq.neg(u, rnd());
    eq.set_output(n);
    let mut mapping = NameMap::new();
    mapping.insert("u".to_string(), id_u);
    let e = g.add_node(AnyNode::Equation(EquationNode::new(eq, mapping, rnd())));
    let seen = RefCell::new(Vec::new());
    let compile_kernel = |id: u128, graph: &EquationGraph| {
        seen.borrow_mut().push(id);
        assert!(graph.schedule.is_some());
        (id as u64) ^ 0x5a5a
    };
    g.compile(&compile_kernel).unwrap();
    assert_eq!(g.get_equation_node(e).unwrap().compiled_kernel, Some((e as u64) ^ 0x5a5a));
    assert_eq!(seen.borrow().clone(), vec![e]);
}
