use arclib_numerics::bc::{BCType, BoundaryCondition};
use arclib_numerics::context::GraphContext;
use arclib_numerics::error::{GraphError, NodeKind};
use arclib_numerics::lbm::{
    classify_wall, neighbor_cell, zou_he_rule, LatticeTopology, LbmProbeExtractor, LbmVtkExporter,
    ProbeStatus, ZouHeWall, D2Q9, D3Q19,
};
use arclib_numerics::probe::ScalarProbeExtractor;
use arclib_numerics::nodes::{
    is_multiple_of, plan_migration, BoundaryConditionNode, ConstantNode, ExportNode,
    MigrateNode, MigrationPlan, NextStateNode, ProbeNode, StateNode,
};
use arclib_numerics::shape::Shape;
use arclib_numerics::tensor::{Device, NumericsContextValue, TensorRef};

fn rnd() -> u128 {
    uuid::Uuid::new_v4().as_u128()
}

fn tensor(handle: u64, shape: Vec<usize>, device: Device) -> TensorRef {
    TensorRef::new(handle, Shape(shape), device)
}

fn held_handle(ctx: &GraphContext, id: u128) -> Option<u64> {
    match ctx.temp.get(&id) {
        Some(NumericsContextValue::Tensor(t)) => Some(t.handle),
        _ => None,
    }
}

fn check_lattice<T: LatticeTopology>() -> (i64, i64, i64, i64) {
    let q = T::q();
    let mut w_sum = 0i64;
    let mut m_x = 0i64;
    let mut m_xx = 0i64;
    let mut m_xy = 0i64;
    for i in 0..q {
        let o = T::opp(i);
        assert_eq!(T::opp(o), i);
        assert_eq!(T::cx(o), -T::cx(i));
        assert_eq!(T::cy(o), -T::cy(i));
        assert_eq!(T::cz(o), -T::cz(i));
        let w = T::weight_num(i) as i64;
        w_sum += w;
        m_x += w * T::cx(i) as i64;
        m_xx += w * (T::cx(i) * T::cx(i)) as i64;
        m_xy += w * (T::cx(i) * T::cy(i)) as i64;
    }
    (w_sum, m_x, m_xx, m_xy)
}

#[test]
fn d2q9_tables_are_isotropic() {
    assert_eq!(D2Q9::dim(), 2);
    assert_eq!(D2Q9::q(), 9);
    assert_eq!(D2Q9::weight_den(), 36);
    let (w, mx, mxx, mxy) = check_lattice::<D2Q9>();
    assert_eq!(w, 36);
    assert_eq!(mx, 0);
    assert_eq!(mxx * 3, 36);
    assert_eq!(mxy, 0);
    assert_eq!((D2Q9::cx(5), D2Q9::cy(5)), (1, 1));
    assert_eq!(D2Q9::opp(5), 7);
}

#[test]
fn d3q19_tables_are_isotropic() {
    assert_eq!(D3Q19::dim(), 3);
    assert_eq!(D3Q19::q(), 19);
    let (w, mx, mxx, mxy) = check_lattice::<D3Q19>();
    assert_eq!(w, 36);
    assert_eq!(mx, 0);
    assert_eq!(mxx * 3, 36);
    assert_eq!(mxy, 0);
    assert_eq!(D3Q19::weight_num(0), 12);
    assert_eq!(D3Q19::opp(11), 14);
}

#[test]
fn walls_are_classified_by_fluid_side() {
    assert_eq!(classify_wall(true, false, true, true), Some(ZouHeWall::Top));
    assert_eq!(classify_wall(false, true, false, false), Some(ZouHeWall::Bottom));
    assert_eq!(classify_wall(false, false, false, true), Some(ZouHeWall::Left));
    assert_eq!(classify_wall(true, true, true, false), Some(ZouHeWall::Right));
    assert_eq!(classify_wall(true, true, true, true), None);
    assert_eq!(classify_wall(false, false, false, false), None);
}

#[test]
fn neighbours_outside_the_grid_are_none() {
    assert_eq!(neighbor_cell(4, 3, 0, 0, -1, 0), None);
    assert_eq!(neighbor_cell(4, 3, 3, 2, 1, 0), None);
    assert_eq!(neighbor_cell(4, 3, 3, 2, 0, 1), None);
    assert_eq!(neighbor_cell(4, 3, 1, 1, 1, -1), Some((2, 0)));
    assert_eq!(neighbor_cell(4, 3, 2, 1, 0, 0), Some((2, 1)));
}

#[test]
fn zou_he_rule_of_the_top_wall() {
    let r = zou_he_rule(ZouHeWall::Top);
    assert_eq!(r.known, (0, 1, 3));
    assert_eq!(r.outgoing, (2, 5, 6));
    assert_eq!(r.normal, (4, 2));
    assert_eq!(r.plus, (8, 6));
    assert_eq!(r.minus, (7, 5));
    assert_eq!(r.tangent_axis, 0);
    // every unknown population is bounced back from its opposite
    for w in [ZouHeWall::Top, ZouHeWall::Bottom, ZouHeWall::Left, ZouHeWall::Right] {
        let r = zou_he_rule(w);
        assert_eq!(D2Q9::opp(r.normal.0), r.normal.1);
        assert_eq!(D2Q9::opp(r.plus.0), r.plus.1);
        assert_eq!(D2Q9::opp(r.minus.0), r.minus.1);
    }
    assert_eq!(zou_he_rule(ZouHeWall::Right).outgoing, (1, 5, 8));
}

#[test]
fn probe_coordinates_are_classified() {
    let shape = vec![100, 100, 9];
    let p2 = LbmProbeExtractor::<D2Q9>::new();
    assert_eq!(p2.classify(&shape, &vec![50, 99]), ProbeStatus::InBounds);
    assert_eq!(p2.classify(&shape, &vec![100, 0]), ProbeStatus::OutOfBounds);
    assert_eq!(p2.classify(&shape, &vec![1, 2, 3]), ProbeStatus::DimensionMismatch);
    let p3 = LbmProbeExtractor::<D3Q19>::new();
    let shape3 = vec![40, 40, 40, 19];
    assert_eq!(p3.classify(&shape3, &vec![20, 39, 20]), ProbeStatus::InBounds);
    assert_eq!(p3.classify(&shape3, &vec![20, 39, 40]), ProbeStatus::OutOfBounds);
    assert_eq!(p3.classify(&shape3, &vec![20, 39]), ProbeStatus::DimensionMismatch);
    assert!(ScalarProbeExtractor::in_bounds(&vec![100, 100], &vec![99, 0]));
    assert!(!ScalarProbeExtractor::in_bounds(&vec![100, 100], &vec![99, 100]));
    assert!(!ScalarProbeExtractor::in_bounds(&vec![100, 100], &vec![1]));
    assert!(ScalarProbeExtractor::in_bounds(&vec![], &vec![]));
}

#[test]
fn vtk_extents() {
    assert_eq!(LbmVtkExporter::<D2Q9>::new(100, 100, 0).extent(), (99, 99, 0));
    assert_eq!(LbmVtkExporter::<D3Q19>::new(40, 30, 20).extent(), (39, 29, 19));
}

#[test]
fn multiples_of_an_interval() {
    assert!(is_multiple_of(2000, 1000));
    assert!(!is_multiple_of(1001, 1000));
    assert!(is_multiple_of(0, 0));
    assert!(!is_multiple_of(5, 0));
}

#[test]
fn migration_plans() {
    assert_eq!(plan_migration(Device::Cpu, Device::Gpu(2)), MigrationPlan::Upload { gpu_id: 2 });
    assert_eq!(plan_migration(Device::Gpu(2), Device::Cpu), MigrationPlan::Download);
    assert_eq!(plan_migration(Device::Gpu(1), Device::Gpu(1)), MigrationPlan::PassThrough);
    assert_eq!(plan_migration(Device::Cpu, Device::Cpu), MigrationPlan::PassThrough);
    assert_eq!(plan_migration(Device::Gpu(0), Device::Gpu(1)), MigrationPlan::Unsupported);
}

#[test]
fn test_migrate_node_cpu_gpu_roundtrip() {
    // the elements of each tensor, kept under its handle; the copies between
    // main memory and the GPU run between `begin` and `finish`
    let data = vec![1.0f32, 2.0, 3.0, 4.0, 5.0, 6.0, 7.0, 8.0];
    let mut store: std::collections::HashMap<u64, Vec<f32>> = std::collections::HashMap::new();
    store.insert(1, data.clone());

    let constant = ConstantNode::new(tensor(1, vec![2, 2, 2], Device::Cpu), rnd());
    let upload = MigrateNode::new(constant.id, Device::Gpu(0), rnd());
    let download = MigrateNode::new(upload.id, Device::Cpu, rnd());

    let mut ctx = GraphContext::new();
    constant.compute(&mut ctx);

    let (plan, src) = upload.begin(&mut ctx);
    assert_eq!(plan, MigrationPlan::Upload { gpu_id: 0 });
    let on_gpu = store[&src.handle].clone();
    store.insert(2, on_gpu);
    upload.finish(&mut ctx, &src, tensor(2, src.shape.0.clone(), Device::Gpu(0)));

    let (plan, src) = download.begin(&mut ctx);
    assert_eq!(plan, MigrationPlan::Download);
    let back = store[&src.handle].clone();
    store.insert(3, back);
    download.finish(&mut ctx, &src, tensor(3, src.shape.0.clone(), Device::Cpu));

    let result = match ctx.temp.get(&download.id) {
        Some(NumericsContextValue::Tensor(t)) => t,
        _ => panic!("Expected Tensor in state_map"),
    };
    assert_eq!(result.device, Device::Cpu, "Tensor should be back on CPU");
    assert_eq!(result.shape, Shape(vec![2, 2, 2]));
    assert_eq!(store[&result.handle], data, "GPU roundtrip corrupted data!");
}

#[test]
fn migrate_to_same_device_passes_through() {
    let m = MigrateNode::new(5, Device::Gpu(3), rnd());
    let mut ctx = GraphContext::new();
    ctx.temp.insert(5, NumericsContextValue::Tensor(tensor(9, vec![2], Device::Gpu(3))));
    let (plan, t) = m.begin(&mut ctx);
    assert_eq!(plan, MigrationPlan::PassThrough);
    assert_eq!(t.handle, 9);
    assert_eq!(held_handle(&ctx, m.id), Some(9));
    assert!(!ctx.temp.contains_key(&5));
}

#[test]
fn shape_rules_of_the_nodes() {
    let inputs = vec![Shape(vec![3, 4]), Shape(vec![2])];
    let bc = BoundaryConditionNode::new(1, 2, 3, BoundaryCondition::dirichlet(), rnd());
    assert_eq!(bc.infer_shape(&inputs), Ok(Shape(vec![3, 4])));
    assert_eq!(bc.infer_shape(&vec![]), Err(GraphError::MissingInput(NodeKind::BoundaryCondition)));
    let ex = ExportNode::new(1, 10, "out", rnd());
    assert_eq!(ex.infer_shape(&vec![]), Err(GraphError::MissingInput(NodeKind::Export)));
    let pr = ProbeNode::new("p", 1, vec![vec![0]], 10, rnd());
    assert_eq!(pr.infer_shape(&vec![]), Err(GraphError::MissingInput(NodeKind::Probe)));
    let mg = MigrateNode::new(1, Device::Cpu, rnd());
    assert_eq!(mg.infer_shape(&vec![]), Err(GraphError::MissingInput(NodeKind::Migrate)));
    assert_eq!(mg.infer_shape(&inputs), Ok(Shape(vec![3, 4])));
    let st = StateNode::new("f", rnd());
    assert_eq!(st.infer_shape(&inputs), Err(GraphError::StateShapeFromContext));
    let ns = NextStateNode::new(1, 2, rnd());
    assert_eq!(ns.infer_shape(&inputs), Ok(Shape(vec![])));
    let c = ConstantNode::new(tensor(1, vec![7, 7], Device::Cpu), rnd());
    assert_eq!(c.infer_shape(&vec![]), Ok(Shape(vec![7, 7])));
}

#[test]
fn dirichlet_condition() {
    let bc = BoundaryCondition::dirichlet();
    assert_eq!(bc.bc_type, BCType::Dirichlet);
    assert_eq!(bc.penalty_factor_bits, None);
}

#[test]
fn state_and_next_state_move_values() {
    let s = StateNode::new("f", rnd());
    let mut ctx = GraphContext::new();
    ctx.state.insert(s.id, NumericsContextValue::Tensor(tensor(4, vec![2], Device::Cpu)));
    s.compute(&mut ctx);
    assert_eq!(held_handle(&ctx, s.id), Some(4));

    let ns = NextStateNode::new(s.id, s.id, rnd());
    ns.compute(&mut ctx);
    assert!(matches!(ctx.next_state.get(&s.id), Some(NumericsContextValue::Tensor(t)) if t.handle == 4));
    assert!(!ctx.temp.contains_key(&s.id));
    assert!(matches!(ctx.temp.get(&ns.id), Some(NumericsContextValue::Empty)));
}

#[test]
fn boundary_condition_takes_and_stores() {
    let bc = BoundaryConditionNode::new(1, 2, 3, BoundaryCondition::dirichlet(), rnd());
    let mut ctx = GraphContext::new();
    ctx.temp.insert(1, NumericsContextValue::Tensor(tensor(10, vec![4, 4, 9], Device::Cpu)));
    ctx.temp.insert(2, NumericsContextValue::Tensor(tensor(11, vec![4, 4], Device::Cpu)));
    ctx.temp.insert(3, NumericsContextValue::Tensor(tensor(12, vec![4, 4, 2], Device::Cpu)));
    let (s, m, v) = bc.take_inputs(&mut ctx);
    assert_eq!((s.handle, m.handle, v.handle), (10, 11, 12));
    assert!(ctx.temp.is_empty());
    bc.store_outputs(&mut ctx, s, m, v);
    assert_eq!(held_handle(&ctx, bc.id), Some(10));
    assert_eq!(held_handle(&ctx, 2), Some(11));
    assert_eq!(held_handle(&ctx, 3), Some(12));
    assert!(!ctx.temp.contains_key(&1));
}

#[test]
fn export_and_probe_count_their_steps() {
    let mut ex = ExportNode::new(1, 3, "out/run", rnd());
    let mut pr = ProbeNode::new("p", 1, vec![vec![0, 0]], 2, rnd());
    let mut ctx = GraphContext::new();
    ctx.temp.insert(1, NumericsContextValue::Tensor(tensor(5, vec![2, 2], Device::Cpu)));
    let mut exports = Vec::new();
    let mut reports = Vec::new();
    for _ in 0..6 {
        exports.push(ex.compute(&mut ctx));
        reports.push(pr.compute(&mut ctx));
    }
    assert_eq!(exports, vec![false, false, true, false, false, true]);
    assert_eq!(reports, vec![false, true, false, true, false, true]);
    assert_eq!(ex.counter, 6);
    assert_eq!(held_handle(&ctx, ex.id), Some(5));
    assert_eq!(held_handle(&ctx, pr.id), Some(5));
    assert_eq!(held_handle(&ctx, 1), Some(5));
}

#[test]
fn fresh_ids_are_version_four_and_differ() {
    let s1 = StateNode::new("x", rnd());
    let s2 = StateNode::new("x", rnd());
    let c = ConstantNode::new(tensor(1, vec![1], Device::Cpu), rnd());
    assert_ne!(s1.id, s2.id);
    assert_ne!(s1.id, c.id);
    for id in [s1.id, s2.id, c.id] {
        assert_eq!((id >> 76) & 0xf, 4);
        assert_eq!((id >> 62) & 0x3, 2);
    }
}

#[test]
fn vtk_points_run_x_descending_then_y_then_z() {
    // a 3 by 2 by 2 image
    let e = LbmVtkExporter::<D3Q19>::new(3, 2, 2);
    let order: Vec<(usize, usize, usize)> = (0..12).map(|i| e.point(i)).collect();
    assert_eq!(
        order,
        vec![
            (2, 0, 0), (1, 0, 0), (0, 0, 0),
            (2, 1, 0), (1, 1, 0), (0, 1, 0),
            (2, 0, 1), (1, 0, 1), (0, 0, 1),
            (2, 1, 1), (1, 1, 1), (0, 1, 1),
        ]
    );
    assert_eq!(e.point_count(), Some(12));
    assert_eq!(LbmVtkExporter::<D2Q9>::new(100, 100, 7).point_count(), Some(10000));
    assert_eq!(LbmVtkExporter::<D3Q19>::new(40, 40, 40).point_count(), Some(64000));
    assert_eq!(LbmVtkExporter::<D2Q9>::new(usize::MAX, 2, 1).point_count(), None);
    assert_eq!(LbmVtkExporter::<D3Q19>::new(usize::MAX / 2, 2, 3).point_count(), None);
}

#[test]
fn zou_he_rule_keeps_density_and_wall_momentum() {
    // doubled populations stay whole numbers
    let f: Vec<i64> = vec![16, 4, 5, 3, 6, 1, 2, 1, 2];
    let u: i64 = 3;
    for w in [ZouHeWall::Top, ZouHeWall::Bottom, ZouHeWall::Left, ZouHeWall::Right] {
        let r = zou_he_rule(w);
        let rho = f[r.known.0] + f[r.known.1] + f[r.known.2]
            + 2 * (f[r.outgoing.0] + f[r.outgoing.1] + f[r.outgoing.2]);
        let c = rho * u - (f[r.pair.0] - f[r.pair.1]);
        let mut g: Vec<i64> = f.iter().map(|x| 2 * x).collect();
        g[r.normal.0] = 2 * f[r.normal.1];
        g[r.plus.0] = 2 * f[r.plus.1] + c;
        g[r.minus.0] = 2 * f[r.minus.1] - c;
        let along = |q: usize| if r.tangent_axis == 0 { D2Q9::cx(q) } else { D2Q9::cy(q) } as i64;
        let inward = |q: usize| -> i64 {
            match w {
                ZouHeWall::Top => -D2Q9::cy(q) as i64,
                ZouHeWall::Bottom => D2Q9::cy(q) as i64,
                ZouHeWall::Left => D2Q9::cx(q) as i64,
                ZouHeWall::Right => -D2Q9::cx(q) as i64,
            }
        };
        assert_eq!(g.iter().sum::<i64>(), 2 * rho);
        assert_eq!((0..9).map(|q| along(q) * g[q]).sum::<i64>(), 2 * rho * u);
        assert_eq!((0..9).map(|q| inward(q) * g[q]).sum::<i64>(), 0);
    }
}

#[test]
fn node_ids_are_version_four_uuids_of_the_given_bits() {
    let s = StateNode::new("x", 0);
    assert_eq!(s.id, 0x0000_0000_0000_4000_8000_0000_0000_0000);
    let c = ConstantNode::new(tensor(1, vec![1], Device::Cpu), u128::MAX);
    assert_eq!(c.id, 0xFFFF_FFFF_FFFF_4FFF_BFFF_FFFF_FFFF_FFFF);
    let m = MigrateNode::new(1, Device::Cpu, 0x1234);
    assert_eq!(m.id, 0x0000_0000_0000_4000_8000_0000_0000_1234);
}
