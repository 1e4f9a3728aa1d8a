use arclib_numerics::checkpoint::{CheckpointBuffer, CheckpointManager, CheckpointStrategy};
use arclib_numerics::error::GraphError;
use arclib_numerics::name_map::NameMap;
use arclib_numerics::schedule::schedule;
use arclib_numerics::shape::{broadcast_shapes, Shape};
use arclib_numerics::sort::sorted_ids;
use arclib_numerics::tensor::{f32_buffer_bytes, Device, NumericsContextValue, TensorRef};

#[test]
fn broadcast_trailing_dimensions() {
    let a = Shape(vec![10, 10, 3]);
    let b = Shape(vec![3]);
    assert_eq!(broadcast_shapes(&a, &b), Some(Shape(vec![10, 10, 3])));
    assert_eq!(broadcast_shapes(&b, &a), Some(Shape(vec![10, 10, 3])));
    assert_eq!(
        broadcast_shapes(&Shape(vec![4, 1]), &Shape(vec![1, 5])),
        Some(Shape(vec![4, 5]))
    );
    assert_eq!(
        broadcast_shapes(&Shape(vec![8, 1, 6, 1]), &Shape(vec![7, 1, 5])),
        Some(Shape(vec![8, 7, 6, 5]))
    );
}

#[test]
fn broadcast_scalar_and_self() {
    let s = Shape(vec![2, 3, 4]);
    assert_eq!(broadcast_shapes(&Shape(vec![]), &s), Some(s.duplicate()));
    assert_eq!(broadcast_shapes(&s, &Shape(vec![])), Some(s.duplicate()));
    assert_eq!(broadcast_shapes(&s, &s), Some(s.duplicate()));
    assert_eq!(broadcast_shapes(&Shape(vec![]), &Shape(vec![])), Some(Shape(vec![])));
}

#[test]
fn broadcast_refuses_mismatched_extents() {
    assert_eq!(broadcast_shapes(&Shape(vec![2, 3]), &Shape(vec![4, 3])), None);
    assert_eq!(broadcast_shapes(&Shape(vec![3]), &Shape(vec![4])), None);
    assert_eq!(broadcast_shapes(&Shape(vec![0]), &Shape(vec![2])), None);
    assert_eq!(broadcast_shapes(&Shape(vec![0]), &Shape(vec![1])), Some(Shape(vec![0])));
}

#[test]
fn schedule_orders_a_chain() {
    // 3 depends on 2, 2 depends on 1
    let ids = vec![3u128, 2, 1];
    let deps = vec![vec![2u128], vec![1u128], vec![]];
    assert_eq!(schedule(&ids, &deps), Ok(vec![1, 2, 3]));
}

#[test]
fn schedule_keeps_insertion_order_of_ready_nodes() {
    let ids = vec![5u128, 6, 7, 8];
    let deps = vec![vec![], vec![], vec![5u128, 6], vec![]];
    assert_eq!(schedule(&ids, &deps), Ok(vec![5, 6, 7, 8]));
    // 8 waits for 6 and 7 for 5; once 5 is placed, 7 comes before 6
    let ids = vec![8u128, 7, 5, 6];
    let deps = vec![vec![6u128], vec![5u128], vec![], vec![]];
    assert_eq!(schedule(&ids, &deps), Ok(vec![5, 7, 6, 8]));
    assert_eq!(schedule(&vec![], &vec![]), Ok(vec![]));
}

#[test]
fn schedule_reports_a_cycle() {
    let ids = vec![1u128, 2, 3];
    let deps = vec![vec![3u128], vec![1u128], vec![2u128]];
    assert_eq!(schedule(&ids, &deps), Err(GraphError::Cycle));
    let ids = vec![9u128];
    let deps = vec![vec![9u128]];
    assert_eq!(schedule(&ids, &deps), Err(GraphError::Cycle));
}

#[test]
fn schedule_reports_an_unknown_dependency() {
    let ids = vec![1u128, 2];
    let deps = vec![vec![], vec![1u128, 42]];
    assert_eq!(
        schedule(&ids, &deps),
        Err(GraphError::UnknownDependency { node: 2, dep: 42 })
    );
}

#[test]
fn sorted_ids_sorts_and_keeps_duplicates() {
    assert_eq!(sorted_ids(&vec![30u128, 10, 20, 10]), vec![10, 10, 20, 30]);
    assert_eq!(sorted_ids(&vec![]), Vec::<u128>::new());
    assert_eq!(sorted_ids(&vec![u128::MAX, 0]), vec![0, u128::MAX]);
}

#[test]
fn name_map_insert_replaces_and_keeps_order() {
    let mut m: NameMap<u32> = NameMap::new();
    assert_eq!(m.len(), 0);
    assert!(!m.contains_key("a"));
    m.insert("a".to_string(), 1);
    m.insert("b".to_string(), 2);
    m.insert("a".to_string(), 3);
    assert_eq!(m.len(), 2);
    assert_eq!(m.get("a"), Some(&3));
    assert_eq!(m.get("b"), Some(&2));
    assert_eq!(m.get("c"), None);
    assert!(m.contains_key("b"));
}

#[test]
fn checkpoint_save_then_load_in_current_step() {
    let mut cm = CheckpointManager::new();
    assert_eq!(cm.num_steps(), 0);
    // saving with no open step opens one
    cm.save(7, CheckpointBuffer::empty(CheckpointStrategy::Full));
    assert_eq!(cm.num_steps(), 1);
    cm.begin_step();
    let mut b = CheckpointBuffer::new(CheckpointStrategy::RngSeed(99), 16);
    b.data.push(5);
    cm.save(7, b);
    let got = cm.load(&7).unwrap();
    assert_eq!(got.strategy, CheckpointStrategy::RngSeed(99));
    assert_eq!(got.data, vec![5]);
    // loading takes the buffer out
    assert!(cm.load(&7).is_none());
    cm.end_step();
    // the buffer of the earlier step is there again
    let earlier = cm.load(&7).unwrap();
    assert_eq!(earlier.strategy, CheckpointStrategy::Full);
    assert!(earlier.data.is_empty());
    cm.end_step();
    assert_eq!(cm.num_steps(), 0);
    cm.end_step();
    assert_eq!(cm.num_steps(), 0);
    assert!(cm.load(&7).is_none());
}

#[test]
fn checkpoint_other_node_and_clear() {
    let mut cm = CheckpointManager::new();
    cm.begin_step();
    cm.save(1, CheckpointBuffer::empty(CheckpointStrategy::Stateless));
    cm.save(2, CheckpointBuffer::empty(CheckpointStrategy::Revolve { interval: 4 }));
    assert_eq!(
        cm.load(&2).unwrap().strategy,
        CheckpointStrategy::Revolve { interval: 4 }
    );
    assert_eq!(cm.load(&1).unwrap().strategy, CheckpointStrategy::Stateless);
    cm.begin_step();
    cm.begin_step();
    assert_eq!(cm.num_steps(), 3);
    cm.clear();
    assert_eq!(cm.num_steps(), 0);
}

#[test]
fn checkpoint_buffer_constructors_are_empty() {
    let b = CheckpointBuffer::new(CheckpointStrategy::BoundaryOnly, 1024);
    assert_eq!(b.strategy, CheckpointStrategy::BoundaryOnly);
    assert!(b.data.is_empty());
    let e = CheckpointBuffer::empty(CheckpointStrategy::Full);
    assert!(e.data.is_empty());
}

#[test]
fn buffer_bytes_of_shapes() {
    assert_eq!(f32_buffer_bytes(&Shape(vec![2, 2, 2])), Some(32));
    assert_eq!(f32_buffer_bytes(&Shape(vec![])), Some(4));
    assert_eq!(f32_buffer_bytes(&Shape(vec![100, 100, 9])), Some(360000));
    assert_eq!(f32_buffer_bytes(&Shape(vec![3, 0])), Some(0));
    assert_eq!(f32_buffer_bytes(&Shape(vec![usize::MAX, 2])), None);
    assert_eq!(f32_buffer_bytes(&Shape(vec![usize::MAX / 2])), None);
}

#[test]
fn context_values_duplicate() {
    let t = TensorRef::new(3, Shape(vec![4]), Device::Gpu(1));
    let d = t.duplicate();
    assert_eq!(d.handle, 3);
    assert_eq!(d.shape, Shape(vec![4]));
    assert_eq!(d.device, Device::Gpu(1));
    let v = NumericsContextValue::Tensor(t);
    assert!(matches!(v.duplicate(), NumericsContextValue::Tensor(x) if x.handle == 3));
    assert!(matches!(NumericsContextValue::Empty.duplicate(), NumericsContextValue::Empty));
}
