use vstd::prelude::*;
use std::collections::HashMap;
use crate::shape::Shape;
use crate::tensor::{Device, NumericsContextValue, TensorRef, TensorView};

verus! {

/// The values a graph step works on: `temp` holds what nodes produce during
/// the step, `state` the state the step starts from, and `next_state` the
/// state it hands on.
#[derive(Debug)]
pub struct GraphContext {
    pub temp: HashMap<u128, NumericsContextValue>,
    pub state: HashMap<u128, NumericsContextValue>,
    pub next_state: HashMap<u128, NumericsContextValue>,
}

/// A map of context values, by their views.
pub open spec fn values_view(m: Map<u128, NumericsContextValue>) -> Map<u128, Option<TensorView>> {
    m.map_values(|v: NumericsContextValue| v@)
}

/// `m` holds a tensor under `id`.
pub open spec fn holds_tensor(m: Map<u128, NumericsContextValue>, id: u128) -> bool {
    m.contains_key(id) && m[id] is Tensor
}

impl GraphContext {
    pub fn new() -> (r: GraphContext)
        ensures
            r.temp@ == Map::<u128, NumericsContextValue>::empty(),
            r.state@ == Map::<u128, NumericsContextValue>::empty(),
            r.next_state@ == Map::<u128, NumericsContextValue>::empty(),
    {
        GraphContext { temp: HashMap::new(), state: HashMap::new(), next_state: HashMap::new() }
    }
}

/// Another reference to the tensor stored under `id`.
pub(crate) fn peek_tensor(ctx: &GraphContext, id: u128) -> (r: TensorRef)
    requires
        holds_tensor(ctx.temp@, id),
    ensures
        Some(r@) == ctx.temp@[id]@,
{
    match ctx.temp.get(&id) {
        Some(NumericsContextValue::Tensor(t)) => t.duplicate(),
        _ => TensorRef { handle: 0, shape: Shape(Vec::new()), device: Device::Cpu },
    }
}

} // verus!
