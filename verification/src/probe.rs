use vstd::prelude::*;

verus! {

/// Reports the value of a tensor at given coordinates, or that a
/// coordinate lies outside it.
#[derive(Clone, Copy, Debug)]
pub struct ScalarProbeExtractor;

impl ScalarProbeExtractor {
    /// Whether `coord` indexes an element of a tensor of shape `shape`: one
    /// entry per dimension, each below its extent.
    pub fn in_bounds(shape: &Vec<usize>, coord: &Vec<usize>) -> (r: bool)
        ensures
            r == (coord@.len() == shape@.len() && forall|d: int| 0 <= d < shape@.len() ==> coord@[d] < shape@[d]),
    {
        if coord.len() != shape.len() {
            return false;
        }
        let mut d: usize = 0;
        while d < shape.len()
            invariant
                coord.len() == shape.len(),
                d <= shape.len(),
                forall|e: int| 0 <= e < d ==> coord@[e] < shape@[e],
            decreases shape.len() - d,
        {
            if coord[d] >= shape[d] {
                return false;
            }
            d = d + 1;
        }
        true
    }
}

} // verus!
