use vstd::prelude::*;
use crate::shape::Shape;

verus! {

/// Where the data of a tensor lives.
#[derive(Debug, Clone, Copy, PartialEq, Eq, Hash, Structural)]
pub enum Device {
    Cpu,
    Gpu(usize),
}

/// What the graph logic reads of a tensor: a handle under which the tensor's
/// elements are kept, its shape and its device.
#[derive(Debug)]
pub struct TensorRef {
    pub handle: u64,
    pub shape: Shape,
    pub device: Device,
}

/// The mathematical view of a tensor reference.
pub struct TensorView {
    pub handle: u64,
    pub shape: Seq<usize>,
    pub device: Device,
}

impl View for TensorRef {
    type V = TensorView;

    open spec fn view(&self) -> TensorView {
        TensorView { handle: self.handle, shape: self.shape@, device: self.device }
    }
}

impl TensorRef {
    pub fn new(handle: u64, shape: Shape, device: Device) -> (r: TensorRef)
        ensures
            r.handle == handle,
            r.shape@ == shape@,
            r.device == device,
    {
        TensorRef { handle, shape, device }
    }

    /// Another reference to the same tensor.
    pub fn duplicate(&self) -> (r: TensorRef)
        ensures
            r@ == self@,
    {
        TensorRef { handle: self.handle, shape: self.shape.duplicate(), device: self.device }
    }
}

/// A value held in a graph context.
#[derive(Debug)]
pub enum NumericsContextValue {
    Tensor(TensorRef),
    Empty,
}

impl View for NumericsContextValue {
    type V = Option<TensorView>;

    open spec fn view(&self) -> Option<TensorView> {
        match self {
            NumericsContextValue::Tensor(t) => Some(t@),
            NumericsContextValue::Empty => None,
        }
    }
}

impl NumericsContextValue {
    pub fn duplicate(&self) -> (r: NumericsContextValue)
        ensures
            r@ == self@,
    {
        match self {
            NumericsContextValue::Tensor(t) => NumericsContextValue::Tensor(t.duplicate()),
            NumericsContextValue::Empty => NumericsContextValue::Empty,
        }
    }
}

/// The number of elements of a tensor of shape `s`.
pub open spec fn num_elements(s: Seq<usize>) -> int
    decreases s.len(),
{
    if s.len() == 0 {
        1
    } else {
        num_elements(s.drop_last()) * s.last()
    }
}

/// Every partial product of the extents, taken from the first dimension on,
/// fits in a `usize`.
pub open spec fn products_fit(s: Seq<usize>) -> bool {
    forall|i: int| 0 <= i <= s.len() ==> #[trigger] num_elements(s.subrange(0, i)) <= usize::MAX
}

/// The number of bytes that a buffer of 32-bit elements of shape `shape`
/// takes: the product of the extents, times 4. `None` when the product,
/// formed from the first extent on, or the byte count leaves the `usize`
/// range.
pub fn f32_buffer_bytes(shape: &Shape) -> (r: Option<usize>)
    ensures
        r is Some <==> products_fit(shape@) && num_elements(shape@) * 4 <= usize::MAX,
        r matches Some(b) ==> b == num_elements(shape@) * 4,
{
    let mut prod: usize = 1;
    let mut i: usize = 0;
    assert(shape@.subrange(0, 0) =~= Seq::<usize>::empty());
    while i < shape.0.len()
        invariant
            i <= shape.0.len(),
            prod == num_elements(shape@.subrange(0, i as int)),
            forall|j: int| 0 <= j <= i ==> #[trigger] num_elements(shape@.subrange(0, j)) <= usize::MAX,
        decreases shape.0.len() - i,
    {
        let d = shape.0[i];
        let ghost next = shape@.subrange(0, i + 1);
        assert(next.drop_last() =~= shape@.subrange(0, i as int));
        match prod.checked_mul(d) {
            Some(p) => {
                prod = p;
            },
            None => {
                assert(num_elements(next) > usize::MAX);
                return None;
            },
        }
        i = i + 1;
    }
    assert(shape@.subrange(0, shape@.len() as int) =~= shape@);
    prod.checked_mul(4)
}

} // verus!
