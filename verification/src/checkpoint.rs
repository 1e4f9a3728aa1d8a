use vstd::prelude::*;
use std::collections::HashMap;

verus! {

broadcast use vstd::std_specs::hash::group_hash_axioms;

/// How a node's state is kept for the backward pass.
#[derive(Clone, Copy, Debug, PartialEq, Eq, Structural)]
pub enum CheckpointStrategy {
    Stateless,
    Full,
    BoundaryOnly,
    RngSeed(u64),
    Revolve { interval: usize },
}

/// Saved bytes of a node's state, with the strategy they were saved by.
#[derive(Clone, Debug)]
pub struct CheckpointBuffer {
    pub strategy: CheckpointStrategy,
    pub data: Vec<u8>,
}

impl CheckpointBuffer {
    /// An empty buffer with room for `capacity` bytes.
    pub fn new(strategy: CheckpointStrategy, capacity: usize) -> (r: CheckpointBuffer)
        ensures
            r.strategy == strategy,
            r.data@ == Seq::<u8>::empty(),
    {
        CheckpointBuffer { strategy, data: Vec::with_capacity(capacity) }
    }

    /// An empty buffer.
    pub fn empty(strategy: CheckpointStrategy) -> (r: CheckpointBuffer)
        ensures
            r.strategy == strategy,
            r.data@ == Seq::<u8>::empty(),
    {
        CheckpointBuffer { strategy, data: Vec::new() }
    }
}

/// The trajectory after saving `buffer` for `node` in the current step; when
/// no step is open, one is opened for it.
pub open spec fn spec_save(
    t: Seq<Map<u128, CheckpointBuffer>>,
    node: u128,
    buffer: CheckpointBuffer,
) -> Seq<Map<u128, CheckpointBuffer>> {
    if t.len() == 0 {
        seq![Map::empty().insert(node, buffer)]
    } else {
        t.update(t.len() - 1, t.last().insert(node, buffer))
    }
}

/// The trajectory after taking the buffer of `node` out of the current step,
/// and that buffer.
pub open spec fn spec_load(
    t: Seq<Map<u128, CheckpointBuffer>>,
    node: u128,
) -> (Seq<Map<u128, CheckpointBuffer>>, Option<CheckpointBuffer>) {
    if t.len() == 0 {
        (t, None)
    } else if t.last().contains_key(node) {
        (t.update(t.len() - 1, t.last().remove(node)), Some(t.last()[node]))
    } else {
        (t, None)
    }
}

/// A stack of steps, each holding the buffers saved by the nodes during that
/// step.
#[derive(Debug)]
pub struct CheckpointManager {
    trajectory: Vec<HashMap<u128, CheckpointBuffer>>,
}

impl View for CheckpointManager {
    type V = Seq<Map<u128, CheckpointBuffer>>;

    closed spec fn view(&self) -> Seq<Map<u128, CheckpointBuffer>> {
        self.trajectory@.map_values(|m: HashMap<u128, CheckpointBuffer>| m@)
    }
}

impl CheckpointManager {
    pub fn new() -> (r: CheckpointManager)
        ensures
            r@ == Seq::<Map<u128, CheckpointBuffer>>::empty(),
    {
        let r = CheckpointManager { trajectory: Vec::new() };
        assert(r@ =~= Seq::<Map<u128, CheckpointBuffer>>::empty());
        r
    }

    /// Opens a new, empty step.
    pub fn begin_step(&mut self)
        ensures
            final(self)@ == old(self)@.push(Map::empty()),
    {
        self.trajectory.push(HashMap::new());
        assert(self@ =~= old(self)@.push(Map::empty()));
    }

    /// Saves `buffer` for `node` in the current step, in place of what the
    /// node saved there before.
    pub fn save(&mut self, node_id: u128, buffer: CheckpointBuffer)
        ensures
            final(self)@ == spec_save(old(self)@, node_id, buffer),
    {
        let n = self.trajectory.len();
        if n > 0 {
            self.trajectory[n - 1].insert(node_id, buffer);
            assert(self@ =~= spec_save(old(self)@, node_id, buffer));
        } else {
            let mut map = HashMap::new();
            map.insert(node_id, buffer);
            self.trajectory.push(map);
            assert(self@ =~= spec_save(old(self)@, node_id, buffer));
        }
    }

    /// Takes the buffer that `node` saved in the current step.
    pub fn load(&mut self, node_id: &u128) -> (r: Option<CheckpointBuffer>)
        ensures
            (final(self)@, r) == spec_load(old(self)@, *node_id),
    {
        let n = self.trajectory.len();
        if n == 0 {
            return None;
        }
        let r = self.trajectory[n - 1].remove(node_id);
        proof {
            let t = old(self)@;
            assert(t.last() == t[n - 1]);
            assert(self@[n - 1] == t[n - 1].remove(*node_id));
            if !t.last().contains_key(*node_id) {
                assert(t.last().remove(*node_id) =~= t.last());
            }
            assert(self@ =~= spec_load(old(self)@, *node_id).0);
        }
        r
    }

    /// Closes the current step, dropping what was saved in it.
    pub fn end_step(&mut self)
        ensures
            old(self)@.len() > 0 ==> final(self)@ == old(self)@.drop_last(),
            old(self)@.len() == 0 ==> final(self)@ == old(self)@,
    {
        let _ = self.trajectory.pop();
        assert(old(self)@.len() > 0 ==> self@ =~= old(self)@.drop_last());
        assert(old(self)@.len() == 0 ==> self@ =~= old(self)@);
    }

    /// Drops every step.
    pub fn clear(&mut self)
        ensures
            final(self)@ == Seq::<Map<u128, CheckpointBuffer>>::empty(),
    {
        self.trajectory.clear();
        assert(self@ =~= Seq::<Map<u128, CheckpointBuffer>>::empty());
    }

    /// The number of open steps.
    pub fn num_steps(&self) -> (r: usize)
        ensures
            r == self@.len(),
    {
        self.trajectory.len()
    }
}

/// A buffer saved for a node in the current step is what loading that node
/// gives back, and loading takes it out: a second load gives nothing.
pub proof fn lemma_save_then_load(t: Seq<Map<u128, CheckpointBuffer>>, node: u128, b: CheckpointBuffer)
    ensures
        spec_load(spec_save(t, node, b), node).1 == Some(b),
        spec_load(spec_load(spec_save(t, node, b), node).0, node).1 is None,
        spec_load(spec_save(t, node, b), node).0.len() == if t.len() == 0 { 1 } else { t.len() },
{
    let s = spec_save(t, node, b);
    assert(s.last() == s[s.len() - 1]);
    let l = spec_load(s, node).0;
    assert(l.last() == l[l.len() - 1]);
}

/// Saving for one node leaves what another node loads unchanged.
pub proof fn lemma_save_other_node(t: Seq<Map<u128, CheckpointBuffer>>, node: u128, other: u128, b: CheckpointBuffer)
    requires
        node != other,
        t.len() > 0,
    ensures
        spec_load(spec_save(t, node, b), other).1 == spec_load(t, other).1,
{
    let s = spec_save(t, node, b);
    assert(s.last() == t.last().insert(node, b));
}

/// Saving opens a step only when none is open; otherwise the number of steps
/// stays the same.
pub proof fn lemma_save_steps(t: Seq<Map<u128, CheckpointBuffer>>, node: u128, b: CheckpointBuffer)
    ensures
        spec_save(t, node, b).len() == if t.len() == 0 { 1 } else { t.len() },
        t.len() > 0 ==> spec_save(t, node, b).drop_last() == t.drop_last(),
{
    if t.len() > 0 {
        assert(spec_save(t, node, b).drop_last() =~= t.drop_last());
    }
}

/// Opening a step and closing it again leaves the trajectory as it was.
pub proof fn lemma_begin_end_step(t: Seq<Map<u128, CheckpointBuffer>>)
    ensures
        t.push(Map::empty()).drop_last() == t,
{
    assert(t.push(Map::empty()).drop_last() =~= t);
}

} // verus!
