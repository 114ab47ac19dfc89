//! Dependency-ordered scheduling of the reaches of a river network.
//!
//! A reach can be routed only once every reach that drains into it has been
//! routed. The scheduler hands out the reaches whose upstream work is done,
//! round-robin over a fixed number of workers, and learns of finished reaches
//! one event at a time.
use std::collections::HashMap;
use std::collections::HashSet;
use std::collections::VecDeque;
use vstd::prelude::*;

verus! {

broadcast use vstd::std_specs::hash::group_hash_axioms;

/// How one reach is linked to its neighbours.
pub struct NodeLinks {
    pub id: u32,
    pub upstream_ids: Vec<u32>,
    pub downstream_id: Option<u32>,
}

/// A reach handed to a worker.
#[derive(Clone, Copy, Debug, PartialEq, Eq)]
pub struct Dispatch {
    pub worker: usize,
    pub node_id: u32,
}

/// What the scheduler hears from the workers.
#[derive(Clone, Copy, Debug, PartialEq, Eq)]
pub enum SchedulerEvent {
    /// A worker has finished with a reach (successfully or not).
    NodeCompleted(u32),
    /// A worker asked the whole run to stop.
    Shutdown,
    /// Every sender of the channel is gone.
    Disconnected,
}

/// The scheduler's state as a mathematical value.
pub struct SchedulerState {
    /// Where each known reach drains to.
    pub downstream: Map<u32, Option<u32>>,
    /// Reaches whose upstream work is done and that wait for a worker, in order.
    pub ready: Seq<u32>,
    /// Reaches reported as finished.
    pub processed: Set<u32>,
    /// For each reach still blocked, how many of its feeders have not finished.
    pub pending: Map<u32, usize>,
    pub total_nodes: nat,
    pub num_workers: nat,
    pub next_worker: nat,
}

pub struct Scheduler {
    downstream: HashMap<u32, Option<u32>>,
    ready: VecDeque<u32>,
    processed: HashSet<u32>,
    pending: HashMap<u32, usize>,
    total_nodes: usize,
    num_workers: usize,
    next_worker: usize,
}

impl View for Scheduler {
    type V = SchedulerState;

    closed spec fn view(&self) -> SchedulerState {
        SchedulerState {
            downstream: self.downstream@,
            ready: self.ready@,
            processed: self.processed@,
            pending: self.pending@,
            total_nodes: self.total_nodes as nat,
            num_workers: self.num_workers as nat,
            next_worker: self.next_worker as nat,
        }
    }
}

/// The bounds every scheduler state keeps.
pub open spec fn well_formed(s: SchedulerState) -> bool {
    &&& s.num_workers > 0
    &&& s.next_worker < s.num_workers
}

/// Where each reach of `nodes` drains to (a later entry for an id wins).
pub open spec fn links_downstream(nodes: Seq<NodeLinks>) -> Map<u32, Option<u32>>
    decreases nodes.len(),
{
    if nodes.len() == 0 {
        Map::empty()
    } else {
        links_downstream(nodes.drop_last()).insert(nodes.last().id, nodes.last().downstream_id)
    }
}

/// The headwater reaches of `nodes` (no feeders), in the order given.
pub open spec fn links_ready(nodes: Seq<NodeLinks>) -> Seq<u32>
    decreases nodes.len(),
{
    if nodes.len() == 0 {
        Seq::empty()
    } else if nodes.last().upstream_ids@.len() == 0 {
        links_ready(nodes.drop_last()).push(nodes.last().id)
    } else {
        links_ready(nodes.drop_last())
    }
}

/// For each reach of `nodes` with feeders, the number of its feeders.
pub open spec fn links_pending(nodes: Seq<NodeLinks>) -> Map<u32, usize>
    decreases nodes.len(),
{
    if nodes.len() == 0 {
        Map::empty()
    } else if nodes.last().upstream_ids@.len() == 0 {
        links_pending(nodes.drop_last())
    } else {
        links_pending(nodes.drop_last()).insert(
            nodes.last().id,
            nodes.last().upstream_ids.len(),
        )
    }
}

/// The state the scheduler starts from.
pub open spec fn spec_initial(nodes: Seq<NodeLinks>, num_workers: nat) -> SchedulerState {
    SchedulerState {
        downstream: links_downstream(nodes),
        ready: links_ready(nodes),
        processed: Set::empty(),
        pending: links_pending(nodes),
        total_nodes: nodes.len(),
        num_workers,
        next_worker: 0,
    }
}

/// Handing out every ready reach, round-robin from `next_worker`.
pub open spec fn spec_dispatched(s: SchedulerState) -> Seq<Dispatch> {
    Seq::new(
        s.ready.len(),
        |j: int|
            Dispatch {
                worker: ((s.next_worker + j) % (s.num_workers as int)) as usize,
                node_id: s.ready[j],
            },
    )
}

pub open spec fn spec_after_dispatch(s: SchedulerState) -> SchedulerState {
    SchedulerState {
        ready: Seq::empty(),
        next_worker: (s.next_worker + s.ready.len()) % s.num_workers,
        ..s
    }
}

/// The state after `id` is reported finished: its downstream reach loses one
/// outstanding feeder and becomes ready when none is left.
pub open spec fn spec_after_completion(s: SchedulerState, id: u32) -> SchedulerState {
    let processed = s.processed.insert(id);
    if s.downstream.contains_key(id) && s.downstream[id] is Some && s.pending.contains_key(
        s.downstream[id]->0,
    ) {
        let d = s.downstream[id]->0;
        let count = s.pending[d];
        let left: usize = if count > 0 {
            (count - 1) as usize
        } else {
            0
        };
        if left == 0 {
            SchedulerState { processed, ready: s.ready.push(d), pending: s.pending.remove(d), ..s }
        } else {
            SchedulerState { processed, pending: s.pending.insert(d, left), ..s }
        }
    } else {
        SchedulerState { processed, ..s }
    }
}

/// Whether the run is over once `s` is reached: every reach counted as finished.
pub open spec fn spec_all_done(s: SchedulerState) -> bool {
    s.processed.len() >= s.total_nodes
}

impl Scheduler {
    /// Sets the scheduler up for the reaches `nodes`: headwaters are ready at
    /// once, every other reach waits for as many completions as it has feeders.
    pub fn new(nodes: &Vec<NodeLinks>, num_workers: usize) -> (s: Scheduler)
        requires
            num_workers > 0,
        ensures
            s@ == spec_initial(nodes@, num_workers as nat),
            well_formed(s@),
    {
        let mut downstream: HashMap<u32, Option<u32>> = HashMap::new();
        let mut ready: VecDeque<u32> = VecDeque::new();
        let mut pending: HashMap<u32, usize> = HashMap::new();
        let mut i: usize = 0;
        while i < nodes.len()
            invariant
                i <= nodes.len(),
                downstream@ == links_downstream(nodes@.take(i as int)),
                ready@ == links_ready(nodes@.take(i as int)),
                pending@ == links_pending(nodes@.take(i as int)),
            decreases nodes.len() - i,
        {
            let node = &nodes[i];
            downstream.insert(node.id, node.downstream_id);
            if node.upstream_ids.len() == 0 {
                ready.push_back(node.id);
            } else {
                pending.insert(node.id, node.upstream_ids.len());
            }
            proof {
                assert(nodes@.take(i as int + 1).drop_last() =~= nodes@.take(i as int));
            }
            i = i + 1;
        }
        proof {
            assert(nodes@.take(nodes@.len() as int) =~= nodes@);
        }
        Scheduler {
            downstream,
            ready,
            processed: HashSet::new(),
            pending,
            total_nodes: nodes.len(),
            num_workers,
            next_worker: 0,
        }
    }

    /// Sets the scheduler up with one worker per logical CPU of this machine.
    pub fn for_available_cpus(nodes: &Vec<NodeLinks>) -> (s: Scheduler)
        ensures
            s@.num_workers >= 1,
            s@ == spec_initial(nodes@, s@.num_workers),
            well_formed(s@),
    {
        let workers = logical_cpu_count();
        Scheduler::new(nodes, workers)
    }

    /// Number of workers the reaches are spread over.
    pub fn num_workers(&self) -> (n: usize)
        ensures
            n == self@.num_workers,
    {
        self.num_workers
    }

    /// Hands every ready reach to a worker, in order, round-robin.
    pub fn dispatch_ready(&mut self) -> (out: Vec<Dispatch>)
        requires
            well_formed(old(self)@),
        ensures
            out@ == spec_dispatched(old(self)@),
            final(self)@ == spec_after_dispatch(old(self)@),
            well_formed(final(self)@),
    {
        let ghost s0 = self@;
        let mut out: Vec<Dispatch> = Vec::new();
        proof {
            vstd::arithmetic::div_mod::lemma_small_mod(s0.next_worker, s0.num_workers);
            assert(s0.ready.skip(0) =~= s0.ready);
        }
        while self.ready.len() > 0
            invariant
                well_formed(self@),
                self@.num_workers == s0.num_workers,
                self@.downstream == s0.downstream,
                self@.processed == s0.processed,
                self@.pending == s0.pending,
                self@.total_nodes == s0.total_nodes,
                out@.len() <= s0.ready.len(),
                self@.ready == s0.ready.skip(out@.len() as int),
                self@.next_worker == (s0.next_worker + out@.len()) % s0.num_workers,
                forall|j: int|
                    0 <= j < out@.len() ==> #[trigger] out@[j] == spec_dispatched(s0)[j],
            decreases self.ready@.len(),
        {
            let ghost k = out@.len();
            let node_id = self.ready.pop_front().unwrap();
            out.push(Dispatch { worker: self.next_worker, node_id });
            proof {
                vstd::arithmetic::div_mod::lemma_add_mod_noop_right(
                    1,
                    (s0.next_worker + k) as int,
                    s0.num_workers as int,
                );
                assert(s0.ready.skip(k as int)[0] == s0.ready[k as int]);
                assert(s0.ready.skip(k as int).drop_first() =~= s0.ready.skip(k as int + 1));
            }
            self.next_worker = (self.next_worker + 1) % self.num_workers;
        }
        proof {
            assert(out@.len() == spec_dispatched(s0).len());
            assert(out@ =~= spec_dispatched(s0));
            assert(self@.ready =~= Seq::<u32>::empty());
        }
        out
    }

    /// Records that `node_id` has finished and releases its downstream reach
    /// when that was its last outstanding feeder. Returns whether every reach
    /// is now counted as finished.
    pub fn complete(&mut self, node_id: u32) -> (all_done: bool)
        requires
            well_formed(old(self)@),
        ensures
            final(self)@ == spec_after_completion(old(self)@, node_id),
            all_done == spec_all_done(final(self)@),
            well_formed(final(self)@),
    {
        self.processed.insert(node_id);
        let target: Option<u32> = match self.downstream.get(&node_id) {
            Some(link) => *link,
            None => None,
        };
        if let Some(d) = target {
            let count: Option<usize> = match self.pending.get(&d) {
                Some(c) => Some(*c),
                None => None,
            };
            if let Some(c) = count {
                let left = c.saturating_sub(1);
                if left == 0 {
                    self.ready.push_back(d);
                    self.pending.remove(&d);
                } else {
                    self.pending.insert(d, left);
                }
            }
        }
        self.processed.len() >= self.total_nodes
    }

    /// Reacts to one event; returns whether the scheduler keeps running.
    pub fn handle(&mut self, event: SchedulerEvent) -> (keep_running: bool)
        requires
            well_formed(old(self)@),
        ensures
            well_formed(final(self)@),
            match event {
                SchedulerEvent::NodeCompleted(id) => {
                    &&& final(self)@ == spec_after_completion(old(self)@, id)
                    &&& keep_running == !spec_all_done(final(self)@)
                },
                _ => final(self)@ == old(self)@ && !keep_running,
            },
    {
        match event {
            SchedulerEvent::NodeCompleted(id) => !self.complete(id),
            SchedulerEvent::Shutdown => false,
            SchedulerEvent::Disconnected => false,
        }
    }
}

/// `num_cpus::get`: the number of logical CPUs this process may use. Its
/// documentation promises that the result is always at least 1; nothing else
/// is claimed, as it depends on the machine.
#[verifier::external_body]
fn logical_cpu_count() -> (n: usize)
    ensures
        n >= 1,
{
    num_cpus::get()
}

} // verus!
