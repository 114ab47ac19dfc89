//! What the scheduler guarantees over a whole run on a consistent network.
use crate::scheduler::links_downstream;
use crate::scheduler::links_pending;
use crate::scheduler::links_ready;
use crate::scheduler::spec_after_completion;
use crate::scheduler::spec_after_dispatch;
use crate::scheduler::spec_all_done;
use crate::scheduler::spec_dispatched;
use crate::scheduler::spec_initial;
use crate::scheduler::NodeLinks;
use crate::scheduler::SchedulerState;
use vstd::prelude::*;

verus! {

broadcast use vstd::set_lib::group_set_properties;

/// No two entries describe the same reach.
pub open spec fn ids_distinct(nodes: Seq<NodeLinks>) -> bool {
    forall|i: int, j: int| 0 <= i < j < nodes.len() ==> nodes[i].id != nodes[j].id
}

/// The ids of the reaches of the network.
pub open spec fn node_ids(nodes: Seq<NodeLinks>) -> Set<u32> {
    links_downstream(nodes).dom()
}

/// The reaches that drain directly into `d`.
pub open spec fn feeders(nodes: Seq<NodeLinks>, d: u32) -> Set<u32> {
    Set::new(
        |u: u32| links_downstream(nodes).contains_key(u) && links_downstream(nodes)[u] == Some(d),
    )
}

/// The upstream lists agree with the downstream links: each reach lists,
/// once each, exactly the reaches that drain into it.
pub open spec fn links_consistent(nodes: Seq<NodeLinks>) -> bool {
    &&& ids_distinct(nodes)
    &&& forall|i: int|
        0 <= i < nodes.len() ==> {
            &&& (#[trigger] nodes[i]).upstream_ids@.no_duplicates()
            &&& nodes[i].upstream_ids@.to_set() == feeders(nodes, nodes[i].id)
        }
}

/// A reach of the network that no longer waits for feeders.
pub open spec fn released(nodes: Seq<NodeLinks>, s: SchedulerState, d: u32) -> bool {
    node_ids(nodes).contains(d) && !s.pending.contains_key(d)
}

/// A released reach that is neither queued nor finished: a worker has it.
pub open spec fn in_flight(nodes: Seq<NodeLinks>, s: SchedulerState, d: u32) -> bool {
    released(nodes, s, d) && !s.processed.contains(d) && !s.ready.contains(d)
}

/// The invariant of a run: every blocked reach counts exactly its unfinished
/// feeders, every released reach has all its feeders finished, the queue holds
/// released unfinished reaches once each, and only released reaches finish.
pub open spec fn sound(nodes: Seq<NodeLinks>, s: SchedulerState) -> bool {
    &&& s.downstream == links_downstream(nodes)
    &&& s.total_nodes == nodes.len()
    &&& s.processed.finite()
    &&& forall|d: u32|
        #[trigger] s.pending.contains_key(d) ==> {
            &&& node_ids(nodes).contains(d)
            &&& s.pending[d] > 0
            &&& s.pending[d] == feeders(nodes, d).difference(s.processed).len()
        }
    &&& forall|d: u32| #[trigger]
        released(nodes, s, d) ==> feeders(nodes, d).subset_of(s.processed)
    &&& s.ready.no_duplicates()
    &&& forall|k: int|
        0 <= k < s.ready.len() ==> released(nodes, s, #[trigger] s.ready[k])
            && !s.processed.contains(s.ready[k])
    &&& forall|d: u32| #[trigger] s.processed.contains(d) ==> released(nodes, s, d)
}

proof fn lemma_ids_drop_last(nodes: Seq<NodeLinks>)
    requires
        ids_distinct(nodes),
        nodes.len() > 0,
    ensures
        ids_distinct(nodes.drop_last()),
{
    let rest = nodes.drop_last();
    assert forall|i: int, j: int| 0 <= i < j < rest.len() implies rest[i].id != rest[j].id by {
        assert(rest[i] == nodes[i]);
        assert(rest[j] == nodes[j]);
    }
}

/// The known reaches are exactly the ids listed, and there are finitely many.
proof fn lemma_node_ids(nodes: Seq<NodeLinks>)
    ensures
        node_ids(nodes) == nodes.map_values(|n: NodeLinks| n.id).to_set(),
        node_ids(nodes).finite(),
    decreases nodes.len(),
{
    let ids = nodes.map_values(|n: NodeLinks| n.id);
    if nodes.len() == 0 {
        assert(ids.to_set() =~= Set::empty());
    } else {
        let rest = nodes.drop_last();
        lemma_node_ids(rest);
        assert(ids =~= rest.map_values(|n: NodeLinks| n.id).push(nodes.last().id));
        rest.map_values(|n: NodeLinks| n.id).lemma_push_to_set_commute(nodes.last().id);
        assert(node_ids(nodes) =~= node_ids(rest).insert(nodes.last().id));
    }
    vstd::seq_lib::seq_to_set_is_finite(ids);
}

proof fn lemma_index_of(nodes: Seq<NodeLinks>, x: u32) -> (i: int)
    requires
        node_ids(nodes).contains(x),
    ensures
        0 <= i < nodes.len(),
        nodes[i].id == x,
    decreases nodes.len(),
{
    let rest = nodes.drop_last();
    if nodes.last().id == x {
        nodes.len() - 1
    } else {
        assert(node_ids(rest).contains(x));
        lemma_index_of(rest, x)
    }
}

proof fn lemma_downstream_at(nodes: Seq<NodeLinks>, i: int)
    requires
        ids_distinct(nodes),
        0 <= i < nodes.len(),
    ensures
        links_downstream(nodes).contains_key(nodes[i].id),
        links_downstream(nodes)[nodes[i].id] == nodes[i].downstream_id,
    decreases nodes.len(),
{
    if i < nodes.len() - 1 {
        lemma_ids_drop_last(nodes);
        lemma_downstream_at(nodes.drop_last(), i);
    }
}

proof fn lemma_pending_at(nodes: Seq<NodeLinks>, i: int)
    requires
        ids_distinct(nodes),
        0 <= i < nodes.len(),
    ensures
        links_pending(nodes).contains_key(nodes[i].id) <==> nodes[i].upstream_ids@.len() > 0,
        nodes[i].upstream_ids@.len() > 0 ==> links_pending(nodes)[nodes[i].id]
            == nodes[i].upstream_ids.len(),
    decreases nodes.len(),
{
    let rest = nodes.drop_last();
    if i < nodes.len() - 1 {
        lemma_ids_drop_last(nodes);
        lemma_pending_at(rest, i);
    } else {
        lemma_pending_dom(rest);
        lemma_node_ids(rest);
        if links_pending(rest).contains_key(nodes[i].id) {
            let j = lemma_index_of(rest, nodes[i].id);
            assert(nodes[j].id == nodes[i].id);
        }
    }
}

proof fn lemma_pending_dom(nodes: Seq<NodeLinks>)
    ensures
        forall|x: u32|
            #[trigger] links_pending(nodes).contains_key(x) ==> node_ids(nodes).contains(x),
    decreases nodes.len(),
{
    if nodes.len() > 0 {
        let rest = nodes.drop_last();
        lemma_pending_dom(rest);
        assert forall|x: u32| #[trigger] links_pending(nodes).contains_key(x) implies node_ids(
            nodes,
        ).contains(x) by {
            assert(node_ids(nodes) =~= node_ids(rest).insert(nodes.last().id));
            if x != nodes.last().id {
                assert(links_pending(rest).contains_key(x));
            }
        }
    }
}

proof fn lemma_ready_from(nodes: Seq<NodeLinks>, k: int) -> (i: int)
    requires
        0 <= k < links_ready(nodes).len(),
    ensures
        0 <= i < nodes.len(),
        nodes[i].id == links_ready(nodes)[k],
        nodes[i].upstream_ids@.len() == 0,
    decreases nodes.len(),
{
    let rest = nodes.drop_last();
    if nodes.last().upstream_ids@.len() == 0 && k == links_ready(nodes).len() - 1 {
        nodes.len() - 1
    } else {
        lemma_ready_from(rest, k)
    }
}

proof fn lemma_ready_unique(nodes: Seq<NodeLinks>)
    requires
        ids_distinct(nodes),
    ensures
        links_ready(nodes).no_duplicates(),
    decreases nodes.len(),
{
    if nodes.len() > 0 {
        let rest = nodes.drop_last();
        lemma_ids_drop_last(nodes);
        lemma_ready_unique(rest);
        if nodes.last().upstream_ids@.len() == 0 {
            assert forall|k: int| 0 <= k < links_ready(rest).len() implies links_ready(rest)[k]
                != nodes.last().id by {
                let i = lemma_ready_from(rest, k);
                assert(nodes[i].id != nodes[nodes.len() - 1].id);
            }
        }
    }
}

/// Every reach that feeds a known reach is itself known, so feeder sets are finite.
proof fn lemma_feeders_finite(nodes: Seq<NodeLinks>, d: u32)
    ensures
        feeders(nodes, d).subset_of(node_ids(nodes)),
        feeders(nodes, d).finite(),
{
    lemma_node_ids(nodes);
    vstd::set_lib::lemma_set_subset_finite(node_ids(nodes), feeders(nodes, d));
}

/// A consistent network starts in a sound state.
pub proof fn lemma_initial_state_sound(nodes: Seq<NodeLinks>, num_workers: nat)
    requires
        links_consistent(nodes),
    ensures
        sound(nodes, spec_initial(nodes, num_workers)),
{
    let s = spec_initial(nodes, num_workers);
    lemma_node_ids(nodes);
    lemma_pending_dom(nodes);
    lemma_ready_unique(nodes);
    assert forall|d: u32| #[trigger] s.pending.contains_key(d) implies {
        &&& node_ids(nodes).contains(d)
        &&& s.pending[d] > 0
        &&& s.pending[d] == feeders(nodes, d).difference(s.processed).len()
    } by {
        assert(node_ids(nodes).contains(d));
        let i = lemma_index_of(nodes, d);
        lemma_pending_at(nodes, i);
        let up = nodes[i].upstream_ids@;
        assert(up.no_duplicates() && up.to_set() == feeders(nodes, d));
        up.unique_seq_to_set();
        assert(feeders(nodes, d).difference(s.processed) =~= feeders(nodes, d));
        assert(s.pending[d] == up.len());
    }
    assert forall|d: u32| #[trigger] released(nodes, s, d) implies feeders(nodes, d).subset_of(
        s.processed,
    ) by {
        let i = lemma_index_of(nodes, d);
        lemma_pending_at(nodes, i);
        assert(nodes[i].upstream_ids@ =~= Seq::<u32>::empty());
        assert(feeders(nodes, d) =~= nodes[i].upstream_ids@.to_set());
        assert(feeders(nodes, d) =~= Set::<u32>::empty());
    }
    assert forall|k: int| 0 <= k < s.ready.len() implies released(nodes, s, #[trigger] s.ready[k])
        && !s.processed.contains(s.ready[k]) by {
        let i = lemma_ready_from(nodes, k);
        lemma_pending_at(nodes, i);
        lemma_downstream_at(nodes, i);
    }
}

/// Handing out the queue keeps a run sound; each reach handed out has all its
/// feeders finished and is now with a worker.
pub proof fn lemma_dispatch_sound(nodes: Seq<NodeLinks>, s: SchedulerState)
    requires
        sound(nodes, s),
    ensures
        sound(nodes, spec_after_dispatch(s)),
        forall|j: int|
            0 <= j < spec_dispatched(s).len() ==> {
                let n = (#[trigger] spec_dispatched(s)[j]).node_id;
                &&& in_flight(nodes, spec_after_dispatch(s), n)
                &&& feeders(nodes, n).subset_of(s.processed)
            },
{
    let s2 = spec_after_dispatch(s);
    assert forall|x: u32| #[trigger] released(nodes, s2, x) implies feeders(nodes, x).subset_of(
        s2.processed,
    ) by {
        assert(released(nodes, s, x));
    }
    assert forall|x: u32| #[trigger] s2.processed.contains(x) implies released(nodes, s2, x) by {
        assert(released(nodes, s, x));
    }
    assert forall|j: int| 0 <= j < spec_dispatched(s).len() implies {
        let n = (#[trigger] spec_dispatched(s)[j]).node_id;
        &&& in_flight(nodes, s2, n)
        &&& feeders(nodes, n).subset_of(s.processed)
    } by {
        assert(spec_dispatched(s)[j].node_id == s.ready[j]);
        assert(released(nodes, s, s.ready[j]));
    }
}

/// Reporting a reach that a worker had as finished keeps a run sound. The
/// reach released by it, if any, was blocked until then.
pub proof fn lemma_completion_sound(nodes: Seq<NodeLinks>, s: SchedulerState, id: u32)
    requires
        links_consistent(nodes),
        sound(nodes, s),
        in_flight(nodes, s, id),
    ensures
        sound(nodes, spec_after_completion(s, id)),
        spec_after_completion(s, id).processed == s.processed.insert(id),
        spec_after_completion(s, id).ready == s.ready || exists|d: u32|
            {
                &&& s.pending.contains_key(d)
                &&& !spec_after_completion(s, id).pending.contains_key(d)
                &&& #[trigger] spec_after_completion(s, id).ready == s.ready.push(d)
            },
{
    lemma_completion_counted(nodes, s, id);
    let s2 = spec_after_completion(s, id);
    assert(s2.pending.dom().subset_of(s.pending.dom()));
    assert forall|k: int| 0 <= k < s2.ready.len() implies released(
        nodes,
        s2,
        #[trigger] s2.ready[k],
    ) && !s2.processed.contains(s2.ready[k]) by {
        if k < s.ready.len() {
            assert(s2.ready[k] == s.ready[k]);
            assert(released(nodes, s, s.ready[k]));
        } else {
            let d = choose|d: u32|
                {
                    &&& s.pending.contains_key(d)
                    &&& !s2.pending.contains_key(d)
                    &&& feeders(nodes, d).contains(id)
                    &&& #[trigger] s2.ready == s.ready.push(d)
                };
            assert(s2.ready[k] == d);
            assert(!released(nodes, s, d));
        }
    }
    assert forall|x: u32| #[trigger] s2.processed.contains(x) implies released(nodes, s2, x) by {
        if x != id {
            assert(released(nodes, s, x));
        }
    }
}

/// In a sound run, a reach is released exactly when all its feeders have
/// finished; in particular every queued reach has all its feeders finished.
pub proof fn lemma_released_iff_feeders_done(nodes: Seq<NodeLinks>, s: SchedulerState, d: u32)
    requires
        sound(nodes, s),
        node_ids(nodes).contains(d),
    ensures
        released(nodes, s, d) <==> feeders(nodes, d).subset_of(s.processed),
        s.ready.contains(d) ==> feeders(nodes, d).subset_of(s.processed),
{
    if s.pending.contains_key(d) && feeders(nodes, d).subset_of(s.processed) {
        assert(feeders(nodes, d).difference(s.processed) =~= Set::<u32>::empty());
    }
}

/// In a sound run of a consistent network, the scheduler declares the run over
/// exactly when every reach of the network has finished.
pub proof fn lemma_all_done_iff_every_node_finished(nodes: Seq<NodeLinks>, s: SchedulerState)
    requires
        links_consistent(nodes),
        sound(nodes, s),
    ensures
        spec_all_done(s) <==> s.processed == node_ids(nodes),
{
    lemma_node_ids(nodes);
    let ids = nodes.map_values(|n: NodeLinks| n.id);
    assert(ids.no_duplicates()) by {
        assert forall|i: int, j: int| 0 <= i < ids.len() && 0 <= j < ids.len() && i != j implies ids[i]
            != ids[j] by {
            if i < j {
                assert(nodes[i].id != nodes[j].id);
            } else {
                assert(nodes[j].id != nodes[i].id);
            }
        }
    }
    ids.unique_seq_to_set();
    assert(s.processed.subset_of(node_ids(nodes)));
    vstd::set_lib::lemma_len_subset(s.processed, node_ids(nodes));
    if spec_all_done(s) {
        vstd::set_lib::lemma_subset_equality(s.processed, node_ids(nodes));
    }
}

/// `rank` orders the network from headwaters down: every reach drains into a
/// reach of higher rank. A network has such a ranking exactly when it has no cycle.
pub open spec fn ranked(nodes: Seq<NodeLinks>, rank: spec_fn(u32) -> nat) -> bool {
    forall|u: u32, d: u32|
        #[trigger] feeders(nodes, d).contains(u) && node_ids(nodes).contains(d) ==> rank(u) < rank(
            d,
        )
}

proof fn lemma_finished_up_to_rank(
    nodes: Seq<NodeLinks>,
    s: SchedulerState,
    rank: spec_fn(u32) -> nat,
    n: nat,
)
    requires
        sound(nodes, s),
        ranked(nodes, rank),
        s.ready.len() == 0,
        forall|d: u32| !#[trigger] in_flight(nodes, s, d),
    ensures
        forall|d: u32| node_ids(nodes).contains(d) && rank(d) <= n ==> #[trigger] s.processed.contains(d),
    decreases n,
{
    if n > 0 {
        lemma_finished_up_to_rank(nodes, s, rank, (n - 1) as nat);
    }
    assert forall|d: u32| node_ids(nodes).contains(d) && rank(d) <= n implies #[trigger] s.processed.contains(d) by {
        assert forall|u: u32| feeders(nodes, d).contains(u) implies s.processed.contains(u) by {
            assert(rank(u) < rank(d));
            assert(links_downstream(nodes).contains_key(u));
        }
        assert(feeders(nodes, d).subset_of(s.processed));
        lemma_released_iff_feeders_done(nodes, s, d);
        assert(!in_flight(nodes, s, d));
    }
}

/// On a network without cycles the scheduler never stalls: when nothing is
/// queued and no worker holds a reach, every reach has finished.
pub proof fn lemma_no_stall_without_cycles(
    nodes: Seq<NodeLinks>,
    s: SchedulerState,
    rank: spec_fn(u32) -> nat,
)
    requires
        sound(nodes, s),
        ranked(nodes, rank),
        s.ready.len() == 0,
        forall|d: u32| !#[trigger] in_flight(nodes, s, d),
    ensures
        s.processed == node_ids(nodes),
{
    assert forall|d: u32| node_ids(nodes).contains(d) implies #[trigger] s.processed.contains(d) by {
        lemma_finished_up_to_rank(nodes, s, rank, rank(d));
    }
    assert forall|d: u32| s.processed.contains(d) implies node_ids(nodes).contains(d) by {
        assert(released(nodes, s, d));
    }
    assert(s.processed =~= node_ids(nodes));
}

/// One move of the scheduler in a run.
pub enum SchedulerMove {
    /// Every queued reach is handed out.
    DispatchAll,
    /// A reach is reported finished.
    Complete(u32),
}

/// The state after a run of moves from the start.
pub open spec fn spec_run(nodes: Seq<NodeLinks>, num_workers: nat, moves: Seq<SchedulerMove>) -> SchedulerState
    decreases moves.len(),
{
    if moves.len() == 0 {
        spec_initial(nodes, num_workers)
    } else {
        let s = spec_run(nodes, num_workers, moves.drop_last());
        match moves.last() {
            SchedulerMove::DispatchAll => spec_after_dispatch(s),
            SchedulerMove::Complete(id) => spec_after_completion(s, id),
        }
    }
}

/// The reaches handed out during a run, in order.
pub open spec fn spec_run_dispatched(
    nodes: Seq<NodeLinks>,
    num_workers: nat,
    moves: Seq<SchedulerMove>,
) -> Seq<u32>
    decreases moves.len(),
{
    if moves.len() == 0 {
        Seq::empty()
    } else {
        let before = spec_run_dispatched(nodes, num_workers, moves.drop_last());
        match moves.last() {
            SchedulerMove::DispatchAll => before + spec_run(
                nodes,
                num_workers,
                moves.drop_last(),
            ).ready,
            SchedulerMove::Complete(_) => before,
        }
    }
}

/// A run in which only reaches that a worker holds are reported finished.
pub open spec fn valid_run(nodes: Seq<NodeLinks>, num_workers: nat, moves: Seq<SchedulerMove>) -> bool
    decreases moves.len(),
{
    moves.len() == 0 || {
        &&& valid_run(nodes, num_workers, moves.drop_last())
        &&& match moves.last() {
            SchedulerMove::Complete(id) => in_flight(
                nodes,
                spec_run(nodes, num_workers, moves.drop_last()),
                id,
            ),
            SchedulerMove::DispatchAll => true,
        }
    }
}

proof fn lemma_headwater_queued(nodes: Seq<NodeLinks>, i: int)
    requires
        0 <= i < nodes.len(),
        nodes[i].upstream_ids@.len() == 0,
    ensures
        links_ready(nodes).contains(nodes[i].id),
    decreases nodes.len(),
{
    let rest = nodes.drop_last();
    if i < nodes.len() - 1 {
        lemma_headwater_queued(rest, i);
        let k = choose|k: int| 0 <= k < links_ready(rest).len() && links_ready(rest)[k] == nodes[i].id;
        if nodes.last().upstream_ids@.len() == 0 {
            assert(links_ready(nodes)[k] == nodes[i].id);
        }
    } else {
        assert(links_ready(nodes)[links_ready(nodes).len() - 1] == nodes[i].id);
    }
}

/// Along any run in which only reaches held by a worker are reported finished,
/// the state stays sound, and the reaches handed out so far are handed out
/// once each: they are exactly the released reaches that are not queued
/// (such a run reports no reach twice, so `lemma_run_counted` applies).
pub proof fn lemma_run_sound(nodes: Seq<NodeLinks>, num_workers: nat, moves: Seq<SchedulerMove>)
    requires
        links_consistent(nodes),
        valid_run(nodes, num_workers, moves),
    ensures
        sound(nodes, spec_run(nodes, num_workers, moves)),
        spec_run_dispatched(nodes, num_workers, moves).no_duplicates(),
        forall|d: u32|
            #[trigger] spec_run_dispatched(nodes, num_workers, moves).contains(d) <==> released(
                nodes,
                spec_run(nodes, num_workers, moves),
                d,
            ) && !spec_run(nodes, num_workers, moves).ready.contains(d),
    decreases moves.len(),
{
    lemma_valid_run_reported_once(nodes, num_workers, moves);
    lemma_run_counted(nodes, num_workers, moves);
    if moves.len() == 0 {
        lemma_initial_state_sound(nodes, num_workers);
    } else {
        let rest = moves.drop_last();
        lemma_run_sound(nodes, num_workers, rest);
        let s0 = spec_run(nodes, num_workers, rest);
        match moves.last() {
            SchedulerMove::DispatchAll => lemma_dispatch_sound(nodes, s0),
            SchedulerMove::Complete(id) => lemma_completion_sound(nodes, s0, id),
        }
    }
}

/// Only reaches held by a worker being reported means no reach is reported twice.
proof fn lemma_valid_run_reported_once(
    nodes: Seq<NodeLinks>,
    num_workers: nat,
    moves: Seq<SchedulerMove>,
)
    requires
        valid_run(nodes, num_workers, moves),
    ensures
        reported_once(nodes, num_workers, moves),
    decreases moves.len(),
{
    if moves.len() > 0 {
        lemma_valid_run_reported_once(nodes, num_workers, moves.drop_last());
    }
}

/// What holds along any run in which no reach is reported finished twice:
/// every blocked reach counts exactly its unfinished feeders, every released
/// reach has all its feeders finished, and the queue holds released reaches
/// once each.
pub open spec fn counted(nodes: Seq<NodeLinks>, s: SchedulerState) -> bool {
    &&& s.downstream == links_downstream(nodes)
    &&& s.processed.finite()
    &&& forall|d: u32|
        #[trigger] s.pending.contains_key(d) ==> {
            &&& node_ids(nodes).contains(d)
            &&& s.pending[d] > 0
            &&& s.pending[d] == feeders(nodes, d).difference(s.processed).len()
        }
    &&& forall|d: u32| #[trigger]
        released(nodes, s, d) ==> feeders(nodes, d).subset_of(s.processed)
    &&& s.ready.no_duplicates()
    &&& forall|k: int| 0 <= k < s.ready.len() ==> released(nodes, s, #[trigger] s.ready[k])
}

/// A run in which no reach is reported finished twice.
pub open spec fn reported_once(nodes: Seq<NodeLinks>, num_workers: nat, moves: Seq<SchedulerMove>) -> bool
    decreases moves.len(),
{
    moves.len() == 0 || {
        &&& reported_once(nodes, num_workers, moves.drop_last())
        &&& match moves.last() {
            SchedulerMove::Complete(id) => !spec_run(
                nodes,
                num_workers,
                moves.drop_last(),
            ).processed.contains(id),
            SchedulerMove::DispatchAll => true,
        }
    }
}

/// Reporting a reach not reported before keeps the counts right. A reach it
/// queues was blocked until then and is the reported reach's downstream
/// reach, so it has a feeder: a headwater is never queued by a report.
pub proof fn lemma_completion_counted(nodes: Seq<NodeLinks>, s: SchedulerState, id: u32)
    requires
        links_consistent(nodes),
        counted(nodes, s),
        !s.processed.contains(id),
    ensures
        counted(nodes, spec_after_completion(s, id)),
        spec_after_completion(s, id).processed == s.processed.insert(id),
        spec_after_completion(s, id).ready == s.ready || exists|d: u32|
            {
                &&& s.pending.contains_key(d)
                &&& !spec_after_completion(s, id).pending.contains_key(d)
                &&& feeders(nodes, d).contains(id)
                &&& #[trigger] spec_after_completion(s, id).ready == s.ready.push(d)
            },
{
    let dm = links_downstream(nodes);
    let p = s.processed;
    let p2 = p.insert(id);
    let s2 = spec_after_completion(s, id);
    lemma_node_ids(nodes);
    assert forall|d: u32| !(dm.contains_key(id) && dm[id] == Some(d)) implies #[trigger] feeders(
        nodes,
        d,
    ).difference(p2) == feeders(nodes, d).difference(p) by {
        assert(feeders(nodes, d).difference(p2) =~= feeders(nodes, d).difference(p));
    }
    assert forall|x: u32| #[trigger] released(nodes, s, x) implies feeders(nodes, x).subset_of(p2)
        by {
        assert(feeders(nodes, x).subset_of(p));
    }
    if dm.contains_key(id) && dm[id] is Some && s.pending.contains_key(dm[id]->0) {
        let d = dm[id]->0;
        lemma_feeders_finite(nodes, d);
        let f = feeders(nodes, d);
        assert(f.contains(id));
        assert(f.difference(p).contains(id));
        assert(f.difference(p2) =~= f.difference(p).remove(id));
        assert(f.difference(p2).len() == f.difference(p).len() - 1);
        assert(!s.ready.contains(d)) by {
            if s.ready.contains(d) {
                let k = choose|k: int| 0 <= k < s.ready.len() && s.ready[k] == d;
                assert(released(nodes, s, s.ready[k]));
            }
        }
        if s.pending[d] == 1 {
            assert(f.difference(p2) =~= Set::<u32>::empty());
            assert(f.subset_of(p2)) by {
                assert forall|u: u32| f.contains(u) implies p2.contains(u) by {
                    assert(!f.difference(p2).contains(u));
                }
            }
            assert(s2.ready == s.ready.push(d));
            assert forall|k: int| 0 <= k < s2.ready.len() implies released(
                nodes,
                s2,
                #[trigger] s2.ready[k],
            ) by {
                if k < s.ready.len() {
                    assert(released(nodes, s, s.ready[k]));
                }
            }
            assert forall|x: u32| #[trigger] released(nodes, s2, x) implies feeders(
                nodes,
                x,
            ).subset_of(s2.processed) by {
                if x != d {
                    assert(released(nodes, s, x));
                }
            }
        } else {
            assert forall|x: u32| #[trigger] s2.pending.contains_key(x) implies {
                &&& node_ids(nodes).contains(x)
                &&& s2.pending[x] > 0
                &&& s2.pending[x] == feeders(nodes, x).difference(s2.processed).len()
            } by {
                assert(s.pending.contains_key(x));
            }
            assert forall|x: u32| #[trigger] released(nodes, s2, x) implies feeders(
                nodes,
                x,
            ).subset_of(s2.processed) by {
                assert(released(nodes, s, x));
            }
            assert forall|k: int| 0 <= k < s2.ready.len() implies released(
                nodes,
                s2,
                #[trigger] s2.ready[k],
            ) by {
                assert(released(nodes, s, s.ready[k]));
            }
        }
    } else {
        if dm.contains_key(id) && dm[id] is Some {
            let d = dm[id]->0;
            // `d` cannot be a released reach: `id` feeds it and is unfinished
            assert(!node_ids(nodes).contains(d)) by {
                if node_ids(nodes).contains(d) {
                    assert(released(nodes, s, d));
                    assert(feeders(nodes, d).contains(id));
                }
            }
        }
        assert forall|x: u32| #[trigger] released(nodes, s2, x) implies feeders(
            nodes,
            x,
        ).subset_of(s2.processed) by {
            assert(released(nodes, s, x));
        }
        assert forall|k: int| 0 <= k < s2.ready.len() implies released(
            nodes,
            s2,
            #[trigger] s2.ready[k],
        ) by {
            assert(released(nodes, s, s.ready[k]));
        }
    }
}

/// Along any run in which no reach is reported finished twice (whether or not
/// a worker held it), the counts stay right and every reach is handed out at
/// most once: the reaches handed out so far are exactly the released reaches
/// that are not queued.
pub proof fn lemma_run_counted(nodes: Seq<NodeLinks>, num_workers: nat, moves: Seq<SchedulerMove>)
    requires
        links_consistent(nodes),
        reported_once(nodes, num_workers, moves),
    ensures
        counted(nodes, spec_run(nodes, num_workers, moves)),
        spec_run_dispatched(nodes, num_workers, moves).no_duplicates(),
        forall|d: u32|
            #[trigger] spec_run_dispatched(nodes, num_workers, moves).contains(d) <==> released(
                nodes,
                spec_run(nodes, num_workers, moves),
                d,
            ) && !spec_run(nodes, num_workers, moves).ready.contains(d),
    decreases moves.len(),
{
    let s = spec_run(nodes, num_workers, moves);
    let hist = spec_run_dispatched(nodes, num_workers, moves);
    if moves.len() == 0 {
        lemma_initial_state_sound(nodes, num_workers);
        assert forall|d: u32| #[trigger] hist.contains(d) <==> released(nodes, s, d)
            && !s.ready.contains(d) by {
            if released(nodes, s, d) {
                let i = lemma_index_of(nodes, d);
                lemma_pending_at(nodes, i);
                lemma_headwater_queued(nodes, i);
            }
        }
    } else {
        let rest = moves.drop_last();
        lemma_run_counted(nodes, num_workers, rest);
        let s0 = spec_run(nodes, num_workers, rest);
        let h0 = spec_run_dispatched(nodes, num_workers, rest);
        match moves.last() {
            SchedulerMove::DispatchAll => {
                assert(hist == h0 + s0.ready);
                assert forall|x: u32| #[trigger] released(nodes, s, x) implies feeders(
                    nodes,
                    x,
                ).subset_of(s.processed) by {
                    assert(released(nodes, s0, x));
                }
                assert forall|i: int, j: int| 0 <= i < j < hist.len() implies hist[i] != hist[j] by {
                    if j >= h0.len() && i < h0.len() {
                        assert(h0.contains(hist[i]));
                        assert(s0.ready.contains(hist[j]));
                    } else if i >= h0.len() {
                        assert(hist[i] == s0.ready[i - h0.len()]);
                        assert(hist[j] == s0.ready[j - h0.len()]);
                    }
                }
                assert forall|d: u32| #[trigger] hist.contains(d) <==> released(nodes, s, d)
                    && !s.ready.contains(d) by {
                    if hist.contains(d) {
                        let k = choose|k: int| 0 <= k < hist.len() && hist[k] == d;
                        if k >= h0.len() {
                            assert(s0.ready[k - h0.len()] == d);
                            assert(released(nodes, s0, s0.ready[k - h0.len()]));
                        } else {
                            assert(h0.contains(d));
                        }
                    }
                    if released(nodes, s, d) {
                        assert(released(nodes, s0, d));
                        if s0.ready.contains(d) {
                            let k = choose|k: int| 0 <= k < s0.ready.len() && s0.ready[k] == d;
                            assert(hist[h0.len() + k] == d);
                        } else {
                            assert(h0.contains(d));
                            let k = choose|k: int| 0 <= k < h0.len() && h0[k] == d;
                            assert(hist[k] == d);
                        }
                    }
                }
            },
            SchedulerMove::Complete(id) => {
                lemma_completion_counted(nodes, s0, id);
                assert forall|d: u32| #[trigger] hist.contains(d) <==> released(nodes, s, d)
                    && !s.ready.contains(d) by {
                    assert(hist == h0);
                    if s.ready == s0.ready {
                        if released(nodes, s, d) && !released(nodes, s0, d) {
                            assert(false);
                        }
                    } else {
                        let x = choose|x: u32|
                            {
                                &&& s0.pending.contains_key(x)
                                &&& !s.pending.contains_key(x)
                                &&& feeders(nodes, x).contains(id)
                                &&& #[trigger] s.ready == s0.ready.push(x)
                            };
                        if d == x {
                            assert(s.ready[s0.ready.len() as int] == x);
                        } else {
                            if s.ready.contains(d) {
                                let k = choose|k: int| 0 <= k < s.ready.len() && s.ready[k] == d;
                                assert(s0.ready[k] == d);
                            }
                            if s0.ready.contains(d) {
                                let k = choose|k: int| 0 <= k < s0.ready.len() && s0.ready[k] == d;
                                assert(s.ready[k] == d);
                            }
                        }
                    }
                }
            },
        }
    }
}

/// Along any run in which no reach is reported finished twice, every reach
/// handed out has had every id of its upstream list reported finished before.
pub proof fn lemma_dispatched_after_upstream(
    nodes: Seq<NodeLinks>,
    num_workers: nat,
    moves: Seq<SchedulerMove>,
    k: int,
    i: int,
)
    requires
        links_consistent(nodes),
        reported_once(nodes, num_workers, moves),
        moves.len() > 0,
        moves.last() is DispatchAll,
        0 <= k < spec_run(nodes, num_workers, moves.drop_last()).ready.len(),
        0 <= i < nodes.len(),
        nodes[i].id == spec_run(nodes, num_workers, moves.drop_last()).ready[k],
    ensures
        forall|j: int|
            0 <= j < nodes[i].upstream_ids@.len() ==> spec_run(
                nodes,
                num_workers,
                moves.drop_last(),
            ).processed.contains(#[trigger] nodes[i].upstream_ids@[j]),
{
    let pre = spec_run(nodes, num_workers, moves.drop_last());
    lemma_run_counted(nodes, num_workers, moves.drop_last());
    assert(released(nodes, pre, pre.ready[k]));
    assert forall|j: int| 0 <= j < nodes[i].upstream_ids@.len() implies pre.processed.contains(
        #[trigger] nodes[i].upstream_ids@[j],
    ) by {
        assert(nodes[i].upstream_ids@.to_set().contains(nodes[i].upstream_ids@[j]));
    }
}

/// Round-robin runs across the whole run, not per call: with `w` workers, the
/// `k`-th reach handed out since the start (counting over every dispatch) goes
/// to worker `k mod w`, whatever reports come between the dispatches.
pub proof fn lemma_round_robin_over_run(
    nodes: Seq<NodeLinks>,
    num_workers: nat,
    moves: Seq<SchedulerMove>,
)
    requires
        0 < num_workers <= usize::MAX,
    ensures
        spec_run(nodes, num_workers, moves).next_worker == spec_run_dispatched(
            nodes,
            num_workers,
            moves,
        ).len() % num_workers,
        moves.len() > 0 && moves.last() is DispatchAll ==> {
            let pre = spec_run(nodes, num_workers, moves.drop_last());
            let before = spec_run_dispatched(nodes, num_workers, moves.drop_last()).len();
            forall|j: int|
                0 <= j < spec_dispatched(pre).len() ==> (#[trigger] spec_dispatched(pre)[j]).worker
                    == (before + j) % (num_workers as int) && spec_dispatched(pre)[j].node_id
                    == spec_run_dispatched(nodes, num_workers, moves)[before + j]
        },
    decreases moves.len(),
{
    let w = num_workers as int;
    if moves.len() == 0 {
        vstd::arithmetic::div_mod::lemma_small_mod(0, num_workers);
    } else {
        let rest = moves.drop_last();
        lemma_round_robin_over_run(nodes, num_workers, rest);
        lemma_run_keeps_workers(nodes, num_workers, rest);
        let pre = spec_run(nodes, num_workers, rest);
        let h0 = spec_run_dispatched(nodes, num_workers, rest);
        let before = h0.len() as int;
        assert(pre.next_worker == before % w);
        match moves.last() {
            SchedulerMove::DispatchAll => {
                let r = pre.ready.len() as int;
                vstd::arithmetic::div_mod::lemma_add_mod_noop_right(r, before, w);
                assert((pre.next_worker + r) % w == (before + r) % w);
                assert(spec_run(nodes, num_workers, moves).next_worker == (pre.next_worker + r) % w);
                assert(spec_run_dispatched(nodes, num_workers, moves) == h0 + pre.ready);
                assert forall|j: int| 0 <= j < spec_dispatched(pre).len() implies (
                #[trigger] spec_dispatched(pre)[j]).worker == (before + j) % w
                    && spec_dispatched(pre)[j].node_id == spec_run_dispatched(
                    nodes,
                    num_workers,
                    moves,
                )[before + j] by {
                    vstd::arithmetic::div_mod::lemma_add_mod_noop_right(j, before, w);
                    vstd::arithmetic::div_mod::lemma_mod_bound(pre.next_worker + j, w);
                    assert((pre.next_worker + j) % w == (before + j) % w);
                    assert(spec_dispatched(pre)[j].worker == ((pre.next_worker + j) % w) as usize);
                }
            },
            SchedulerMove::Complete(id) => {
                assert(spec_run(nodes, num_workers, moves) == spec_after_completion(pre, id));
                assert(spec_after_completion(pre, id).next_worker == pre.next_worker);
            },
        }
    }
}

/// A run never changes the number of workers.
proof fn lemma_run_keeps_workers(nodes: Seq<NodeLinks>, num_workers: nat, moves: Seq<SchedulerMove>)
    ensures
        spec_run(nodes, num_workers, moves).num_workers == num_workers,
    decreases moves.len(),
{
    if moves.len() > 0 {
        lemma_run_keeps_workers(nodes, num_workers, moves.drop_last());
    }
}

} // verus!
