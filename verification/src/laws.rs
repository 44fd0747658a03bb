//! What holds of every session, proved over the model of its state.

use crate::lemmas::{
    lemma_demand_push, lemma_informed, lemma_head_leaves_queue, lemma_load_bounds_node,
    lemma_load_nonnegative, lemma_load_update, lemma_load_without_id, lemma_load_without_idle,
    lemma_occurrences_bound, lemma_occurrences_unique, lemma_without_id, lemma_without_id_keeps,
    lemma_without_id_len, lemma_without_requests_of,
};
use crate::message::{ActionView, Request, Vote};
use crate::model::{
    accused, has_request_of, least_loaded, occurrences, without_id, without_requests_of,
    SessionView,
};
use crate::node::NodeView;
use crate::process::Process;
use crate::resource::Resources;
use crate::sequences::lemma_first_index;
use vstd::prelude::*;

verus! {

// ----- placement -----

/// The least loaded node is a node, runs no more than any other, and
/// fewer than every node before it.
pub proof fn lemma_least_loaded(nodes: Seq<NodeView>)
    requires
        nodes.len() > 0,
    ensures
        0 <= least_loaded(nodes) < nodes.len(),
        forall|j: int|
            0 <= j < nodes.len() ==> nodes[least_loaded(nodes)].active_processes.len() <= (
            #[trigger] nodes[j]).active_processes.len(),
        forall|j: int|
            0 <= j < least_loaded(nodes) ==> nodes[least_loaded(nodes)].active_processes.len() < (
            #[trigger] nodes[j]).active_processes.len(),
    decreases nodes.len(),
{
    if nodes.len() > 1 {
        let init = nodes.drop_last();
        lemma_least_loaded(init);
        let best = least_loaded(init);
        assert(init[best] == nodes[best]);
        assert forall|j: int| 0 <= j < nodes.len() implies nodes[least_loaded(
            nodes,
        )].active_processes.len() <= (#[trigger] nodes[j]).active_processes.len() by {
            if j < init.len() {
                assert(init[j] == nodes[j]);
            }
        }
        assert forall|j: int| 0 <= j < least_loaded(nodes) implies nodes[least_loaded(
            nodes,
        )].active_processes.len() < (#[trigger] nodes[j]).active_processes.len() by {
            assert(init[j] == nodes[j]);
        }
    }
}

// ----- the shared pool -----

/// Taking an amount that the pool covers and giving the same amount back
/// returns the session to the state it was in.
pub proof fn lemma_session_round_trip(s: SessionView, amount: Resources)
    requires
        s.available_resources.covers(amount),
    ensures
        s.allocate_resources(amount).available_resources.can_absorb(amount),
        s.allocate_resources(amount).deallocate_resources(amount) == s,
{
}

/// In a session whose pool is conserved, what any node's processes hold
/// can be given back without leaving the machine's range.
pub proof fn lemma_conserved_can_reclaim(s: SessionView, node_id: u32)
    requires
        s.conserved(),
    ensures
        s.can_reclaim(node_id),
        forall|action: ActionView| s.can_execute(action),
{
    assert forall|target: u32| s.can_reclaim(target) by {
        lemma_first_index(s.nodes, |n: NodeView| n.id == target);
        match s.node_position(target) {
            Some(i) => {
                lemma_load_bounds_node(s.nodes, i);
                lemma_load_nonnegative(s.nodes);
            },
            None => {},
        }
    }
    assert forall|action: ActionView| s.can_execute(action) by {
        match accused(action) {
            Some(target) => {
                assert(s.can_reclaim(target));
            },
            None => {},
        }
    }
}

/// One step of placement keeps the pool conserved and the nodes' ids.
pub proof fn lemma_place_conserves(s: SessionView, process: Process)
    requires
        s.conserved(),
        s.nodes.len() > 0,
    ensures
        s.place(process).conserved(),
        s.place(process).nodes.len() == s.nodes.len(),
        forall|i: int| 0 <= i < s.nodes.len() ==> s.place(process).nodes[i].id == s.nodes[i].id,
        s.place(process).total_resources == s.total_resources,
{
    if s.available_resources.covers(process.needed_resources) {
        let target = least_loaded(s.nodes);
        lemma_least_loaded(s.nodes);
        lemma_load_update(s.nodes, target, s.nodes[target].with_process(process));
        lemma_demand_push(s.nodes[target].active_processes, process);
    }
}

/// Placing any run of processes keeps the pool conserved and the nodes'
/// ids.
pub proof fn lemma_place_all_conserves(s: SessionView, pending: Seq<Process>)
    requires
        s.conserved(),
        s.nodes.len() > 0,
    ensures
        s.place_all(pending).conserved(),
        s.place_all(pending).nodes.len() == s.nodes.len(),
        forall|i: int|
            0 <= i < s.nodes.len() ==> s.place_all(pending).nodes[i].id == s.nodes[i].id,
        s.place_all(pending).total_resources == s.total_resources,
    decreases pending.len(),
{
    if pending.len() > 0 {
        lemma_place_all_conserves(s, pending.drop_last());
        lemma_place_conserves(s.place_all(pending.drop_last()), pending.last());
    }
}

/// Pool conservation under placement: where the pool and what the nodes'
/// processes hold made up the total before `assign_processes`, they do
/// so after it, and unique ids stay unique.
pub proof fn lemma_assign_processes_conserves(s: SessionView)
    requires
        s.conserved(),
    ensures
        s.assign_processes().conserved(),
        s.ids_unique() ==> s.assign_processes().ids_unique(),
{
    if s.nodes.len() > 0 {
        let cleared = SessionView { processes: Seq::empty(), ..s };
        lemma_place_all_conserves(cleared, s.processes);
        let after = s.assign_processes();
        if s.ids_unique() {
            assert forall|i: int, j: int| 0 <= i < j < after.nodes.len() implies after.nodes[i].id
                != after.nodes[j].id by {
                assert(after.nodes[i].id == s.nodes[i].id);
                assert(after.nodes[j].id == s.nodes[j].id);
            }
        }
    }
}

/// Pool conservation under a node's failure: in a session with unique
/// ids whose pool is conserved, handling the failure of any node can be
/// done within the machine's range, keeps the pool conserved and keeps
/// the ids unique.
pub proof fn lemma_handle_node_failure_conserves(s: SessionView, node_id: u32)
    requires
        s.conserved(),
        s.ids_unique(),
    ensures
        s.can_reclaim(node_id),
        s.handle_node_failure(node_id).conserved(),
        s.handle_node_failure(node_id).ids_unique(),
{
    lemma_conserved_can_reclaim(s, node_id);
    lemma_load_without_id(s.nodes, node_id);
    lemma_first_index(s.nodes, |n: NodeView| n.id == node_id);
    let kept = without_id(s.nodes, node_id);
    match s.node_position(node_id) {
        Some(i) => {
            lemma_load_bounds_node(s.nodes, i);
            lemma_load_nonnegative(s.nodes);
        },
        None => {},
    }
    assert(kept.push(NodeView::fresh(node_id)).drop_last() =~= kept);
    lemma_without_id(s.nodes, node_id);
}

/// Pool conservation under execution: in a session with unique ids
/// whose pool is conserved, any action can be executed within the
/// machine's range, and its execution keeps the pool conserved and the
/// ids unique.
pub proof fn lemma_execute_action_conserves(s: SessionView, action: ActionView)
    requires
        s.conserved(),
        s.ids_unique(),
    ensures
        s.can_execute(action),
        s.execute_action(action).conserved(),
        s.execute_action(action).ids_unique(),
{
    match accused(action) {
        Some(node_id) => {
            lemma_handle_node_failure_conserves(s, node_id);
        },
        None => {},
    }
}

/// Pool conservation under the count of votes.
pub proof fn lemma_check_consensus_conserves(s: SessionView, action: ActionView)
    requires
        s.conserved(),
        s.ids_unique(),
    ensures
        s.can_execute(action),
        s.check_consensus(action).conserved(),
        s.check_consensus(action).ids_unique(),
{
    lemma_execute_action_conserves(s, action);
}

/// Pool conservation under a vote: in a session with unique ids whose
/// pool is conserved, any action can be put to the vote, and the vote,
/// whatever its outcome, keeps the pool conserved and the ids unique.
pub proof fn lemma_initiate_voting_conserves(s: SessionView, proposer: u32, action: ActionView)
    requires
        s.conserved(),
        s.ids_unique(),
    ensures
        s.can_execute(action),
        s.initiate_voting(proposer, action).conserved(),
        s.initiate_voting(proposer, action).ids_unique(),
{
    lemma_informed(s.nodes, proposer, action);
    lemma_execute_action_conserves(s, action);
    lemma_check_consensus_conserves(s.collect_votes(proposer, action), action);
}

/// Pool conservation under the protocols: requesting and releasing the
/// shared resource, handling a request, sending a reply and casting a
/// vote leave the members and the pool as they are, and so keep the pool
/// conserved and the ids unique.
pub proof fn lemma_protocols_conserve(
    s: SessionView,
    node_id: u32,
    other: u32,
    request: Request,
    action: ActionView,
    vote: Vote,
)
    ensures
        s.request_resource(node_id).conserved() == s.conserved(),
        s.release_resource(node_id).conserved() == s.conserved(),
        s.handle_request(other, request).conserved() == s.conserved(),
        s.send_reply(node_id, other).conserved() == s.conserved(),
        s.cast_vote(node_id, action, vote).conserved() == s.conserved(),
        s.request_resource(node_id).ids_unique() == s.ids_unique(),
        s.release_resource(node_id).ids_unique() == s.ids_unique(),
        s.handle_request(other, request).ids_unique() == s.ids_unique(),
        s.send_reply(node_id, other).ids_unique() == s.ids_unique(),
        s.cast_vote(node_id, action, vote).ids_unique() == s.ids_unique(),
{
    lemma_request_resource_frame(s, node_id);
    lemma_release_resource_frame(s, node_id);
}

/// Pool conservation and membership: a node that runs nothing can join,
/// and nodes that run nothing can leave, without breaking it.
pub proof fn lemma_membership_conserves(s: SessionView, node: NodeView, node_id: u32)
    requires
        s.conserved(),
    ensures
        node.active_processes.len() == 0 ==> s.add_node(node).conserved(),
        (forall|i: int|
            0 <= i < s.nodes.len() && (#[trigger] s.nodes[i]).id == node_id
                ==> s.nodes[i].active_processes.len() == 0) ==> s.remove_node(node_id).conserved(),
{
    assert(s.nodes.push(node).drop_last() =~= s.nodes);
    if forall|i: int|
        0 <= i < s.nodes.len() && (#[trigger] s.nodes[i]).id == node_id
            ==> s.nodes[i].active_processes.len() == 0 {
        lemma_load_without_idle(s.nodes, node_id);
    }
}

/// Where pool conservation does not hold: taking resources out of the
/// pool for work that no node's list shows, or giving such resources
/// back, keeps the pool conserved only if the amount is zero. Giving
/// back what was taken restores it.
pub proof fn lemma_allocation_and_conservation(s: SessionView, amount: Resources)
    requires
        s.conserved(),
    ensures
        s.available_resources.covers(amount) ==> (s.allocate_resources(amount).conserved()
            <==> amount == (Resources { ram: 0, disk_space: 0, threads: 0 })),
        !s.available_resources.covers(amount) ==> s.allocate_resources(amount) == s,
        s.available_resources.can_absorb(amount) ==> (s.deallocate_resources(amount).conserved()
            <==> amount == (Resources { ram: 0, disk_space: 0, threads: 0 })),
        s.available_resources.covers(amount) ==> s.allocate_resources(
            amount,
        ).deallocate_resources(amount).conserved(),
{
}

// ----- consensus -----

/// An action is executed only on a majority: where the approvals on
/// record do not exceed half the number of nodes, counting the votes
/// changes neither the members, nor the pending processes, nor the pool;
/// and where they do, the outcome is the execution of the action.
pub proof fn lemma_execution_needs_majority(s: SessionView, action: ActionView)
    ensures
        !s.approved(action) ==> {
            &&& s.check_consensus(action).nodes == s.nodes
            &&& s.check_consensus(action).processes == s.processes
            &&& s.check_consensus(action).available_resources == s.available_resources
        },
        s.approved(action) ==> s.check_consensus(action) == (SessionView {
            pending_votes: s.execute_action(action).pending_votes.remove(action),
            ..s.execute_action(action)
        }),
        s.approved(action) || s.rejected(action) ==> !s.check_consensus(
            action,
        ).pending_votes.contains_key(action),
        !s.approved(action) && !s.rejected(action) ==> s.check_consensus(action) == s,
{
}

// ----- the handshake: what it touches -----

/// Notifying the other nodes of a request touches only the replies given
/// and withheld.
pub proof fn lemma_notify_others_frame(s: SessionView, nodes: Seq<NodeView>, request: Request)
    ensures
        s.notify_others(nodes, request).same_cluster(s),
        s.notify_others(nodes, request).request_queue == s.request_queue,
        s.notify_others(nodes, request).clock == s.clock,
    decreases nodes.len(),
{
    if nodes.len() > 0 {
        lemma_notify_others_frame(s, nodes.drop_last(), request);
    }
}

/// Sending withheld answers touches only the replies given.
pub proof fn lemma_send_replies_frame(s: SessionView, requests: Seq<Request>, from: u32)
    ensures
        s.send_replies(requests, from).same_cluster(s),
        s.send_replies(requests, from).request_queue == s.request_queue,
        s.send_replies(requests, from).deferred_replies == s.deferred_replies,
        s.send_replies(requests, from).clock == s.clock,
    decreases requests.len(),
{
    if requests.len() > 0 {
        lemma_send_replies_frame(s, requests.drop_last(), from);
    }
}

/// A request touches only the queue, the replies given and withheld,
/// and the clock: the new request stands at the end of the queue,
/// stamped with the clock's new time.
pub proof fn lemma_request_resource_frame(s: SessionView, node_id: u32)
    ensures
        s.request_resource(node_id).same_cluster(s),
        s.request_resource(node_id).request_queue == s.request_queue.push(
            s.next_request(node_id),
        ),
        s.request_resource(node_id).clock == s.next_request(node_id).timestamp,
{
    let request = s.next_request(node_id);
    let queued = SessionView {
        clock: request.timestamp,
        request_queue: s.request_queue.push(request),
        replies_received: s.replies_received.insert(node_id, Seq::empty()),
        ..s
    };
    lemma_notify_others_frame(queued, s.nodes, request);
}

/// A release touches only the queue and the replies given and withheld.
pub proof fn lemma_release_resource_frame(s: SessionView, node_id: u32)
    ensures
        s.release_resource(node_id).same_cluster(s),
        s.release_resource(node_id).request_queue == without_requests_of(
            s.request_queue,
            node_id,
        ),
        s.release_resource(node_id).deferred_replies == s.deferred_replies.remove(node_id),
        s.release_resource(node_id).clock == s.clock,
{
    let cleared = SessionView {
        request_queue: without_requests_of(s.request_queue, node_id),
        deferred_replies: s.deferred_replies.remove(node_id),
        ..s
    };
    lemma_send_replies_frame(cleared, s.deferred_at(node_id), node_id);
}

/// Placement touches neither the queue, nor the replies, nor the clock,
/// and keeps the nodes' number and ids.
pub proof fn lemma_place_all_frame(s: SessionView, pending: Seq<Process>)
    requires
        s.nodes.len() > 0,
    ensures
        s.place_all(pending).same_handshake(s),
        s.place_all(pending).pending_votes == s.pending_votes,
        s.place_all(pending).nodes.len() == s.nodes.len(),
        forall|i: int|
            0 <= i < s.nodes.len() ==> (#[trigger] s.place_all(pending).nodes[i]).id
                == s.nodes[i].id,
    decreases pending.len(),
{
    if pending.len() > 0 {
        let before = s.place_all(pending.drop_last());
        lemma_place_all_frame(s, pending.drop_last());
        lemma_least_loaded(before.nodes);
        assert forall|i: int| 0 <= i < s.nodes.len() implies (#[trigger] s.place_all(
            pending,
        ).nodes[i]).id == s.nodes[i].id by {
            assert(before.nodes[i].id == s.nodes[i].id);
        }
    }
}

// ----- the handshake: nothing is left behind -----

/// After withheld answers were sent, replies are on record for the nodes
/// that had some before and for those that were answered.
pub proof fn lemma_send_replies_dom(s: SessionView, requests: Seq<Request>, from: u32, to: u32)
    ensures
        s.send_replies(requests, from).replies_received.contains_key(to)
            <==> s.replies_received.contains_key(to) || has_request_of(requests, to),
    decreases requests.len(),
{
    if requests.len() > 0 {
        let init = requests.drop_last();
        lemma_send_replies_dom(s, init, from, to);
        if has_request_of(init, to) {
            let i = choose|i: int| 0 <= i < init.len() && (#[trigger] init[i]).from_node_id == to;
            assert(requests[i].from_node_id == to);
        }
        if has_request_of(requests, to) && requests.last().from_node_id != to {
            let i = choose|i: int|
                0 <= i < requests.len() && (#[trigger] requests[i]).from_node_id == to;
            assert(init[i].from_node_id == to);
        }
        if requests.last().from_node_id == to {
            assert(requests[requests.len() - 1].from_node_id == to);
        }
    }
}

/// Handling the request of a node that stands in the queue keeps the
/// session tidy.
pub proof fn lemma_handle_request_keeps_tidy(s: SessionView, to: u32, request: Request)
    requires
        s.tidy(),
        s.queued(request.from_node_id),
    ensures
        s.handle_request(to, request).tidy(),
{
    let t = s.handle_request(to, request);
    assert forall|k: u32, i: int|
        t.deferred_replies.contains_key(k) && 0 <= i < t.deferred_replies[k].len() implies t.queued(
        (#[trigger] t.deferred_replies[k][i]).from_node_id,
    ) by {
        if k == to && !s.should_reply_immediately(to, request) {
            if i < s.deferred_at(to).len() {
                assert(t.deferred_replies[k][i] == s.deferred_replies[k][i]);
            }
        } else {
            assert(t.deferred_replies[k][i] == s.deferred_replies[k][i]);
        }
    }
}

/// Notifying the other nodes of a queued request keeps the session tidy.
pub proof fn lemma_notify_others_keeps_tidy(s: SessionView, nodes: Seq<NodeView>, request: Request)
    requires
        s.tidy(),
        s.queued(request.from_node_id),
    ensures
        s.notify_others(nodes, request).tidy(),
    decreases nodes.len(),
{
    if nodes.len() > 0 {
        let before = s.notify_others(nodes.drop_last(), request);
        lemma_notify_others_keeps_tidy(s, nodes.drop_last(), request);
        lemma_notify_others_frame(s, nodes.drop_last(), request);
        if nodes.last().id != request.from_node_id {
            lemma_handle_request_keeps_tidy(before, nodes.last().id, request);
        }
    }
}

/// A request keeps a tidy session tidy, whoever makes it.
pub proof fn lemma_request_keeps_tidy(s: SessionView, node_id: u32)
    requires
        s.tidy(),
    ensures
        s.request_resource(node_id).tidy(),
{
    let request = s.next_request(node_id);
    let queued = SessionView {
        clock: request.timestamp,
        request_queue: s.request_queue.push(request),
        replies_received: s.replies_received.insert(node_id, Seq::empty()),
        ..s
    };
    assert forall|n: u32| has_request_of(queued.request_queue, n) <==> n == node_id
        || has_request_of(s.request_queue, n) by {
        if has_request_of(s.request_queue, n) {
            let i = choose|i: int|
                0 <= i < s.request_queue.len() && (#[trigger] s.request_queue[i]).from_node_id == n;
            assert(queued.request_queue[i].from_node_id == n);
        }
        if n == node_id {
            assert(queued.request_queue[s.request_queue.len() as int].from_node_id == n);
        }
        if has_request_of(queued.request_queue, n) && n != node_id {
            let i = choose|i: int|
                0 <= i < queued.request_queue.len() && (
                #[trigger] queued.request_queue[i]).from_node_id == n;
            assert(s.request_queue[i].from_node_id == n);
        }
    }
    assert(queued.tidy()) by {
        assert forall|n: u32| #[trigger]
            queued.replies_received.contains_key(n) <==> queued.queued(n) by {
            assert(s.replies_received.contains_key(n) <==> s.queued(n));
        }
    }
    lemma_notify_others_keeps_tidy(queued, s.nodes, request);
}

/// A release leaves no request of the node in the queue and no replies
/// to it on record, in whatever state it is made.
pub proof fn lemma_release_clears(s: SessionView, node_id: u32)
    ensures
        !s.release_resource(node_id).queued(node_id),
        !s.release_resource(node_id).replies_received.contains_key(node_id),
        !s.release_resource(node_id).deferred_replies.contains_key(node_id),
        !s.release_resource(node_id).can_access_resource(node_id),
{
    let cleared = SessionView {
        request_queue: without_requests_of(s.request_queue, node_id),
        deferred_replies: s.deferred_replies.remove(node_id),
        ..s
    };
    lemma_without_requests_of(s.request_queue, node_id, node_id);
    lemma_send_replies_frame(cleared, s.deferred_at(node_id), node_id);
}

/// A release keeps a tidy session tidy where no other node withholds an
/// answer to the node that releases.
pub proof fn lemma_release_keeps_tidy(s: SessionView, node_id: u32)
    requires
        s.tidy(),
        s.awaited_by_none(node_id),
    ensures
        s.release_resource(node_id).tidy(),
{
    let cleared = SessionView {
        request_queue: without_requests_of(s.request_queue, node_id),
        deferred_replies: s.deferred_replies.remove(node_id),
        ..s
    };
    let owed = s.deferred_at(node_id);
    let t = s.release_resource(node_id);
    lemma_send_replies_frame(cleared, owed, node_id);
    assert forall|n: u32| #[trigger] t.replies_received.contains_key(n) <==> t.queued(n) by {
        lemma_send_replies_dom(cleared, owed, node_id, n);
        lemma_without_requests_of(s.request_queue, node_id, n);
        assert(s.replies_received.contains_key(n) <==> s.queued(n));
        if has_request_of(owed, n) {
            let i = choose|i: int| 0 <= i < owed.len() && (#[trigger] owed[i]).from_node_id == n;
            assert(s.queued(s.deferred_replies[node_id][i].from_node_id));
        }
    }
    assert forall|k: u32, i: int|
        t.deferred_replies.contains_key(k) && 0 <= i < t.deferred_replies[k].len() implies t.queued(
        (#[trigger] t.deferred_replies[k][i]).from_node_id,
    ) by {
        let owner = s.deferred_replies[k][i].from_node_id;
        assert(s.queued(owner));
        assert(owner != node_id);
        lemma_without_requests_of(s.request_queue, node_id, owner);
    }
}

/// Once every requester has released, so that the queue is empty, a tidy
/// session has no replies on record and no answer is withheld.
pub proof fn lemma_idle_once_all_released(s: SessionView)
    requires
        s.tidy(),
        s.request_queue.len() == 0,
    ensures
        s.replies_received == Map::<u32, Seq<u32>>::empty(),
        forall|k: u32| #[trigger]
            s.deferred_replies.contains_key(k) ==> s.deferred_replies[k].len() == 0,
        forall|n: u32| !s.can_access_resource(n),
{
    assert forall|n: u32| !(#[trigger] s.replies_received.contains_key(n)) by {
        assert(!s.queued(n));
    }
    assert(s.replies_received =~= Map::<u32, Seq<u32>>::empty());
    assert forall|k: u32| #[trigger]
        s.deferred_replies.contains_key(k) implies s.deferred_replies[k].len() == 0 by {
        if s.deferred_replies[k].len() > 0 {
            assert(s.queued(s.deferred_replies[k][0].from_node_id));
        }
    }
}

// ----- the handshake: one holder at a time -----

/// What notifying the nodes `nodes` of `request` comes to where, of the
/// nodes other than the requester, exactly those with the id `holder`
/// withhold their answer: every other one of them adds a reply to the
/// requester's, each node with the id `holder` adds the request to what
/// that id withholds, and nothing else changes.
pub proof fn lemma_notify_others(
    s: SessionView,
    nodes: Seq<NodeView>,
    request: Request,
    holder: Option<u32>,
)
    requires
        s.replies_received.contains_key(request.from_node_id),
        holder != Some(request.from_node_id),
        forall|to: u32|
            to != request.from_node_id ==> (#[trigger] s.should_reply_immediately(to, request)
                <==> holder != Some(to)),
    ensures
        ({
            let t = s.notify_others(nodes, request);
            let withheld = match holder {
                Some(h) => occurrences(nodes, h),
                None => 0nat,
            };
            &&& t.request_queue == s.request_queue
            &&& t.replies_received.dom() == s.replies_received.dom()
            &&& forall|n: u32|
                n != request.from_node_id ==> #[trigger] t.replies_received[n]
                    == s.replies_received[n]
            &&& t.replies_received[request.from_node_id].len()
                == s.replies_received[request.from_node_id].len() + nodes.len() - occurrences(
                nodes,
                request.from_node_id,
            ) - withheld
            &&& forall|k: u32|
                holder != Some(k) ==> (#[trigger] t.deferred_replies.contains_key(k)
                    <==> s.deferred_replies.contains_key(k))
            &&& forall|k: u32|
                holder != Some(k) ==> #[trigger] t.deferred_replies[k] == s.deferred_replies[k]
            &&& match holder {
                Some(h) => {
                    &&& t.deferred_replies.contains_key(h) <==> s.deferred_replies.contains_key(h)
                        || withheld > 0
                    &&& t.deferred_at(h) == s.deferred_at(h) + Seq::new(
                        withheld,
                        |i: int| request,
                    )
                },
                None => true,
            }
        }),
    decreases nodes.len(),
{
    let t = s.notify_others(nodes, request);
    if nodes.len() == 0 {
        match holder {
            Some(h) => {
                assert(t.deferred_at(h) =~= s.deferred_at(h) + Seq::new(0nat, |i: int| request));
            },
            None => {},
        }
    } else {
        let init = nodes.drop_last();
        let before = s.notify_others(init, request);
        lemma_notify_others(s, init, request, holder);
        lemma_occurrences_bound(init, request.from_node_id, request.from_node_id);
        let to = nodes.last().id;
        if to != request.from_node_id {
            assert(before.should_reply_immediately(to, request) == s.should_reply_immediately(
                to,
                request,
            ));
            if holder == Some(to) {
                let h = to;
                let withheld = occurrences(init, h);
                assert(t.deferred_at(h) =~= s.deferred_at(h) + Seq::new(
                    withheld + 1,
                    |i: int| request,
                ));
                assert(t.replies_received.dom() =~= s.replies_received.dom());
            } else {
                assert(t.replies_received.dom() =~= s.replies_received.dom());
                match holder {
                    Some(h) => {
                        assert(t.deferred_at(h) == before.deferred_at(h));
                    },
                    None => {},
                }
            }
        }
    }
}

/// A session in which nothing is queued, answered or withheld, and whose
/// nodes have unique ids, is orderly and tidy.
pub proof fn lemma_idle_session_is_orderly(s: SessionView)
    requires
        s.ids_unique(),
        s.request_queue.len() == 0,
        s.replies_received == Map::<u32, Seq<u32>>::empty(),
        s.deferred_replies == Map::<u32, Seq<Request>>::empty(),
    ensures
        s.orderly(),
        s.tidy(),
{
}

/// In an orderly session only the node whose request stands at the head
/// of the queue can access the resource, and it can.
pub proof fn lemma_mutex_safety_at_head(s: SessionView, node_id: u32)
    requires
        s.orderly(),
    ensures
        s.can_access_resource(node_id) <==> s.request_queue.len() >= 1
            && s.request_queue[0].from_node_id == node_id,
{
    let queue = s.request_queue;
    if s.can_access_resource(node_id) {
        assert(s.queued(node_id));
        let i = choose|i: int| 0 <= i < queue.len() && (#[trigger] queue[i]).from_node_id == node_id;
        assert(i == 0);
    }
    if queue.len() >= 1 && queue[0].from_node_id == node_id {
        assert(s.queued(node_id));
    }
}

/// Mutex safety: in an orderly session at most one node id can access
/// the shared resource.
pub proof fn lemma_mutex_safety(s: SessionView, a: u32, b: u32)
    requires
        s.orderly(),
        s.can_access_resource(a),
        s.can_access_resource(b),
    ensures
        a == b,
{
    lemma_mutex_safety_at_head(s, a);
    lemma_mutex_safety_at_head(s, b);
}

/// An orderly session is tidy, and no other node withholds an answer to
/// the node that holds the resource.
pub proof fn lemma_orderly_is_tidy(s: SessionView)
    requires
        s.orderly(),
    ensures
        s.tidy(),
        forall|n: u32| s.can_access_resource(n) ==> s.awaited_by_none(n),
{
    let queue = s.request_queue;
    assert forall|k: u32, i: int|
        s.deferred_replies.contains_key(k) && 0 <= i < s.deferred_replies[k].len() implies s.queued(
        (#[trigger] s.deferred_replies[k][i]).from_node_id,
    ) by {
        assert(s.deferred_replies[k][i] == queue[1]);
    }
    assert forall|n: u32| s.can_access_resource(n) implies s.awaited_by_none(n) by {
        lemma_mutex_safety_at_head(s, n);
    }
}

/// A session stays orderly when a member that has no request in the
/// queue asks for the resource while at most one request stands in the
/// queue. It gets access at once if the queue was empty, and waits
/// otherwise.
pub proof fn lemma_request_keeps_orderly(s: SessionView, node_id: u32)
    requires
        s.orderly(),
        s.is_member(node_id),
        !s.queued(node_id),
        s.request_queue.len() <= 1,
        s.clock < u64::MAX,
    ensures
        s.request_resource(node_id).orderly(),
        s.request_resource(node_id).can_access_resource(node_id) <==> s.request_queue.len() == 0,
{
    let request = s.next_request(node_id);
    let queued = SessionView {
        clock: request.timestamp,
        request_queue: s.request_queue.push(request),
        replies_received: s.replies_received.insert(node_id, Seq::empty()),
        ..s
    };
    let t = s.request_resource(node_id);
    let holder = if s.request_queue.len() == 0 {
        None
    } else {
        Some(s.request_queue[0].from_node_id)
    };
    if s.request_queue.len() == 1 {
        assert(s.queued(s.request_queue[0].from_node_id));
    }
    lemma_notify_others(queued, s.nodes, request, holder);
    lemma_notify_others_frame(queued, s.nodes, request);
    lemma_occurrences_unique(s.nodes, node_id);
    match holder {
        Some(h) => {
            lemma_occurrences_unique(s.nodes, h);
            assert(s.is_member(s.request_queue[0].from_node_id));
            assert(t.deferred_at(h) =~= seq![request]);
            lemma_occurrences_bound(s.nodes, node_id, h);
        },
        None => {},
    }
    assert forall|n: u32| #[trigger] t.replies_received.contains_key(n) <==> t.queued(n) by {
        assert(s.replies_received.contains_key(n) <==> s.queued(n));
        assert(t.replies_received.dom().contains(n) == queued.replies_received.dom().contains(n));
        if s.queued(n) {
            let i = choose|i: int|
                0 <= i < s.request_queue.len() && (#[trigger] s.request_queue[i]).from_node_id == n;
            assert(t.request_queue[i].from_node_id == n);
        }
        if n == node_id {
            assert(t.request_queue[s.request_queue.len() as int].from_node_id == n);
        }
        if t.queued(n) && n != node_id {
            let i = choose|i: int|
                0 <= i < t.request_queue.len() && (#[trigger] t.request_queue[i]).from_node_id == n;
            assert(s.request_queue[i].from_node_id == n);
        }
    }
    assert forall|i: int| 0 <= i < t.request_queue.len() implies t.is_member(
        (#[trigger] t.request_queue[i]).from_node_id,
    ) && t.request_queue[i].timestamp <= t.clock by {
        if i < s.request_queue.len() {
            assert(t.request_queue[i] == s.request_queue[i]);
        }
    }
    lemma_mutex_safety_at_head(t, node_id);
}

/// A session stays orderly when the node that holds the resource
/// releases it. The node that waited, if there was one, then holds it.
pub proof fn lemma_release_keeps_orderly(s: SessionView, node_id: u32)
    requires
        s.orderly(),
        s.can_access_resource(node_id),
    ensures
        s.release_resource(node_id).orderly(),
        s.release_resource(node_id).request_queue == s.request_queue.drop_first(),
        s.request_queue.len() == 2 ==> s.release_resource(node_id).can_access_resource(
            s.request_queue[1].from_node_id,
        ),
{
    reveal_with_fuel(SessionView::send_replies, 3);
    let queue = s.request_queue;
    lemma_mutex_safety_at_head(s, node_id);
    lemma_head_leaves_queue(queue);
    let cleared = SessionView {
        request_queue: without_requests_of(s.request_queue, node_id),
        deferred_replies: s.deferred_replies.remove(node_id),
        ..s
    };
    let owed = s.deferred_at(node_id);
    let t = s.release_resource(node_id);
    lemma_send_replies_frame(cleared, owed, node_id);
    if queue.len() == 2 {
        let waiter = queue[1].from_node_id;
        assert(owed == seq![queue[1]]);
        assert(owed.drop_last() =~= Seq::<Request>::empty());
        assert(s.queued(waiter));
        assert(t.request_queue[0] == queue[1]);
    } else {
        assert(owed =~= Seq::<Request>::empty());
    }
    assert forall|n: u32| #[trigger] t.replies_received.contains_key(n) <==> t.queued(n) by {
        lemma_without_requests_of(queue, node_id, n);
        lemma_send_replies_dom(cleared, owed, node_id, n);
        assert(s.replies_received.contains_key(n) <==> s.queued(n));
        if has_request_of(owed, n) {
            let i = choose|i: int| 0 <= i < owed.len() && (#[trigger] owed[i]).from_node_id == n;
            assert(owed[i] == queue[1]);
            assert(s.queued(n));
        }
    }
    assert forall|i: int| 0 <= i < t.request_queue.len() implies t.is_member(
        (#[trigger] t.request_queue[i]).from_node_id,
    ) && t.request_queue[i].timestamp <= t.clock by {
        assert(t.request_queue[i] == queue[i + 1]);
    }
    if queue.len() == 2 {
        lemma_mutex_safety_at_head(t, queue[1].from_node_id);
    }
}

/// What is orderly stays orderly while the queue, the replies and the
/// clock stay as they are and the nodes keep their number and their
/// ids, unique as before.
pub proof fn lemma_orderly_rests_on_ids(s: SessionView, t: SessionView)
    requires
        s.orderly(),
        t.same_handshake(s),
        t.keeps_members_of(s),
        t.ids_unique(),
    ensures
        t.orderly(),
{
    assert forall|n: u32| #[trigger] t.replies_received.contains_key(n) <==> t.queued(n) by {
        assert(s.replies_received.contains_key(n) <==> s.queued(n));
    }
    assert forall|i: int| 0 <= i < t.request_queue.len() implies t.is_member(
        (#[trigger] t.request_queue[i]).from_node_id,
    ) && t.request_queue[i].timestamp <= t.clock by {
        assert(s.is_member(s.request_queue[i].from_node_id));
    }
}

/// Mutex safety across placement: `assign_processes` keeps an orderly
/// session orderly and a tidy one tidy.
pub proof fn lemma_assign_processes_keeps_orderly(s: SessionView)
    ensures
        s.assign_processes().same_handshake(s),
        s.tidy() ==> s.assign_processes().tidy(),
        s.orderly() ==> s.assign_processes().orderly(),
{
    let t = s.assign_processes();
    if s.nodes.len() > 0 {
        let cleared = SessionView { processes: Seq::empty(), ..s };
        lemma_place_all_frame(cleared, s.processes);
        assert forall|n: u32| #[trigger] s.is_member(n) implies t.is_member(n) by {
            let i = choose|i: int| 0 <= i < s.nodes.len() && (#[trigger] s.nodes[i]).id == n;
            assert(t.nodes[i].id == n);
        }
        if s.orderly() {
            assert(t.ids_unique()) by {
                assert forall|i: int, j: int| 0 <= i < j < t.nodes.len() implies t.nodes[i].id
                    != t.nodes[j].id by {
                    assert(t.nodes[i].id == s.nodes[i].id);
                    assert(t.nodes[j].id == s.nodes[j].id);
                }
            }
            lemma_orderly_rests_on_ids(s, t);
        }
    }
    if s.tidy() {
        assert forall|n: u32| #[trigger] t.replies_received.contains_key(n) <==> t.queued(n) by {
            assert(s.replies_received.contains_key(n) <==> s.queued(n));
        }
    }
}

/// Mutex safety across a vote: a vote touches neither the queue, nor the
/// replies, nor the clock, so it keeps a tidy session tidy; and it keeps
/// an orderly session orderly where the members stay the same, that is
/// where the action is not approved, or accuses no node, or accuses a
/// member that the session reinstalls.
pub proof fn lemma_initiate_voting_keeps_orderly(s: SessionView, proposer: u32, action: ActionView)
    ensures
        s.initiate_voting(proposer, action).same_handshake(s),
        s.tidy() ==> s.initiate_voting(proposer, action).tidy(),
        s.orderly() && (!s.collect_votes(proposer, action).approved(action) || match accused(
            action,
        ) {
            Some(node_id) => s.reinstall_on_failure && s.is_member(node_id),
            None => true,
        }) ==> s.initiate_voting(proposer, action).orderly(),
{
    let told = s.collect_votes(proposer, action);
    let t = s.initiate_voting(proposer, action);
    lemma_informed(s.nodes, proposer, action);
    if s.tidy() {
        assert forall|n: u32| #[trigger] t.replies_received.contains_key(n) <==> t.queued(n) by {
            assert(s.replies_received.contains_key(n) <==> s.queued(n));
        }
    }
    if s.orderly() {
        assert forall|n: u32| #[trigger] s.is_member(n) implies told.is_member(n) by {
            let i = choose|i: int| 0 <= i < s.nodes.len() && (#[trigger] s.nodes[i]).id == n;
            assert(told.nodes[i].id == n);
        }
        lemma_orderly_rests_on_ids(s, told);
        if told.approved(action) {
            match accused(action) {
                Some(node_id) => {
                    if s.reinstall_on_failure && s.is_member(node_id) {
                        lemma_without_id(told.nodes, node_id);
                        lemma_occurrences_unique(told.nodes, node_id);
                        lemma_without_id_len(told.nodes, node_id);
                        let kept = without_id(told.nodes, node_id);
                        let fresh = NodeView::fresh(node_id);
                        assert(t.nodes == kept.push(fresh));
                        assert forall|n: u32| #[trigger] told.is_member(n) implies t.is_member(
                            n,
                        ) by {
                            if n == node_id {
                                assert(t.nodes[kept.len() as int].id == n);
                            } else {
                                lemma_without_id_keeps(told.nodes, node_id, n);
                                let i = choose|i: int|
                                    0 <= i < kept.len() && (#[trigger] kept[i]).id == n;
                                assert(t.nodes[i].id == n);
                            }
                        }
                        assert(t.ids_unique()) by {
                            assert forall|i: int, j: int|
                                0 <= i < j < t.nodes.len() implies t.nodes[i].id
                                != t.nodes[j].id by {
                                if j == kept.len() {
                                    assert(t.nodes[i] == kept[i]);
                                } else {
                                    assert(t.nodes[i] == kept[i] && t.nodes[j] == kept[j]);
                                }
                            }
                        }
                        lemma_orderly_rests_on_ids(told, t);
                    }
                },
                None => {
                    lemma_orderly_rests_on_ids(told, t);
                },
            }
        } else {
            lemma_orderly_rests_on_ids(told, t);
        }
    }
}

} // verus!
