use crate::message::{ActionView, Request, Vote};
use crate::node::{vote_policy, NodeStatus, NodeView};
use crate::process::Process;
use crate::resource::Resources;
use crate::sequences::{first_index, lemma_first_index};
use vstd::prelude::*;

verus! {

/// An amount of resources without an upper bound, for sums.
pub struct Amount {
    pub ram: int,
    pub disk_space: int,
    pub threads: int,
}

impl Amount {
    pub open spec fn zero() -> Amount {
        Amount { ram: 0, disk_space: 0, threads: 0 }
    }

    pub open spec fn of(r: Resources) -> Amount {
        Amount { ram: r.ram as int, disk_space: r.disk_space as int, threads: r.threads as int }
    }

    pub open spec fn plus(self, other: Amount) -> Amount {
        Amount {
            ram: self.ram + other.ram,
            disk_space: self.disk_space + other.disk_space,
            threads: self.threads + other.threads,
        }
    }
}

/// What the given processes need, added up.
pub open spec fn demand(processes: Seq<Process>) -> Amount
    decreases processes.len(),
{
    if processes.len() == 0 {
        Amount::zero()
    } else {
        demand(processes.drop_last()).plus(Amount::of(processes.last().needed_resources))
    }
}

/// What the processes that run on the given nodes need, added up.
pub open spec fn load(nodes: Seq<NodeView>) -> Amount
    decreases nodes.len(),
{
    if nodes.len() == 0 {
        Amount::zero()
    } else {
        load(nodes.drop_last()).plus(demand(nodes.last().active_processes))
    }
}

/// `pool` can take `extra` back without leaving the machine's range.
pub open spec fn fits(pool: Resources, extra: Amount) -> bool {
    &&& pool.ram + extra.ram <= u64::MAX
    &&& pool.disk_space + extra.disk_space <= u64::MAX
    &&& pool.threads + extra.threads <= u32::MAX
}

/// `pool` after `extra` was given back to it; meaningful where it fits.
pub open spec fn grown(pool: Resources, extra: Amount) -> Resources
    recommends
        fits(pool, extra),
{
    Resources {
        ram: (pool.ram + extra.ram) as u64,
        disk_space: (pool.disk_space + extra.disk_space) as u64,
        threads: (pool.threads + extra.threads) as u32,
    }
}

/// The index of the node that runs the fewest processes, the first of
/// them where several run equally few. Meaningful for a non-empty sequence.
pub open spec fn least_loaded(nodes: Seq<NodeView>) -> int
    decreases nodes.len(),
{
    if nodes.len() <= 1 {
        0
    } else {
        let best = least_loaded(nodes.drop_last());
        if nodes.last().active_processes.len() < nodes[best].active_processes.len() {
            nodes.len() - 1
        } else {
            best
        }
    }
}

/// The nodes whose id is not `node_id`, in their order.
pub open spec fn without_id(nodes: Seq<NodeView>, node_id: u32) -> Seq<NodeView> {
    nodes.filter(|n: NodeView| n.id != node_id)
}

/// No two of the nodes have the same id.
pub open spec fn ids_distinct(nodes: Seq<NodeView>) -> bool {
    forall|i: int, j: int| 0 <= i < j < nodes.len() ==> nodes[i].id != nodes[j].id
}

/// The index of the first of the nodes with the id `node_id`.
pub open spec fn position_of(nodes: Seq<NodeView>, node_id: u32) -> Option<int> {
    first_index(nodes, |n: NodeView| n.id == node_id)
}

/// The requests that do not come from `node_id`, in their order.
pub open spec fn without_requests_of(queue: Seq<Request>, node_id: u32) -> Seq<Request> {
    queue.filter(|r: Request| r.from_node_id != node_id)
}

/// Whether one of the nodes has the id `node_id`.
pub open spec fn has_id(nodes: Seq<NodeView>, node_id: u32) -> bool {
    exists|i: int| 0 <= i < nodes.len() && (#[trigger] nodes[i]).id == node_id
}

/// How many of the nodes have the id `node_id`.
pub open spec fn occurrences(nodes: Seq<NodeView>, node_id: u32) -> nat
    decreases nodes.len(),
{
    if nodes.len() == 0 {
        0
    } else {
        occurrences(nodes.drop_last(), node_id) + if nodes.last().id == node_id {
            1nat
        } else {
            0nat
        }
    }
}

/// Whether one of the requests comes from `node_id`.
pub open spec fn has_request_of(queue: Seq<Request>, node_id: u32) -> bool {
    exists|i: int| 0 <= i < queue.len() && (#[trigger] queue[i]).from_node_id == node_id
}

/// How many of the votes approve.
pub open spec fn approvals(votes: Seq<(u32, Vote)>) -> nat {
    votes.filter(|ballot: (u32, Vote)| ballot.1 == Vote::Approve).len()
}

/// Whether a node is asked to vote on a proposal: every node is, but
/// the proposer and the nodes that have halted.
pub open spec fn polled(node: NodeView, proposer: u32) -> bool {
    node.id != proposer && node.status != NodeStatus::Halted
}

/// The votes of the nodes that are asked, in the nodes' order.
pub open spec fn ballots(nodes: Seq<NodeView>, proposer: u32, action: ActionView) -> Seq<
    (u32, Vote),
> {
    nodes.filter(|n: NodeView| polled(n, proposer)).map_values(
        |n: NodeView| (n.id, vote_policy(action)),
    )
}

/// The nodes after each one that is asked was told of `action`.
pub open spec fn informed(nodes: Seq<NodeView>, proposer: u32, action: ActionView) -> Seq<
    NodeView,
> {
    nodes.map_values(
        |n: NodeView|
            if polled(n, proposer) {
                n.learn(action)
            } else {
                n
            },
    )
}

/// The node that an action accuses, if it names one.
pub open spec fn accused(action: ActionView) -> Option<u32> {
    match action {
        ActionView::ProcessFailure { node_id, .. } => Some(node_id),
        ActionView::NodeFailure { node_id, .. } => Some(node_id),
        ActionView::RedistributeProcess { .. } => None,
    }
}

/// The state of a session as contracts see it.
pub struct SessionView {
    pub nodes: Seq<NodeView>,
    pub processes: Seq<Process>,
    pub total_resources: Resources,
    pub available_resources: Resources,
    pub pending_votes: Map<ActionView, Seq<(u32, Vote)>>,
    pub request_queue: Seq<Request>,
    pub deferred_replies: Map<u32, Seq<Request>>,
    pub replies_received: Map<u32, Seq<u32>>,
    pub clock: u64,
    pub reinstall_on_failure: bool,
}

impl SessionView {
    // ----- membership -----

    pub open spec fn add_node(self, node: NodeView) -> SessionView {
        SessionView { nodes: self.nodes.push(node), ..self }
    }

    /// Every node with the id `node_id` leaves; the others keep their order.
    pub open spec fn remove_node(self, node_id: u32) -> SessionView {
        SessionView { nodes: without_id(self.nodes, node_id), ..self }
    }

    // ----- the shared pool -----

    pub open spec fn allocate_resources(self, needed: Resources) -> SessionView {
        if self.available_resources.covers(needed) {
            SessionView { available_resources: self.available_resources.minus(needed), ..self }
        } else {
            self
        }
    }

    pub open spec fn deallocate_resources(self, used: Resources) -> SessionView {
        SessionView { available_resources: self.available_resources.plus(used), ..self }
    }

    /// The pool and what the nodes' processes hold make up the total.
    pub open spec fn conserved(self) -> bool {
        Amount::of(self.available_resources).plus(load(self.nodes)) == Amount::of(
            self.total_resources,
        )
    }

    /// No two nodes have the same id.
    pub open spec fn ids_unique(self) -> bool {
        ids_distinct(self.nodes)
    }

    // ----- placement -----

    /// One step of placement, for a session with at least one node: the
    /// process goes to the least loaded node if the pool covers what it
    /// needs, and stays pending otherwise.
    pub open spec fn place(self, process: Process) -> SessionView {
        if self.available_resources.covers(process.needed_resources) {
            let target = least_loaded(self.nodes);
            SessionView {
                available_resources: self.available_resources.minus(process.needed_resources),
                nodes: self.nodes.update(target, self.nodes[target].with_process(process)),
                ..self
            }
        } else {
            SessionView { processes: self.processes.push(process), ..self }
        }
    }

    pub open spec fn place_all(self, pending: Seq<Process>) -> SessionView
        decreases pending.len(),
    {
        if pending.len() == 0 {
            self
        } else {
            self.place_all(pending.drop_last()).place(pending.last())
        }
    }

    /// Placement of the pending processes, in order. Without nodes
    /// nothing is placed and nothing changes.
    pub open spec fn assign_processes(self) -> SessionView {
        if self.nodes.len() == 0 {
            self
        } else {
            (SessionView { processes: Seq::empty(), ..self }).place_all(self.processes)
        }
    }

    // ----- mutual exclusion -----

    /// Whether node `to` answers `incoming` at once. It withholds its
    /// answer only where its own request stands at the head of the queue
    /// and is older, or as old while `to` is not below the requester's id.
    pub open spec fn should_reply_immediately(self, to: u32, incoming: Request) -> bool {
        if self.request_queue.len() > 0 && self.request_queue[0].from_node_id == to {
            let ours = self.request_queue[0];
            if ours.timestamp < incoming.timestamp {
                false
            } else if ours.timestamp == incoming.timestamp {
                to < incoming.from_node_id
            } else {
                true
            }
        } else {
            true
        }
    }

    /// The replies that node `to` has received so far.
    pub open spec fn replies_to(self, to: u32) -> Seq<u32> {
        if self.replies_received.contains_key(to) {
            self.replies_received[to]
        } else {
            Seq::empty()
        }
    }

    /// The requests that node `at` has left unanswered so far.
    pub open spec fn deferred_at(self, at: u32) -> Seq<Request> {
        if self.deferred_replies.contains_key(at) {
            self.deferred_replies[at]
        } else {
            Seq::empty()
        }
    }

    pub open spec fn send_reply(self, to: u32, from: u32) -> SessionView {
        SessionView {
            replies_received: self.replies_received.insert(to, self.replies_to(to).push(from)),
            ..self
        }
    }

    pub open spec fn defer_reply(self, at: u32, request: Request) -> SessionView {
        SessionView {
            deferred_replies: self.deferred_replies.insert(at, self.deferred_at(at).push(request)),
            ..self
        }
    }

    pub open spec fn handle_request(self, to: u32, request: Request) -> SessionView {
        if self.should_reply_immediately(to, request) {
            self.send_reply(request.from_node_id, to)
        } else {
            self.defer_reply(to, request)
        }
    }

    /// Every node of `nodes` other than the requester handles `request`,
    /// in order.
    pub open spec fn notify_others(self, nodes: Seq<NodeView>, request: Request) -> SessionView
        decreases nodes.len(),
    {
        if nodes.len() == 0 {
            self
        } else {
            let before = self.notify_others(nodes.drop_last(), request);
            if nodes.last().id != request.from_node_id {
                before.handle_request(nodes.last().id, request)
            } else {
                before
            }
        }
    }

    /// The request that `request_resource` makes for `node_id`.
    pub open spec fn next_request(self, node_id: u32) -> Request {
        Request { from_node_id: node_id, timestamp: (self.clock + 1) as u64 }
    }

    pub open spec fn request_resource(self, node_id: u32) -> SessionView {
        let request = self.next_request(node_id);
        let queued = SessionView {
            clock: request.timestamp,
            request_queue: self.request_queue.push(request),
            replies_received: self.replies_received.insert(node_id, Seq::empty()),
            ..self
        };
        queued.notify_others(self.nodes, request)
    }

    pub open spec fn can_access_resource(self, node_id: u32) -> bool {
        &&& self.replies_received.contains_key(node_id)
        &&& self.replies_received[node_id].len() == self.nodes.len() - 1
    }

    /// Node `from` answers each of `requests`, in order.
    pub open spec fn send_replies(self, requests: Seq<Request>, from: u32) -> SessionView
        decreases requests.len(),
    {
        if requests.len() == 0 {
            self
        } else {
            self.send_replies(requests.drop_last(), from).send_reply(
                requests.last().from_node_id,
                from,
            )
        }
    }

    pub open spec fn release_resource(self, node_id: u32) -> SessionView {
        let cleared = SessionView {
            request_queue: without_requests_of(self.request_queue, node_id),
            deferred_replies: self.deferred_replies.remove(node_id),
            ..self
        };
        let answered = cleared.send_replies(self.deferred_at(node_id), node_id);
        SessionView { replies_received: answered.replies_received.remove(node_id), ..answered }
    }

    /// Whether a request of `node_id` stands in the queue.
    pub open spec fn queued(self, node_id: u32) -> bool {
        has_request_of(self.request_queue, node_id)
    }

    /// The replies on record are those to the nodes whose requests stand
    /// in the queue, and every answer withheld is owed to such a node.
    pub open spec fn tidy(self) -> bool {
        &&& forall|n: u32| #[trigger] self.replies_received.contains_key(n) <==> self.queued(n)
        &&& forall|k: u32, i: int|
            self.deferred_replies.contains_key(k) && 0 <= i < self.deferred_replies[k].len()
                ==> self.queued((#[trigger] self.deferred_replies[k][i]).from_node_id)
    }

    /// No node other than `node_id` itself withholds an answer to it.
    pub open spec fn awaited_by_none(self, node_id: u32) -> bool {
        forall|k: u32, i: int|
            k != node_id && self.deferred_replies.contains_key(k) && 0 <= i
                < self.deferred_replies[k].len() ==> (#[trigger] self.deferred_replies[k][i]).from_node_id
                != node_id
    }

    /// Whether `node_id` is the id of a member.
    pub open spec fn is_member(self, node_id: u32) -> bool {
        has_id(self.nodes, node_id)
    }

    /// The state of the handshake while members with unique ids take
    /// turns, at most one of them waiting behind the one that holds the
    /// resource: the queue holds the holder's request and after it, if
    /// any, the waiter's newer one; replies are on record for just these
    /// two; the holder has every other node's reply; the waiter lacks
    /// only the holder's, which the holder withholds; and nothing else is
    /// withheld.
    pub open spec fn orderly(self) -> bool {
        let queue = self.request_queue;
        &&& self.ids_unique()
        &&& queue.len() <= 2
        &&& forall|i: int|
            0 <= i < queue.len() ==> self.is_member((#[trigger] queue[i]).from_node_id)
                && queue[i].timestamp <= self.clock
        &&& forall|n: u32| #[trigger] self.replies_received.contains_key(n) <==> self.queued(n)
        &&& queue.len() >= 1 ==> self.replies_received[queue[0].from_node_id].len()
            == self.nodes.len() - 1
        &&& queue.len() == 2 ==> {
            &&& queue[0].from_node_id != queue[1].from_node_id
            &&& queue[0].timestamp < queue[1].timestamp
            &&& self.replies_received[queue[1].from_node_id].len() == self.nodes.len() - 2
            &&& self.deferred_replies.contains_key(queue[0].from_node_id)
            &&& self.deferred_replies[queue[0].from_node_id] == seq![queue[1]]
        }
        &&& forall|k: u32| #[trigger]
            self.deferred_replies.contains_key(k) ==> queue.len() == 2 && k
                == queue[0].from_node_id
    }

    /// The two states differ at most in the queue, the replies given and
    /// withheld, and the clock.
    pub open spec fn same_cluster(self, other: SessionView) -> bool {
        &&& self.nodes == other.nodes
        &&& self.processes == other.processes
        &&& self.total_resources == other.total_resources
        &&& self.available_resources == other.available_resources
        &&& self.pending_votes == other.pending_votes
        &&& self.reinstall_on_failure == other.reinstall_on_failure
    }

    /// The two states agree on the queue, the replies given and
    /// withheld, and the clock.
    pub open spec fn same_handshake(self, other: SessionView) -> bool {
        &&& self.request_queue == other.request_queue
        &&& self.deferred_replies == other.deferred_replies
        &&& self.replies_received == other.replies_received
        &&& self.clock == other.clock
    }

    /// The two states have as many nodes, and every member of `other` is
    /// a member of `self`.
    pub open spec fn keeps_members_of(self, other: SessionView) -> bool {
        &&& self.nodes.len() == other.nodes.len()
        &&& forall|n: u32| #[trigger] other.is_member(n) ==> self.is_member(n)
    }

    // ----- voting -----

    /// The votes recorded for `action` so far.
    pub open spec fn votes_on(self, action: ActionView) -> Seq<(u32, Vote)> {
        if self.pending_votes.contains_key(action) {
            self.pending_votes[action]
        } else {
            Seq::empty()
        }
    }

    pub open spec fn cast_vote(self, node_id: u32, action: ActionView, vote: Vote) -> SessionView {
        SessionView {
            pending_votes: self.pending_votes.insert(
                action,
                self.votes_on(action).push((node_id, vote)),
            ),
            ..self
        }
    }

    /// The index of the first node with the id `node_id`.
    pub open spec fn node_position(self, node_id: u32) -> Option<int> {
        position_of(self.nodes, node_id)
    }

    /// What the processes of the first node with the id `node_id` hold can
    /// be given back to the pool.
    pub open spec fn can_reclaim(self, node_id: u32) -> bool {
        match self.node_position(node_id) {
            Some(i) => fits(self.available_resources, demand(self.nodes[i].active_processes)),
            None => true,
        }
    }

    /// The processes of the first node with the id `node_id` give back
    /// what they hold and become pending again; every node with that id
    /// leaves; a fresh node takes its place where the session reinstalls.
    pub open spec fn handle_node_failure(self, node_id: u32) -> SessionView {
        let freed = match self.node_position(node_id) {
            Some(i) => SessionView {
                available_resources: grown(
                    self.available_resources,
                    demand(self.nodes[i].active_processes),
                ),
                processes: self.processes + self.nodes[i].active_processes,
                ..self
            },
            None => self,
        };
        let removed = freed.remove_node(node_id);
        if self.reinstall_on_failure {
            removed.add_node(NodeView::fresh(node_id))
        } else {
            removed
        }
    }

    /// Whether executing `action` stays within the machine's range.
    pub open spec fn can_execute(self, action: ActionView) -> bool {
        match accused(action) {
            Some(node_id) => self.can_reclaim(node_id),
            None => true,
        }
    }

    pub open spec fn execute_action(self, action: ActionView) -> SessionView {
        match accused(action) {
            Some(node_id) => self.handle_node_failure(node_id),
            None => self,
        }
    }

    /// More than half of the nodes' number approve of `action`.
    pub open spec fn approved(self, action: ActionView) -> bool {
        self.pending_votes.contains_key(action) && approvals(self.pending_votes[action])
            > self.nodes.len() / 2
    }

    /// More than half of the nodes' number voted against `action`, and it
    /// is not approved.
    pub open spec fn rejected(self, action: ActionView) -> bool {
        &&& self.pending_votes.contains_key(action)
        &&& !self.approved(action)
        &&& self.pending_votes[action].len() - approvals(self.pending_votes[action])
            > self.nodes.len() / 2
    }

    pub open spec fn check_consensus(self, action: ActionView) -> SessionView {
        if self.approved(action) {
            let done = self.execute_action(action);
            SessionView { pending_votes: done.pending_votes.remove(action), ..done }
        } else if self.rejected(action) {
            SessionView { pending_votes: self.pending_votes.remove(action), ..self }
        } else {
            self
        }
    }

    /// The session once the proposer's approval and the votes of the
    /// nodes that are asked are recorded, before the votes are counted.
    pub open spec fn collect_votes(self, proposer: u32, action: ActionView) -> SessionView {
        SessionView {
            nodes: informed(self.nodes, proposer, action),
            pending_votes: self.pending_votes.insert(
                action,
                seq![(proposer, Vote::Approve)] + ballots(self.nodes, proposer, action),
            ),
            ..self
        }
    }

    pub open spec fn initiate_voting(self, proposer: u32, action: ActionView) -> SessionView {
        self.collect_votes(proposer, action).check_consensus(action)
    }

    /// Collecting the votes on `action` changes neither where a node
    /// stands nor what it runs, so what could be executed before can be
    /// executed after.
    pub proof fn lemma_collect_votes_keeps_load(
        self,
        proposer: u32,
        action: ActionView,
        node_id: u32,
    )
        ensures
            self.collect_votes(proposer, action).node_position(node_id) == self.node_position(
                node_id,
            ),
            self.collect_votes(proposer, action).can_reclaim(node_id) == self.can_reclaim(node_id),
            self.collect_votes(proposer, action).can_execute(action) == self.can_execute(action),
    {
        let told = self.collect_votes(proposer, action);
        assert forall|target: u32|
            told.node_position(target) == self.node_position(target) && told.can_reclaim(target)
                == self.can_reclaim(target) by {
            let wanted = |n: NodeView| n.id == target;
            lemma_first_index(self.nodes, wanted);
            lemma_first_index(told.nodes, wanted);
            assert forall|j: int| 0 <= j < self.nodes.len() implies wanted(told.nodes[j])
                == wanted(self.nodes[j]) by {}
            match self.node_position(target) {
                Some(i) => {
                    assert(wanted(told.nodes[i]));
                },
                None => {},
            }
            match told.node_position(target) {
                Some(i) => {
                    assert(wanted(self.nodes[i]));
                },
                None => {},
            }
        }
    }
}

} // verus!
