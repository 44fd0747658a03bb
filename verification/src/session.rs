use crate::action_map::ActionMap;
use crate::laws::{
    lemma_assign_processes_conserves, lemma_assign_processes_keeps_orderly,
    lemma_check_consensus_conserves, lemma_execute_action_conserves,
    lemma_handle_node_failure_conserves, lemma_idle_session_is_orderly,
    lemma_initiate_voting_conserves, lemma_mutex_safety,
    lemma_release_clears, lemma_release_keeps_orderly, lemma_release_keeps_tidy,
    lemma_release_resource_frame, lemma_request_keeps_orderly, lemma_request_keeps_tidy,
    lemma_request_resource_frame,
};
use crate::lemmas::{lemma_demand_prefix, lemma_idle_nodes_hold_nothing};
use crate::message::{Action, Request, Vote};
use crate::model::{
    approvals, ballots, demand, fits, grown, informed, least_loaded, without_id,
    without_requests_of, SessionView,
};
use crate::node::{Node, NodeStatus, NodeView};
use crate::process::Process;
use crate::resource::Resources;
use crate::sequences::lemma_first_index;
use std::collections::{HashMap, VecDeque};
use vstd::prelude::*;

verus! {

broadcast use vstd::std_specs::hash::group_hash_axioms;

/// The coordinator of a cluster: its members, the shared pool of
/// resources, the queue of requests for the shared resource with the
/// replies given and withheld, and the votes that are under way.
pub struct Session {
    pub nodes: Vec<Node>,
    pub processes: Vec<Process>,
    pub total_resources: Resources,
    pub available_resources: Resources,
    pub pending_votes: ActionMap<Vec<(u32, Vote)>>,
    pub request_queue: VecDeque<Request>,
    pub deferred_replies: HashMap<u32, Vec<Request>>,
    pub replies_received: HashMap<u32, Vec<u32>>,
    /// Logical clock: the timestamp of the latest request.
    pub clock: u64,
    /// Whether a fresh node takes the place of one that consensus removed.
    pub reinstall_on_failure: bool,
}

/// Why placement could not be attempted.
#[derive(Clone, Copy, Debug, PartialEq, Eq, Structural)]
pub enum PlacementError {
    /// There are processes to place and no node to place them on.
    NoNodes,
}

/// The nodes as contracts see them.
pub open spec fn node_views(nodes: Seq<Node>) -> Seq<NodeView> {
    Seq::new(nodes.len(), |i: int| nodes[i]@)
}

/// A map of vectors as a map of sequences.
pub open spec fn sequences_of<K, T>(m: Map<K, Vec<T>>) -> Map<K, Seq<T>> {
    Map::new(|k: K| m.contains_key(k), |k: K| m[k]@)
}

impl View for Session {
    type V = SessionView;

    open spec fn view(&self) -> SessionView {
        SessionView {
            nodes: node_views(self.nodes@),
            processes: self.processes@,
            total_resources: self.total_resources,
            available_resources: self.available_resources,
            pending_votes: sequences_of(self.pending_votes@),
            request_queue: self.request_queue@,
            deferred_replies: sequences_of(self.deferred_replies@),
            replies_received: sequences_of(self.replies_received@),
            clock: self.clock,
            reinstall_on_failure: self.reinstall_on_failure,
        }
    }
}

impl Session {
    /// A session over the given members and pending processes whose pool
    /// is wholly available. Nothing is queued or voted on, the clock
    /// stands at zero, and failed nodes are not reinstalled.
    pub fn new(nodes: Vec<Node>, processes: Vec<Process>, total_resources: Resources) -> (session:
        Self)
        ensures
            session@ == (SessionView {
                nodes: node_views(nodes@),
                processes: processes@,
                total_resources,
                available_resources: total_resources,
                pending_votes: Map::empty(),
                request_queue: Seq::empty(),
                deferred_replies: Map::empty(),
                replies_received: Map::empty(),
                clock: 0,
                reinstall_on_failure: false,
            }),
            session@.tidy(),
            session@.ids_unique() ==> session@.orderly(),
            (forall|i: int|
                0 <= i < nodes@.len() ==> (#[trigger] nodes@[i]).active_processes@.len() == 0)
                ==> session@.conserved(),
    {
        let session = Session {
            nodes,
            processes,
            total_resources,
            available_resources: total_resources,
            pending_votes: ActionMap::new(),
            request_queue: VecDeque::new(),
            deferred_replies: HashMap::new(),
            replies_received: HashMap::new(),
            clock: 0,
            reinstall_on_failure: false,
        };
        proof {
            assert(session@.pending_votes =~= Map::empty());
            assert(session@.deferred_replies =~= Map::empty());
            assert(session@.replies_received =~= Map::empty());
            if session@.ids_unique() {
                lemma_idle_session_is_orderly(session@);
            }
            if forall|i: int|
                0 <= i < nodes@.len() ==> (#[trigger] nodes@[i]).active_processes@.len() == 0 {
                assert forall|i: int| 0 <= i < session@.nodes.len() implies (
                #[trigger] session@.nodes[i]).active_processes.len() == 0 by {
                    assert(nodes@[i].active_processes@.len() == 0);
                }
                lemma_idle_nodes_hold_nothing(session@.nodes);
            }
        }
        session
    }

    /// Adds `node` after the nodes that are there.
    pub fn add_node(&mut self, node: Node)
        ensures
            final(self)@ == old(self)@.add_node(node@),
    {
        self.nodes.push(node);
        proof {
            assert(self@.nodes =~= old(self)@.nodes.push(node@));
        }
    }

    /// Removes every node with the id `node_id`.
    pub fn remove_node(&mut self, node_id: u32)
        ensures
            final(self)@ == old(self)@.remove_node(node_id),
    {
        let ghost before = self@.nodes;
        let ghost keep = |n: NodeView| n.id != node_id;
        assert(without_id(before, node_id) == before.filter(keep));
        let ghost mut seen: int = 0;
        let mut i: usize = 0;
        while i < self.nodes.len()
            invariant
                0 <= i <= self.nodes@.len(),
                seen == i + (before.len() - self.nodes@.len()),
                i <= seen <= before.len(),
                before == old(self)@.nodes,
                keep == |n: NodeView| n.id != node_id,
                self@.nodes.take(i as int) == before.take(seen).filter(keep),
                self@.nodes.skip(i as int) == before.skip(seen),
                self@ == (SessionView { nodes: self@.nodes, ..old(self)@ }),
            decreases self.nodes@.len() - i,
        {
            let ghost current = self@.nodes;
            proof {
                reveal(Seq::filter);
                assert(before.take(seen + 1).drop_last() =~= before.take(seen));
                assert(current.skip(i as int)[0] == before.skip(seen)[0]);
            }
            if self.nodes[i].id == node_id {
                self.nodes.remove(i);
                proof {
                    assert(self@.nodes =~= current.remove(i as int));
                    assert(self@.nodes.take(i as int) =~= current.take(i as int));
                    assert(self@.nodes.skip(i as int) =~= current.skip(i as int).skip(1));
                    assert(before.skip(seen + 1) =~= before.skip(seen).skip(1));
                }
            } else {
                i = i + 1;
                proof {
                    assert(current.take(i as int) =~= current.take(i - 1).push(current[i - 1]));
                    assert(current.skip(i as int) =~= current.skip(i - 1).skip(1));
                    assert(before.skip(seen + 1) =~= before.skip(seen).skip(1));
                }
            }
            proof {
                seen = seen + 1;
            }
        }
        proof {
            assert(self@.nodes.take(i as int) =~= self@.nodes);
            assert(before.take(seen) =~= before);
        }
    }

    /// The number of nodes.
    pub fn total_nodes(&self) -> (n: usize)
        ensures
            n == self@.nodes.len(),
    {
        self.nodes.len()
    }

    /// Takes `needed_resources` out of the pool if it covers them.
    pub fn allocate_resources(&mut self, needed_resources: &Resources) -> (granted: bool)
        ensures
            granted == old(self)@.available_resources.covers(*needed_resources),
            final(self)@ == old(self)@.allocate_resources(*needed_resources),
    {
        self.available_resources.allocate(needed_resources)
    }

    /// Gives `used_resources` back to the pool.
    pub fn deallocate_resources(&mut self, used_resources: &Resources)
        requires
            old(self)@.available_resources.can_absorb(*used_resources),
        ensures
            final(self)@ == old(self)@.deallocate_resources(*used_resources),
    {
        self.available_resources.deallocate(used_resources);
    }

    /// Whether node `node_id` answers `incoming_request` at once.
    pub fn should_reply_immediately(&self, node_id: u32, incoming_request: &Request) -> (now: bool)
        ensures
            now == self@.should_reply_immediately(node_id, *incoming_request),
    {
        if self.request_queue.len() > 0 {
            let ours = &self.request_queue[0];
            if ours.from_node_id == node_id {
                if ours.timestamp < incoming_request.timestamp {
                    return false;
                } else if ours.timestamp == incoming_request.timestamp {
                    return node_id < incoming_request.from_node_id;
                }
            }
        }
        true
    }

    /// Records that `from_node_id` has answered `to_node_id`.
    pub fn send_reply(&mut self, to_node_id: u32, from_node_id: u32)
        ensures
            final(self)@ == old(self)@.send_reply(to_node_id, from_node_id),
    {
        let mut replies = match self.replies_received.remove(&to_node_id) {
            Some(replies) => replies,
            None => Vec::new(),
        };
        replies.push(from_node_id);
        self.replies_received.insert(to_node_id, replies);
        proof {
            assert(self@.replies_received =~= old(self)@.send_reply(
                to_node_id,
                from_node_id,
            ).replies_received);
        }
    }

    /// Node `to_node_id` answers `request` at once or withholds its answer
    /// until it releases the resource.
    pub fn handle_request(&mut self, to_node_id: u32, request: Request)
        ensures
            final(self)@ == old(self)@.handle_request(to_node_id, request),
    {
        if self.should_reply_immediately(to_node_id, &request) {
            self.send_reply(request.from_node_id, to_node_id);
        } else {
            let mut deferred = match self.deferred_replies.remove(&to_node_id) {
                Some(deferred) => deferred,
                None => Vec::new(),
            };
            deferred.push(request);
            self.deferred_replies.insert(to_node_id, deferred);
            proof {
                assert(self@.deferred_replies =~= old(self)@.defer_reply(
                    to_node_id,
                    request,
                ).deferred_replies);
            }
        }
    }

    /// Advances the logical clock and hands out the new time.
    pub fn generate_timestamp(&mut self) -> (timestamp: u64)
        requires
            old(self)@.clock < u64::MAX,
        ensures
            timestamp == old(self)@.clock + 1,
            final(self)@ == (SessionView { clock: timestamp, ..old(self)@ }),
    {
        self.clock = self.clock + 1;
        self.clock
    }

    /// Node `node_id` asks for the shared resource: its request is
    /// stamped and queued, and every other node handles it.
    pub fn request_resource(&mut self, node_id: u32)
        requires
            old(self)@.clock < u64::MAX,
        ensures
            final(self)@ == old(self)@.request_resource(node_id),
            final(self)@.same_cluster(old(self)@),
            old(self)@.tidy() ==> final(self)@.tidy(),
            old(self)@.orderly() && old(self)@.is_member(node_id) && !old(self)@.queued(node_id)
                && old(self)@.request_queue.len() <= 1 ==> final(self)@.orderly(),
    {
        proof {
            lemma_request_resource_frame(old(self)@, node_id);
            if old(self)@.tidy() {
                lemma_request_keeps_tidy(old(self)@, node_id);
            }
            if old(self)@.orderly() && old(self)@.is_member(node_id) && !old(self)@.queued(
                node_id,
            ) && old(self)@.request_queue.len() <= 1 {
                lemma_request_keeps_orderly(old(self)@, node_id);
            }
        }
        let timestamp = self.generate_timestamp();
        let request = Request { from_node_id: node_id, timestamp };
        self.request_queue.push_back(request);
        self.replies_received.insert(node_id, Vec::new());
        let ghost queued = self@;
        proof {
            assert(queued.replies_received =~= old(self)@.replies_received.insert(
                node_id,
                Seq::empty(),
            ));
        }
        let mut i: usize = 0;
        while i < self.nodes.len()
            invariant
                i <= self@.nodes.len(),
                request.from_node_id == node_id,
                self@.nodes == old(self)@.nodes,
                self@ == queued.notify_others(old(self)@.nodes.take(i as int), request),
            decreases self@.nodes.len() - i,
        {
            proof {
                assert(self@.nodes.len() == self.nodes@.len());
                assert(old(self)@.nodes.take(i + 1).drop_last() =~= old(self)@.nodes.take(
                    i as int,
                ));
                assert(old(self)@.nodes.take(i + 1).last() == self@.nodes[i as int]);
                assert(self@.nodes[i as int] == self.nodes@[i as int]@);
            }
            let other = self.nodes[i].id;
            if other != node_id {
                self.handle_request(other, request);
            }
            i = i + 1;
        }
        proof {
            assert(self@.nodes.len() == self.nodes@.len());
            assert(old(self)@.nodes.take(i as int) =~= old(self)@.nodes);
        }
    }

    /// Node `node_id` gives the shared resource up: its requests leave
    /// the queue, the answers it withheld are sent, and the replies it
    /// had received are forgotten.
    pub fn release_resource(&mut self, node_id: u32)
        ensures
            final(self)@ == old(self)@.release_resource(node_id),
            final(self)@.same_cluster(old(self)@),
            !final(self)@.queued(node_id),
            !final(self)@.replies_received.contains_key(node_id),
            old(self)@.tidy() && old(self)@.awaited_by_none(node_id) ==> final(self)@.tidy(),
            old(self)@.orderly() && old(self)@.can_access_resource(node_id)
                ==> final(self)@.orderly(),
    {
        proof {
            lemma_release_resource_frame(old(self)@, node_id);
            lemma_release_clears(old(self)@, node_id);
            if old(self)@.tidy() && old(self)@.awaited_by_none(node_id) {
                lemma_release_keeps_tidy(old(self)@, node_id);
            }
            if old(self)@.orderly() && old(self)@.can_access_resource(node_id) {
                lemma_release_keeps_orderly(old(self)@, node_id);
            }
        }
        let ghost before = self@.request_queue;
        let ghost keep = |r: Request| r.from_node_id != node_id;
        assert(without_requests_of(before, node_id) == before.filter(keep));
        let ghost mut seen: int = 0;
        let mut i: usize = 0;
        while i < self.request_queue.len()
            invariant
                0 <= i <= self.request_queue@.len(),
                seen == i + (before.len() - self.request_queue@.len()),
                i <= seen <= before.len(),
                before == old(self)@.request_queue,
                keep == |r: Request| r.from_node_id != node_id,
                self.request_queue@.take(i as int) == before.take(seen).filter(keep),
                self.request_queue@.skip(i as int) == before.skip(seen),
                self@ == (SessionView { request_queue: self.request_queue@, ..old(self)@ }),
            decreases self.request_queue@.len() - i,
        {
            let ghost current = self.request_queue@;
            proof {
                reveal(Seq::filter);
                assert(before.take(seen + 1).drop_last() =~= before.take(seen));
                assert(current.skip(i as int)[0] == before.skip(seen)[0]);
            }
            if self.request_queue[i].from_node_id == node_id {
                self.request_queue.remove(i);
                proof {
                    assert(self.request_queue@.take(i as int) =~= current.take(i as int));
                    assert(self.request_queue@.skip(i as int) =~= current.skip(i as int).skip(1));
                    assert(before.skip(seen + 1) =~= before.skip(seen).skip(1));
                }
            } else {
                i = i + 1;
                proof {
                    assert(current.take(i as int) =~= current.take(i - 1).push(current[i - 1]));
                    assert(current.skip(i as int) =~= current.skip(i - 1).skip(1));
                    assert(before.skip(seen + 1) =~= before.skip(seen).skip(1));
                }
            }
            proof {
                seen = seen + 1;
            }
        }
        proof {
            assert(self.request_queue@.take(i as int) =~= self.request_queue@);
            assert(before.take(seen) =~= before);
        }
        let withheld = self.deferred_replies.remove(&node_id);
        let ghost cleared = self@;
        proof {
            assert(cleared.deferred_replies =~= old(self)@.deferred_replies.remove(node_id));
        }
        match withheld {
            Some(deferred) => {
                assert(deferred@ == old(self)@.deferred_at(node_id));
                let mut k: usize = 0;
                while k < deferred.len()
                    invariant
                        k <= deferred@.len(),
                        self@ == cleared.send_replies(deferred@.take(k as int), node_id),
                    decreases deferred@.len() - k,
                {
                    proof {
                        assert(deferred@.take(k + 1).drop_last() =~= deferred@.take(k as int));
                    }
                    self.send_reply(deferred[k].from_node_id, node_id);
                    k = k + 1;
                }
                proof {
                    assert(deferred@.take(k as int) =~= deferred@);
                }
            },
            None => {},
        }
        let ghost answered = self@;
        self.replies_received.remove(&node_id);
        proof {
            assert(self@.replies_received =~= answered.replies_received.remove(node_id));
        }
    }

    /// The index of the node that runs the fewest processes.
    fn least_loaded_node(&self) -> (best: usize)
        requires
            self.nodes@.len() > 0,
        ensures
            best == least_loaded(self@.nodes),
            best < self.nodes@.len(),
    {
        let mut best: usize = 0;
        let mut i: usize = 1;
        while i < self.nodes.len()
            invariant
                1 <= i <= self.nodes@.len(),
                best < i,
                best == least_loaded(self@.nodes.take(i as int)),
            decreases self.nodes@.len() - i,
        {
            proof {
                assert(self@.nodes.take(i + 1).drop_last() =~= self@.nodes.take(i as int));
            }
            if self.nodes[i].active_processes.len() < self.nodes[best].active_processes.len() {
                best = i;
            }
            i = i + 1;
        }
        proof {
            assert(self@.nodes.take(i as int) =~= self@.nodes);
        }
        best
    }

    /// Places the pending processes, in order: each goes to the node that
    /// runs the fewest processes if the pool covers what it needs, and
    /// stays pending otherwise. With processes to place and no node to
    /// place them on, nothing changes and the error says so.
    pub fn assign_processes(&mut self) -> (outcome: Result<(), PlacementError>)
        ensures
            outcome is Err <==> old(self)@.nodes.len() == 0 && old(self)@.processes.len() > 0,
            final(self)@ == old(self)@.assign_processes(),
            old(self)@.conserved() ==> final(self)@.conserved(),
            old(self)@.orderly() ==> final(self)@.orderly(),
    {
        proof {
            if old(self)@.conserved() {
                lemma_assign_processes_conserves(old(self)@);
            }
            lemma_assign_processes_keeps_orderly(old(self)@);
        }
        if self.nodes.len() == 0 {
            if self.processes.len() > 0 {
                return Err(PlacementError::NoNodes);
            }
            return Ok(());
        }
        let mut pending: Vec<Process> = Vec::new();
        core::mem::swap(&mut self.processes, &mut pending);
        let ghost start = self@;
        let mut k: usize = 0;
        while k < pending.len()
            invariant
                k <= pending@.len(),
                self@.nodes.len() > 0,
                self@ == start.place_all(pending@.take(k as int)),
            decreases pending@.len() - k,
        {
            proof {
                assert(self@.nodes.len() == self.nodes@.len());
                assert(pending@.take(k + 1).drop_last() =~= pending@.take(k as int));
            }
            let ghost here = self@;
            let process = pending[k].clone();
            let target = self.least_loaded_node();
            if self.allocate_resources(&process.needed_resources) {
                self.nodes[target].active_processes.push(process);
                proof {
                    assert(self@.nodes =~= here.nodes.update(
                        target as int,
                        here.nodes[target as int].with_process(process),
                    ));
                }
            } else {
                self.processes.push(process);
            }
            k = k + 1;
        }
        proof {
            assert(pending@.take(k as int) =~= pending@);
        }
        Ok(())
    }

    /// Records the vote of `node_id` on `action`.
    pub fn cast_vote(&mut self, node_id: u32, action: Action, vote: Vote)
        ensures
            final(self)@ == old(self)@.cast_vote(node_id, action@, vote),
    {
        let mut votes = match self.pending_votes.remove(&action) {
            Some(votes) => votes,
            None => Vec::new(),
        };
        votes.push((node_id, vote));
        self.pending_votes.insert(action, votes);
        proof {
            assert(self@.pending_votes =~= old(self)@.cast_vote(
                node_id,
                action@,
                vote,
            ).pending_votes);
        }
    }

    /// The index of the first node with the id `node_id`.
    fn find_node(&self, node_id: u32) -> (found: Option<usize>)
        ensures
            match found {
                Some(i) => self@.node_position(node_id) == Some(i as int) && i < self.nodes@.len(),
                None => self@.node_position(node_id) is None,
            },
    {
        let mut i: usize = 0;
        while i < self.nodes.len()
            invariant
                i <= self.nodes@.len(),
                forall|j: int| 0 <= j < i ==> self@.nodes[j].id != node_id,
            decreases self.nodes@.len() - i,
        {
            if self.nodes[i].id == node_id {
                proof {
                    lemma_first_index(self@.nodes, |n: NodeView| n.id == node_id);
                    assert(self@.nodes[i as int].id == node_id);
                }
                return Some(i);
            }
            i = i + 1;
        }
        proof {
            lemma_first_index(self@.nodes, |n: NodeView| n.id == node_id);
        }
        None
    }

    /// Whether what the processes of the first node with the id `node_id`
    /// hold can be given back to the pool within the machine's range.
    pub fn can_reclaim(&self, node_id: u32) -> (ok: bool)
        ensures
            ok == self@.can_reclaim(node_id),
    {
        match self.find_node(node_id) {
            Some(i) => {
                let ghost running = self@.nodes[i as int].active_processes;
                let mut pool = self.available_resources;
                let mut k: usize = 0;
                while k < self.nodes[i].active_processes.len()
                    invariant
                        i < self.nodes@.len(),
                        self@.node_position(node_id) == Some(i as int),
                        running == self@.nodes[i as int].active_processes,
                        running == self.nodes@[i as int].active_processes@,
                        k <= running.len(),
                        fits(self.available_resources, demand(running.take(k as int))),
                        pool == grown(self.available_resources, demand(running.take(k as int))),
                    decreases running.len() - k,
                {
                    proof {
                        assert(running.take(k + 1).drop_last() =~= running.take(k as int));
                        assert(running.take(k + 1).last() == running[k as int]);
                        lemma_demand_prefix(running, k + 1);
                        lemma_demand_prefix(running, k as int);
                    }
                    if !pool.has_room_for(&self.nodes[i].active_processes[k].needed_resources) {
                        return false;
                    }
                    pool.deallocate(&self.nodes[i].active_processes[k].needed_resources);
                    k = k + 1;
                }
                proof {
                    assert(running.take(k as int) =~= running);
                }
                true
            },
            None => true,
        }
    }

    /// Whether `action` can be executed within the machine's range.
    pub fn can_execute(&self, action: &Action) -> (ok: bool)
        ensures
            ok == self@.can_execute(action@),
    {
        match action {
            Action::ProcessFailure { node_id, .. } => self.can_reclaim(*node_id),
            Action::NodeFailure { node_id, .. } => self.can_reclaim(*node_id),
            Action::RedistributeProcess { .. } => true,
        }
    }

    /// Takes a failed node out of the cluster. The processes of the first
    /// node with the id `node_id` give back what they hold and become
    /// pending again; every node with that id leaves; a fresh node with
    /// the same id joins where the session reinstalls.
    pub fn handle_node_failure(&mut self, node_id: u32, reason: String)
        requires
            old(self)@.can_reclaim(node_id),
        ensures
            final(self)@ == old(self)@.handle_node_failure(node_id),
            old(self)@.conserved() && old(self)@.ids_unique() ==> final(self)@.conserved()
                && final(self)@.ids_unique(),
    {
        proof {
            if old(self)@.conserved() && old(self)@.ids_unique() {
                lemma_handle_node_failure_conserves(old(self)@, node_id);
            }
        }
        let _ = reason;
        match self.find_node(node_id) {
            Some(i) => {
                let ghost running = self@.nodes[i as int].active_processes;
                let mut k: usize = 0;
                while k < self.nodes[i].active_processes.len()
                    invariant
                        i < self.nodes@.len(),
                        self.nodes@ == old(self).nodes@,
                        running == old(self)@.nodes[i as int].active_processes,
                        running == self.nodes@[i as int].active_processes@,
                        k <= running.len(),
                        fits(old(self)@.available_resources, demand(running)),
                        self@ == (SessionView {
                            available_resources: grown(
                                old(self)@.available_resources,
                                demand(running.take(k as int)),
                            ),
                            processes: old(self)@.processes + running.take(k as int),
                            ..old(self)@
                        }),
                    decreases running.len() - k,
                {
                    let process = self.nodes[i].active_processes[k].clone();
                    proof {
                        assert(running.take(k + 1).drop_last() =~= running.take(k as int));
                        lemma_demand_prefix(running, k as int);
                        lemma_demand_prefix(running, k + 1);
                    }
                    self.available_resources.deallocate(&process.needed_resources);
                    self.processes.push(process);
                    k = k + 1;
                    proof {
                        assert(self@.processes =~= old(self)@.processes + running.take(k as int));
                    }
                }
                proof {
                    assert(running.take(k as int) =~= running);
                }
            },
            None => {},
        }
        self.remove_node(node_id);
        if self.reinstall_on_failure {
            self.add_node(Node::new(node_id));
        }
    }

    /// Carries out an action that the cluster has approved.
    pub fn execute_action(&mut self, action: Action)
        requires
            old(self)@.can_execute(action@),
        ensures
            final(self)@ == old(self)@.execute_action(action@),
            old(self)@.conserved() && old(self)@.ids_unique() ==> final(self)@.conserved()
                && final(self)@.ids_unique(),
    {
        proof {
            if old(self)@.conserved() && old(self)@.ids_unique() {
                lemma_execute_action_conserves(old(self)@, action@);
            }
        }
        match action {
            Action::ProcessFailure { node_id, reason } => {
                self.handle_node_failure(node_id, reason);
            },
            Action::NodeFailure { node_id, reason } => {
                self.handle_node_failure(node_id, reason);
            },
            Action::RedistributeProcess { .. } => {},
        }
    }

    /// How many of the votes approve.
    fn count_approvals(votes: &Vec<(u32, Vote)>) -> (yes: usize)
        ensures
            yes == approvals(votes@),
            yes <= votes@.len(),
    {
        let mut yes: usize = 0;
        let mut i: usize = 0;
        while i < votes.len()
            invariant
                i <= votes@.len(),
                yes <= i,
                yes == approvals(votes@.take(i as int)),
            decreases votes@.len() - i,
        {
            proof {
                reveal(Seq::filter);
                assert(votes@.take(i + 1).drop_last() =~= votes@.take(i as int));
            }
            if votes[i].1 == Vote::Approve {
                yes = yes + 1;
            }
            i = i + 1;
        }
        proof {
            assert(votes@.take(i as int) =~= votes@);
        }
        yes
    }

    /// Counts the votes on `action`. With more approvals than half the
    /// number of nodes the action is executed and its votes are dropped;
    /// with more rejections than that its votes are dropped; otherwise,
    /// and where no vote on it is recorded, nothing changes.
    pub fn check_consensus(&mut self, action: Action)
        requires
            old(self)@.can_execute(action@),
        ensures
            final(self)@ == old(self)@.check_consensus(action@),
            !old(self)@.approved(action@) ==> final(self)@.nodes == old(self)@.nodes
                && final(self)@.processes == old(self)@.processes
                && final(self)@.available_resources == old(self)@.available_resources,
            old(self)@.conserved() && old(self)@.ids_unique() ==> final(self)@.conserved()
                && final(self)@.ids_unique(),
    {
        proof {
            if old(self)@.conserved() && old(self)@.ids_unique() {
                lemma_check_consensus_conserves(old(self)@, action@);
            }
        }
        let (cast, yes) = match self.pending_votes.get(&action) {
            Some(votes) => (votes.len(), Self::count_approvals(votes)),
            None => {
                return ;
            },
        };
        let half = self.nodes.len() / 2;
        if yes > half {
            self.execute_action(action.clone());
            let ghost done = self@;
            self.pending_votes.remove(&action);
            proof {
                assert(self@.pending_votes =~= done.pending_votes.remove(action@));
            }
        } else if cast - yes > half {
            self.pending_votes.remove(&action);
            proof {
                assert(self@.pending_votes =~= old(self)@.pending_votes.remove(action@));
            }
        }
    }

    /// Puts `action` to the vote on behalf of `proposer_id`: the proposer
    /// approves, every other node that has not halted is told of the
    /// action and votes by the validation rule, and the votes are counted.
    pub fn initiate_voting(&mut self, proposer_id: u32, action: Action)
        requires
            old(self)@.can_execute(action@),
        ensures
            final(self)@ == old(self)@.initiate_voting(proposer_id, action@),
            old(self)@.conserved() && old(self)@.ids_unique() ==> final(self)@.conserved()
                && final(self)@.ids_unique(),
    {
        proof {
            if old(self)@.conserved() && old(self)@.ids_unique() {
                lemma_initiate_voting_conserves(old(self)@, proposer_id, action@);
            }
        }
        let mut seed: Vec<(u32, Vote)> = Vec::new();
        seed.push((proposer_id, Vote::Approve));
        self.pending_votes.insert(action.clone(), seed);
        let ghost seeded = self@;
        let ghost members = old(self)@.nodes;
        proof {
            assert(seeded.pending_votes =~= old(self)@.pending_votes.insert(
                action@,
                seq![(proposer_id, Vote::Approve)],
            ));
        }
        let mut collected: Vec<(u32, Vote)> = Vec::new();
        let mut i: usize = 0;
        while i < self.nodes.len()
            invariant
                i <= self.nodes@.len(),
                self.nodes@.len() == members.len(),
                members == old(self)@.nodes,
                collected@ == ballots(members.take(i as int), proposer_id, action@),
                self@.nodes.take(i as int) == informed(
                    members.take(i as int),
                    proposer_id,
                    action@,
                ),
                self@.nodes.skip(i as int) == members.skip(i as int),
                self@ == (SessionView { nodes: self@.nodes, ..seeded }),
            decreases self.nodes@.len() - i,
        {
            let ghost current = self@.nodes;
            let ghost polled = collected@;
            proof {
                reveal(Seq::filter);
                assert(members.take(i + 1).drop_last() =~= members.take(i as int));
                assert(current.skip(i as int)[0] == members.skip(i as int)[0]);
            }
            if self.nodes[i].id != proposer_id && self.nodes[i].status != NodeStatus::Halted {
                let vote = self.nodes[i].receive_proposal(action.clone());
                collected.push((self.nodes[i].id, vote));
                proof {
                    assert(self@.nodes =~= current.update(
                        i as int,
                        members[i as int].learn(action@),
                    ));
                    assert(collected@ =~= ballots(members.take(i + 1), proposer_id, action@));
                }
            }
            i = i + 1;
            proof {
                assert(self@.nodes.take(i as int) =~= current.take(i - 1).push(
                    self@.nodes[i - 1],
                ));
                assert(self@.nodes.take(i as int) =~= informed(
                    members.take(i as int),
                    proposer_id,
                    action@,
                ));
                assert(self@.nodes.skip(i as int) =~= current.skip(i - 1).skip(1));
                assert(members.skip(i as int) =~= members.skip(i - 1).skip(1));
            }
        }
        proof {
            assert(members.take(i as int) =~= members);
            assert(self@.nodes.take(i as int) =~= self@.nodes);
        }
        let ghost told = self@;
        proof {
            assert(seq![(proposer_id, Vote::Approve)] + collected@.take(0) =~= seq![
                (proposer_id, Vote::Approve),
            ]);
            assert(told.pending_votes.insert(action@, seq![(proposer_id, Vote::Approve)])
                =~= told.pending_votes);
        }
        let mut k: usize = 0;
        while k < collected.len()
            invariant
                k <= collected@.len(),
                told.pending_votes.contains_key(action@),
                told.pending_votes[action@] == seq![(proposer_id, Vote::Approve)],
                self@ == (SessionView {
                    pending_votes: told.pending_votes.insert(
                        action@,
                        seq![(proposer_id, Vote::Approve)] + collected@.take(k as int),
                    ),
                    ..told
                }),
            decreases collected@.len() - k,
        {
            let ghost counted = self@;
            self.cast_vote(collected[k].0, action.clone(), collected[k].1);
            k = k + 1;
            proof {
                assert(counted.votes_on(action@).push(collected@[k - 1]) =~= seq![
                    (proposer_id, Vote::Approve),
                ] + collected@.take(k as int));
                assert(self@.pending_votes =~= told.pending_votes.insert(
                    action@,
                    seq![(proposer_id, Vote::Approve)] + collected@.take(k as int),
                ));
            }
        }
        proof {
            assert(collected@.take(k as int) =~= collected@);
            assert(self@.pending_votes =~= old(self)@.collect_votes(
                proposer_id,
                action@,
            ).pending_votes);
            old(self)@.lemma_collect_votes_keeps_load(proposer_id, action@, 0);
        }
        self.check_consensus(action);
    }

    /// Whether every other node has answered the request of `node_id`.
    /// In an orderly session no two node ids are granted access at once.
    pub fn can_access_resource(&self, node_id: u32) -> (granted: bool)
        ensures
            granted == self@.can_access_resource(node_id),
            granted && self@.orderly() ==> forall|other: u32| #[trigger]
                self@.can_access_resource(other) ==> other == node_id,
    {
        proof {
            if self@.orderly() && self@.can_access_resource(node_id) {
                assert forall|other: u32| #[trigger]
                    self@.can_access_resource(other) implies other == node_id by {
                    lemma_mutex_safety(self@, other, node_id);
                }
            }
        }
        match self.replies_received.get(&node_id) {
            Some(replies) => self.nodes.len() > 0 && replies.len() == self.nodes.len() - 1,
            None => false,
        }
    }
}

} // verus!
