use crate::action_map::ActionMap;
use crate::message::{Action, ActionView, Vote};
use crate::process::Process;
use crate::session::Session;
use crate::sequences::{first_index, lemma_first_index};
use vstd::prelude::*;

verus! {

#[derive(Clone, Copy, Debug, PartialEq, Eq, Structural)]
pub enum NodeStatus {
    Active,
    Halted,
    Recovering,
}

/// A participant of the cluster: it runs processes and votes on proposals.
#[derive(Clone, Debug, PartialEq)]
pub struct Node {
    pub id: u32,
    pub active_processes: Vec<Process>,
    pub timestamp: u64,
    pub status: NodeStatus,
    pub last_heartbeat: u64,
    pub known_actions: ActionMap<bool>,
}

/// A node as contracts see it: its processes as a sequence and the set of
/// actions it has been told of.
pub struct NodeView {
    pub id: u32,
    pub active_processes: Seq<Process>,
    pub timestamp: u64,
    pub status: NodeStatus,
    pub last_heartbeat: u64,
    pub known_actions: Set<ActionView>,
}

impl View for Node {
    type V = NodeView;

    open spec fn view(&self) -> NodeView {
        NodeView {
            id: self.id,
            active_processes: self.active_processes@,
            timestamp: self.timestamp,
            status: self.status,
            last_heartbeat: self.last_heartbeat,
            known_actions: self.known_actions@.dom(),
        }
    }
}

impl NodeView {
    /// An active node that runs nothing and knows of no action.
    pub open spec fn fresh(id: u32) -> NodeView {
        NodeView {
            id,
            active_processes: Seq::empty(),
            timestamp: 0,
            status: NodeStatus::Active,
            last_heartbeat: 0,
            known_actions: Set::empty(),
        }
    }

    /// The node once it has been told of `action`.
    pub open spec fn learn(self, action: ActionView) -> NodeView {
        NodeView { known_actions: self.known_actions.insert(action), ..self }
    }

    /// The node with `process` added at the end of what it runs.
    pub open spec fn with_process(self, process: Process) -> NodeView {
        NodeView { active_processes: self.active_processes.push(process), ..self }
    }

    /// The node without the first of its processes that has the id
    /// `process_id`; unchanged if it runs none with that id.
    pub open spec fn without_process(self, process_id: u32) -> NodeView {
        match first_index(self.active_processes, |p: Process| p.id == process_id) {
            Some(i) => NodeView { active_processes: self.active_processes.remove(i), ..self },
            None => self,
        }
    }
}

/// `needle` occurs in `text` as a run of consecutive characters.
pub open spec fn occurs_in(needle: Seq<char>, text: Seq<char>) -> bool {
    exists|i: int|
        0 <= i && i + needle.len() <= text.len() && #[trigger] text.subrange(
            i,
            i + needle.len(),
        ) == needle
}

/// The validation rule by which every node votes: a process failure is
/// rejected if its reason mentions "critical", a node failure if its reason
/// mentions "hardware"; everything else is approved.
pub open spec fn vote_policy(action: ActionView) -> Vote {
    match action {
        ActionView::ProcessFailure { reason, .. } => if occurs_in("critical"@, reason) {
            Vote::Reject
        } else {
            Vote::Approve
        },
        ActionView::NodeFailure { reason, .. } => if occurs_in("hardware"@, reason) {
            Vote::Reject
        } else {
            Vote::Approve
        },
        ActionView::RedistributeProcess { .. } => Vote::Approve,
    }
}

/// `str::contains` with a string as the pattern. Trusted: the result is
/// true exactly when the pattern's characters occur in `text` one after
/// another, starting at some position.
#[verifier::external_body]
fn text_contains(text: &str, needle: &str) -> (found: bool)
    ensures
        found == occurs_in(needle@, text@),
{
    text.contains(needle)
}

impl Node {
    pub fn new(id: u32) -> (node: Self)
        ensures
            node@ == NodeView::fresh(id),
    {
        Node {
            id,
            active_processes: Vec::new(),
            timestamp: 0,
            status: NodeStatus::Active,
            last_heartbeat: 0,
            known_actions: ActionMap::new(),
        }
    }

    /// Takes note of a proposed action and answers it by the validation
    /// rule. The answer depends on the action alone.
    pub fn receive_proposal(&mut self, action: Action) -> (vote: Vote)
        ensures
            vote == vote_policy(action@),
            final(self)@ == old(self)@.learn(action@),
    {
        self.vote(action)
    }

    /// Records `action` as known and validates it.
    pub fn vote(&mut self, action: Action) -> (vote: Vote)
        ensures
            vote == vote_policy(action@),
            final(self)@ == old(self)@.learn(action@),
    {
        self.known_actions.insert(action.clone(), true);
        assert(self@.known_actions =~= old(self)@.known_actions.insert(action@));
        match &action {
            Action::ProcessFailure { reason, .. } => {
                if text_contains(reason.as_str(), "critical") {
                    Vote::Reject
                } else {
                    Vote::Approve
                }
            },
            Action::NodeFailure { reason, .. } => {
                if text_contains(reason.as_str(), "hardware") {
                    Vote::Reject
                } else {
                    Vote::Approve
                }
            },
            Action::RedistributeProcess { .. } => Vote::Approve,
        }
    }

    /// Forgets the first process with the id `process_id`, if the node
    /// runs one. What that process held stays accounted for in the
    /// session's pool.
    pub fn handle_process_failure(&mut self, process_id: u32, reason: String)
        ensures
            final(self)@ == old(self)@.without_process(process_id),
    {
        let _ = reason;
        let mut i: usize = 0;
        while i < self.active_processes.len()
            invariant
                *self == *old(self),
                i <= self.active_processes@.len(),
                forall|j: int| 0 <= j < i ==> self.active_processes@[j].id != process_id,
            decreases self.active_processes@.len() - i,
        {
            if self.active_processes[i].id == process_id {
                proof {
                    lemma_first_index(self.active_processes@, |p: Process| p.id == process_id);
                }
                self.active_processes.remove(i);
                return ;
            }
            i = i + 1;
        }
        proof {
            lemma_first_index(self.active_processes@, |p: Process| p.id == process_id);
        }
    }

    /// Puts `action` to the session's vote in this node's name.
    pub fn propose_action(&mut self, session: &mut Session, action: Action)
        requires
            old(session)@.can_execute(action@),
        ensures
            *final(self) == *old(self),
            final(session)@ == old(session)@.initiate_voting(old(self).id, action@),
    {
        session.initiate_voting(self.id, action);
    }

    /// Reports this node's own failure to the session, which votes on it.
    pub fn handle_failure(&self, session: &mut Session, reason: String)
        requires
            old(session)@.can_reclaim(self.id),
        ensures
            final(session)@ == old(session)@.initiate_voting(
                self.id,
                (Action::NodeFailure { node_id: self.id, reason })@,
            ),
    {
        session.initiate_voting(self.id, Action::NodeFailure { node_id: self.id, reason });
    }

    /// Halts this node and reports its failure to the session.
    pub fn halt(&mut self, session: &mut Session, reason: String)
        requires
            old(session)@.can_reclaim(old(self).id),
        ensures
            final(self)@ == (NodeView { status: NodeStatus::Halted, ..old(self)@ }),
            final(session)@ == old(session)@.initiate_voting(
                old(self).id,
                (Action::NodeFailure { node_id: old(self).id, reason })@,
            ),
    {
        self.status = NodeStatus::Halted;
        self.handle_failure(session, reason);
    }

    /// The proposal by which this node reports a failure it has seen.
    pub fn detect_and_report_failure(&mut self, reason: String) -> (action: Action)
        ensures
            action == (Action::ProcessFailure { node_id: old(self).id, reason }),
            *final(self) == *old(self),
    {
        Action::ProcessFailure { node_id: self.id, reason }
    }
}

} // verus!
