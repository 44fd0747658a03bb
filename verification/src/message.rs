use vstd::prelude::*;
use vstd::std_specs::cmp::PartialEqSpecImpl;

verus! {

/// A node's answer to a proposal.
#[derive(Clone, Copy, Debug, PartialEq, Eq, Hash, Structural)]
pub enum Vote {
    Approve,
    Reject,
}

/// An administrative proposal that needs the cluster's consent.
#[derive(Debug, Eq, Hash)]
pub enum Action {
    ProcessFailure { node_id: u32, reason: String },
    NodeFailure { node_id: u32, reason: String },
    RedistributeProcess { process_id: u32 },
}

/// What an `Action` says: its variant and fields, with the reason as text.
pub enum ActionView {
    ProcessFailure { node_id: u32, reason: Seq<char> },
    NodeFailure { node_id: u32, reason: Seq<char> },
    RedistributeProcess { process_id: u32 },
}

impl View for Action {
    type V = ActionView;

    open spec fn view(&self) -> ActionView {
        match *self {
            Action::ProcessFailure { node_id, reason } => ActionView::ProcessFailure {
                node_id,
                reason: reason@,
            },
            Action::NodeFailure { node_id, reason } => ActionView::NodeFailure {
                node_id,
                reason: reason@,
            },
            Action::RedistributeProcess { process_id } => ActionView::RedistributeProcess {
                process_id,
            },
        }
    }
}

impl Clone for Action {
    fn clone(&self) -> (copy: Self)
        ensures
            copy == *self,
    {
        match self {
            Action::ProcessFailure { node_id, reason } => Action::ProcessFailure {
                node_id: *node_id,
                reason: reason.clone(),
            },
            Action::NodeFailure { node_id, reason } => Action::NodeFailure {
                node_id: *node_id,
                reason: reason.clone(),
            },
            Action::RedistributeProcess { process_id } => Action::RedistributeProcess {
                process_id: *process_id,
            },
        }
    }
}

impl PartialEq for Action {
    fn eq(&self, other: &Action) -> (same: bool) {
        match (self, other) {
            (
                Action::ProcessFailure { node_id: a, reason: r },
                Action::ProcessFailure { node_id: b, reason: s },
            ) => *a == *b && *r == *s,
            (
                Action::NodeFailure { node_id: a, reason: r },
                Action::NodeFailure { node_id: b, reason: s },
            ) => *a == *b && *r == *s,
            (
                Action::RedistributeProcess { process_id: a },
                Action::RedistributeProcess { process_id: b },
            ) => *a == *b,
            _ => false,
        }
    }
}

impl PartialEqSpecImpl for Action {
    open spec fn obeys_eq_spec() -> bool {
        true
    }

    open spec fn eq_spec(&self, other: &Action) -> bool {
        self@ == other@
    }
}

/// A request for the shared resource, stamped by the session's clock.
#[derive(Clone, Copy, Debug, PartialEq, Eq, Structural)]
pub struct Request {
    pub from_node_id: u32,
    pub timestamp: u64,
}

} // verus!
