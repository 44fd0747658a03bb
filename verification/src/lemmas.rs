//! Facts about sums, filters and counts that the laws rest on.

use crate::message::{ActionView, Request};
use crate::model::{
    demand, has_id, has_request_of, ids_distinct, informed, load, occurrences, position_of,
    without_id, without_requests_of, Amount,
};
use crate::node::NodeView;
use crate::process::Process;
use crate::sequences::lemma_first_index;
use vstd::prelude::*;

verus! {

/// No component of a demand is negative.
pub proof fn lemma_demand_nonnegative(processes: Seq<Process>)
    ensures
        demand(processes).ram >= 0,
        demand(processes).disk_space >= 0,
        demand(processes).threads >= 0,
    decreases processes.len(),
{
    if processes.len() > 0 {
        lemma_demand_nonnegative(processes.drop_last());
    }
}

/// The first `k` processes need no more than all of them.
pub proof fn lemma_demand_prefix(processes: Seq<Process>, k: int)
    requires
        0 <= k <= processes.len(),
    ensures
        0 <= demand(processes.take(k)).ram <= demand(processes).ram,
        0 <= demand(processes.take(k)).disk_space <= demand(processes).disk_space,
        0 <= demand(processes.take(k)).threads <= demand(processes).threads,
    decreases processes.len(),
{
    lemma_demand_nonnegative(processes.take(k));
    if k == processes.len() {
        assert(processes.take(k) =~= processes);
    } else {
        assert(processes.drop_last().take(k) =~= processes.take(k));
        lemma_demand_prefix(processes.drop_last(), k);
    }
}

/// Adding a process at the end adds what it needs.
pub proof fn lemma_demand_push(processes: Seq<Process>, process: Process)
    ensures
        demand(processes.push(process)) == demand(processes).plus(
            Amount::of(process.needed_resources),
        ),
{
    assert(processes.push(process).drop_last() =~= processes);
}

/// No component of a load is negative.
pub proof fn lemma_load_nonnegative(nodes: Seq<NodeView>)
    ensures
        load(nodes).ram >= 0,
        load(nodes).disk_space >= 0,
        load(nodes).threads >= 0,
    decreases nodes.len(),
{
    if nodes.len() > 0 {
        lemma_load_nonnegative(nodes.drop_last());
        lemma_demand_nonnegative(nodes.last().active_processes);
    }
}

/// Replacing one node changes the load by the difference of what the two
/// run.
pub proof fn lemma_load_update(nodes: Seq<NodeView>, i: int, node: NodeView)
    requires
        0 <= i < nodes.len(),
    ensures
        load(nodes.update(i, node)).plus(demand(nodes[i].active_processes)) == load(nodes).plus(
            demand(node.active_processes),
        ),
    decreases nodes.len(),
{
    let changed = nodes.update(i, node);
    if i == nodes.len() - 1 {
        assert(changed.drop_last() =~= nodes.drop_last());
    } else {
        assert(changed.drop_last() =~= nodes.drop_last().update(i, node));
        lemma_load_update(nodes.drop_last(), i, node);
    }
}

/// What one node's processes hold is part of the load.
pub proof fn lemma_load_bounds_node(nodes: Seq<NodeView>, i: int)
    requires
        0 <= i < nodes.len(),
    ensures
        0 <= demand(nodes[i].active_processes).ram <= load(nodes).ram,
        0 <= demand(nodes[i].active_processes).disk_space <= load(nodes).disk_space,
        0 <= demand(nodes[i].active_processes).threads <= load(nodes).threads,
    decreases nodes.len(),
{
    lemma_demand_nonnegative(nodes[i].active_processes);
    lemma_demand_nonnegative(nodes.last().active_processes);
    lemma_load_nonnegative(nodes.drop_last());
    if i < nodes.len() - 1 {
        lemma_load_bounds_node(nodes.drop_last(), i);
    }
}

/// Nodes that run nothing hold nothing.
pub proof fn lemma_idle_nodes_hold_nothing(nodes: Seq<NodeView>)
    requires
        forall|i: int| 0 <= i < nodes.len() ==> (#[trigger] nodes[i]).active_processes.len() == 0,
    ensures
        load(nodes) == Amount::zero(),
    decreases nodes.len(),
{
    if nodes.len() > 0 {
        let init = nodes.drop_last();
        assert forall|i: int| 0 <= i < init.len() implies (#[trigger] init[i]).active_processes.len()
            == 0 by {
            assert(init[i] == nodes[i]);
        }
        lemma_idle_nodes_hold_nothing(init);
        assert(nodes[nodes.len() - 1].active_processes.len() == 0);
    }
}

/// Where ids are unique, taking out the nodes with one id takes out what
/// the first of them runs, and nothing where none has the id.
pub proof fn lemma_load_without_id(nodes: Seq<NodeView>, node_id: u32)
    requires
        ids_distinct(nodes),
    ensures
        match position_of(nodes, node_id) {
            Some(i) => load(without_id(nodes, node_id)).plus(demand(nodes[i].active_processes))
                == load(nodes),
            None => without_id(nodes, node_id) == nodes,
        },
    decreases nodes.len(),
{
    reveal(Seq::filter);
    let wanted = |n: NodeView| n.id == node_id;
    if nodes.len() > 0 {
        let init = nodes.drop_last();
        lemma_load_without_id(init, node_id);
        lemma_first_index(init, wanted);
        lemma_first_index(nodes, wanted);
        match position_of(init, node_id) {
            Some(i) => {
                assert(init[i] == nodes[i]);
                assert(nodes.last().id != node_id);
                assert(without_id(nodes, node_id).drop_last() =~= without_id(init, node_id));
            },
            None => {
                if nodes.last().id == node_id {
                    assert(without_id(nodes, node_id) == init);
                } else {
                    assert(without_id(nodes, node_id) =~= nodes);
                }
            },
        }
    }
}

/// Taking out nodes that run nothing leaves the load as it is.
pub proof fn lemma_load_without_idle(nodes: Seq<NodeView>, node_id: u32)
    requires
        forall|i: int|
            0 <= i < nodes.len() && (#[trigger] nodes[i]).id == node_id
                ==> nodes[i].active_processes.len() == 0,
    ensures
        load(without_id(nodes, node_id)) == load(nodes),
    decreases nodes.len(),
{
    reveal(Seq::filter);
    if nodes.len() > 0 {
        let init = nodes.drop_last();
        assert forall|i: int|
            0 <= i < init.len() && (#[trigger] init[i]).id == node_id implies init[
            i
        ].active_processes.len() == 0 by {
            assert(init[i] == nodes[i]);
        }
        lemma_load_without_idle(init, node_id);
        if nodes.last().id == node_id {
            assert(nodes[nodes.len() - 1].active_processes.len() == 0);
        } else {
            assert(without_id(nodes, node_id).drop_last() =~= without_id(init, node_id));
        }
    }
}

/// The nodes left after one id was taken out are nodes of before, none
/// of them with the id taken out, and their ids are unique where the ids
/// were unique before.
pub proof fn lemma_without_id(nodes: Seq<NodeView>, node_id: u32)
    ensures
        forall|i: int|
            0 <= i < without_id(nodes, node_id).len() ==> (#[trigger] without_id(
                nodes,
                node_id,
            )[i]).id != node_id,
        forall|i: int|
            0 <= i < without_id(nodes, node_id).len() ==> exists|k: int|
                0 <= k < nodes.len() && nodes[k] == #[trigger] without_id(nodes, node_id)[i],
        ids_distinct(nodes) ==> ids_distinct(without_id(nodes, node_id)),
    decreases nodes.len(),
{
    reveal(Seq::filter);
    if nodes.len() > 0 {
        let init = nodes.drop_last();
        lemma_without_id(init, node_id);
        let kept = without_id(nodes, node_id);
        let kept_init = without_id(init, node_id);
        assert forall|i: int| 0 <= i < kept.len() implies exists|k: int|
            0 <= k < nodes.len() && nodes[k] == #[trigger] kept[i] by {
            if i < kept_init.len() {
                let k = choose|k: int| 0 <= k < init.len() && init[k] == kept_init[i];
                assert(nodes[k] == kept[i]);
            } else {
                assert(nodes[nodes.len() - 1] == kept[i]);
            }
        }
        if ids_distinct(nodes) {
            assert(ids_distinct(init)) by {
                assert forall|i: int, j: int| 0 <= i < j < init.len() implies init[i].id
                    != init[j].id by {
                    assert(init[i] == nodes[i] && init[j] == nodes[j]);
                }
            }
            assert forall|i: int, j: int| 0 <= i < j < kept.len() implies kept[i].id
                != kept[j].id by {
                if j == kept_init.len() {
                    let k = choose|k: int| 0 <= k < init.len() && init[k] == kept_init[i];
                    assert(nodes[k].id != nodes[nodes.len() - 1].id);
                }
            }
        }
    }
}

/// As many nodes leave with an id as have it.
pub proof fn lemma_without_id_len(nodes: Seq<NodeView>, node_id: u32)
    ensures
        without_id(nodes, node_id).len() + occurrences(nodes, node_id) == nodes.len(),
    decreases nodes.len(),
{
    reveal(Seq::filter);
    if nodes.len() > 0 {
        lemma_without_id_len(nodes.drop_last(), node_id);
    }
}

/// A node with another id than the one taken out stays.
pub proof fn lemma_without_id_keeps(nodes: Seq<NodeView>, node_id: u32, other: u32)
    requires
        other != node_id,
        has_id(nodes, other),
    ensures
        has_id(without_id(nodes, node_id), other),
    decreases nodes.len(),
{
    reveal(Seq::filter);
    let kept = without_id(nodes, node_id);
    let i = choose|i: int| 0 <= i < nodes.len() && (#[trigger] nodes[i]).id == other;
    if i == nodes.len() - 1 {
        assert(kept[kept.len() - 1].id == other);
    } else {
        let init = nodes.drop_last();
        assert(init[i].id == other);
        lemma_without_id_keeps(init, node_id, other);
        let kept_init = without_id(init, node_id);
        let k = choose|k: int| 0 <= k < kept_init.len() && (#[trigger] kept_init[k]).id == other;
        assert(kept[k].id == other);
    }
}

/// Among nodes with unique ids an id occurs once or not at all.
pub proof fn lemma_occurrences_unique(nodes: Seq<NodeView>, node_id: u32)
    requires
        ids_distinct(nodes),
    ensures
        occurrences(nodes, node_id) == if has_id(nodes, node_id) {
            1nat
        } else {
            0nat
        },
    decreases nodes.len(),
{
    if nodes.len() > 0 {
        let init = nodes.drop_last();
        assert(ids_distinct(init)) by {
            assert forall|i: int, j: int| 0 <= i < j < init.len() implies init[i].id
                != init[j].id by {
                assert(init[i] == nodes[i] && init[j] == nodes[j]);
            }
        }
        lemma_occurrences_unique(init, node_id);
        if has_id(init, node_id) {
            let i = choose|i: int| 0 <= i < init.len() && (#[trigger] init[i]).id == node_id;
            assert(nodes[i].id == node_id);
            assert(nodes[i].id != nodes[nodes.len() - 1].id);
        }
        if nodes.last().id == node_id {
            assert(nodes[nodes.len() - 1].id == node_id);
        }
        if has_id(nodes, node_id) && nodes.last().id != node_id {
            let i = choose|i: int| 0 <= i < nodes.len() && (#[trigger] nodes[i]).id == node_id;
            assert(init[i].id == node_id);
        }
    }
}

/// No id occurs more often than there are nodes, and two different ids
/// together do not either.
pub proof fn lemma_occurrences_bound(nodes: Seq<NodeView>, a: u32, b: u32)
    ensures
        occurrences(nodes, a) <= nodes.len(),
        a != b ==> occurrences(nodes, a) + occurrences(nodes, b) <= nodes.len(),
    decreases nodes.len(),
{
    if nodes.len() > 0 {
        lemma_occurrences_bound(nodes.drop_last(), a, b);
    }
}

/// Telling nodes of an action changes neither their ids, nor what they
/// run, nor their load.
pub proof fn lemma_informed(nodes: Seq<NodeView>, proposer: u32, action: ActionView)
    ensures
        informed(nodes, proposer, action).len() == nodes.len(),
        forall|i: int|
            0 <= i < nodes.len() ==> (#[trigger] informed(nodes, proposer, action)[i]).id
                == nodes[i].id,
        forall|i: int|
            0 <= i < nodes.len() ==> (#[trigger] informed(
                nodes,
                proposer,
                action,
            )[i]).active_processes == nodes[i].active_processes,
        load(informed(nodes, proposer, action)) == load(nodes),
        ids_distinct(nodes) ==> ids_distinct(informed(nodes, proposer, action)),
    decreases nodes.len(),
{
    if nodes.len() > 0 {
        lemma_informed(nodes.drop_last(), proposer, action);
        assert(informed(nodes, proposer, action).drop_last() =~= informed(
            nodes.drop_last(),
            proposer,
            action,
        ));
    }
}

/// The queue without the requests of one node holds the requests of
/// exactly the other nodes that had one in it.
pub proof fn lemma_without_requests_of(queue: Seq<Request>, node_id: u32, other: u32)
    ensures
        has_request_of(without_requests_of(queue, node_id), other) <==> other != node_id
            && has_request_of(queue, other),
    decreases queue.len(),
{
    reveal(Seq::filter);
    if queue.len() > 0 {
        let init = queue.drop_last();
        let kept = without_requests_of(queue, node_id);
        let kept_init = without_requests_of(init, node_id);
        lemma_without_requests_of(init, node_id, other);
        if has_request_of(kept, other) {
            let i = choose|i: int| 0 <= i < kept.len() && (#[trigger] kept[i]).from_node_id == other;
            if i < kept_init.len() {
                assert(kept_init[i].from_node_id == other);
                let k = choose|k: int|
                    0 <= k < init.len() && (#[trigger] init[k]).from_node_id == other;
                assert(queue[k].from_node_id == other);
            } else {
                assert(queue[queue.len() - 1].from_node_id == other);
            }
        }
        if other != node_id && has_request_of(queue, other) {
            let k = choose|k: int|
                0 <= k < queue.len() && (#[trigger] queue[k]).from_node_id == other;
            if k < init.len() {
                assert(init[k].from_node_id == other);
                let i = choose|i: int|
                    0 <= i < kept_init.len() && (#[trigger] kept_init[i]).from_node_id == other;
                assert(kept[i].from_node_id == other);
            } else {
                assert(kept[kept.len() - 1].from_node_id == other);
            }
        }
    }
}

/// The queue without the requests of the node at its head, where the
/// queue holds at most two requests, of different nodes.
pub proof fn lemma_head_leaves_queue(queue: Seq<Request>)
    requires
        1 <= queue.len() <= 2,
        queue.len() == 2 ==> queue[0].from_node_id != queue[1].from_node_id,
    ensures
        without_requests_of(queue, queue[0].from_node_id) == queue.drop_first(),
{
    reveal_with_fuel(Seq::filter, 3);
    let node_id = queue[0].from_node_id;
    if queue.len() == 1 {
        assert(queue.drop_last() =~= Seq::<Request>::empty());
        assert(without_requests_of(queue, node_id) =~= queue.drop_first());
    } else {
        assert(queue.drop_last().drop_last() =~= Seq::<Request>::empty());
        assert(queue.drop_last().last() == queue[0]);
        assert(without_requests_of(queue, node_id) =~= queue.drop_first());
    }
}

} // verus!
