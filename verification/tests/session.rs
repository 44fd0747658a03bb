use sistema_distribuido::message::{Action, Request, Vote};
use sistema_distribuido::node::{Node, NodeStatus};
use sistema_distribuido::process::Process;
use sistema_distribuido::resource::Resources;
use sistema_distribuido::session::{PlacementError, Session};

#[test]
fn test_session_new() {
    let nodes = vec![Node::new(1), Node::new(2)];
    let processes = vec![
        Process::new(1, "Process 1".to_string(), Resources::new(1024, 100_000, 2)),
        Process::new(2, "Process 2".to_string(), Resources::new(2048, 200_000, 4)),
    ];
    let total_resources = Resources::new(16_384, 1_000_000, 8);

    let session = Session::new(nodes.clone(), processes.clone(), total_resources.clone());

    assert_eq!(session.nodes, nodes);
    assert_eq!(session.processes, processes);
    assert_eq!(session.total_resources, total_resources);
    assert_eq!(session.available_resources, total_resources);
    assert!(session.pending_votes.is_empty());
    assert!(session.request_queue.is_empty());
    assert!(session.deferred_replies.is_empty());
    assert!(session.replies_received.is_empty());
}

#[test]
fn test_add_and_remove_node() {
    let mut session = Session::new(vec![], vec![], Resources::new(0, 0, 0));
    let node1 = Node::new(1);
    let node2 = Node::new(2);

    session.add_node(node1.clone());
    assert_eq!(session.nodes.len(), 1);
    assert_eq!(session.nodes[0], node1);

    session.add_node(node2.clone());
    assert_eq!(session.nodes.len(), 2);
    assert_eq!(session.nodes[1], node2);

    session.remove_node(1);
    assert_eq!(session.nodes.len(), 1);
    assert_eq!(session.nodes[0], node2);
}

#[test]
fn test_total_nodes() {
    let mut session = Session::new(vec![], vec![], Resources::new(0, 0, 0));
    assert_eq!(session.total_nodes(), 0);

    session.add_node(Node::new(1));
    session.add_node(Node::new(2));
    assert_eq!(session.total_nodes(), 2);

    session.remove_node(1);
    assert_eq!(session.total_nodes(), 1);
}

#[test]
fn test_allocate_resources_success() {
    let total_resources = Resources::new(16_384, 1_000_000, 8);
    let mut session = Session::new(vec![], vec![], total_resources.clone());

    let needed_resources = Resources::new(4_096, 200_000, 2);

    let result = session.allocate_resources(&needed_resources);
    assert!(result);
    assert_eq!(
        session.available_resources,
        Resources::new(12_288, 800_000, 6)
    );
}

#[test]
fn test_allocate_resources_failure() {
    let total_resources = Resources::new(16_384, 1_000_000, 8);
    let mut session = Session::new(vec![], vec![], total_resources.clone());

    let needed_resources = Resources::new(32_768, 2_000_000, 16);

    let result = session.allocate_resources(&needed_resources);
    assert!(!result);
    assert_eq!(session.available_resources, total_resources);
}

#[test]
fn test_deallocate_resources() {
    let total_resources = Resources::new(16_384, 1_000_000, 8);
    let mut session = Session::new(vec![], vec![], total_resources.clone());

    let needed_resources = Resources::new(4_096, 200_000, 2);
    session.allocate_resources(&needed_resources);

    session.deallocate_resources(&needed_resources);
    assert_eq!(session.available_resources, total_resources);
}

#[test]
fn test_assign_processes() {
    let node1 = Node::new(1);
    let node2 = Node::new(2);
    let mut session = Session::new(
        vec![node1.clone(), node2.clone()],
        vec![],
        Resources::new(16_384, 1_000_000, 8),
    );

    let process1 = Process::new(1, "Process 1".to_string(), Resources::new(4_096, 200_000, 2));
    let process2 = Process::new(2, "Process 2".to_string(), Resources::new(4_096, 200_000, 2));
    session.processes.push(process1.clone());
    session.processes.push(process2.clone());

    session.assign_processes().unwrap();

    // Check that processes have been assigned
    let node1_processes = session.nodes.iter().find(|n| n.id == 1).unwrap().active_processes.clone();
    let node2_processes = session.nodes.iter().find(|n| n.id == 2).unwrap().active_processes.clone();

    assert_eq!(node1_processes.len() + node2_processes.len(), 2);

    // Check that resources have been allocated
    assert_eq!(
        session.available_resources,
        Resources::new(8_192, 600_000, 4)
    );
}

#[test]
fn test_handle_request_and_should_reply_immediately() {
    let node1 = Node::new(1);
    let node2 = Node::new(2);
    let mut session = Session::new(vec![node1.clone(), node2.clone()], vec![], Resources::new(0, 0, 0));

    // Simulate Node 1's request
    let request1 = Request {
        from_node_id: 1,
        timestamp: 100,
    };
    session.request_queue.push_back(request1.clone());

    // Node 2 receives Node 1's request
    session.handle_request(2, request1.clone());

    // Since Node 2 hasn't requested, it should send a reply immediately
    assert_eq!(session.replies_received.get(&1).unwrap().len(), 1);
    assert_eq!(session.replies_received.get(&1).unwrap()[0], 2);

    // Now, Node 2 requests the resource with a higher timestamp
    let request2 = Request {
        from_node_id: 2,
        timestamp: 200,
    };
    session.request_queue.push_back(request2.clone());

    // Node 1 handles Node 2's request
    session.handle_request(1, request2.clone());

    // Node 1 should defer the reply since its request has a lower timestamp
    assert!(session.deferred_replies.get(&1).unwrap().len() == 1);
}

#[test]
fn test_release_resource_and_deferred_replies() {
    let node1 = Node::new(1);
    let node2 = Node::new(2);
    let mut session = Session::new(vec![node1.clone(), node2.clone()], vec![], Resources::new(0, 0, 0));

    // Node 1 requests resource
    let request1 = Request {
        from_node_id: 1,
        timestamp: 100,
    };
    session.request_queue.push_back(request1.clone());

    // Node 2 handles Node 1's request and replies immediately
    session.handle_request(2, request1.clone());

    // Node 2 requests resource
    let request2 = Request {
        from_node_id: 2,
        timestamp: 200,
    };
    session.request_queue.push_back(request2.clone());

    // Node 1 handles Node 2's request and defers reply
    session.handle_request(1, request2.clone());

    // Node 1 releases resource
    session.release_resource(1);

    // Node 1 should send the deferred reply to Node 2
    assert_eq!(session.replies_received.get(&2).unwrap().len(), 1);
    assert_eq!(session.replies_received.get(&2).unwrap()[0], 1);
}

fn pool() -> Resources {
    Resources::new(16_384, 1_000_000, 8)
}

fn cluster(ids: &[u32]) -> Session {
    Session::new(ids.iter().map(|id| Node::new(*id)).collect(), vec![], pool())
}

fn held(session: &Session) -> (u64, u64, u32) {
    let mut sum = (0, 0, 0);
    for node in &session.nodes {
        for process in &node.active_processes {
            sum.0 += process.needed_resources.ram;
            sum.1 += process.needed_resources.disk_space;
            sum.2 += process.needed_resources.threads;
        }
    }
    sum
}

fn conserved(session: &Session) -> bool {
    let sum = held(session);
    session.available_resources.ram + sum.0 == session.total_resources.ram
        && session.available_resources.disk_space + sum.1 == session.total_resources.disk_space
        && session.available_resources.threads + sum.2 == session.total_resources.threads
}

fn ids(session: &Session) -> Vec<u32> {
    session.nodes.iter().map(|n| n.id).collect()
}

#[test]
fn a_new_session_starts_its_clock_at_zero_and_does_not_reinstall() {
    let session = cluster(&[1]);

    assert_eq!(session.clock, 0);
    assert!(!session.reinstall_on_failure);
}

#[test]
fn remove_node_takes_every_node_with_the_id_and_keeps_the_order() {
    let mut session = cluster(&[3, 1, 2, 1, 4]);

    session.remove_node(1);
    assert_eq!(ids(&session), vec![3, 2, 4]);

    session.remove_node(9);
    assert_eq!(ids(&session), vec![3, 2, 4]);

    session.remove_node(4);
    session.remove_node(3);
    session.remove_node(2);
    assert_eq!(session.total_nodes(), 0);
}

// ----- placement -----

#[test]
fn placement_with_a_tie_goes_to_the_first_node() {
    let mut session = cluster(&[1, 2]);
    let process = Process::new(1, "A".to_string(), Resources::new(4_096, 200_000, 2));
    session.processes.push(process.clone());

    assert_eq!(session.assign_processes(), Ok(()));

    assert_eq!(session.nodes[0].active_processes, vec![process]);
    assert!(session.nodes[1].active_processes.is_empty());
    assert_eq!(session.available_resources, Resources::new(12_288, 800_000, 6));
    assert!(session.processes.is_empty());
}

#[test]
fn a_tie_goes_to_the_node_that_comes_first_whatever_its_id() {
    let mut session = cluster(&[2, 1]);
    session.processes.push(Process::new(1, "A".to_string(), Resources::new(1, 1, 1)));

    session.assign_processes().unwrap();

    assert_eq!(session.nodes[0].id, 2);
    assert_eq!(session.nodes[0].active_processes.len(), 1);
    assert!(session.nodes[1].active_processes.is_empty());
}

#[test]
fn placement_without_enough_resources_leaves_the_process_pending() {
    let mut session = cluster(&[1]);
    let process = Process::new(1, "Big".to_string(), Resources::new(32_768, 200_000, 2));
    session.processes.push(process.clone());

    assert_eq!(session.assign_processes(), Ok(()));

    assert!(session.nodes[0].active_processes.is_empty());
    assert_eq!(session.processes, vec![process]);
    assert_eq!(session.available_resources, pool());
}

#[test]
fn placement_goes_on_after_a_process_that_does_not_fit() {
    let mut session = cluster(&[1, 2]);
    let small = Process::new(1, "small".to_string(), Resources::new(4_096, 200_000, 2));
    let big = Process::new(2, "big".to_string(), Resources::new(16_384, 200_000, 2));
    let medium = Process::new(3, "medium".to_string(), Resources::new(8_192, 300_000, 4));
    let greedy = Process::new(4, "greedy".to_string(), Resources::new(1, 1, 3));
    session.processes = vec![small.clone(), big.clone(), medium.clone(), greedy.clone()];

    session.assign_processes().unwrap();

    assert_eq!(session.nodes[0].active_processes, vec![small]);
    assert_eq!(session.nodes[1].active_processes, vec![medium]);
    assert_eq!(session.processes, vec![big, greedy]);
    assert_eq!(session.available_resources, Resources::new(4_096, 500_000, 2));
    assert!(conserved(&session));
}

#[test]
fn placement_spreads_processes_over_the_least_loaded_nodes() {
    let mut session = cluster(&[1, 2, 3]);
    for id in 0..7 {
        session.processes.push(Process::new(id, "p".to_string(), Resources::new(1, 1, 1)));
    }

    session.assign_processes().unwrap();

    let on = |i: usize| -> Vec<u32> {
        session.nodes[i].active_processes.iter().map(|p| p.id).collect()
    };
    assert_eq!(on(0), vec![0, 3, 6]);
    assert_eq!(on(1), vec![1, 4]);
    assert_eq!(on(2), vec![2, 5]);
    assert_eq!(session.available_resources, Resources::new(16_377, 999_993, 1));
}

#[test]
fn placement_without_nodes_is_an_error_and_changes_nothing() {
    let mut session = cluster(&[]);
    let process = Process::new(1, "A".to_string(), Resources::new(1, 1, 1));
    session.processes.push(process.clone());

    assert_eq!(session.assign_processes(), Err(PlacementError::NoNodes));

    assert_eq!(session.processes, vec![process]);
    assert_eq!(session.available_resources, pool());
}

#[test]
fn placement_of_nothing_succeeds_even_without_nodes() {
    let mut session = cluster(&[]);
    assert_eq!(session.assign_processes(), Ok(()));

    let mut session = cluster(&[1]);
    assert_eq!(session.assign_processes(), Ok(()));
    assert_eq!(session.available_resources, pool());
}

#[test]
fn pending_processes_are_placed_once_resources_come_back() {
    let mut session = cluster(&[1]);
    let first = Process::new(1, "first".to_string(), Resources::new(16_384, 1, 1));
    let second = Process::new(2, "second".to_string(), Resources::new(16_384, 1, 1));
    session.processes = vec![first.clone(), second.clone()];

    session.assign_processes().unwrap();
    assert_eq!(session.processes, vec![second.clone()]);

    session.reinstall_on_failure = true;
    session.handle_node_failure(1, "gone".to_string());
    assert_eq!(session.processes, vec![second.clone(), first.clone()]);
    assert_eq!(session.available_resources, pool());

    session.assign_processes().unwrap();
    assert_eq!(session.nodes[0].active_processes, vec![second]);
    assert_eq!(session.processes, vec![first]);
    assert!(conserved(&session));
}

// ----- the shared pool -----

#[test]
fn the_pool_is_conserved_by_placement_failure_and_the_protocols() {
    let mut session = cluster(&[1, 2, 3]);
    session.reinstall_on_failure = true;
    for id in 0..5 {
        session.processes.push(Process::new(id, "p".to_string(), Resources::new(3_000, 100, 1)));
    }
    session.processes.push(Process::new(9, "big".to_string(), Resources::new(3_000, 100, 4)));
    assert!(conserved(&session));

    session.assign_processes().unwrap();
    assert!(conserved(&session));
    assert_eq!(session.available_resources, Resources::new(1_384, 999_500, 3));

    session.request_resource(1);
    session.request_resource(2);
    session.release_resource(1);
    assert!(conserved(&session));

    session.initiate_voting(1, Action::NodeFailure { node_id: 1, reason: "network".to_string() });
    assert!(conserved(&session));
    assert_eq!(session.available_resources, Resources::new(7_384, 999_700, 5));

    session.initiate_voting(2, Action::NodeFailure { node_id: 3, reason: "hardware".to_string() });
    session.cast_vote(2, Action::RedistributeProcess { process_id: 1 }, Vote::Approve);
    session.remove_node(77);
    assert!(conserved(&session));

    session.assign_processes().unwrap();
    assert!(conserved(&session));
}

#[test]
fn a_session_tells_whether_a_node_can_give_back_what_it_holds() {
    let mut session = Session::new(
        vec![Node::new(1), Node::new(2)],
        vec![],
        Resources::new(u64::MAX, 10, 4),
    );
    session.nodes[0].active_processes.push(Process::new(1, "a".to_string(), Resources::new(0, 5, 1)));
    session.nodes[1].active_processes.push(Process::new(2, "b".to_string(), Resources::new(0, 5, 1)));
    session.nodes[1].active_processes.push(Process::new(3, "c".to_string(), Resources::new(1, 5, 1)));

    assert!(session.can_reclaim(1));
    assert!(!session.can_reclaim(2));
    assert!(session.can_reclaim(3));
    assert!(session.can_execute(&Action::NodeFailure { node_id: 1, reason: "x".to_string() }));
    assert!(!session.can_execute(&Action::ProcessFailure { node_id: 2, reason: "x".to_string() }));
    assert!(session.can_execute(&Action::RedistributeProcess { process_id: 2 }));

    assert!(session.available_resources.has_room_for(&Resources::new(0, u64::MAX - 10, u32::MAX - 4)));
    assert!(!session.available_resources.has_room_for(&Resources::new(1, 0, 0)));
    assert!(!session.available_resources.has_room_for(&Resources::new(0, u64::MAX - 9, 0)));
    assert!(!session.available_resources.has_room_for(&Resources::new(0, 0, u32::MAX - 3)));
}

#[test]
fn allocate_then_deallocate_returns_the_session_pool() {
    let mut session = cluster(&[1]);
    assert!(session.allocate_resources(&Resources::new(1_000, 1_000, 1)));
    let before = session.available_resources;

    for needed in [Resources::new(0, 0, 0), Resources::new(15_384, 999_000, 7)] {
        assert!(session.allocate_resources(&needed));
        session.deallocate_resources(&needed);
        assert_eq!(session.available_resources, before);
    }
    assert_eq!(session.total_resources, pool());
}

// ----- mutual exclusion -----

#[test]
fn the_first_requester_is_answered_at_once_and_the_second_waits() {
    let mut session = cluster(&[1, 2]);
    let request1 = Request { from_node_id: 1, timestamp: 100 };
    session.request_queue.push_back(request1);
    session.replies_received.insert(1, vec![]);

    session.handle_request(2, request1);

    assert!(session.can_access_resource(1));
    assert!(!session.can_access_resource(2));
}

#[test]
fn requests_are_stamped_by_the_session_clock() {
    let mut session = cluster(&[1, 2]);
    session.clock = 99;

    session.request_resource(1);

    assert_eq!(session.clock, 100);
    assert_eq!(
        session.request_queue.iter().copied().collect::<Vec<_>>(),
        vec![Request { from_node_id: 1, timestamp: 100 }]
    );
    assert!(session.can_access_resource(1));
    assert!(!session.can_access_resource(2));

    session.request_resource(2);

    assert_eq!(session.clock, 101);
    assert_eq!(session.request_queue[1], Request { from_node_id: 2, timestamp: 101 });
    assert_eq!(session.generate_timestamp(), 102);
}

#[test]
fn a_later_request_waits_until_the_holder_releases() {
    let mut session = cluster(&[1, 2, 3]);

    session.request_resource(1);
    assert!(session.can_access_resource(1));

    session.request_resource(2);
    assert!(session.can_access_resource(1));
    assert!(!session.can_access_resource(2));
    assert_eq!(session.replies_received.get(&2).unwrap(), &vec![3]);
    assert_eq!(
        session.deferred_replies.get(&1).unwrap(),
        &vec![Request { from_node_id: 2, timestamp: 2 }]
    );

    session.release_resource(1);
    assert!(!session.can_access_resource(1));
    assert!(session.can_access_resource(2));
    assert_eq!(session.replies_received.get(&2).unwrap(), &vec![3, 1]);
    assert!(!session.deferred_replies.contains_key(&1));
    assert!(!session.replies_received.contains_key(&1));
}

#[test]
fn a_node_whose_own_request_is_newer_answers_at_once() {
    let mut session = cluster(&[1, 2]);
    session.request_queue.push_back(Request { from_node_id: 1, timestamp: 300 });
    let older = Request { from_node_id: 2, timestamp: 200 };

    assert!(session.should_reply_immediately(1, &older));
    session.handle_request(1, older);

    assert_eq!(session.replies_received.get(&2).unwrap(), &vec![1]);
    assert!(session.deferred_replies.is_empty());
}

#[test]
fn only_the_node_at_the_head_of_the_queue_withholds_its_answer() {
    let mut session = cluster(&[1, 2, 3]);
    session.request_queue.push_back(Request { from_node_id: 1, timestamp: 100 });
    session.request_queue.push_back(Request { from_node_id: 2, timestamp: 200 });
    let newest = Request { from_node_id: 3, timestamp: 300 };

    assert!(!session.should_reply_immediately(1, &newest));
    assert!(session.should_reply_immediately(2, &newest));
    assert!(session.should_reply_immediately(4, &newest));

    let empty = cluster(&[1, 2]);
    assert!(empty.should_reply_immediately(1, &newest));
}

#[test]
fn at_equal_timestamps_the_head_answers_at_once_only_a_node_with_a_larger_id() {
    let mut session = cluster(&[1, 2, 3]);
    session.request_queue.push_back(Request { from_node_id: 2, timestamp: 100 });

    assert!(session.should_reply_immediately(2, &Request { from_node_id: 3, timestamp: 100 }));
    assert!(!session.should_reply_immediately(2, &Request { from_node_id: 1, timestamp: 100 }));
    assert!(!session.should_reply_immediately(2, &Request { from_node_id: 2, timestamp: 100 }));
}

#[test]
fn in_a_tie_the_answer_withheld_by_the_larger_id_is_sent_on_release() {
    let mut session = cluster(&[1, 2]);
    let request2 = Request { from_node_id: 2, timestamp: 100 };
    session.request_queue.push_back(request2);
    session.replies_received.insert(2, vec![]);
    session.handle_request(1, request2);
    assert!(session.can_access_resource(2));

    let request1 = Request { from_node_id: 1, timestamp: 100 };
    session.request_queue.push_back(request1);
    session.replies_received.insert(1, vec![]);
    session.handle_request(2, request1);

    assert!(session.can_access_resource(2));
    assert!(!session.can_access_resource(1));
    assert_eq!(session.deferred_replies.get(&2).unwrap(), &vec![request1]);

    session.release_resource(2);

    assert_eq!(session.replies_received.get(&1).unwrap(), &vec![2]);
    assert!(session.can_access_resource(1));
    assert!(!session.can_access_resource(2));
}

#[test]
fn in_a_tie_the_smaller_id_at_the_head_answers_at_once() {
    let mut session = cluster(&[1, 2]);
    let request1 = Request { from_node_id: 1, timestamp: 100 };
    session.request_queue.push_back(request1);
    session.replies_received.insert(1, vec![]);
    session.handle_request(2, request1);

    let request2 = Request { from_node_id: 2, timestamp: 100 };
    session.request_queue.push_back(request2);
    session.replies_received.insert(2, vec![]);
    session.handle_request(1, request2);

    assert_eq!(session.replies_received.get(&2).unwrap(), &vec![1]);
    assert!(session.deferred_replies.is_empty());
}

#[test]
fn after_every_requester_released_nothing_is_left() {
    let mut session = cluster(&[1, 2, 3]);

    session.request_resource(2);
    session.request_resource(3);
    session.request_resource(1);
    session.release_resource(2);
    assert!(session.request_queue.iter().all(|r| r.from_node_id != 2));
    assert!(!session.replies_received.contains_key(&2));
    session.release_resource(3);
    session.release_resource(1);

    assert!(session.request_queue.is_empty());
    assert!(session.replies_received.is_empty());
    assert!(session.deferred_replies.is_empty());
}

#[test]
fn two_nodes_taking_turns_never_hold_the_resource_together() {
    let mut session = cluster(&[1, 2]);
    let together = |s: &Session| s.can_access_resource(1) && s.can_access_resource(2);

    session.request_resource(1);
    assert!(session.can_access_resource(1) && !together(&session));
    session.request_resource(2);
    assert!(session.can_access_resource(1) && !together(&session));
    session.release_resource(1);
    assert!(session.can_access_resource(2) && !together(&session));
    session.request_resource(1);
    assert!(session.can_access_resource(2) && !together(&session));
    session.release_resource(2);
    assert!(session.can_access_resource(1) && !together(&session));
    session.release_resource(1);
    assert!(!session.can_access_resource(1) && !session.can_access_resource(2));
}

#[test]
fn two_waiters_behind_one_holder_are_both_answered_when_it_releases() {
    let mut session = cluster(&[1, 2, 3]);

    session.request_resource(1);
    session.request_resource(2);
    session.request_resource(3);
    assert!(session.can_access_resource(1));
    assert!(!session.can_access_resource(2));
    assert!(!session.can_access_resource(3));

    session.release_resource(1);

    assert_eq!(session.replies_received.get(&2).unwrap(), &vec![3, 1]);
    assert_eq!(session.replies_received.get(&3).unwrap(), &vec![2, 1]);
    assert!(session.can_access_resource(2));
    assert!(session.can_access_resource(3));
}

#[test]
fn a_waiter_that_withdraws_is_still_answered_when_the_holder_releases() {
    let mut session = cluster(&[1, 2]);
    session.request_resource(1);
    session.request_resource(2);

    session.release_resource(2);
    assert!(!session.replies_received.contains_key(&2));
    assert_eq!(session.deferred_replies.get(&1).unwrap().len(), 1);

    session.release_resource(1);

    assert!(session.request_queue.is_empty());
    assert_eq!(session.replies_received.get(&2).unwrap(), &vec![1]);
    assert!(!session.replies_received.contains_key(&1));
}

#[test]
fn release_without_a_request_only_cleans_up() {
    let mut session = cluster(&[1, 2]);
    session.request_resource(1);
    let queue: Vec<Request> = session.request_queue.iter().copied().collect();

    session.release_resource(2);
    session.release_resource(9);

    assert_eq!(session.request_queue.iter().copied().collect::<Vec<_>>(), queue);
    assert!(session.can_access_resource(1));
}

#[test]
fn release_takes_every_request_of_the_node_out_of_the_queue() {
    let mut session = cluster(&[1, 2]);
    session.request_queue.push_back(Request { from_node_id: 1, timestamp: 1 });
    session.request_queue.push_back(Request { from_node_id: 2, timestamp: 2 });
    session.request_queue.push_back(Request { from_node_id: 1, timestamp: 3 });
    session.request_queue.push_back(Request { from_node_id: 3, timestamp: 4 });

    session.release_resource(1);

    assert_eq!(
        session.request_queue.iter().copied().collect::<Vec<_>>(),
        vec![
            Request { from_node_id: 2, timestamp: 2 },
            Request { from_node_id: 3, timestamp: 4 }
        ]
    );
}

#[test]
fn nobody_has_access_in_a_session_without_nodes() {
    let mut session = cluster(&[]);
    assert!(!session.can_access_resource(1));

    session.request_resource(1);

    assert_eq!(session.replies_received.get(&1).unwrap().len(), 0);
    assert!(!session.can_access_resource(1));
}

#[test]
fn a_single_node_has_access_as_soon_as_it_asks() {
    let mut session = cluster(&[5]);
    assert!(!session.can_access_resource(5));

    session.request_resource(5);

    assert!(session.can_access_resource(5));
}

#[test]
fn send_reply_records_replies_in_the_order_they_come() {
    let mut session = cluster(&[1, 2, 3]);

    session.send_reply(1, 3);
    session.send_reply(1, 2);
    session.send_reply(2, 1);

    assert_eq!(session.replies_received.get(&1).unwrap(), &vec![3, 2]);
    assert_eq!(session.replies_received.get(&2).unwrap(), &vec![1]);
    assert!(session.can_access_resource(1));
    assert!(!session.can_access_resource(2));
}

// ----- voting -----

fn node_failure(node_id: u32, reason: &str) -> Action {
    Action::NodeFailure { node_id, reason: reason.to_string() }
}

#[test]
fn an_approved_node_failure_removes_and_reinstalls_the_node() {
    let mut session = cluster(&[1, 2, 3]);
    session.reinstall_on_failure = true;
    let action = node_failure(2, "network");

    session.initiate_voting(1, action.clone());

    assert!(!session.pending_votes.contains_key(&action));
    assert_eq!(ids(&session), vec![1, 3, 2]);
    assert_eq!(session.nodes[2], Node::new(2));
    assert_eq!(session.available_resources, pool());
    assert!(session.processes.is_empty());
    assert!(!session.nodes[0].known_actions.contains_key(&action));
    assert!(session.nodes[1].known_actions.contains_key(&action));
}

#[test]
fn an_approved_node_failure_only_removes_the_node_where_the_session_does_not_reinstall() {
    let mut session = cluster(&[1, 2, 3]);
    let action = node_failure(2, "network");

    session.initiate_voting(1, action.clone());

    assert!(!session.pending_votes.contains_key(&action));
    assert_eq!(ids(&session), vec![1, 3]);
}

#[test]
fn a_rejected_proposal_is_dropped_and_changes_no_membership() {
    let mut session = cluster(&[1, 2, 3]);
    session.reinstall_on_failure = true;
    let action = Action::ProcessFailure { node_id: 2, reason: "critical disk".to_string() };

    session.initiate_voting(1, action.clone());

    assert!(!session.pending_votes.contains_key(&action));
    assert!(session.pending_votes.is_empty());
    assert_eq!(ids(&session), vec![1, 2, 3]);
    assert!(session.nodes[1].known_actions.contains_key(&action));
    assert!(session.nodes[2].known_actions.contains_key(&action));
}

#[test]
fn a_tie_in_an_even_cluster_stays_pending() {
    let mut session = cluster(&[1, 2]);
    let action = node_failure(2, "hardware");

    session.initiate_voting(1, action.clone());

    assert_eq!(
        session.pending_votes.get(&action),
        Some(&vec![(1, Vote::Approve), (2, Vote::Reject)])
    );
    assert_eq!(ids(&session), vec![1, 2]);

    session.check_consensus(action.clone());
    assert!(session.pending_votes.contains_key(&action));

    session.cast_vote(3, action.clone(), Vote::Reject);
    session.check_consensus(action.clone());
    assert!(!session.pending_votes.contains_key(&action));
    assert_eq!(ids(&session), vec![1, 2]);
}

#[test]
fn approvals_must_exceed_half_of_the_nodes() {
    let mut session = cluster(&[1, 2, 3, 4]);
    let action = node_failure(4, "network");
    session.cast_vote(1, action.clone(), Vote::Approve);
    session.cast_vote(2, action.clone(), Vote::Approve);

    session.check_consensus(action.clone());
    assert_eq!(session.total_nodes(), 4);
    assert_eq!(
        session.pending_votes.get(&action),
        Some(&vec![(1, Vote::Approve), (2, Vote::Approve)])
    );

    session.cast_vote(3, action.clone(), Vote::Approve);
    session.check_consensus(action.clone());
    assert_eq!(ids(&session), vec![1, 2, 3]);
    assert!(session.pending_votes.is_empty());
}

#[test]
fn a_halted_node_is_not_asked_to_vote() {
    let mut session = cluster(&[1, 2, 3]);
    session.nodes[1].status = NodeStatus::Halted;
    session.nodes[2].status = NodeStatus::Recovering;
    let rejected = node_failure(3, "hardware");

    session.initiate_voting(1, rejected.clone());

    assert_eq!(
        session.pending_votes.get(&rejected),
        Some(&vec![(1, Vote::Approve), (3, Vote::Reject)])
    );
    assert!(!session.nodes[1].known_actions.contains_key(&rejected));
    assert!(session.nodes[2].known_actions.contains_key(&rejected));

    let approved = node_failure(3, "network");
    session.initiate_voting(1, approved.clone());

    assert!(!session.pending_votes.contains_key(&approved));
    assert_eq!(ids(&session), vec![1, 2]);
    assert!(session.nodes[1].known_actions.is_empty());
}

#[test]
fn a_halted_proposer_still_counts_as_approving() {
    let mut session = cluster(&[1, 2, 3]);
    session.nodes[0].status = NodeStatus::Halted;
    let mut node = session.nodes[0].clone();

    node.handle_failure(&mut session, "network".to_string());

    assert_eq!(ids(&session), vec![2, 3]);
    assert!(session.pending_votes.is_empty());
}

#[test]
fn a_single_node_approves_its_own_proposal() {
    let mut session = cluster(&[1]);
    session.reinstall_on_failure = true;
    session.nodes[0].known_actions.insert(node_failure(1, "old"), true);

    session.initiate_voting(1, node_failure(1, "hardware"));

    assert_eq!(session.nodes, vec![Node::new(1)]);
}

#[test]
fn a_vote_on_an_unknown_action_changes_nothing_when_counted() {
    let mut session = cluster(&[1, 2, 3]);

    session.check_consensus(node_failure(2, "network"));

    assert_eq!(ids(&session), vec![1, 2, 3]);
    assert!(session.pending_votes.is_empty());
}

#[test]
fn a_new_vote_on_an_action_starts_from_the_proposer_alone() {
    let mut session = cluster(&[1, 2]);
    let action = node_failure(2, "hardware");
    session.cast_vote(7, action.clone(), Vote::Reject);
    session.cast_vote(8, action.clone(), Vote::Reject);

    session.initiate_voting(2, action.clone());

    assert_eq!(
        session.pending_votes.get(&action),
        Some(&vec![(2, Vote::Approve), (1, Vote::Reject)])
    );
}

#[test]
fn votes_are_kept_apart_by_everything_the_action_says() {
    let mut session = cluster(&[1, 2, 3, 4, 5]);
    let network = node_failure(2, "network");

    session.cast_vote(1, network.clone(), Vote::Approve);
    session.cast_vote(2, node_failure(3, "network"), Vote::Reject);
    session.cast_vote(3, node_failure(2, "network "), Vote::Reject);
    session.cast_vote(
        4,
        Action::ProcessFailure { node_id: 2, reason: "network".to_string() },
        Vote::Reject,
    );
    session.cast_vote(5, network.clone(), Vote::Reject);

    assert_eq!(
        session.pending_votes.get(&network),
        Some(&vec![(1, Vote::Approve), (5, Vote::Reject)])
    );
    assert_eq!(
        session.pending_votes.get(&node_failure(3, "network")),
        Some(&vec![(2, Vote::Reject)])
    );
}

#[test]
fn a_redistribution_is_approved_and_changes_nothing_else() {
    let mut session = cluster(&[1, 2, 3]);
    session.processes.push(Process::new(1, "A".to_string(), Resources::new(1, 1, 1)));
    session.assign_processes().unwrap();
    let action = Action::RedistributeProcess { process_id: 1 };

    session.initiate_voting(3, action.clone());

    assert!(session.pending_votes.is_empty());
    assert_eq!(ids(&session), vec![1, 2, 3]);
    assert_eq!(session.nodes[0].active_processes.len(), 1);
    assert_eq!(session.available_resources, Resources::new(16_383, 999_999, 7));
    session.execute_action(action);
    assert_eq!(session.nodes[0].active_processes.len(), 1);
}

#[test]
fn a_failed_node_gives_back_what_its_processes_hold() {
    let mut session = cluster(&[1, 2]);
    let first = Process::new(1, "first".to_string(), Resources::new(4_096, 200_000, 2));
    let second = Process::new(2, "second".to_string(), Resources::new(1_024, 100_000, 1));
    let third = Process::new(3, "third".to_string(), Resources::new(2_048, 50_000, 3));
    session.processes = vec![first.clone(), second.clone(), third.clone()];
    session.assign_processes().unwrap();
    assert_eq!(session.available_resources, Resources::new(9_216, 650_000, 2));
    session.processes.push(Process::new(4, "late".to_string(), Resources::new(1, 1, 1)));

    session.execute_action(Action::ProcessFailure { node_id: 1, reason: "down".to_string() });

    assert_eq!(ids(&session), vec![2]);
    assert_eq!(session.available_resources, Resources::new(15_360, 900_000, 7));
    assert_eq!(
        session.processes.iter().map(|p| p.id).collect::<Vec<_>>(),
        vec![4, 1, 3]
    );
    assert!(conserved(&session));
}

#[test]
fn the_failure_of_an_unknown_node_frees_nothing() {
    let mut session = cluster(&[1, 2]);

    session.handle_node_failure(9, "unknown".to_string());
    assert_eq!(ids(&session), vec![1, 2]);

    session.reinstall_on_failure = true;
    session.handle_node_failure(9, "unknown".to_string());
    assert_eq!(ids(&session), vec![1, 2, 9]);
    assert_eq!(session.available_resources, pool());
}

#[test]
fn a_node_proposes_through_the_session() {
    let mut session = cluster(&[1, 2, 3]);
    let mut node = Node::new(2);
    let action = node_failure(3, "network");

    node.propose_action(&mut session, action.clone());
    assert_eq!(ids(&session), vec![1, 2]);
    assert_eq!(node, Node::new(2));

    node.handle_failure(&mut session, "hardware".to_string());
    assert_eq!(ids(&session), vec![1, 2]);
    assert_eq!(
        session.pending_votes.get(&node_failure(2, "hardware")),
        Some(&vec![(2, Vote::Approve), (1, Vote::Reject)])
    );
}

#[test]
fn a_node_that_halts_reports_its_own_failure() {
    let mut session = cluster(&[1, 2, 3]);
    session.reinstall_on_failure = true;
    let mut node = session.nodes[0].clone();

    node.halt(&mut session, "power loss".to_string());

    assert_eq!(node.status, NodeStatus::Halted);
    assert_eq!(ids(&session), vec![2, 3, 1]);
    assert_eq!(session.nodes[2], Node::new(1));
}
