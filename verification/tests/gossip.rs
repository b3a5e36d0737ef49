use gossip_glomers::{
    node_id_lt, BroadcastState, Message, MessageBody, NodeError, Payload, SyncPolicy,
    TopologyEntry,
};

fn message(src: &str, dest: &str, message_id: Option<i32>, payload: Payload) -> Message<Payload> {
    Message {
        src: src.to_string(),
        dest: dest.to_string(),
        body: MessageBody { message_id, in_reply_to: None, payload },
    }
}

fn topology_message(dest: &str, entries: &[(&str, &[&str])]) -> Message<Payload> {
    let topology = entries
        .iter()
        .map(|(node, neighbours)| TopologyEntry {
            node: node.to_string(),
            neighbours: neighbours.iter().map(|n| n.to_string()).collect(),
        })
        .collect();
    message("c1", dest, Some(1), Payload::Topology { topology })
}

fn sorted(mut values: Vec<i32>) -> Vec<i32> {
    values.sort();
    values
}

fn read_values(state: &mut BroadcastState, node: &str) -> Vec<i32> {
    let reply = state
        .handle_message(&node.to_string(), message("c1", node, Some(1), Payload::Read))
        .unwrap()
        .unwrap();
    match reply.body.payload {
        Payload::ReadOk { broadcast_messages } => sorted(broadcast_messages),
        other => panic!("expected a read_ok reply, got {:?}", other),
    }
}

#[test]
fn broadcast_then_read_scenario() {
    let n1 = "n1".to_string();
    let mut state = BroadcastState::new();
    let reply = state
        .handle_message(&n1, message("c1", "n1", Some(1), Payload::Broadcast { broadcast_message: 5 }))
        .unwrap()
        .unwrap();
    assert_eq!(reply.body.payload, Payload::BroadcastOk);
    assert_eq!(reply.src, "n1");
    assert_eq!(reply.dest, "c1");
    assert_eq!(reply.body.in_reply_to, Some(1));
    assert_eq!(read_values(&mut state, "n1"), vec![5]);
}

#[test]
fn broadcast_set_insertion_is_idempotent() {
    let n1 = "n1".to_string();
    let mut state = BroadcastState::new();
    for _ in 0..2 {
        state
            .handle_message(&n1, message("c1", "n1", Some(1), Payload::Broadcast { broadcast_message: 5 }))
            .unwrap();
    }
    assert_eq!(state.messages.len(), 1);
    assert_eq!(read_values(&mut state, "n1"), vec![5]);
}

#[test]
fn topology_then_sync_scenario() {
    let n1 = "n1".to_string();
    let mut state = BroadcastState::new();
    let reply = state
        .handle_message(
            &n1,
            topology_message("n1", &[("n1", &["n2", "n3"]), ("n2", &["n1"]), ("n3", &["n1"])]),
        )
        .unwrap()
        .unwrap();
    assert_eq!(reply.body.payload, Payload::TopologyOk);

    state
        .handle_message(&n1, message("c1", "n1", Some(2), Payload::Broadcast { broadcast_message: 5 }))
        .unwrap();

    let outgoing = state.sync_with_neighbours(&n1, SyncPolicy::EveryNeighbour);
    let mut dests: Vec<String> = outgoing.iter().map(|m| m.dest.clone()).collect();
    dests.sort();
    assert_eq!(dests, vec!["n2", "n3"]);
    for m in &outgoing {
        assert_eq!(m.src, "n1");
        match &m.body.payload {
            Payload::Sync { new_messages } => assert_eq!(new_messages, &vec![5]),
            other => panic!("expected a sync payload, got {:?}", other),
        }
    }

    state
        .handle_message(
            &n1,
            message("n2", "n1", None, Payload::SyncOk { acknowledge_new_messages: vec![5] }),
        )
        .unwrap();
    for record in &state.neighbours {
        assert!(record.known.contains(5), "neighbour {} should know 5", record.id);
    }
}

#[test]
fn sync_reply_carries_the_reverse_delta() {
    let n2 = "n2".to_string();
    let mut state = BroadcastState::new();
    state
        .handle_message(&n2, topology_message("n2", &[("n2", &["n1"])]))
        .unwrap();
    state
        .handle_message(&n2, message("c1", "n2", Some(1), Payload::Broadcast { broadcast_message: 7 }))
        .unwrap();

    let reply = state
        .handle_message(&n2, message("n1", "n2", Some(8), Payload::Sync { new_messages: vec![5] }))
        .unwrap()
        .unwrap();
    assert_eq!(reply.dest, "n1");
    assert_eq!(reply.body.in_reply_to, Some(8));
    match reply.body.payload {
        Payload::SyncOk { acknowledge_new_messages } => {
            assert_eq!(sorted(acknowledge_new_messages), vec![7]);
        },
        other => panic!("expected a sync_ok reply, got {:?}", other),
    }
    assert_eq!(read_values(&mut state, "n2"), vec![5, 7]);
}

#[test]
fn sync_from_an_unknown_neighbour_is_an_error() {
    let n1 = "n1".to_string();
    let mut state = BroadcastState::new();
    let r = state.handle_message(
        &n1,
        message("n9", "n1", Some(1), Payload::Sync { new_messages: vec![5] }),
    );
    assert_eq!(r, Err(NodeError::UnknownNeighbour));
    let r = state.handle_message(
        &n1,
        message("n9", "n1", None, Payload::SyncOk { acknowledge_new_messages: vec![5] }),
    );
    assert_eq!(r, Err(NodeError::UnknownNeighbour));
}

#[test]
fn topology_without_own_entry_is_an_error() {
    let n1 = "n1".to_string();
    let mut state = BroadcastState::new();
    let r = state.handle_message(&n1, topology_message("n1", &[("n2", &["n3"])]));
    assert_eq!(r, Err(NodeError::MissingSelfInTopology));
}

#[test]
fn sync_rounds_reach_quiescence() {
    let n1 = "n1".to_string();
    let mut state = BroadcastState::new();
    state
        .handle_message(&n1, topology_message("n1", &[("n1", &["n2", "n3"])]))
        .unwrap();
    state
        .handle_message(&n1, message("c1", "n1", Some(1), Payload::Broadcast { broadcast_message: 5 }))
        .unwrap();

    let first = state.sync_with_neighbours(&n1, SyncPolicy::EveryNeighbour);
    assert_eq!(first.len(), 2);
    let second = state.sync_with_neighbours(&n1, SyncPolicy::EveryNeighbour);
    assert!(second.is_empty(), "no unacknowledged values may remain after one round");
}

#[test]
fn smaller_id_initiates_tie_break() {
    assert!(node_id_lt(&"n1".to_string(), &"n2".to_string()));
    assert!(!node_id_lt(&"n2".to_string(), &"n1".to_string()));
    assert!(!node_id_lt(&"n1".to_string(), &"n1".to_string()));
    assert!(node_id_lt(&"n1".to_string(), &"n10".to_string()));

    let n2 = "n2".to_string();
    let mut state = BroadcastState::new();
    state
        .handle_message(&n2, topology_message("n2", &[("n2", &["n1", "n3"])]))
        .unwrap();
    state
        .handle_message(&n2, message("c1", "n2", Some(1), Payload::Broadcast { broadcast_message: 4 }))
        .unwrap();

    let outgoing = state.sync_with_neighbours(&n2, SyncPolicy::SmallerIdInitiates);
    let dests: Vec<String> = outgoing.iter().map(|m| m.dest.clone()).collect();
    assert_eq!(dests, vec!["n3"]);
}

#[test]
fn full_mesh_excludes_self() {
    let n1 = "n1".to_string();
    let node_ids = vec!["n1".to_string(), "n2".to_string(), "n3".to_string()];
    let mut state = BroadcastState::new();
    state.set_full_mesh(&n1, &node_ids);
    let mut ids: Vec<String> = state.neighbours.iter().map(|r| r.id.clone()).collect();
    ids.sort();
    assert_eq!(ids, vec!["n2", "n3"]);
}

#[test]
fn one_exchange_converges_both_endpoints() {
    let n1 = "n1".to_string();
    let n2 = "n2".to_string();
    let mut a = BroadcastState::new();
    let mut b = BroadcastState::new();
    a.handle_message(&n1, topology_message("n1", &[("n1", &["n2"]), ("n2", &["n1"])])).unwrap();
    b.handle_message(&n2, topology_message("n2", &[("n1", &["n2"]), ("n2", &["n1"])])).unwrap();
    for v in [1, 2] {
        a.handle_message(&n1, message("c1", "n1", Some(1), Payload::Broadcast { broadcast_message: v }))
            .unwrap();
    }
    for v in [2, 3] {
        b.handle_message(&n2, message("c1", "n2", Some(1), Payload::Broadcast { broadcast_message: v }))
            .unwrap();
    }

    let outgoing = a.sync_with_neighbours(&n1, SyncPolicy::SmallerIdInitiates);
    assert_eq!(outgoing.len(), 1);
    let sync = outgoing.into_iter().next().unwrap();
    assert_eq!(sync.dest, "n2");

    let ack = b.handle_message(&n2, sync).unwrap().unwrap();
    assert_eq!(ack.dest, "n1");
    a.handle_message(&n1, ack).unwrap();

    assert_eq!(read_values(&mut a, "n1"), vec![1, 2, 3]);
    assert_eq!(read_values(&mut b, "n2"), vec![1, 2, 3]);
}

fn exchange_round(states: &mut [BroadcastState], ids: &[&str]) {
    for i in 0..states.len() {
        let me = ids[i].to_string();
        let outgoing = states[i].sync_with_neighbours(&me, SyncPolicy::EveryNeighbour);
        for m in outgoing {
            let j = ids.iter().position(|id| *id == m.dest).unwrap();
            let ack = states[j].handle_message(&ids[j].to_string(), m).unwrap().unwrap();
            let k = ids.iter().position(|id| *id == ack.dest).unwrap();
            states[k].handle_message(&ids[k].to_string(), ack).unwrap();
        }
    }
}

#[test]
fn a_chain_of_nodes_converges() {
    let ids = ["n1", "n2", "n3"];
    let chain: [(&str, &[&str]); 3] = [("n1", &["n2"]), ("n2", &["n1", "n3"]), ("n3", &["n2"])];
    let mut states = [BroadcastState::new(), BroadcastState::new(), BroadcastState::new()];
    for (i, id) in ids.iter().enumerate() {
        states[i]
            .handle_message(&id.to_string(), topology_message(id, &chain))
            .unwrap();
        states[i]
            .handle_message(
                &id.to_string(),
                message("c1", id, Some(1), Payload::Broadcast { broadcast_message: (i as i32) + 1 }),
            )
            .unwrap();
    }

    for _ in 0..3 {
        exchange_round(&mut states, &ids);
    }

    for (i, id) in ids.iter().enumerate() {
        let values = read_values(&mut states[i], id);
        assert_eq!(values, vec![1, 2, 3], "node {} did not converge", id);
    }
}

#[test]
fn reads_are_monotonic_within_a_node() {
    let n1 = "n1".to_string();
    let mut state = BroadcastState::new();
    state
        .handle_message(&n1, message("c1", "n1", Some(1), Payload::Broadcast { broadcast_message: 1 }))
        .unwrap();
    let earlier = read_values(&mut state, "n1");
    state
        .handle_message(&n1, message("c1", "n1", Some(2), Payload::Broadcast { broadcast_message: 2 }))
        .unwrap();
    let later = read_values(&mut state, "n1");
    assert!(earlier.iter().all(|v| later.contains(v)), "a later read lost values");
}
