use maelstrom_node::dissemination::{gossip, handle_envelope, Opts, Payload, RemoteNode, State};
use maelstrom_node::message::{Body, Envelope};
use maelstrom_node::topology::{neighbors_of, position_of};

fn ids(names: &[&str]) -> Vec<String> {
    names.iter().map(|s| s.to_string()).collect()
}

fn request(src: &str, dest: &str, msg_id: usize, message: Payload) -> Envelope<Payload> {
    Envelope::new(src, dest, Body { msg_id: Some(msg_id), in_reply_to: None, message })
}

/// A node that has gone through the init handshake and the topology message.
fn started(me: &str, members: &[&str], stride: usize) -> State {
    let mut state = State::new(Opts { stride, tick_rate_ms: 100 });
    let init = request("c0", me, 1, Payload::Init { node_id: me.to_string(), node_ids: ids(members) });
    let out = handle_envelope(&mut state, &init);
    assert!(matches!(out[0].body.message, Payload::InitOk));
    let topo = request("c0", me, 2, Payload::Topology { topology: vec![] });
    let out = handle_envelope(&mut state, &topo);
    assert!(matches!(out[0].body.message, Payload::TopologyOk));
    state
}

fn neighbor_names(state: &State) -> Vec<String> {
    state.nodes.iter().map(|n| n.node_id.clone()).collect()
}

fn sorted(mut v: Vec<usize>) -> Vec<usize> {
    v.sort();
    v
}

/// Delivers every envelope to the node it is addressed to, and returns what
/// those nodes send back.
fn deliver(nodes: &mut [(String, State)], envelopes: Vec<Envelope<Payload>>) -> Vec<Envelope<Payload>> {
    let mut replies = Vec::new();
    for e in envelopes {
        if let Some((_, state)) = nodes.iter_mut().find(|(name, _)| *name == e.destination) {
            replies.extend(handle_envelope(state, &e));
        }
    }
    replies
}

/// One scheduler tick on every node: sync requests go out, their
/// acknowledgements come back.
fn tick(nodes: &mut [(String, State)]) {
    let mut requests = Vec::new();
    for (_, state) in nodes.iter_mut() {
        requests.extend(gossip(state));
    }
    let acks = deliver(nodes, requests);
    deliver(nodes, acks);
}

#[test]
fn stride_partition_neighbors() {
    let members = ids(&["n0", "n1", "n2"]);
    assert_eq!(neighbors_of(&members, 0, 3), ids(&["n1"]));
    assert_eq!(neighbors_of(&members, 1, 3), ids(&["n2"]));
    assert_eq!(neighbors_of(&members, 2, 3), ids(&["n0"]));
    assert_eq!(neighbor_names(&started("n0", &["n0", "n1", "n2"], 3)), ids(&["n1"]));
    assert_eq!(neighbor_names(&started("n1", &["n0", "n1", "n2"], 3)), ids(&["n2"]));
    assert_eq!(neighbor_names(&started("n2", &["n0", "n1", "n2"], 3)), ids(&["n0"]));
}

#[test]
fn stride_partition_propagates_one_hop_per_tick() {
    let members = ["n0", "n1", "n2"];
    let mut nodes: Vec<(String, State)> =
        members.iter().map(|m| (m.to_string(), started(m, &members, 3))).collect();
    let out = handle_envelope(&mut nodes[0].1, &request("c1", "n0", 7, Payload::Broadcast { message: 42 }));
    assert!(matches!(out[0].body.message, Payload::BroadcastOk));
    assert_eq!(nodes[1].1.seen_messages(), Vec::<usize>::new());
    tick(&mut nodes);
    assert_eq!(nodes[1].1.seen_messages(), vec![42]);
    assert_eq!(nodes[2].1.seen_messages(), Vec::<usize>::new());
    tick(&mut nodes);
    assert_eq!(nodes[2].1.seen_messages(), vec![42]);
    tick(&mut nodes);
    assert_eq!(nodes[0].1.seen_messages(), vec![42]);
    for (_, state) in &nodes {
        for n in &state.nodes {
            assert!(!n.has_unacknowledged_messages());
        }
    }
}

#[test]
fn full_mesh_neighbors_are_all_other_nodes() {
    let members = ids(&["n0", "n1", "n2", "n3"]);
    assert_eq!(neighbors_of(&members, 0, 1), ids(&["n1", "n2", "n3"]));
    assert_eq!(neighbors_of(&members, 2, 1), ids(&["n0", "n1", "n3"]));
    assert_eq!(neighbor_names(&started("n3", &["n0", "n1", "n2", "n3"], 1)), ids(&["n0", "n1", "n2"]));
}

#[test]
fn full_mesh_converges_in_one_tick() {
    let members = ["n0", "n1", "n2", "n3"];
    let mut nodes: Vec<(String, State)> =
        members.iter().map(|m| (m.to_string(), started(m, &members, 1))).collect();
    handle_envelope(&mut nodes[2].1, &request("c1", "n2", 3, Payload::Broadcast { message: 9 }));
    handle_envelope(&mut nodes[0].1, &request("c2", "n0", 4, Payload::Broadcast { message: 5 }));
    tick(&mut nodes);
    for (_, state) in &nodes {
        assert_eq!(sorted(state.seen_messages()), vec![5, 9]);
    }
}

#[test]
fn read_before_broadcast_is_empty() {
    let mut state = started("n0", &["n0", "n1"], 1);
    let out = handle_envelope(&mut state, &request("c1", "n0", 11, Payload::Read));
    assert_eq!(out.len(), 1);
    match &out[0].body.message {
        Payload::ReadOk { messages } => assert!(messages.is_empty()),
        other => panic!("unexpected reply {:?}", other),
    }
    let fresh = State::new(Opts { stride: 2, tick_rate_ms: 10 });
    assert_eq!(fresh.seen_messages(), Vec::<usize>::new());
}

#[test]
fn read_returns_each_value_once() {
    let mut state = started("n0", &["n0", "n1"], 1);
    for (i, v) in [3usize, 1, 3, 2, 1].iter().enumerate() {
        handle_envelope(&mut state, &request("c1", "n0", 20 + i, Payload::Broadcast { message: *v }));
    }
    let out = handle_envelope(&mut state, &request("c1", "n0", 30, Payload::Read));
    match &out[0].body.message {
        Payload::ReadOk { messages } => assert_eq!(messages, &vec![3, 1, 2]),
        other => panic!("unexpected reply {:?}", other),
    }
    assert_eq!(state.unacknowledged_for(&"n1".to_string()), vec![3, 1, 2]);
}

#[test]
fn values_never_shrink() {
    let mut state = started("n0", &["n0", "n1"], 1);
    let mut previous: Vec<usize> = Vec::new();
    let steps = vec![
        Payload::Broadcast { message: 1 },
        Payload::Sync { messages: vec![2, 1] },
        Payload::SyncOk { messages: vec![1, 2] },
        Payload::Read,
        Payload::Init { node_id: "n0".to_string(), node_ids: ids(&["n0", "n1"]) },
        Payload::Topology { topology: vec![] },
        Payload::Broadcast { message: 4 },
    ];
    for (i, p) in steps.into_iter().enumerate() {
        handle_envelope(&mut state, &request("n1", "n0", 50 + i, p));
        gossip(&mut state);
        let now = state.seen_messages();
        assert!(previous.iter().all(|v| now.contains(v)));
        previous = now;
    }
    assert_eq!(previous, vec![1, 2, 4]);
}

#[test]
fn sync_twice_is_like_sync_once() {
    let mut state = started("n1", &["n0", "n1", "n2"], 3);
    handle_envelope(&mut state, &request("c1", "n1", 1, Payload::Broadcast { message: 8 }));
    let sync = request("n0", "n1", 2, Payload::Sync { messages: vec![5, 8, 6, 5] });
    let out = handle_envelope(&mut state, &sync);
    match &out[0].body.message {
        Payload::SyncOk { messages } => assert_eq!(messages, &vec![5, 8, 6, 5]),
        other => panic!("unexpected reply {:?}", other),
    }
    let values = state.seen_messages();
    let pending = state.unacknowledged_for(&"n2".to_string());
    assert_eq!(values, vec![8, 5, 6]);
    assert_eq!(pending, vec![8, 5, 6]);
    let again = request("n0", "n1", 3, Payload::Sync { messages: vec![5, 8, 6, 5] });
    handle_envelope(&mut state, &again);
    assert_eq!(state.seen_messages(), values);
    assert_eq!(state.unacknowledged_for(&"n2".to_string()), pending);
}

#[test]
fn full_acknowledgement_clears_pending() {
    let mut state = started("n0", &["n0", "n1", "n2"], 1);
    for v in [4usize, 5, 6] {
        handle_envelope(&mut state, &request("c1", "n0", v, Payload::Broadcast { message: v }));
    }
    let out = handle_envelope(&mut state, &request("n1", "n0", 9, Payload::SyncOk { messages: vec![5] }));
    assert!(out.is_empty());
    assert_eq!(state.unacknowledged_for(&"n1".to_string()), vec![4, 6]);
    assert_eq!(state.unacknowledged_for(&"n2".to_string()), vec![4, 5, 6]);
    handle_envelope(&mut state, &request("n1", "n0", 10, Payload::SyncOk { messages: vec![6, 4, 5, 7] }));
    assert_eq!(state.unacknowledged_for(&"n1".to_string()), Vec::<usize>::new());
    assert_eq!(state.unacknowledged_for(&"n2".to_string()), vec![4, 5, 6]);
    assert_eq!(state.seen_messages(), vec![4, 5, 6]);
}

#[test]
fn replies_correlate_and_ids_are_fresh() {
    let mut state = started("n0", &["n0", "n1"], 1);
    let mut issued: Vec<usize> = Vec::new();
    for (req_id, p) in [
        (100usize, Payload::Broadcast { message: 1 }),
        (101, Payload::Read),
        (102, Payload::Sync { messages: vec![2] }),
    ] {
        let out = handle_envelope(&mut state, &request("c7", "n0", req_id, p));
        assert_eq!(out.len(), 1);
        assert_eq!(out[0].body.in_reply_to, Some(req_id));
        assert_eq!(out[0].source, "n0");
        assert_eq!(out[0].destination, "c7");
        issued.push(out[0].msg_id().unwrap());
        for e in gossip(&mut state) {
            assert_eq!(e.body.in_reply_to, None);
            issued.push(e.msg_id().unwrap());
        }
    }
    let mut unique = issued.clone();
    unique.sort();
    unique.dedup();
    assert_eq!(unique.len(), issued.len());
    assert!(issued.windows(2).all(|w| w[0] < w[1]));
}

#[test]
fn gossip_sends_all_pending_and_keeps_it() {
    let mut state = started("n0", &["n0", "n1", "n2"], 1);
    assert!(gossip(&mut state).is_empty());
    handle_envelope(&mut state, &request("c1", "n0", 1, Payload::Broadcast { message: 10 }));
    handle_envelope(&mut state, &request("c1", "n0", 2, Payload::Broadcast { message: 11 }));
    handle_envelope(&mut state, &request("n2", "n0", 3, Payload::SyncOk { messages: vec![10, 11] }));
    let out = gossip(&mut state);
    assert_eq!(out.len(), 1);
    assert_eq!(out[0].source, "n0");
    assert_eq!(out[0].destination, "n1");
    match &out[0].body.message {
        Payload::Sync { messages } => assert_eq!(messages, &vec![10, 11]),
        other => panic!("unexpected request {:?}", other),
    }
    let again = gossip(&mut state);
    assert_eq!(again.len(), 1);
    assert!(again[0].msg_id().unwrap() > out[0].msg_id().unwrap());
}

#[test]
fn topology_resend_keeps_pending() {
    let mut state = started("n0", &["n0", "n1", "n2"], 1);
    handle_envelope(&mut state, &request("c1", "n0", 1, Payload::Broadcast { message: 3 }));
    handle_envelope(&mut state, &request("c0", "n0", 2, Payload::Topology { topology: vec![] }));
    assert_eq!(neighbor_names(&state), ids(&["n1", "n2"]));
    assert_eq!(state.unacknowledged_for(&"n1".to_string()), vec![3]);
}

#[test]
fn unusable_stride_falls_back_to_full_mesh() {
    let members = ids(&["a", "b", "c"]);
    assert_eq!(neighbors_of(&members, 1, 0), ids(&["a", "c"]));
    assert_eq!(neighbors_of(&members, 1, 4), ids(&["a", "c"]));
    assert_eq!(neighbors_of(&members, 0, 2), ids(&["b"]));
    assert_eq!(neighbors_of(&members, 1, 2), ids(&["a", "c"]));
}

#[test]
fn stranger_has_no_neighbors() {
    assert_eq!(position_of(&ids(&["a", "b", "a"]), &"a".to_string()), Some(0));
    assert_eq!(position_of(&ids(&["a", "b"]), &"z".to_string()), None);
    let state = started("z", &["a", "b"], 1);
    assert!(state.nodes.is_empty());
}

#[test]
fn replies_of_others_are_ignored() {
    let mut state = started("n0", &["n0", "n1"], 1);
    let before = state.next_msg_id;
    for p in [Payload::InitOk, Payload::BroadcastOk, Payload::TopologyOk, Payload::ReadOk { messages: vec![1] }] {
        assert!(handle_envelope(&mut state, &request("n1", "n0", 5, p)).is_empty());
    }
    assert_eq!(state.next_msg_id, before);
    assert!(state.seen_messages().is_empty());
}

#[test]
fn remote_node_bookkeeping() {
    let mut node = RemoteNode { node_id: "n1".to_string(), unacknowledged_messages: vec![] };
    assert!(!node.has_unacknowledged_messages());
    node.send_message(1);
    node.send_message(2);
    node.send_message(1);
    assert!(node.has_unacknowledged_messages());
    node.acknowledge_synced(&[1]);
    assert_eq!(node.unacknowledged_messages, vec![2]);
    node.acknowledge_synced(&[3]);
    assert_eq!(node.unacknowledged_messages, vec![2]);
    node.acknowledge_synced(&[2]);
    assert!(!node.has_unacknowledged_messages());
    assert_eq!(node.node_id, "n1");
}

#[test]
fn every_value_reaches_every_node() {
    for (members, stride) in [(vec!["a", "b", "c", "d", "e"], 2usize), (vec!["a", "b", "c"], 5), (vec!["a", "b", "c", "d"], 4)] {
        let mut nodes: Vec<(String, State)> =
            members.iter().map(|m| (m.to_string(), started(m, &members, stride))).collect();
        for (i, (_, state)) in nodes.iter_mut().enumerate() {
            handle_envelope(state, &request("c1", members[i], 1, Payload::Broadcast { message: 100 + i }));
        }
        for _ in 0..members.len() {
            tick(&mut nodes);
        }
        let all: Vec<usize> = (0..members.len()).map(|i| 100 + i).collect();
        for (_, state) in &nodes {
            assert_eq!(sorted(state.seen_messages()), all);
            assert!(state.nodes.iter().all(|n| !n.has_unacknowledged_messages()));
        }
    }
}

#[test]
fn repeated_members_give_each_neighbor_once() {
    let state = started("b", &["a", "b", "a", "c", "b", "c"], 1);
    assert_eq!(neighbor_names(&state), ids(&["a", "c"]));
}

#[test]
fn unknown_kinds_are_ignored() {
    let mut state = started("n0", &["n0", "n1"], 1);
    let before = state.next_msg_id;
    assert!(handle_envelope(&mut state, &request("c1", "n0", 3, Payload::Unknown)).is_empty());
    assert_eq!(state.next_msg_id, before);
}
