use maelstrom_node::counter;
use maelstrom_node::echo;
use maelstrom_node::message::{Body, Envelope};
use maelstrom_node::unique_id;

fn request<M>(src: &str, dest: &str, msg_id: usize, message: M) -> Envelope<M> {
    Envelope::new(src, dest, Body { msg_id: Some(msg_id), in_reply_to: None, message })
}

#[test]
fn echo_returns_the_text() {
    let mut next: usize = 1;
    let out = echo::handle_envelope(&mut next, &request("c1", "n1", 5, echo::Payload::Echo { echo: "hi there".to_string() }));
    assert_eq!(out.len(), 1);
    assert_eq!(out[0].body.in_reply_to, Some(5));
    assert_eq!(out[0].body.msg_id, Some(1));
    match &out[0].body.message {
        echo::Payload::EchoOk { echo } => assert_eq!(echo, "hi there"),
        other => panic!("unexpected reply {:?}", other),
    }
    assert_eq!(next, 2);
    let init = echo::Payload::Init { node_id: "n1".to_string(), node_ids: vec!["n1".to_string()] };
    let out = echo::handle_envelope(&mut next, &request("c1", "n1", 6, init));
    assert!(matches!(out[0].body.message, echo::Payload::InitOk));
    assert!(echo::handle_envelope(&mut next, &request("c1", "n1", 7, echo::Payload::InitOk)).is_empty());
    assert_eq!(next, 3);
}

#[test]
fn unique_ids_join_prefix_and_request_id() {
    let mut state = unique_id::State::new();
    let init = unique_id::Payload::Init { node_id: "n2".to_string(), node_ids: vec!["n2".to_string()] };
    let out = unique_id::handle_envelope_with_offset(&mut state, &request("c1", "n2", 1, init), 907);
    assert!(matches!(out[0].body.message, unique_id::Payload::InitOk));
    assert_eq!(state.id, "n2_907");
    let out = unique_id::handle_envelope_with_offset(&mut state, &request("c1", "n2", 2, unique_id::Payload::Generate), 0);
    match &out[0].body.message {
        unique_id::Payload::GenerateOk { id } => assert_eq!(id, "n2_907_2"),
        other => panic!("unexpected reply {:?}", other),
    }
    let out = unique_id::handle_envelope_with_offset(&mut state, &request("c1", "n2", 3, unique_id::Payload::Generate), 0);
    match &out[0].body.message {
        unique_id::Payload::GenerateOk { id } => assert_eq!(id, "n2_907_3"),
        other => panic!("unexpected reply {:?}", other),
    }
}

#[test]
fn unique_ids_with_random_offset_differ() {
    let mut state = unique_id::State::new();
    let init = unique_id::Payload::Init { node_id: "n0".to_string(), node_ids: vec![] };
    unique_id::handle_envelope(&mut state, &request("c1", "n0", 1, init));
    assert!(state.id.starts_with("n0_"));
    let mut seen = Vec::new();
    for i in 0..5 {
        let out = unique_id::handle_envelope(&mut state, &request("c1", "n0", 10 + i, unique_id::Payload::Generate));
        if let unique_id::Payload::GenerateOk { id } = &out[0].body.message {
            assert!(!seen.contains(id));
            seen.push(id.clone());
        }
    }
    assert_eq!(seen.len(), 5);
}

fn counter_node() -> counter::State {
    let mut state = counter::State::new();
    let init = counter::Payload::Init { node_id: "n1".to_string(), node_ids: vec!["n0".to_string(), "n1".to_string(), "n2".to_string()] };
    counter::handle_envelope(&mut state, &request("c0", "n1", 1, init));
    state
}

#[test]
fn counter_commits_and_announces() {
    let mut state = counter_node();
    let out = counter::handle_envelope(&mut state, &request("c1", "n1", 2, counter::Payload::Add { delta: 5 }));
    assert!(matches!(out[0].body.message, counter::Payload::AddOk));
    counter::handle_envelope(&mut state, &request("c1", "n1", 3, counter::Payload::Add { delta: 2 }));
    assert_eq!(state.uncommitted_total, 7);
    let out = counter::commit_buffered_delta(&mut state);
    assert_eq!(out.len(), 2);
    assert_eq!(out[0].destination, "seq-kv");
    let cas_id = out[0].msg_id().unwrap();
    match &out[0].body.message {
        counter::Payload::Cas { key, from, to, create_if_not_exists } => {
            assert_eq!(key, "counter");
            assert_eq!((*from, *to, *create_if_not_exists), (0, 7, Some(true)));
        }
        other => panic!("unexpected request {:?}", other),
    }
    assert!(matches!(&out[1].body.message, counter::Payload::Read { key: Some(k) } if k == "counter"));
    let ack = Envelope::new("seq-kv", "n1", Body { msg_id: Some(1), in_reply_to: Some(cas_id), message: counter::Payload::CasOk });
    let out = counter::handle_envelope(&mut state, &ack);
    assert_eq!(state.uncommitted_total, 0);
    assert_eq!(state.last_known_committed_total, 7);
    let targets: Vec<&str> = out.iter().map(|e| e.destination.as_str()).collect();
    assert_eq!(targets, vec!["n0", "n2"]);
    assert!(out.iter().all(|e| matches!(e.body.message, counter::Payload::UpdateCounter { value: 7 })));
    let out = counter::handle_envelope(&mut state, &request("c1", "n1", 9, counter::Payload::Read { key: None }));
    assert!(matches!(out[0].body.message, counter::Payload::ReadOk { value: 7 }));
}

#[test]
fn counter_learns_larger_totals_only() {
    let mut state = counter_node();
    counter::handle_envelope(&mut state, &request("n0", "n1", 2, counter::Payload::UpdateCounter { value: 12 }));
    assert_eq!(state.last_known_committed_total, 12);
    counter::handle_envelope(&mut state, &request("seq-kv", "n1", 3, counter::Payload::ReadOk { value: 4 }));
    assert_eq!(state.last_known_committed_total, 12);
    let out = counter::commit_buffered_delta(&mut state);
    assert_eq!(out.len(), 1);
    let out = counter::handle_envelope(&mut state, &request("seq-kv", "n1", 4, counter::Payload::Error { code: 22, text: "cas failed".to_string() }));
    assert_eq!(out.len(), 1);
    assert_eq!(out[0].destination, "seq-kv");
    assert_eq!(out[0].source, "n1");
    let unknown_ack = Envelope::new("seq-kv", "n1", Body { msg_id: Some(1), in_reply_to: Some(999), message: counter::Payload::CasOk });
    assert!(counter::handle_envelope(&mut state, &unknown_ack).is_empty());
    let topo = counter::Payload::Topology { topology: vec![("n1".to_string(), vec!["n0".to_string()]), ("n0".to_string(), vec![])] };
    counter::handle_envelope(&mut state, &request("c0", "n1", 5, topo));
    assert_eq!(state.neighbors, vec!["n0".to_string()]);
}

#[test]
fn counter_records_commits_under_fresh_ids() {
    let mut state = counter_node();
    counter::handle_envelope(&mut state, &request("c1", "n1", 2, counter::Payload::Add { delta: 1 }));
    counter::commit_buffered_delta(&mut state);
    counter::handle_envelope(&mut state, &request("c1", "n1", 3, counter::Payload::Add { delta: 1 }));
    counter::commit_buffered_delta(&mut state);
    assert_eq!(state.cas_deltas.len(), 2);
    assert!(state.cas_deltas[0].0 < state.cas_deltas[1].0);
    assert!(state.cas_deltas[1].0 < state.next_msg_id);
    assert!(counter::handle_envelope(&mut state, &request("c1", "n1", 4, counter::Payload::Unknown)).is_empty());
}
