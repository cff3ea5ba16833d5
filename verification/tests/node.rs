use gossip_node::message::{Body, Msg, Payload};
use gossip_node::node::Node;
use std::collections::HashMap;

fn names(list: &[&str]) -> Vec<String> {
    list.iter().map(|s| s.to_string()).collect()
}

fn request(src: &str, dest: &str, msg_id: u64, extra: Payload) -> Msg {
    Msg {
        src: src.to_string(),
        dest: dest.to_string(),
        body: Body { msg_id: Some(msg_id), in_reply_to: None, extra },
    }
}

fn envelope(src: &str, dest: &str, msg_id: u64, in_reply_to: Option<u64>, extra: Payload) -> Msg {
    Msg {
        src: src.to_string(),
        dest: dest.to_string(),
        body: Body { msg_id: Some(msg_id), in_reply_to, extra },
    }
}

fn three_node() -> Node {
    Node::new("n1".to_string(), names(&["n1", "n2", "n3"]))
}

#[test]
fn new_node_has_sent_seen_and_awaits_nothing() {
    let node = three_node();
    assert_eq!(node.id(), "n1");
    assert_eq!(node.nodes(), &names(&["n1", "n2", "n3"]));
    assert_eq!(node.msg_ids(), 0);
    assert_eq!(node.pending_len(), 0);
    assert!(node.pending_ids().is_empty());
    assert!(node.seen_values().is_empty());
    assert!(!node.has_seen(0));
}

#[test]
fn send_stamps_with_the_next_id() {
    let mut node = three_node();
    let body = Body { msg_id: None, in_reply_to: Some(9), extra: Payload::InitOk };
    let first = node.send("c1", body.clone());
    assert_eq!(first, envelope("n1", "c1", 1, Some(9), Payload::InitOk));
    let second = node.send("c2", body);
    assert_eq!(second, envelope("n1", "c2", 2, Some(9), Payload::InitOk));
    assert_eq!(node.msg_ids(), 2);
    assert_eq!(node.pending_len(), 0);
}

#[test]
fn send_replaces_an_id_the_body_already_has() {
    let mut node = three_node();
    let body = Body { msg_id: Some(77), in_reply_to: None, extra: Payload::Read };
    let msg = node.send("n2", body);
    assert_eq!(msg.body.msg_id, Some(1));
}

#[test]
fn rpc_records_the_propagation_under_the_id_on_the_wire() {
    let mut node = three_node();
    let body = Body { msg_id: Some(40), in_reply_to: None, extra: Payload::Broadcast { message: 7 } };
    let msg = node.rpc("n2", body);
    assert_eq!(msg, envelope("n1", "n2", 1, None, Payload::Broadcast { message: 7 }));
    assert_eq!(node.msg_ids(), 1);
    assert_eq!(node.pending_len(), 1);
    assert_eq!(node.pending_ids(), vec![1]);
    let entry = node.pending_entry(1).unwrap();
    assert_eq!(entry.0, "n2");
    assert_eq!(entry.1, msg.body);
    assert!(node.pending_entry(40).is_none());
    assert!(node.pending_entry(0).is_none());
}

#[test]
fn rpc_twice_keeps_both_entries() {
    let mut node = three_node();
    let body = Body { msg_id: None, in_reply_to: None, extra: Payload::Broadcast { message: 7 } };
    node.rpc("n2", body.clone());
    node.rpc("n3", body);
    let mut ids = node.pending_ids();
    ids.sort();
    assert_eq!(ids, vec![1, 2]);
    assert_eq!(node.pending_entry(1).unwrap().0, "n2");
    assert_eq!(node.pending_entry(2).unwrap().0, "n3");
}

#[test]
fn has_room_on_a_fresh_node() {
    let node = three_node();
    assert!(node.has_room(0));
    assert!(node.has_room(1));
    assert!(node.has_room(1_000_000));
}

#[test]
fn can_handle_on_a_fresh_node() {
    let node = three_node();
    assert!(node.can_handle(&request("c1", "n1", 1, Payload::Broadcast { message: 5 })));
    assert!(node.can_handle(&request("c1", "n1", 1, Payload::Read)));
    assert!(node.can_handle(&request("n2", "n1", 1, Payload::BroadcastOk)));
}

#[test]
fn echo_is_answered_verbatim() {
    let mut node = three_node();
    let out = node.handle(&request("c1", "n1", 5, Payload::Echo { echo: "Please echo 35".to_string() }));
    assert_eq!(
        out,
        vec![envelope("n1", "c1", 1, Some(5), Payload::EchoOk { echo: "Please echo 35".to_string() })]
    );
    assert_eq!(node.msg_ids(), 1);
    assert_eq!(node.pending_len(), 0);
}

#[test]
fn echo_of_an_empty_string() {
    let mut node = three_node();
    let out = node.handle(&request("c1", "n1", 5, Payload::Echo { echo: String::new() }));
    assert_eq!(out, vec![envelope("n1", "c1", 1, Some(5), Payload::EchoOk { echo: String::new() })]);
}

#[test]
fn reply_carries_no_id_of_its_own() {
    let node = three_node();
    let body = Body { msg_id: Some(5), in_reply_to: None, extra: Payload::Echo { echo: "x".to_string() } };
    let answer = body.reply(&node).unwrap();
    assert_eq!(
        answer,
        Body { msg_id: None, in_reply_to: Some(5), extra: Payload::EchoOk { echo: "x".to_string() } }
    );
}

#[test]
fn reply_to_a_request_without_id_has_no_in_reply_to() {
    let node = three_node();
    let body = Body { msg_id: None, in_reply_to: None, extra: Payload::Read };
    let answer = body.reply(&node).unwrap();
    assert_eq!(answer.in_reply_to, None);
    assert_eq!(answer.extra, Payload::ReadOk { messages: vec![] });
}

#[test]
fn init_after_start_is_answered_and_changes_no_identity() {
    let mut node = three_node();
    let out = node.handle(&request(
        "c1",
        "n1",
        1,
        Payload::Init { node_id: "n9".to_string(), node_ids: names(&["n9"]) },
    ));
    assert_eq!(out, vec![envelope("n1", "c1", 1, Some(1), Payload::InitOk)]);
    assert_eq!(node.id(), "n1");
    assert_eq!(node.nodes(), &names(&["n1", "n2", "n3"]));
}

#[test]
fn topology_is_acknowledged_and_not_used() {
    let mut node = three_node();
    let mut topology = HashMap::new();
    topology.insert("n1".to_string(), names(&["n2"]));
    topology.insert("n2".to_string(), names(&["n1"]));
    let out = node.handle(&request("c1", "n1", 3, Payload::Topology { topology }));
    assert_eq!(out, vec![envelope("n1", "c1", 1, Some(3), Payload::TopologyOk)]);
    // the broadcast still floods the whole peer list
    let out = node.handle(&request("c1", "n1", 4, Payload::Broadcast { message: 1 }));
    let dests: Vec<&str> = out.iter().map(|m| m.dest.as_str()).collect();
    assert_eq!(dests, vec!["n2", "n3", "c1"]);
}

#[test]
fn generate_uses_node_id_and_counter() {
    let mut node = three_node();
    let out = node.handle(&request("c1", "n1", 1, Payload::Generate));
    assert_eq!(out, vec![envelope("n1", "c1", 1, Some(1), Payload::GenerateOk { id: "n1-0".to_string() })]);
    let out = node.handle(&request("c1", "n1", 2, Payload::Generate));
    assert_eq!(out, vec![envelope("n1", "c1", 2, Some(2), Payload::GenerateOk { id: "n1-1".to_string() })]);
}

#[test]
fn generate_many_times_gives_distinct_ids() {
    let mut node = three_node();
    let mut ids = std::collections::HashSet::new();
    for i in 0..100u64 {
        let out = node.handle(&request("c1", "n1", i, Payload::Generate));
        assert_eq!(out.len(), 1);
        match &out[0].body.extra {
            Payload::GenerateOk { id } => assert!(ids.insert(id.clone())),
            other => panic!("unexpected reply {:?}", other),
        }
    }
    assert_eq!(ids.len(), 100);
}

#[test]
fn generate_on_two_nodes_never_collides() {
    let mut a = Node::new("n1".to_string(), names(&["n1", "n2"]));
    let mut b = Node::new("n2".to_string(), names(&["n1", "n2"]));
    let mut ids = std::collections::HashSet::new();
    for i in 0..50u64 {
        for node in [&mut a, &mut b] {
            let out = node.handle(&request("c1", "n1", i, Payload::Generate));
            match &out[0].body.extra {
                Payload::GenerateOk { id } => assert!(ids.insert(id.clone())),
                other => panic!("unexpected reply {:?}", other),
            }
        }
    }
    assert_eq!(ids.len(), 100);
}

#[test]
fn generate_interleaved_with_other_traffic_stays_distinct() {
    let mut node = three_node();
    let mut ids = Vec::new();
    for i in 0..10u64 {
        node.handle(&request("c1", "n1", 100 + i, Payload::Broadcast { message: i as usize }));
        node.gossip();
        let out = node.handle(&request("c1", "n1", i, Payload::Generate));
        match &out[0].body.extra {
            Payload::GenerateOk { id } => ids.push(id.clone()),
            other => panic!("unexpected reply {:?}", other),
        }
    }
    let distinct: std::collections::HashSet<&String> = ids.iter().collect();
    assert_eq!(distinct.len(), ids.len());
}

#[test]
fn ok_payloads_get_no_reply_and_change_nothing() {
    let replies = vec![
        Payload::EchoOk { echo: "x".to_string() },
        Payload::InitOk,
        Payload::GenerateOk { id: "n2-1".to_string() },
        Payload::ReadOk { messages: vec![1, 2] },
        Payload::TopologyOk,
        Payload::BroadcastOk,
    ];
    for extra in replies {
        let mut node = three_node();
        node.rpc("n2", Body { msg_id: None, in_reply_to: None, extra: Payload::Broadcast { message: 7 } });
        let msg = envelope("n2", "n1", 3, Some(99), extra);
        assert!(msg.body.reply(&node).is_none());
        let out = node.handle(&msg);
        assert!(out.is_empty());
        assert_eq!(node.msg_ids(), 1);
        assert_eq!(node.pending_ids(), vec![1]);
        assert!(node.seen_values().is_empty());
    }
}

#[test]
fn start_from_init_names_the_node_and_answers() {
    let first = request(
        "c0",
        "n2",
        1,
        Payload::Init { node_id: "n2".to_string(), node_ids: names(&["n1", "n2", "n3"]) },
    );
    let (node, reply) = Node::start(&first).unwrap();
    assert_eq!(reply, envelope("n2", "c0", 1, Some(1), Payload::InitOk));
    assert_eq!(node.id(), "n2");
    assert_eq!(node.nodes(), &names(&["n1", "n2", "n3"]));
    assert_eq!(node.msg_ids(), 1);
    assert_eq!(node.pending_len(), 0);
    assert!(node.seen_values().is_empty());
}

#[test]
fn start_from_anything_but_init_fails() {
    let others = vec![
        Payload::Echo { echo: "x".to_string() },
        Payload::EchoOk { echo: "x".to_string() },
        Payload::InitOk,
        Payload::Generate,
        Payload::GenerateOk { id: "a".to_string() },
        Payload::Broadcast { message: 1 },
        Payload::BroadcastOk,
        Payload::Read,
        Payload::ReadOk { messages: vec![] },
        Payload::Topology { topology: HashMap::new() },
        Payload::TopologyOk,
    ];
    for extra in others {
        assert!(Node::start(&request("c0", "n1", 1, extra)).is_none());
    }
}

#[test]
fn generate_after_start_continues_the_counter() {
    let first = request(
        "c0",
        "n1",
        1,
        Payload::Init { node_id: "n1".to_string(), node_ids: names(&["n1"]) },
    );
    let (mut node, _) = Node::start(&first).unwrap();
    let out = node.handle(&request("c1", "n1", 2, Payload::Generate));
    assert_eq!(out, vec![envelope("n1", "c1", 2, Some(2), Payload::GenerateOk { id: "n1-1".to_string() })]);
}

#[test]
fn clone_of_a_message_is_equal_to_it() {
    let mut topology = HashMap::new();
    topology.insert("n1".to_string(), names(&["n2", "n3"]));
    let payloads = vec![
        Payload::Echo { echo: "x".to_string() },
        Payload::Init { node_id: "n1".to_string(), node_ids: names(&["n1", "n2"]) },
        Payload::GenerateOk { id: "n1-4".to_string() },
        Payload::Broadcast { message: 12 },
        Payload::ReadOk { messages: vec![3, 1, 2] },
        Payload::Topology { topology },
        Payload::TopologyOk,
    ];
    for extra in payloads {
        let msg = envelope("a", "b", 4, Some(2), extra);
        assert_eq!(msg.clone(), msg);
    }
}
