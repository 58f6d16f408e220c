use maelstrom::ids::{ClientId, NodeId, PeerId};
use maelstrom::node::{backoff_next, Effect, Node, INITIAL_TIMEOUT_MS};
use maelstrom::protocol::{Body, ErrorCode, Message, Payload};

fn request(src: PeerId, dest: PeerId, msg_id: u64, value: Payload) -> Message {
    Message { src, dest, body: Body { msg_id: Some(msg_id), in_reply_to: None, value } }
}

fn initialized(id: u64, peers: &[u64]) -> Node {
    Node::new(NodeId(id), peers.iter().map(|&n| NodeId(n)).collect())
}

fn expect_reply(e: &Effect) -> &Message {
    match e {
        Effect::Emit(m) => m,
        other => panic!("expected an emitted reply, got {:?}", other),
    }
}

#[test]
fn init_handshake() {
    let m = request(
        PeerId::Client(ClientId(9)),
        PeerId::Node(NodeId(0)),
        1,
        Payload::Init { node_id: NodeId(5), node_ids: vec![NodeId(5), NodeId(6)] },
    );
    let (reply, node) = Node::init_step(m).expect("an init request initializes");
    assert_eq!(reply.src, PeerId::Node(NodeId(5)));
    assert_eq!(reply.dest, PeerId::Client(ClientId(9)));
    assert_eq!(reply.body.in_reply_to, Some(1));
    assert_eq!(reply.body.value, Payload::InitOk);
    assert_eq!(node.id, NodeId(5));
    assert_eq!(node.node_ids, vec![NodeId(5), NodeId(6)]);

    let other = request(
        PeerId::Client(ClientId(9)),
        PeerId::Node(NodeId(0)),
        2,
        Payload::Read,
    );
    assert!(Node::init_step(other).is_none());
}

#[test]
fn echo_round_trip() {
    // the echo scenario: after init as n1, an echo from c1 with msg_id 42
    // answers echo_ok carrying the same text under in_reply_to 42
    let mut node = initialized(1, &[1]);
    let m = request(
        PeerId::Client(ClientId(1)),
        PeerId::Node(NodeId(1)),
        42,
        Payload::Echo { echo: b"hi".to_vec() },
    );
    let eff = node.handle_message(m);
    assert_eq!(eff.len(), 1);
    let reply = expect_reply(&eff[0]);
    assert_eq!(reply.src, PeerId::Node(NodeId(1)));
    assert_eq!(reply.dest, PeerId::Client(ClientId(1)));
    assert_eq!(reply.body.in_reply_to, Some(42));
    assert_eq!(reply.body.value, Payload::EchoOk { echo: b"hi".to_vec() });
}

#[test]
fn generate_two_consecutive_ids() {
    // after init with node_id n5, two generates yield (5<<32)|0 then (5<<32)|1
    let mut node = initialized(5, &[5]);
    let m1 = request(PeerId::Client(ClientId(1)), PeerId::Node(NodeId(5)), 1, Payload::Generate);
    let m2 = request(PeerId::Client(ClientId(1)), PeerId::Node(NodeId(5)), 2, Payload::Generate);
    let e1 = node.handle_message(m1);
    let e2 = node.handle_message(m2);
    assert_eq!(
        expect_reply(&e1[0]).body.value,
        Payload::GenerateOk { id: (5u64 << 32) | 0 }
    );
    assert_eq!(
        expect_reply(&e2[0]).body.value,
        Payload::GenerateOk { id: (5u64 << 32) | 1 }
    );
}

#[test]
fn broadcast_dedup() {
    // with broadcast_to = [n2]: the first delivery of 9 acknowledges and
    // gossips to n2; the second delivery only acknowledges
    let mut node = initialized(1, &[1, 2]);
    node.broadcast_to = vec![NodeId(2)];
    let m = request(
        PeerId::Client(ClientId(1)),
        PeerId::Node(NodeId(1)),
        7,
        Payload::Broadcast { message: 9 },
    );
    let eff = node.handle_message(m.clone());
    assert_eq!(eff.len(), 2);
    assert_eq!(expect_reply(&eff[0]).body.value, Payload::BroadcastOk);
    assert_eq!(eff[1], Effect::Gossip { dest: NodeId(2), message: 9 });
    assert_eq!(node.messages, vec![9]);

    let eff2 = node.handle_message(m);
    assert_eq!(eff2.len(), 1);
    assert_eq!(expect_reply(&eff2[0]).body.value, Payload::BroadcastOk);
    assert_eq!(node.messages, vec![9]);
}

#[test]
fn broadcast_no_echo_to_sender() {
    // with broadcast_to = [n2, n3], a broadcast arriving from n2 fans out
    // to n3 only
    let mut node = initialized(1, &[1, 2, 3]);
    node.broadcast_to = vec![NodeId(2), NodeId(3)];
    let m = request(
        PeerId::Node(NodeId(2)),
        PeerId::Node(NodeId(1)),
        3,
        Payload::Broadcast { message: 7 },
    );
    let eff = node.handle_message(m);
    assert_eq!(eff.len(), 2);
    assert_eq!(expect_reply(&eff[0]).body.value, Payload::BroadcastOk);
    assert_eq!(eff[1], Effect::Gossip { dest: NodeId(3), message: 7 });
}

#[test]
fn read_returns_seen_values() {
    let mut node = initialized(1, &[1]);
    for (i, v) in [4u64, 2, 4].iter().enumerate() {
        let m = request(
            PeerId::Client(ClientId(1)),
            PeerId::Node(NodeId(1)),
            i as u64,
            Payload::Broadcast { message: *v },
        );
        node.handle_message(m);
    }
    let m = request(PeerId::Client(ClientId(1)), PeerId::Node(NodeId(1)), 9, Payload::Read);
    let eff = node.handle_message(m);
    assert_eq!(
        expect_reply(&eff[0]).body.value,
        Payload::ReadOk { messages: vec![4, 2] }
    );
}

#[test]
fn topology_request_sets_next_hops() {
    // the 2-by-2 grid: n1 gossips to n3 afterwards
    let mut node = initialized(1, &[1, 2, 3, 4]);
    let m = request(
        PeerId::Client(ClientId(1)),
        PeerId::Node(NodeId(1)),
        4,
        Payload::Topology {
            topology: vec![
                (NodeId(1), vec![NodeId(2), NodeId(3)]),
                (NodeId(2), vec![NodeId(1), NodeId(4)]),
                (NodeId(3), vec![NodeId(1), NodeId(4)]),
                (NodeId(4), vec![NodeId(2), NodeId(3)]),
            ],
        },
    );
    let eff = node.handle_message(m);
    assert_eq!(expect_reply(&eff[0]).body.value, Payload::TopologyOk);
    assert_eq!(node.broadcast_to, vec![NodeId(3)]);
}

#[test]
fn reply_correlation_and_pending() {
    // pending is empty before a send, holds the id while it is in
    // flight, and empties when the reply is delivered
    let mut node = initialized(1, &[1, 2]);
    assert!(node.pending.is_empty());
    let out = node.prepare_send(NodeId(2), Payload::Broadcast { message: 5 });
    assert_eq!(out.src, PeerId::Node(NodeId(1)));
    assert_eq!(out.dest, PeerId::Node(NodeId(2)));
    assert_eq!(out.body.msg_id, Some(0));
    assert_eq!(node.pending, vec![0]);

    let reply = Message {
        src: PeerId::Node(NodeId(2)),
        dest: PeerId::Node(NodeId(1)),
        body: Body { msg_id: None, in_reply_to: Some(0), value: Payload::BroadcastOk },
    };
    let eff = node.handle_message(reply.clone());
    assert_eq!(eff.len(), 1);
    assert_eq!(eff[0], Effect::Deliver { msg_id: 0, reply });
    assert!(node.pending.is_empty());

    // a late duplicate of the same reply is dropped
    let dup = Message {
        src: PeerId::Node(NodeId(2)),
        dest: PeerId::Node(NodeId(1)),
        body: Body { msg_id: None, in_reply_to: Some(0), value: Payload::BroadcastOk },
    };
    assert!(node.handle_message(dup).is_empty());

    // caller-side completion is idempotent
    node.pending = vec![3];
    node.complete_send(3);
    node.complete_send(3);
    assert!(node.pending.is_empty());
}

#[test]
fn unsupported_request_answers_error() {
    let mut node = initialized(1, &[1]);
    let m = request(PeerId::Client(ClientId(1)), PeerId::Node(NodeId(1)), 2, Payload::InitOk);
    let eff = node.handle_message(m);
    let reply = expect_reply(&eff[0]);
    assert_eq!(reply.body.in_reply_to, Some(2));
    assert_eq!(
        reply.body.value,
        Payload::Error { code: ErrorCode::NotSupported, text: b"Not supported".to_vec() }
    );
}

#[test]
fn misaddressed_and_unsolicited_messages_are_dropped() {
    let mut node = initialized(1, &[1]);
    let other = request(
        PeerId::Client(ClientId(1)),
        PeerId::Node(NodeId(9)),
        1,
        Payload::Echo { echo: b"x".to_vec() },
    );
    assert!(node.handle_message(other).is_empty());

    let unsolicited = Message {
        src: PeerId::Node(NodeId(2)),
        dest: PeerId::Node(NodeId(1)),
        body: Body { msg_id: None, in_reply_to: Some(77), value: Payload::BroadcastOk },
    };
    assert!(node.handle_message(unsolicited).is_empty());
}

#[test]
fn backoff_grows_half_again() {
    assert_eq!(INITIAL_TIMEOUT_MS, 100);
    assert_eq!(backoff_next(100), 150);
    assert_eq!(backoff_next(150), 225);
    assert_eq!(backoff_next(u64::MAX), u64::MAX);
}

#[test]
fn seen_is_the_union_of_deliveries() {
    // delivering the same payloads in different orders, with repeats,
    // leaves the same set of seen values
    let deliver = |order: &[u64]| {
        let mut node = initialized(1, &[1]);
        for (i, v) in order.iter().enumerate() {
            let m = request(
                PeerId::Client(ClientId(1)),
                PeerId::Node(NodeId(1)),
                i as u64,
                Payload::Broadcast { message: *v },
            );
            node.handle_message(m);
        }
        let mut seen = node.messages.clone();
        seen.sort();
        seen
    };
    assert_eq!(deliver(&[1, 2, 2, 3, 1]), deliver(&[3, 1, 2]));
    assert_eq!(deliver(&[5, 5, 5]), deliver(&[5]));
}
