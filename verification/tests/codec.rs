use maelstrom::codec::{parse, render};
use maelstrom::ids::MessageId;
use maelstrom::ids::{ClientId, NodeId, PeerId};
use maelstrom::protocol::{Body, ErrorCode, Message, Payload};

fn msg(src: PeerId, dest: PeerId, msg_id: Option<u64>, in_reply_to: Option<u64>, value: Payload) -> Message {
    Message { src, dest, body: Body { msg_id, in_reply_to, value } }
}

fn client(n: u64) -> PeerId {
    PeerId::Client(ClientId(n))
}

fn node(n: u64) -> PeerId {
    PeerId::Node(NodeId(n))
}

#[test]
fn parse_echo_request_line() {
    let line = br#"{"src":"c1","dest":"n1","body":{"type":"echo","msg_id":42,"echo":"hi"}}"#;
    let m = parse(line).expect("the canonical echo line parses");
    assert_eq!(m.src, client(1));
    assert_eq!(m.dest, node(1));
    assert_eq!(m.body.msg_id, Some(42));
    assert_eq!(m.body.in_reply_to, None);
    assert_eq!(m.body.value, Payload::Echo { echo: b"hi".to_vec() });
    assert_eq!(render(&m), line.to_vec());
}

#[test]
fn render_echo_reply_line() {
    let m = msg(node(1), client(1), None, Some(42), Payload::EchoOk { echo: b"hi".to_vec() });
    let line = render(&m);
    assert_eq!(
        line,
        br#"{"src":"n1","dest":"c1","body":{"type":"echo_ok","in_reply_to":42,"echo":"hi"}}"#
            .to_vec()
    );
}

#[test]
fn round_trip_all_payloads() {
    let samples = vec![
        msg(client(7), node(0), Some(1), None, Payload::Echo { echo: b"".to_vec() }),
        msg(node(0), client(7), None, Some(1), Payload::EchoOk { echo: b"x y z".to_vec() }),
        msg(
            client(0),
            node(3),
            Some(0),
            None,
            Payload::Init { node_id: NodeId(3), node_ids: vec![NodeId(1), NodeId(2), NodeId(3)] },
        ),
        msg(node(3), client(0), None, Some(0), Payload::InitOk),
        msg(node(1), node(2), Some(9), None, Payload::Broadcast { message: 1000 }),
        msg(node(2), node(1), None, Some(9), Payload::BroadcastOk),
        msg(client(2), node(1), Some(5), None, Payload::Read),
        msg(
            node(1),
            client(2),
            None,
            Some(5),
            Payload::ReadOk { messages: vec![1, 9, 1000] },
        ),
        msg(client(2), node(1), Some(6), None, Payload::Generate),
        msg(node(1), client(2), None, Some(6), Payload::GenerateOk { id: (5 << 32) | 1 }),
        msg(
            client(1),
            node(1),
            Some(2),
            None,
            Payload::Topology {
                topology: vec![
                    (NodeId(1), vec![NodeId(2), NodeId(3)]),
                    (NodeId(2), vec![NodeId(1)]),
                    (NodeId(3), vec![]),
                ],
            },
        ),
        msg(node(1), client(1), None, Some(2), Payload::TopologyOk),
        msg(
            node(1),
            client(1),
            None,
            Some(3),
            Payload::Error { code: ErrorCode::NotSupported, text: b"Not supported".to_vec() },
        ),
    ];
    for m in samples {
        let line = render(&m);
        let back = parse(&line).expect("a rendered line parses");
        assert_eq!(back, m);
    }
}

#[test]
fn round_trip_escaped_text() {
    // a quote, a backslash, a newline and a tab inside the echoed text
    let text = b"say \"hi\" \\ twice\n\tdone".to_vec();
    let m = msg(client(1), node(1), Some(8), None, Payload::Echo { echo: text });
    let line = render(&m);
    let back = parse(&line).expect("escapes decode");
    assert_eq!(back, m);
    // the rendering uses JSON escapes and no raw control bytes
    assert!(!line.iter().any(|&b| b < 0x20));
}

#[test]
fn parse_rejects_malformed_lines() {
    assert!(parse(b"").is_none());
    assert!(parse(b"not json").is_none());
    assert!(parse(br#"{"src":"x1","dest":"n1","body":{"type":"read","msg_id":1}}"#).is_none());
    assert!(parse(br#"{"src":"c1","dest":"n1","body":{"type":"mystery","msg_id":1}}"#).is_none());
    assert!(
        parse(br#"{"src":"c1","dest":"n1","body":{"type":"echo","msg_id":1,"echo":"hi"}} "#)
            .is_none()
    );
    // a topology object binding one node twice is refused
    assert!(parse(
        br#"{"src":"c1","dest":"n1","body":{"type":"topology","msg_id":1,"topology":{"n1":[],"n1":[]}}}"#
    )
    .is_none());
}

#[test]
fn error_codes_on_the_wire() {
    let all = [
        (ErrorCode::Timeout, 0),
        (ErrorCode::NodeNotFound, 1),
        (ErrorCode::NotSupported, 10),
        (ErrorCode::TemporarilyUnavailable, 11),
        (ErrorCode::MalformedRequest, 12),
        (ErrorCode::Crash, 13),
        (ErrorCode::Abort, 14),
        (ErrorCode::KeyDoesNotExist, 20),
        (ErrorCode::KeyAlreadyExists, 21),
        (ErrorCode::PreconditionFailed, 22),
        (ErrorCode::TxnConflict, 30),
    ];
    for (e, c) in all {
        assert_eq!(e.code(), c);
        assert_eq!(ErrorCode::from_code(c), Some(e));
    }
    assert_eq!(ErrorCode::from_code(2), None);
}

#[test]
fn peer_id_text_forms() {
    assert_eq!(NodeId(12).encode(), b"n12".to_vec());
    assert_eq!(ClientId(0).encode(), b"c0".to_vec());
    assert_eq!(PeerId::decode(b"n7"), Some(node(7)));
    assert_eq!(PeerId::decode(b"c19"), Some(client(19)));
    assert_eq!(PeerId::decode(b"x7"), None);
    assert_eq!(PeerId::decode(b"n"), None);
    assert_eq!(PeerId::decode(b"n07"), None);
    assert_eq!(NodeId::decode(b"n18446744073709551615"), Some(NodeId(u64::MAX)));
    assert_eq!(NodeId::decode(b"n18446744073709551616"), None);
}

#[test]
fn message_id_successor() {
    assert_eq!(MessageId(0).next(), MessageId(1));
    assert_eq!(MessageId(41).next(), MessageId(42));
    assert_eq!(MessageId(u64::MAX).next(), MessageId(0));
}
