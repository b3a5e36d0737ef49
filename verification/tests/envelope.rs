use gossip_glomers::{handshake_reply, Init, Message, MessageBody, Payload};

fn message(src: &str, dest: &str, message_id: Option<i32>, payload: Payload) -> Message<Payload> {
    Message {
        src: src.to_string(),
        dest: dest.to_string(),
        body: MessageBody { message_id, in_reply_to: None, payload },
    }
}

#[test]
fn into_reply_swaps_endpoints_and_correlates() {
    let request = message("c1", "n1", Some(7), Payload::Read);
    let reply = request.into_reply(Payload::BroadcastOk);
    assert_eq!(reply.src, "n1");
    assert_eq!(reply.dest, "c1");
    assert_eq!(reply.body.in_reply_to, Some(7));
    assert_eq!(reply.body.message_id, None);
    assert_eq!(reply.body.payload, Payload::BroadcastOk);
}

#[test]
fn into_reply_extends_the_senders_numbering() {
    let mut request = message("c1", "n1", Some(3), Payload::Read);
    request.body.in_reply_to = Some(10);
    let reply = request.into_reply(Payload::ReadOk { broadcast_messages: vec![] });
    assert_eq!(reply.body.message_id, Some(11));
    assert_eq!(reply.body.in_reply_to, Some(3));
}

#[test]
fn take_payload_preserves_the_envelope() {
    let mut request = message("a", "b", Some(2), Payload::Broadcast { broadcast_message: 9 });
    request.body.in_reply_to = Some(1);
    let (envelope, payload) = request.take_payload();
    assert_eq!(envelope.src, "a");
    assert_eq!(envelope.dest, "b");
    assert_eq!(envelope.body.message_id, Some(2));
    assert_eq!(envelope.body.in_reply_to, Some(1));
    assert_eq!(payload, Payload::Broadcast { broadcast_message: 9 });
}

#[test]
fn new_message_carries_no_correlation_ids() {
    let m = Message::new("n1".to_string(), "n2".to_string(), Payload::Read);
    assert_eq!(m.src, "n1");
    assert_eq!(m.dest, "n2");
    assert_eq!(m.body.message_id, None);
    assert_eq!(m.body.in_reply_to, None);
}

#[test]
fn handshake_scenario() {
    let init = Message {
        src: "c0".to_string(),
        dest: "n1".to_string(),
        body: MessageBody {
            message_id: Some(1),
            in_reply_to: None,
            payload: Init {
                node_id: "n1".to_string(),
                node_ids: vec!["n1".to_string(), "n2".to_string(), "n3".to_string()],
            },
        },
    };
    let (ack, payload) = handshake_reply(init);
    assert_eq!(ack.src, "n1");
    assert_eq!(ack.dest, "c0");
    assert_eq!(ack.body.in_reply_to, Some(1));
    assert_eq!(payload.node_id, "n1");
    assert_eq!(payload.node_ids, vec!["n1", "n2", "n3"]);
}
