use gossip_glomers::{
    cas_request, classify_cas_reply, classify_read_reply, classify_write_reply, is_kv_reply,
    read_request, write_request, Correlator, KvPayload, NodeError,
};

#[test]
fn registered_ids_strictly_increase() {
    let mut c = Correlator::new();
    let first = c.register();
    let second = c.register();
    let third = c.register();
    assert_eq!((first, second, third), (0, 1, 2));
}

#[test]
fn each_completion_slot_resolves_exactly_once() {
    let mut c = Correlator::new();
    let id = c.register();
    assert_eq!(c.resolve(Some(id)), Ok(()));
    assert_eq!(c.resolve(Some(id)), Err(NodeError::UnknownCorrelationId));
}

#[test]
fn a_reply_without_an_id_is_a_protocol_violation() {
    let mut c = Correlator::new();
    c.register();
    assert_eq!(c.resolve(None), Err(NodeError::MissingInReplyTo));
}

#[test]
fn a_reply_for_an_unknown_id_is_a_protocol_violation() {
    let mut c = Correlator::new();
    let id = c.register();
    assert_eq!(c.resolve(Some(id + 40)), Err(NodeError::UnknownCorrelationId));
    assert_eq!(c.resolve(Some(id)), Ok(()));
}

#[test]
fn out_of_order_replies_resolve() {
    let mut c = Correlator::new();
    let first = c.register();
    let second = c.register();
    assert_eq!(c.resolve(Some(second)), Ok(()));
    assert_eq!(c.resolve(Some(first)), Ok(()));
}

#[test]
fn requests_are_addressed_to_the_store() {
    let n1 = "n1".to_string();
    let m = read_request(&n1, 0, "k".to_string());
    assert_eq!(m.src, "n1");
    assert_eq!(m.dest, "seq-kv");
    assert_eq!(m.body.message_id, Some(0));
    assert_eq!(m.body.in_reply_to, None);
    assert_eq!(m.body.payload, KvPayload::Read { key: "k".to_string() });

    let m = write_request(&n1, 1, "k".to_string(), "3".to_string());
    assert_eq!(m.dest, "seq-kv");
    assert_eq!(
        m.body.payload,
        KvPayload::Write { key: "k".to_string(), value: "3".to_string() }
    );
}

#[test]
fn cas_on_an_absent_key_scenario() {
    let n1 = "n1".to_string();
    let request = cas_request(&n1, 0, "k".to_string(), "0".to_string(), "1".to_string(), true);
    assert_eq!(request.dest, "seq-kv");
    assert_eq!(
        request.body.payload,
        KvPayload::Cas {
            key: "k".to_string(),
            from: "0".to_string(),
            to: "1".to_string(),
            create_if_not_exists: true,
        }
    );
    assert_eq!(classify_cas_reply(KvPayload::CasOk), Ok(()));
}

#[test]
fn read_replies_classify() {
    assert_eq!(
        classify_read_reply(KvPayload::ReadOk { value: "1".to_string() }),
        Ok("1".to_string())
    );
    assert_eq!(classify_read_reply(KvPayload::Error), Err(NodeError::KeyNotFound));
    assert_eq!(
        classify_read_reply(KvPayload::WriteOk),
        Err(NodeError::UnexpectedReplyType)
    );
}

#[test]
fn write_replies_classify() {
    assert_eq!(classify_write_reply(KvPayload::WriteOk), Ok(()));
    assert_eq!(classify_write_reply(KvPayload::Error), Err(NodeError::UnexpectedReplyType));
}

#[test]
fn cas_conflicts_surface_to_the_caller() {
    assert_eq!(classify_cas_reply(KvPayload::Error), Err(NodeError::CasConflict));
    assert_eq!(classify_cas_reply(KvPayload::WriteOk), Err(NodeError::UnexpectedReplyType));
}

#[test]
fn store_traffic_is_recognized_by_source() {
    assert!(is_kv_reply(&"seq-kv".to_string()));
    assert!(!is_kv_reply(&"n1".to_string()));
    assert!(!is_kv_reply(&"seq-kv2".to_string()));
}
