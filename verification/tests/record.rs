use motif_core::record::{decode_framed, encode_framed, RecordError};
use motif_core::{ActorId, Edge, Mutation, MutationOp, Node, Value};

fn actor() -> ActorId {
    ActorId { user_id: "u".into(), device_id: "d".into() }
}

fn make(op: MutationOp, foreshadow: bool) -> Mutation {
    Mutation { local_seq: 1, actor: actor(), foreshadow, op }
}

#[test]
fn round_trips_node_insert() {
    let n = Node::new("u_1", "Person")
        .with_property("name", Value::String("Alice".into()))
        .with_property("age", Value::I64(30));
    let m = make(MutationOp::NodeInsert(n), true);
    let framed = encode_framed(&m).unwrap();
    let (decoded, consumed) = decode_framed(&framed).unwrap().unwrap();
    assert_eq!(consumed, framed.len());
    assert_eq!(decoded.local_seq, m.local_seq);
    assert_eq!(decoded.actor.user_id, m.actor.user_id);
    assert_eq!(decoded.actor.device_id, m.actor.device_id);
    assert_eq!(decoded.foreshadow, m.foreshadow);
    let MutationOp::NodeInsert(n) = decoded.op else {
        panic!("expected NodeInsert");
    };
    assert_eq!(n.id, "u_1");
    assert_eq!(n.label, "Person");
    assert_eq!(n.properties.len(), 2);
    assert_eq!(n.properties.get("name"), Some(&Value::String("Alice".into())));
    assert_eq!(n.properties.get("age"), Some(&Value::I64(30)));
}

#[test]
fn round_trips_edge_insert_with_foreshadow_false() {
    let e = Edge::new("e_1", "FOLLOWS", "u_1", "u_2");
    let m = make(MutationOp::EdgeInsert(e), false);
    let framed = encode_framed(&m).unwrap();
    let (decoded, _) = decode_framed(&framed).unwrap().unwrap();
    assert!(!decoded.foreshadow);
    assert!(matches!(decoded.op, MutationOp::EdgeInsert(_)));
}

#[test]
fn round_trips_node_delete() {
    let m = make(MutationOp::NodeDelete("doomed".into()), true);
    let framed = encode_framed(&m).unwrap();
    let (decoded, _) = decode_framed(&framed).unwrap().unwrap();
    assert_eq!(decoded.op.target_id(), "doomed");
}

#[test]
fn empty_input_returns_none() {
    assert!(decode_framed(&[]).unwrap().is_none());
}

#[test]
fn truncated_length_prefix_is_decode_error() {
    let err = decode_framed(&[1, 2]).unwrap_err();
    assert!(matches!(err, RecordError::Decode(_)));
}

#[test]
fn truncated_payload_is_decode_error() {
    let m = make(MutationOp::NodeInsert(Node::new("u_1", "Person")), true);
    let mut framed = encode_framed(&m).unwrap();
    framed.truncate(framed.len() - 1);
    let err = decode_framed(&framed).unwrap_err();
    assert!(matches!(err, RecordError::Decode(_)));
}

#[test]
fn frame_layout_is_length_then_bincode_payload() {
    let m = make(MutationOp::EdgeDelete("r9".into()), true);
    let framed = encode_framed(&m).unwrap();
    let payload = bincode::encode_to_vec(
        (1u64, ("u".to_string(), "d".to_string()), true, 3u32, "r9".to_string()),
        bincode::config::standard(),
    )
    .unwrap();
    assert_eq!(&framed[..4], &(payload.len() as u32).to_le_bytes());
    assert_eq!(&framed[4..], &payload[..]);
}

#[test]
fn payload_that_is_not_a_mutation_is_decode_error() {
    // Length 1, payload: local_seq 0 then end of input.
    assert!(matches!(decode_framed(&[1, 0, 0, 0, 0]), Err(RecordError::Decode(_))));
    // An operation tag out of range.
    let m = make(MutationOp::NodeDelete("x".into()), true);
    let mut framed = encode_framed(&m).unwrap();
    let tag_at = framed.len() - 3;
    assert_eq!(framed[tag_at], 2);
    framed[tag_at] = 9;
    assert!(matches!(decode_framed(&framed), Err(RecordError::Decode(_))));
}

#[test]
fn bytes_after_the_record_are_not_read() {
    let m = make(MutationOp::NodeDelete("x".into()), true);
    let mut framed = encode_framed(&m).unwrap();
    let len = framed.len();
    framed.extend_from_slice(&[0xff, 0xff, 0xff]);
    let (decoded, consumed) = decode_framed(&framed).unwrap().unwrap();
    assert_eq!(consumed, len);
    assert_eq!(decoded.op.target_id(), "x");
}
