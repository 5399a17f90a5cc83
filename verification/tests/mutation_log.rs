use motif_core::{ActorId, Mutation, MutationLog, MutationOp, Node};

fn sample(seq: u64, op: MutationOp) -> Mutation {
    Mutation {
        local_seq: seq,
        actor: ActorId { user_id: "u".into(), device_id: "d".into() },
        foreshadow: true,
        op,
    }
}

#[test]
fn buffers_when_no_forwarder_wired() {
    let mut log = MutationLog::new();
    log.record(sample(1, MutationOp::NodeInsert(Node::new("a", "T"))));
    log.record(sample(2, MutationOp::NodeInsert(Node::new("b", "T"))));
    let drained = log.take_buffer();
    assert_eq!(drained.len(), 2);
    assert_eq!(drained[0].local_seq, 1);
    assert_eq!(drained[1].local_seq, 2);
}

#[test]
fn taking_the_buffer_empties_it() {
    let mut log = MutationLog::new();
    log.record(sample(1, MutationOp::NodeDelete("a".into())));
    assert_eq!(log.buffered_len(), 1);
    let _ = log.take_buffer();
    assert_eq!(log.buffered_len(), 0);
    assert!(log.take_buffer().is_empty());
}

#[test]
fn mutation_op_accessors() {
    let ins = MutationOp::NodeInsert(Node::new("n1", "T"));
    assert_eq!(ins.target_id(), "n1");
    assert!(ins.is_insert());
    assert!(ins.is_node());
    let del = MutationOp::EdgeDelete("e1".into());
    assert_eq!(del.target_id(), "e1");
    assert!(!del.is_insert());
    assert!(!del.is_node());
}
