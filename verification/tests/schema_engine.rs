use motif_core::{
    ControllerConfig, Engine, EngineError, IdentityConfig, MemoryStorage, MotifConfig, MutationLog,
    MutationOp, Node, Params, PropertyType, ResultCell, Schema, StorageConfig, TableKind,
    TableSchema, Value,
};

fn config_with(kind: &str) -> MotifConfig {
    MotifConfig {
        identity: IdentityConfig { user_id: "u".into(), device_id: "d".into() },
        controller: ControllerConfig { kind: kind.into() },
        storage: StorageConfig { path: ":memory:".into() },
        capability: Default::default(),
        edge: Default::default(),
    }
}

fn cfg() -> MotifConfig {
    config_with("in-memory")
}

fn reopen(e: Engine<MemoryStorage>) -> Engine<MemoryStorage> {
    let bytes = e.into_storage().as_bytes().to_vec();
    Engine::open_with(&cfg(), MemoryStorage::from_bytes(bytes)).unwrap()
}

fn is_value(c: &ResultCell, v: Value) -> bool {
    matches!(c, ResultCell::Value(x) if *x == v)
}

fn tiny_schema(version: u64) -> Schema {
    Schema::new(version)
        .with_table(
            TableSchema::new("Person", TableKind::Node)
                .with_property("name", PropertyType::String)
                .with_property("age", PropertyType::I64),
        )
        .with_table(TableSchema::new("FOLLOWS", TableKind::Edge))
}

fn person_schema() -> Schema {
    Schema::new(1).with_table(
        TableSchema::new("Person", TableKind::Node)
            .with_property("name", PropertyType::String)
            .with_property("age", PropertyType::I64)
            .with_property("joined_at", PropertyType::Timestamp)
            .with_property("nicknames", PropertyType::List),
    )
}

#[test]
fn no_schema_means_permissive() {
    let mut e = Engine::open_in_memory(&cfg()).unwrap();
    e.insert_node(Node::new("a", "Whatever")).unwrap();
    e.insert_node(Node::new("b", "EvenWeirder")).unwrap();
    assert!(e.current_schema().is_none());
}

#[test]
fn schema_apply_persists_in_engine() {
    let mut e = Engine::open_in_memory(&cfg()).unwrap();
    e.apply_schema(tiny_schema(1)).unwrap();
    let s = e.current_schema().unwrap();
    assert_eq!(s.version, 1);
    assert!(s.has_label("Person"));
    assert!(s.has_label("FOLLOWS"));
    assert!(!s.has_label("Robot"));
}

#[test]
fn unknown_label_rejected_after_schema_apply() {
    let mut e = Engine::open_in_memory(&cfg()).unwrap();
    e.apply_schema(tiny_schema(1)).unwrap();
    e.insert_node(Node::new("alice", "Person")).unwrap();
    let err = e.insert_node(Node::new("bot", "Robot")).unwrap_err();
    match err {
        EngineError::SchemaUnknown { label, schema_version } => {
            assert_eq!(label, "Robot");
            assert_eq!(schema_version, 1);
        }
        other => panic!("expected SchemaUnknown, got {other:?}"),
    }
}

#[test]
fn schema_persists_across_reopen() {
    let mut e = Engine::open_in_memory(&cfg()).unwrap();
    e.apply_schema(tiny_schema(2)).unwrap();
    e.insert_node(Node::new("alice", "Person")).unwrap();
    let reopened = reopen(e);
    let s = reopened.current_schema().unwrap();
    assert_eq!(s.version, 2);
    assert!(s.has_label("Person"));
}

#[test]
fn newer_schema_version_supersedes() {
    let mut e = Engine::open_in_memory(&cfg()).unwrap();
    e.apply_schema(tiny_schema(1)).unwrap();
    assert_eq!(e.current_schema().unwrap().version, 1);
    let v2 = Schema::new(2).with_table(TableSchema::new("Robot", TableKind::Node));
    e.apply_schema(v2).unwrap();
    let s = e.current_schema().unwrap();
    assert_eq!(s.version, 2);
    assert!(s.has_label("Robot"));
    assert!(!s.has_label("Person"));
}

#[test]
fn motif_schema_version_resolves_via_cypher() {
    let mut e = Engine::open_in_memory(&cfg()).unwrap();
    e.apply_schema(tiny_schema(7)).unwrap();
    e.query("CREATE (n:Person {id: 'a'})", &Params::new()).unwrap();
    let r = e.query("MATCH (n) RETURN n._motif.schema.version", &Params::new()).unwrap();
    assert_eq!(r.columns, vec!["n._motif.schema.version"]);
    assert_eq!(r.rows.len(), 1);
    assert!(is_value(&r.rows[0][0], Value::I64(7)));
}

#[test]
fn motif_schema_version_is_null_when_no_schema() {
    let mut e = Engine::open_in_memory(&cfg()).unwrap();
    e.query("CREATE (n:Person {id: 'a'})", &Params::new()).unwrap();
    let r = e.query("MATCH (n) RETURN n._motif.schema.version", &Params::new()).unwrap();
    assert!(is_value(&r.rows[0][0], Value::Null));
}

#[test]
fn insert_respecting_declared_types_succeeds() {
    let mut e = Engine::open_in_memory(&cfg()).unwrap();
    e.apply_schema(person_schema()).unwrap();
    e.insert_node(
        Node::new("a", "Person")
            .with_property("name", Value::String("Alice".into()))
            .with_property("age", Value::I64(30))
            .with_property("joined_at", Value::Timestamp(1_700_000_000_000))
            .with_property("nicknames", Value::List(vec![Value::String("Al".into())])),
    )
    .unwrap();
}

#[test]
fn null_is_accepted_for_any_declared_type() {
    let mut e = Engine::open_in_memory(&cfg()).unwrap();
    e.apply_schema(person_schema()).unwrap();
    e.insert_node(
        Node::new("a", "Person")
            .with_property("name", Value::Null)
            .with_property("age", Value::Null)
            .with_property("joined_at", Value::Null)
            .with_property("nicknames", Value::Null),
    )
    .unwrap();
}

#[test]
fn type_mismatch_is_rejected_with_clean_error() {
    let mut e = Engine::open_in_memory(&cfg()).unwrap();
    e.apply_schema(person_schema()).unwrap();
    let err = e
        .insert_node(Node::new("a", "Person").with_property("age", Value::F64(30.5f64.to_bits())))
        .expect_err("type mismatch should be rejected");
    let EngineError::SchemaPropertyTypeMismatch { label, property, declared, actual, schema_version } = err
    else {
        panic!("expected SchemaPropertyTypeMismatch, got {err:?}");
    };
    assert_eq!(label, "Person");
    assert_eq!(property, "age");
    assert_eq!(declared, PropertyType::I64);
    assert_eq!(actual, "f64");
    assert_eq!(schema_version, 1);
}

#[test]
fn undeclared_properties_pass_through() {
    let mut e = Engine::open_in_memory(&cfg()).unwrap();
    e.apply_schema(person_schema()).unwrap();
    e.insert_node(
        Node::new("a", "Person")
            .with_property("name", Value::String("Alice".into()))
            .with_property("gpa", Value::F64(3.7f64.to_bits())),
    )
    .unwrap();
}

#[test]
fn timestamp_and_list_round_trip_via_get_node() {
    let mut e = Engine::open_in_memory(&cfg()).unwrap();
    let nicknames = Value::List(vec![Value::String("Al".into()), Value::String("Ali".into())]);
    e.insert_node(
        Node::new("a", "Person")
            .with_property("joined_at", Value::Timestamp(1_700_000_000_000))
            .with_property("nicknames", nicknames.clone()),
    )
    .unwrap();
    let n = e.get_node("a").unwrap().expect("inserted node");
    assert_eq!(n.properties.get("joined_at"), Some(&Value::Timestamp(1_700_000_000_000)));
    assert_eq!(n.properties.get("nicknames"), Some(&nicknames));
}

#[test]
fn validation_no_op_when_no_schema_set() {
    let mut e = Engine::open_in_memory(&cfg()).unwrap();
    e.insert_node(
        Node::new("a", "Person")
            .with_property("age", Value::F64(30.5f64.to_bits()))
            .with_property("nicknames", Value::Bool(true)),
    )
    .unwrap();
}

#[test]
fn schema_race_recovery_replays_old_records_under_newer_schema() {
    let mut e = Engine::open_in_memory(&cfg()).unwrap();
    e.apply_schema(Schema::new(1).with_table(TableSchema::new("Person", TableKind::Node))).unwrap();
    e.insert_node(Node::new("a", "Person")).unwrap();
    e.apply_schema(Schema::new(2).with_table(TableSchema::new("Robot", TableKind::Node))).unwrap();

    let mut e = reopen(e);
    let n = e.get_node("a").unwrap().expect("Person 'a' replayed");
    assert_eq!(n.label, "Person");
    let schema = e.current_schema().expect("schema present after recovery");
    assert_eq!(schema.version, 2);
    let err = e.insert_node(Node::new("b", "Person")).expect_err("insert with dropped label should fail");
    assert!(matches!(err, EngineError::SchemaUnknown { .. }), "{err:?}");
}

#[test]
fn with_named_controller_accepts_matching_kind() {
    let e = Engine::open_in_memory(&config_with("in-memory")).unwrap();
    let mut e = e.with_named_controller("in-memory").unwrap();
    e.insert_node(Node::new("a", "Person")).unwrap();
    assert_eq!(e.buffered_mutation_count(), 1);
}

#[test]
fn with_named_controller_rejects_mismatched_kind() {
    let engine = Engine::open_in_memory(&config_with("in-memory")).unwrap();
    match engine.with_named_controller("surreal") {
        Err(EngineError::ControllerKindMismatch { declared, wired }) => {
            assert_eq!(declared, "in-memory");
            assert_eq!(wired, "surreal");
        }
        Ok(_) => panic!("expected ControllerKindMismatch"),
        Err(other) => panic!("unexpected error: {other:?}"),
    }
}

#[test]
fn replay_unconfirmed_with_no_controller_is_a_noop() {
    let mut e = Engine::open_in_memory(&cfg()).unwrap();
    e.insert_node(Node::new("a", "Person")).unwrap();
    e.insert_node(Node::new("b", "Person")).unwrap();
    assert_eq!(e.replay_unconfirmed().unwrap(), 0);
}

#[test]
fn replay_unconfirmed_re_feeds_persisted_mutations() {
    let mut e = Engine::open_in_memory(&cfg()).unwrap();
    e.insert_node(Node::new("a", "Person")).unwrap();
    e.insert_node(Node::new("b", "Person")).unwrap();
    e.insert_node(Node::new("c", "Person")).unwrap();

    let mut e = reopen(e).with_mutation_log(MutationLog::new());
    let replayed = e.replay_unconfirmed().unwrap();
    assert_eq!(replayed, 3);
    let received = e.take_mutation_buffer();
    assert_eq!(received.len(), 3);
    for (i, m) in received.iter().enumerate() {
        assert_eq!(m.local_seq, (i + 1) as u64);
    }
}

#[test]
fn replay_unconfirmed_walks_through_inserts_and_deletes_in_order() {
    let mut e = Engine::open_in_memory(&cfg()).unwrap();
    e.insert_node(Node::new("a", "Person")).unwrap();
    e.insert_node(Node::new("b", "Person")).unwrap();
    e.delete_node("a").unwrap();

    let mut e = reopen(e).with_mutation_log(MutationLog::new());
    let replayed = e.replay_unconfirmed().unwrap();
    assert_eq!(replayed, 3);
    let received = e.take_mutation_buffer();
    assert_eq!(received.len(), 3);
    assert!(matches!(received[0].op, MutationOp::NodeInsert(_)));
    assert!(matches!(received[1].op, MutationOp::NodeInsert(_)));
    assert!(matches!(received[2].op, MutationOp::NodeDelete(_)));
}

fn engine_with_log() -> Engine<MemoryStorage> {
    let mut c = cfg();
    c.identity = IdentityConfig { user_id: "u_test".into(), device_id: "d_test".into() };
    Engine::open_in_memory(&c).unwrap().with_mutation_log(MutationLog::new())
}

#[test]
fn every_insert_tees_a_mutation_to_the_log() {
    let mut e = engine_with_log();
    e.query("CREATE (n:Person {id: 'alice', name: 'Alice'})", &Params::new()).unwrap();
    e.query("CREATE (n:Person {id: 'bob'})", &Params::new()).unwrap();

    let received = e.take_mutation_buffer();
    assert_eq!(received.len(), 2);
    assert!(received[0].foreshadow);
    assert!(received[1].foreshadow);
    match &received[0].op {
        MutationOp::NodeInsert(n) => {
            assert_eq!(n.id, "alice");
            assert_eq!(n.label, "Person");
        }
        other => panic!("expected NodeInsert, got {other:?}"),
    }
    assert_eq!(received[0].actor.user_id, "u_test");
    assert_eq!(received[0].actor.device_id, "d_test");
    assert_eq!(received[0].local_seq, 1);
    assert_eq!(received[1].local_seq, 2);
}

#[test]
fn sync_hook_delete_tees_a_mutation() {
    let mut e = engine_with_log();
    e.insert_node(Node::new("doomed", "Person")).unwrap();
    let _ = e.take_mutation_buffer();

    e.delete_node("doomed").unwrap();
    let received = e.take_mutation_buffer();
    assert_eq!(received.len(), 1);
    assert!(received[0].foreshadow);
    match &received[0].op {
        MutationOp::NodeDelete(id) => assert_eq!(id, "doomed"),
        other => panic!("expected NodeDelete, got {other:?}"),
    }
}

#[test]
fn sync_hook_no_mutation_emitted_for_failed_operations() {
    let mut e = engine_with_log();
    e.query("CREATE (n:Person {id: 'a'})", &Params::new()).unwrap();
    let _ = e.take_mutation_buffer();
    let err = e.query("CREATE (n:Person {id: 'a'})", &Params::new());
    assert!(err.is_err());
    assert_eq!(e.buffered_mutation_count(), 0);
}

#[test]
fn engine_without_log_still_works() {
    let mut e = Engine::open_in_memory(&cfg()).unwrap();
    e.insert_node(Node::new("n", "Person").with_property("v", Value::I64(1))).unwrap();
    assert!(e.get_node("n").unwrap().is_some());
    assert_eq!(e.buffered_mutation_count(), 0);
}

#[test]
fn engine_without_controller_still_works() {
    let mut e = Engine::open_in_memory(&cfg()).unwrap();
    e.insert_node(Node::new("n", "Person")).unwrap();
    assert!(e.take_mutation_buffer().is_empty());
    assert!(e.get_node("n").unwrap().is_some());
}
