use motif_core::storage::HEADER_LEN;
use motif_core::{
    CapabilityConfig, ControllerConfig, Edge, EdgeConfig, Engine, EngineError, IdentityConfig,
    MemoryStorage, MotifConfig, Node, Params, ResultCell, Storage, StorageConfig, StorageError,
    Value,
};

fn cfg() -> MotifConfig {
    MotifConfig {
        identity: IdentityConfig { user_id: "u".into(), device_id: "d".into() },
        controller: ControllerConfig { kind: "in-memory".into() },
        storage: StorageConfig { path: ":memory:".into() },
        capability: Default::default(),
        edge: Default::default(),
    }
}

fn reopen(e: Engine<MemoryStorage>) -> Engine<MemoryStorage> {
    let bytes = e.into_storage().as_bytes().to_vec();
    Engine::open_with(&cfg(), MemoryStorage::from_bytes(bytes)).unwrap()
}

fn is_value(c: &ResultCell, v: Value) -> bool {
    matches!(c, ResultCell::Value(x) if *x == v)
}

#[test]
fn inserts_and_reads_back_a_node() {
    let mut e = Engine::open_in_memory(&cfg()).unwrap();
    e.insert_node(Node::new("n1", "Person").with_property("name", Value::String("Alice".into())))
        .unwrap();
    let got = e.get_node("n1").unwrap().unwrap();
    assert_eq!(got.id, "n1");
    assert_eq!(got.label, "Person");
    assert_eq!(got.properties.get("name"), Some(&Value::String("Alice".into())));
}

#[test]
fn fresh_inserts_are_foreshadowed() {
    let mut e = Engine::open_in_memory(&cfg()).unwrap();
    e.insert_node(Node::new("n1", "Person")).unwrap();
    assert!(e.is_foreshadow("n1"));
    assert!(!e.is_foreshadow("nope"));
}

#[test]
fn rejects_duplicate_node_id() {
    let mut e = Engine::open_in_memory(&cfg()).unwrap();
    e.insert_node(Node::new("n1", "Person")).unwrap();
    let err = e.insert_node(Node::new("n1", "Person")).unwrap_err();
    assert!(matches!(err, EngineError::DuplicateId(_)));
}

#[test]
fn rejects_edge_with_missing_endpoints() {
    let mut e = Engine::open_in_memory(&cfg()).unwrap();
    let err = e.insert_edge(Edge::new("e1", "FOLLOWS", "missing_a", "missing_b")).unwrap_err();
    assert!(matches!(err, EngineError::MissingNode(_)));
}

#[test]
fn inserts_and_reads_back_an_edge() {
    let mut e = Engine::open_in_memory(&cfg()).unwrap();
    e.insert_node(Node::new("a", "Person")).unwrap();
    e.insert_node(Node::new("b", "Person")).unwrap();
    e.insert_edge(Edge::new("e1", "FOLLOWS", "a", "b").with_property("since", Value::I64(2026)))
        .unwrap();

    let got = e.get_edge("e1").unwrap().unwrap();
    assert_eq!(got.from, "a");
    assert_eq!(got.to, "b");
    assert_eq!(got.properties.get("since"), Some(&Value::I64(2026)));
    assert_eq!(e.node_count(), 2);
    assert_eq!(e.edge_count(), 1);
}

#[test]
fn get_returns_none_for_missing_or_wrong_kind() {
    let mut e = Engine::open_in_memory(&cfg()).unwrap();
    e.insert_node(Node::new("a", "Person")).unwrap();
    assert!(e.get_node("missing").unwrap().is_none());
    assert!(e.get_edge("a").unwrap().is_none());
}

#[test]
fn local_seq_is_monotonic_per_commit() {
    let mut e = Engine::open_in_memory(&cfg()).unwrap();
    assert_eq!(e.next_local_seq(), 1);
    e.insert_node(Node::new("a", "Person")).unwrap();
    assert_eq!(e.next_local_seq(), 2);
    e.insert_node(Node::new("b", "Person")).unwrap();
    assert_eq!(e.next_local_seq(), 3);
    e.delete_node("a").unwrap();
    assert_eq!(e.next_local_seq(), 4);
}

#[test]
fn durable_append_recovers_across_reopen() {
    let mut e = Engine::open_in_memory(&cfg()).unwrap();
    e.insert_node(Node::new("alice", "Person").with_property("age", Value::I64(30))).unwrap();
    e.insert_node(Node::new("bob", "Person").with_property("age", Value::I64(31))).unwrap();
    e.insert_edge(
        Edge::new("a_follows_b", "FOLLOWS", "alice", "bob").with_property("since", Value::I64(2026)),
    )
    .unwrap();
    assert_eq!(e.node_count(), 2);
    assert_eq!(e.edge_count(), 1);

    let mut reopened = reopen(e);
    assert_eq!(reopened.node_count(), 2);
    assert_eq!(reopened.edge_count(), 1);
    assert_eq!(reopened.next_local_seq(), 4);

    let alice = reopened.get_node("alice").unwrap().unwrap();
    assert_eq!(alice.label, "Person");
    assert_eq!(alice.properties.get("age"), Some(&Value::I64(30)));

    let edge = reopened.get_edge("a_follows_b").unwrap().unwrap();
    assert_eq!(edge.from, "alice");
    assert_eq!(edge.to, "bob");
    assert_eq!(edge.properties.get("since"), Some(&Value::I64(2026)));
}

#[test]
fn torn_tail_is_truncated_on_reopen() {
    let mut e = Engine::open_in_memory(&cfg()).unwrap();
    e.insert_node(Node::new("a", "Person")).unwrap();
    e.insert_node(Node::new("b", "Person")).unwrap();
    let mut bytes = e.into_storage().as_bytes().to_vec();
    let good_len = bytes.len();
    bytes.extend_from_slice(&999u32.to_le_bytes());
    bytes.extend_from_slice(b"oops");

    let mut reopened = Engine::open_with(&cfg(), MemoryStorage::from_bytes(bytes)).unwrap();
    assert_eq!(reopened.node_count(), 2);
    assert!(reopened.get_node("a").unwrap().is_some());
    assert!(reopened.get_node("b").unwrap().is_some());

    reopened.insert_node(Node::new("c", "Person")).unwrap();
    assert_eq!(reopened.node_count(), 3);
    let storage = reopened.into_storage();
    assert!(storage.len() as usize > good_len);
}

#[test]
fn short_torn_prefix_is_truncated_too() {
    let mut e = Engine::open_in_memory(&cfg()).unwrap();
    e.insert_node(Node::new("a", "Person")).unwrap();
    let mut bytes = e.into_storage().as_bytes().to_vec();
    let good_len = bytes.len();
    bytes.extend_from_slice(&[7, 0]);
    let reopened = Engine::open_with(&cfg(), MemoryStorage::from_bytes(bytes)).unwrap();
    assert_eq!(reopened.node_count(), 1);
    assert_eq!(reopened.into_storage().len() as usize, good_len);
}

#[test]
fn corrupt_record_in_the_log_is_a_recovery_error() {
    let mut e = Engine::open_in_memory(&cfg()).unwrap();
    e.insert_node(Node::new("a", "Person")).unwrap();
    let mut bytes = e.into_storage().as_bytes().to_vec();
    let offset = bytes.len() as u64;
    bytes.extend_from_slice(&2u32.to_le_bytes());
    bytes.extend_from_slice(&[0xff, 0xff]);
    match Engine::open_with(&cfg(), MemoryStorage::from_bytes(bytes)) {
        Err(EngineError::Recovery { offset: at, .. }) => assert_eq!(at, offset),
        Err(other) => panic!("unexpected error {other:?}"),
        Ok(_) => panic!("expected a recovery error"),
    }
}

#[test]
fn fresh_inserts_are_foreshadowed_in_memory() {
    let mut e = Engine::open_in_memory(&cfg()).unwrap();
    e.insert_node(Node::new("a", "Person")).unwrap();
    e.insert_node(Node::new("b", "Person")).unwrap();
    assert!(e.is_foreshadow("a"));
    assert!(e.is_foreshadow("b"));
    assert!(!e.is_foreshadow("missing"));
}

#[test]
fn foreshadow_state_survives_reopen() {
    let mut e = Engine::open_in_memory(&cfg()).unwrap();
    e.insert_node(Node::new("alice", "Person").with_property("age", Value::I64(30))).unwrap();
    e.insert_node(Node::new("bob", "Person")).unwrap();
    assert!(e.is_foreshadow("alice"));

    let reopened = reopen(e);
    assert!(reopened.is_foreshadow("alice"));
    assert!(reopened.is_foreshadow("bob"));
    assert_eq!(reopened.node_count(), 2);
}

#[test]
fn motif_foreshadow_in_where_clause() {
    let mut e = Engine::open_in_memory(&cfg()).unwrap();
    e.query("CREATE (n:Person {id: 'a'})", &Params::new()).unwrap();
    e.query("CREATE (n:Person {id: 'b'})", &Params::new()).unwrap();

    let r = e.query("MATCH (n) WHERE n._motif.foreshadow = true RETURN n", &Params::new()).unwrap();
    assert_eq!(r.rows.len(), 2);

    let r = e.query("MATCH (n) WHERE n._motif.foreshadow = false RETURN n", &Params::new()).unwrap();
    assert_eq!(r.rows.len(), 0);
}

#[test]
fn motif_foreshadow_in_return_projection() {
    let mut e = Engine::open_in_memory(&cfg()).unwrap();
    e.query("CREATE (n:Person {id: 'a'})", &Params::new()).unwrap();

    let r = e.query("MATCH (n) RETURN n._motif.foreshadow", &Params::new()).unwrap();
    assert_eq!(r.columns, vec!["n._motif.foreshadow"]);
    assert_eq!(r.rows.len(), 1);
    assert!(is_value(&r.rows[0][0], Value::Bool(true)));
}

#[test]
fn unknown_motif_keys_resolve_to_null() {
    let mut e = Engine::open_in_memory(&cfg()).unwrap();
    e.query("CREATE (n:Person {id: 'a'})", &Params::new()).unwrap();

    let r = e.query("MATCH (n) RETURN n._motif.future_thing", &Params::new()).unwrap();
    assert_eq!(r.rows.len(), 1);
    assert!(is_value(&r.rows[0][0], Value::Null));
}

#[test]
fn node_and_edge_can_share_an_id() {
    let mut e = Engine::open_in_memory(&cfg()).unwrap();
    e.insert_node(Node::new("x", "Person")).unwrap();
    e.insert_node(Node::new("a", "Person")).unwrap();
    e.insert_node(Node::new("b", "Person")).unwrap();
    e.insert_edge(Edge::new("x", "KNOWS", "a", "b")).unwrap();

    let node = e.get_node("x").unwrap().expect("node x");
    let edge = e.get_edge("x").unwrap().expect("edge x");
    assert_eq!(node.label, "Person");
    assert_eq!(edge.label, "KNOWS");
    assert!(e.has_node("x"));
    assert!(e.has_edge("x"));
    assert_eq!(e.node_count(), 3);
    assert_eq!(e.edge_count(), 1);
}

#[test]
fn node_dup_still_errors_within_node_namespace() {
    let mut e = Engine::open_in_memory(&cfg()).unwrap();
    e.insert_node(Node::new("a", "Person")).unwrap();
    let err = e.insert_node(Node::new("a", "Person")).expect_err("duplicate node id should still fail");
    assert!(matches!(err, EngineError::DuplicateId(ref id) if id == "a"), "{err:?}");
    let msg = err.message();
    assert!(msg.to_lowercase().contains("duplicate"), "{msg}");
}

#[test]
fn edge_dup_still_errors_within_edge_namespace() {
    let mut e = Engine::open_in_memory(&cfg()).unwrap();
    e.insert_node(Node::new("a", "Person")).unwrap();
    e.insert_node(Node::new("b", "Person")).unwrap();
    e.insert_edge(Edge::new("r1", "KNOWS", "a", "b")).unwrap();
    let err = e.insert_edge(Edge::new("r1", "KNOWS", "a", "b")).expect_err("duplicate edge id should still fail");
    assert!(matches!(err, EngineError::DuplicateId(ref id) if id == "r1"), "{err:?}");
    let msg = err.message();
    assert!(msg.to_lowercase().contains("duplicate"), "{msg}");
}

#[test]
fn iter_edges_by_label_returns_only_matching_edges() {
    let mut e = Engine::open_in_memory(&cfg()).unwrap();
    e.insert_node(Node::new("a", "Person")).unwrap();
    e.insert_node(Node::new("b", "Person")).unwrap();
    e.insert_edge(Edge::new("r1", "KNOWS", "a", "b")).unwrap();
    e.insert_edge(Edge::new("r2", "KNOWS", "b", "a")).unwrap();
    e.insert_edge(Edge::new("r3", "FOLLOWS", "a", "b")).unwrap();

    let knows = e.iter_edges_by_label("KNOWS").unwrap();
    assert_eq!(knows.len(), 2);
    let mut ids: Vec<&str> = knows.iter().map(|e| e.id.as_str()).collect();
    ids.sort();
    assert_eq!(ids, vec!["r1", "r2"]);

    let follows = e.iter_edges_by_label("FOLLOWS").unwrap();
    assert_eq!(follows.len(), 1);
    assert_eq!(follows[0].id, "r3");

    let missing = e.iter_edges_by_label("BLOCKS").unwrap();
    assert!(missing.is_empty());
}

#[test]
fn iter_edges_by_label_reflects_deletes() {
    let mut e = Engine::open_in_memory(&cfg()).unwrap();
    e.insert_node(Node::new("a", "Person")).unwrap();
    e.insert_node(Node::new("b", "Person")).unwrap();
    e.insert_edge(Edge::new("r1", "KNOWS", "a", "b")).unwrap();
    e.insert_edge(Edge::new("r2", "KNOWS", "b", "a")).unwrap();

    assert_eq!(e.iter_edges_by_label("KNOWS").unwrap().len(), 2);

    e.delete_edge("r1").unwrap();
    let remaining = e.iter_edges_by_label("KNOWS").unwrap();
    assert_eq!(remaining.len(), 1);
    assert_eq!(remaining[0].id, "r2");

    e.delete_edge("r2").unwrap();
    assert!(e.iter_edges_by_label("KNOWS").unwrap().is_empty());
}

#[test]
fn iter_edges_by_label_survives_reopen() {
    let mut e = Engine::open_in_memory(&cfg()).unwrap();
    e.insert_node(Node::new("a", "Person")).unwrap();
    e.insert_node(Node::new("b", "Person")).unwrap();
    e.insert_edge(Edge::new("r1", "KNOWS", "a", "b")).unwrap();
    e.insert_edge(Edge::new("r2", "FOLLOWS", "b", "a")).unwrap();
    e.insert_edge(Edge::new("r3", "KNOWS", "a", "b").with_property("since", Value::I64(2020))).unwrap();
    e.delete_edge("r1").unwrap();

    let mut e = reopen(e);
    let knows = e.iter_edges_by_label("KNOWS").unwrap();
    assert_eq!(knows.len(), 1);
    assert_eq!(knows[0].id, "r3");

    let follows = e.iter_edges_by_label("FOLLOWS").unwrap();
    assert_eq!(follows.len(), 1);
    assert_eq!(follows[0].id, "r2");
}

#[test]
fn iter_edges_from_returns_only_outgoing() {
    let mut e = Engine::open_in_memory(&cfg()).unwrap();
    e.insert_node(Node::new("a", "Person")).unwrap();
    e.insert_node(Node::new("b", "Person")).unwrap();
    e.insert_node(Node::new("c", "Person")).unwrap();
    e.insert_edge(Edge::new("r1", "KNOWS", "a", "b")).unwrap();
    e.insert_edge(Edge::new("r2", "KNOWS", "a", "c")).unwrap();
    e.insert_edge(Edge::new("r3", "KNOWS", "b", "a")).unwrap();
    e.insert_edge(Edge::new("r4", "FOLLOWS", "a", "b")).unwrap();

    let from_a = e.iter_edges_from("a", None).unwrap();
    let mut ids: Vec<&str> = from_a.iter().map(|e| e.id.as_str()).collect();
    ids.sort();
    assert_eq!(ids, vec!["r1", "r2", "r4"]);

    let knows_from_a = e.iter_edges_from("a", Some("KNOWS")).unwrap();
    let mut ids: Vec<&str> = knows_from_a.iter().map(|e| e.id.as_str()).collect();
    ids.sort();
    assert_eq!(ids, vec!["r1", "r2"]);

    assert!(e.iter_edges_from("c", None).unwrap().is_empty());
}

#[test]
fn iter_edges_incident_to_returns_both_directions() {
    let mut e = Engine::open_in_memory(&cfg()).unwrap();
    e.insert_node(Node::new("a", "Person")).unwrap();
    e.insert_node(Node::new("b", "Person")).unwrap();
    e.insert_node(Node::new("c", "Person")).unwrap();
    e.insert_edge(Edge::new("r1", "KNOWS", "a", "b")).unwrap();
    e.insert_edge(Edge::new("r2", "KNOWS", "c", "b")).unwrap();
    e.insert_edge(Edge::new("r3", "KNOWS", "b", "a")).unwrap();
    e.insert_edge(Edge::new("r4", "KNOWS", "a", "c")).unwrap();

    let incident = e.iter_edges_incident_to("b").unwrap();
    let mut ids: Vec<&str> = incident.iter().map(|e| e.id.as_str()).collect();
    ids.sort();
    assert_eq!(ids, vec!["r1", "r2", "r3"]);
}

#[test]
fn adjacency_indexes_survive_reopen() {
    let mut e = Engine::open_in_memory(&cfg()).unwrap();
    e.insert_node(Node::new("a", "Person")).unwrap();
    e.insert_node(Node::new("b", "Person")).unwrap();
    e.insert_edge(Edge::new("r1", "KNOWS", "a", "b")).unwrap();
    e.insert_edge(Edge::new("r2", "KNOWS", "b", "a")).unwrap();
    e.delete_edge("r1").unwrap();

    let mut e = reopen(e);
    let from_b = e.iter_edges_from("b", None).unwrap();
    assert_eq!(from_b.len(), 1);
    assert_eq!(from_b[0].id, "r2");
    let from_a = e.iter_edges_from("a", None).unwrap();
    assert!(from_a.is_empty());
}

struct RustHostStorage {
    bytes: Vec<u8>,
    next_call_throws: bool,
}

impl RustHostStorage {
    fn new() -> Self {
        let mut bytes = Vec::with_capacity(HEADER_LEN as usize);
        bytes.extend_from_slice(b"MOTIF\0\0\x01");
        bytes.extend_from_slice(&4u32.to_le_bytes());
        bytes.resize(HEADER_LEN as usize, 0);
        Self { bytes, next_call_throws: false }
    }

    fn arm_throw(&mut self) {
        self.next_call_throws = true;
    }
}

impl Storage for RustHostStorage {
    fn append(&mut self, bytes: &[u8]) -> Result<u64, StorageError> {
        if std::mem::replace(&mut self.next_call_throws, false) {
            return Err(StorageError::JsHostError { message: "host append rejected".into() });
        }
        let offset = self.bytes.len() as u64;
        self.bytes.extend_from_slice(bytes);
        Ok(offset)
    }

    fn read_at(&mut self, offset: u64, len: usize) -> Result<Vec<u8>, StorageError> {
        let start = offset as usize;
        let end = start + len;
        if end > self.bytes.len() {
            return Err(StorageError::JsHostError {
                message: format!("host read out of range: {start}..{end} (len={})", self.bytes.len()),
            });
        }
        Ok(self.bytes[start..end].to_vec())
    }

    fn len(&self) -> u64 {
        self.bytes.len() as u64
    }

    fn truncate(&mut self, new_len: u64) -> Result<(), StorageError> {
        if new_len < HEADER_LEN {
            return Err(StorageError::TruncateBelowHeader { new_len, header_len: HEADER_LEN });
        }
        self.bytes.truncate(new_len as usize);
        Ok(())
    }

    fn free_space(&self) -> Option<u64> {
        Some(1024 * 1024 * 1024)
    }
}

#[test]
fn engine_accepts_a_host_supplied_storage() {
    let engine = Engine::open_with(&cfg(), RustHostStorage::new()).expect("open with host storage");
    assert_eq!(engine.capability().storage_mb, Some(1024));
}

#[test]
fn host_storage_round_trips_through_engine() {
    let mut engine = Engine::open_with(&cfg(), RustHostStorage::new()).expect("open");
    engine.insert_node(Node::new("a", "Person").with_property("idx", Value::I64(0))).expect("insert a");
    engine.insert_node(Node::new("b", "Person").with_property("idx", Value::I64(1))).expect("insert b");
    engine.insert_node(Node::new("c", "Person").with_property("idx", Value::I64(2))).expect("insert c");
    let a = engine.get_node("a").expect("get a").expect("a present");
    assert_eq!(a.label, "Person");
}

#[test]
fn engine_surfaces_host_storage_errors() {
    let mut storage = RustHostStorage::new();
    storage.arm_throw();
    let mut engine = Engine::open_with(&cfg(), storage).expect("open");
    let err = engine.insert_node(Node::new("oops", "Person")).expect_err("insert should fail when host throws");
    assert!(
        matches!(&err, EngineError::Storage(StorageError::JsHostError { message }) if message.contains("host append rejected")),
        "expected host-storage error, got: {err:?}"
    );
    assert!(!engine.has_node("oops"));
}

#[test]
fn declared_capability_wins_over_the_probe() {
    let mut c = cfg();
    c.capability = CapabilityConfig { storage_mb: Some(7), cpu_cores: Some(2), ..CapabilityConfig::default() };
    c.edge = EdgeConfig { controller_retry_max_attempts: 5, ..EdgeConfig::default() };
    let engine = Engine::open_with(&c, RustHostStorage::new()).unwrap();
    assert_eq!(engine.capability().storage_mb, Some(7));
    assert_eq!(engine.capability().cpu_cores, Some(2));
    assert_eq!(engine.edge_config().controller_retry_max_attempts, 5);
    assert_eq!(engine.actor().user_id, "u");
    assert_eq!(engine.actor().device_id, "d");
}

#[test]
fn replaying_a_record_twice_is_the_same_as_once() {
    let mut e = Engine::open_in_memory(&cfg()).unwrap();
    e.insert_node(Node::new("n1", "Person").with_property("age", Value::I64(7))).unwrap();
    let bytes = e.into_storage().as_bytes().to_vec();
    let record = bytes[HEADER_LEN as usize..].to_vec();
    let mut doubled = bytes.clone();
    doubled.extend_from_slice(&record);
    let twice = Engine::open_with(&cfg(), MemoryStorage::from_bytes(doubled)).unwrap();
    let mut once = Engine::open_with(&cfg(), MemoryStorage::from_bytes(bytes)).unwrap();
    let mut twice = twice;
    assert_eq!(twice.node_count(), 1);
    assert_eq!(once.node_count(), 1);
    let a = once.get_node("n1").unwrap().unwrap();
    let b = twice.get_node("n1").unwrap().unwrap();
    assert_eq!(a.label, b.label);
    assert_eq!(b.properties.get("age"), Some(&Value::I64(7)));
}
