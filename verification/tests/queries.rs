use motif_core::{
    ControllerConfig, Edge, Engine, EngineError, IdentityConfig, InterpretError, MemoryStorage, MotifConfig, Node,
    Params, QueryError, ResultCell, StorageConfig, Value,
};

fn cfg() -> MotifConfig {
    MotifConfig {
        identity: IdentityConfig { user_id: "u".into(), device_id: "d".into() },
        controller: ControllerConfig { kind: "in-memory".into() },
        storage: StorageConfig { path: ":memory:".into() },
        capability: Default::default(),
        edge: Default::default(),
    }
}

fn engine() -> Engine<MemoryStorage> {
    Engine::open_in_memory(&cfg()).unwrap()
}

fn reopen(e: Engine<MemoryStorage>) -> Engine<MemoryStorage> {
    let bytes = e.into_storage().as_bytes().to_vec();
    Engine::open_with(&cfg(), MemoryStorage::from_bytes(bytes)).unwrap()
}

fn is_value(c: &ResultCell, v: Value) -> bool {
    matches!(c, ResultCell::Value(x) if *x == v)
}

fn seed(engine: &mut Engine<MemoryStorage>) {
    engine.insert_node(Node::new("a", "Person")).unwrap();
    engine.insert_node(Node::new("b", "Person")).unwrap();
    engine.insert_node(Node::new("c", "Person")).unwrap();
    engine.insert_edge(Edge::new("r1", "KNOWS", "a", "b").with_property("since", Value::I64(2020))).unwrap();
    engine.insert_edge(Edge::new("r2", "KNOWS", "b", "c").with_property("since", Value::I64(2024))).unwrap();
    engine.insert_edge(Edge::new("r3", "FOLLOWS", "a", "c")).unwrap();
}

fn seed_people(engine: &mut Engine<MemoryStorage>) {
    engine.insert_node(Node::new("a", "Person").with_property("age", Value::I64(30))).unwrap();
    engine.insert_node(Node::new("b", "Person").with_property("age", Value::I64(25))).unwrap();
    engine.insert_node(Node::new("c", "Person").with_property("age", Value::I64(40))).unwrap();
    engine.insert_node(Node::new("d", "Person").with_property("age", Value::I64(35))).unwrap();
}

fn seed_detach(engine: &mut Engine<MemoryStorage>) {
    engine.insert_node(Node::new("a", "Person")).unwrap();
    engine.insert_node(Node::new("b", "Person")).unwrap();
    engine.insert_node(Node::new("c", "Person")).unwrap();
    engine.insert_edge(Edge::new("r1", "KNOWS", "a", "b")).unwrap();
    engine.insert_edge(Edge::new("r2", "KNOWS", "a", "c")).unwrap();
    engine.insert_edge(Edge::new("r3", "FOLLOWS", "b", "a")).unwrap();
    engine.insert_edge(Edge::new("r4", "KNOWS", "b", "c")).unwrap();
}

fn edge_ids(rows: &[Vec<ResultCell>]) -> Vec<String> {
    let mut ids: Vec<String> = rows
        .iter()
        .map(|row| match &row[0] {
            ResultCell::Edge(e) => e.id.clone(),
            _ => panic!("expected Edge cell"),
        })
        .collect();
    ids.sort();
    ids
}

fn ints(rows: &[Vec<ResultCell>]) -> Vec<i64> {
    rows.iter()
        .map(|row| match &row[0] {
            ResultCell::Value(Value::I64(n)) => *n,
            _ => panic!("expected I64 cell"),
        })
        .collect()
}

#[test]
fn create_and_match_by_id_round_trips() {
    let mut e = engine();
    e.query("CREATE (n:Person {id: 'alice', name: 'Alice', age: 30})", &Params::new()).unwrap();

    let mut params = Params::new();
    params.insert("x".into(), Value::String("alice".into()));
    let r = e.query("MATCH (n) WHERE id(n) = $x RETURN n.name, n.age", &params).unwrap();

    assert_eq!(r.columns, vec!["n.name", "n.age"]);
    assert_eq!(r.rows.len(), 1);
    assert!(is_value(&r.rows[0][0], Value::String("Alice".into())));
    assert!(is_value(&r.rows[0][1], Value::I64(30)));
}

#[test]
fn match_with_label_filter_and_limit() {
    let mut e = engine();
    for (id, label, age) in [("a", "Person", 20), ("b", "Person", 25), ("c", "Person", 40), ("d", "Bot", 0)] {
        let mut p = Params::new();
        p.insert("id".into(), Value::String(id.into()));
        p.insert("age".into(), Value::I64(age));
        let q = format!("CREATE (n:{label} {{id: $id, age: $age}})");
        e.query(&q, &p).unwrap();
    }

    let r = e.query("MATCH (n:Person) WHERE n.age >= 25 RETURN n LIMIT 5", &Params::new()).unwrap();
    assert_eq!(r.rows.len(), 2);
    for row in &r.rows {
        match &row[0] {
            ResultCell::Node(n) => assert_eq!(n.label, "Person"),
            _ => panic!("expected node"),
        }
    }
}

#[test]
fn merge_is_idempotent() {
    let mut e = engine();
    e.query("MERGE (n:Person {id: 'p1', name: 'Alice'})", &Params::new()).unwrap();
    e.query("MERGE (n:Person {id: 'p1', name: 'Alicia'})", &Params::new()).unwrap();

    assert_eq!(e.node_count(), 1);
    let n = e.get_node("p1").unwrap().unwrap();
    assert_eq!(n.properties.get("name"), Some(&Value::String("Alice".into())));
}

#[test]
fn match_delete_removes_node() {
    let mut e = engine();
    e.query("CREATE (n:Person {id: 'doomed'})", &Params::new()).unwrap();
    assert_eq!(e.node_count(), 1);

    let mut params = Params::new();
    params.insert("x".into(), Value::String("doomed".into()));
    e.query("MATCH (n) WHERE id(n) = $x DELETE n", &params).unwrap();
    assert_eq!(e.node_count(), 0);
    assert!(e.get_node("doomed").unwrap().is_none());
}

#[test]
fn delete_persists_across_reopen() {
    let mut e = engine();
    e.query("CREATE (n:Person {id: 'keep'})", &Params::new()).unwrap();
    e.query("CREATE (n:Person {id: 'gone'})", &Params::new()).unwrap();
    let mut p = Params::new();
    p.insert("x".into(), Value::String("gone".into()));
    e.query("MATCH (n) WHERE id(n) = $x DELETE n", &p).unwrap();

    let mut reopened = reopen(e);
    assert_eq!(reopened.node_count(), 1);
    assert!(reopened.get_node("keep").unwrap().is_some());
    assert!(reopened.get_node("gone").unwrap().is_none());
}

#[test]
fn parse_errors_surface_via_query() {
    let mut e = engine();
    let err = e.query("CREATE 42", &Params::new()).unwrap_err();
    assert!(matches!(err, EngineError::Query(QueryError::Parse(_))), "{err:?}");
    assert!(err.message().contains("query"));
}

#[test]
fn create_requires_a_label_and_a_string_id() {
    let mut e = engine();
    assert!(e.query("CREATE (n {id: 'a'})", &Params::new()).is_err());
    assert!(e.query("CREATE (n:Person {name: 'x'})", &Params::new()).is_err());
    assert!(e.query("CREATE (n:Person {id: 7})", &Params::new()).is_err());
    assert!(e.query("CREATE (n:Person {id: $missing})", &Params::new()).is_err());
    assert_eq!(e.node_count(), 0);
    assert_eq!(e.next_local_seq(), 1);
}

#[test]
fn single_edge_pattern_returns_all_edges() {
    let mut e = engine();
    seed(&mut e);
    let r = e.query("MATCH (a)-[r]->(b) RETURN r", &Params::new()).unwrap();
    assert_eq!(r.rows.len(), 3);
    assert_eq!(edge_ids(&r.rows), vec!["r1", "r2", "r3"]);
}

#[test]
fn edge_pattern_label_predicate_uses_label_index() {
    let mut e = engine();
    seed(&mut e);
    let r = e.query("MATCH (a)-[r:KNOWS]->(b) RETURN r", &Params::new()).unwrap();
    assert_eq!(r.rows.len(), 2);
    assert_eq!(edge_ids(&r.rows), vec!["r1", "r2"]);
}

#[test]
fn edge_inline_property_predicate_filters() {
    let mut e = engine();
    seed(&mut e);
    let r = e.query("MATCH (a)-[r:KNOWS {since: 2020}]->(b) RETURN r", &Params::new()).unwrap();
    assert_eq!(r.rows.len(), 1);
    let ResultCell::Edge(edge) = &r.rows[0][0] else { panic!() };
    assert_eq!(edge.id, "r1");
}

#[test]
fn return_edge_property_works() {
    let mut e = engine();
    seed(&mut e);
    let r = e.query("MATCH (a)-[r:KNOWS]->(b) RETURN r.since", &Params::new()).unwrap();
    assert_eq!(r.rows.len(), 2);
    let mut years = ints(&r.rows);
    years.sort();
    assert_eq!(years, vec![2020, 2024]);
}

#[test]
fn multi_hop_path_chains_bindings() {
    let mut e = engine();
    seed(&mut e);
    let r = e.query("MATCH (a)-[r:KNOWS]->(b)-[s:KNOWS]->(c) RETURN a, c", &Params::new()).unwrap();
    assert_eq!(r.rows.len(), 1);
    let (ResultCell::Node(start), ResultCell::Node(end)) = (&r.rows[0][0], &r.rows[0][1]) else { panic!() };
    assert_eq!(start.id, "a");
    assert_eq!(end.id, "c");
}

#[test]
fn multi_pattern_unifies_on_shared_variable() {
    let mut e = engine();
    seed(&mut e);
    let r = e.query("MATCH (a)-[r:KNOWS]->(b), (b)-[s:KNOWS]->(c) RETURN a, c", &Params::new()).unwrap();
    assert_eq!(r.rows.len(), 1);
    let (ResultCell::Node(start), ResultCell::Node(end)) = (&r.rows[0][0], &r.rows[0][1]) else { panic!() };
    assert_eq!(start.id, "a");
    assert_eq!(end.id, "c");
}

#[test]
fn multi_pattern_with_disjoint_variables_returns_cartesian_product() {
    let mut e = engine();
    seed(&mut e);
    let r = e.query("MATCH (a)-[r:KNOWS]->(b), (c)-[s:KNOWS]->(d) RETURN a", &Params::new()).unwrap();
    assert_eq!(r.rows.len(), 4);
}

#[test]
fn unlabeled_edge_pattern_walks_iter_edges() {
    let mut e = engine();
    seed(&mut e);
    let r = e.query("MATCH (a)-[r {since: 2024}]->(b) RETURN r", &Params::new()).unwrap();
    assert_eq!(r.rows.len(), 1);
    let ResultCell::Edge(edge) = &r.rows[0][0] else { panic!() };
    assert_eq!(edge.id, "r2");
}

#[test]
fn edge_pattern_label_with_zero_matches_returns_empty() {
    let mut e = engine();
    seed(&mut e);
    let r = e.query("MATCH (a)-[r:BLOCKS]->(b) RETURN r", &Params::new()).unwrap();
    assert!(r.rows.is_empty());
}

#[test]
fn order_by_ascending_sorts_results() {
    let mut e = engine();
    seed_people(&mut e);
    let r = e.query("MATCH (n) RETURN n.age ORDER BY n.age ASC", &Params::new()).unwrap();
    assert_eq!(ints(&r.rows), vec![25, 30, 35, 40]);
}

#[test]
fn order_by_descending_sorts_reverse() {
    let mut e = engine();
    seed_people(&mut e);
    let r = e.query("MATCH (n) RETURN n.age ORDER BY n.age DESC", &Params::new()).unwrap();
    assert_eq!(ints(&r.rows), vec![40, 35, 30, 25]);
}

#[test]
fn order_by_then_limit_takes_first_n() {
    let mut e = engine();
    seed_people(&mut e);
    let r = e.query("MATCH (n) RETURN n.age ORDER BY n.age ASC LIMIT 2", &Params::new()).unwrap();
    assert_eq!(r.rows.len(), 2);
    assert_eq!(ints(&r.rows), vec![25, 30]);
}

#[test]
fn count_aggregate_collapses_rows() {
    let mut e = engine();
    seed_people(&mut e);
    let r = e.query("MATCH (n) RETURN count(n)", &Params::new()).unwrap();
    assert_eq!(r.rows.len(), 1);
    match &r.rows[0][0] {
        ResultCell::Value(Value::I64(c)) => assert_eq!(*c, 4),
        other => panic!("expected I64 count, got {other:?}"),
    }
    assert_eq!(r.columns, vec!["count(n)"]);
}

#[test]
fn collect_aggregate_gathers_property() {
    let mut e = engine();
    seed_people(&mut e);
    let r = e.query("MATCH (n) RETURN collect(n.age) ORDER BY n.age ASC", &Params::new()).unwrap();
    assert_eq!(r.rows.len(), 1);
    let ResultCell::Value(Value::List(ages)) = &r.rows[0][0] else { panic!("expected List") };
    let nums: Vec<i64> = ages
        .iter()
        .map(|v| match v {
            Value::I64(n) => *n,
            _ => panic!(),
        })
        .collect();
    assert_eq!(nums, vec![25, 30, 35, 40]);
}

#[test]
fn edge_match_pushes_down_id_predicate_on_start() {
    let mut e = engine();
    for i in 0..200 {
        e.insert_node(Node::new(&format!("n{i}"), "Person")).unwrap();
    }
    for i in 0..200 {
        e.insert_edge(Edge::new(&format!("e{i}"), "KNOWS", &format!("n{i}"), &format!("n{}", (i + 1) % 200)))
            .unwrap();
    }
    let mut params = Params::new();
    params.insert("x".into(), Value::String("n42".into()));
    let r = e.query("MATCH (a)-[r:KNOWS]->(b) WHERE id(a) = $x RETURN b", &params).unwrap();
    assert_eq!(r.rows.len(), 1);
    let ResultCell::Node(b) = &r.rows[0][0] else { panic!() };
    assert_eq!(b.id, "n43");
}

#[test]
fn detach_delete_removes_node_and_incident_edges() {
    let mut e = engine();
    seed_detach(&mut e);
    e.query("MATCH (n) WHERE id(n) = 'a' DETACH DELETE n", &Params::new()).unwrap();
    assert!(!e.has_node("a"));
    assert!(e.get_edge("r1").unwrap().is_none());
    assert!(e.get_edge("r2").unwrap().is_none());
    assert!(e.get_edge("r3").unwrap().is_none());
    assert!(e.get_edge("r4").unwrap().is_some());
}

#[test]
fn plain_delete_leaves_edges_dangling() {
    let mut e = engine();
    seed_detach(&mut e);
    e.query("MATCH (n) WHERE id(n) = 'a' DELETE n", &Params::new()).unwrap();
    assert!(!e.has_node("a"));
    assert!(e.get_edge("r1").unwrap().is_some());
    assert!(e.get_edge("r2").unwrap().is_some());
    assert!(e.get_edge("r3").unwrap().is_some());
}

#[test]
fn delete_node_with_cascade_reports_count() {
    let mut e = engine();
    seed_detach(&mut e);
    let (existed, removed) = e.delete_node_with_cascade("a").unwrap();
    assert!(existed);
    assert_eq!(removed, 3);
    assert_eq!(e.iter_edges_by_label("KNOWS").unwrap().len(), 1);
}

#[test]
fn delete_node_with_cascade_returns_false_for_missing_node() {
    let mut e = engine();
    seed_detach(&mut e);
    let (existed, removed) = e.delete_node_with_cascade("nope").unwrap();
    assert!(!existed);
    assert_eq!(removed, 0);
    assert_eq!(e.node_count(), 3);
    assert_eq!(e.edge_count(), 4);
}

#[test]
fn detach_delete_survives_reopen() {
    let mut e = engine();
    seed_detach(&mut e);
    e.query("MATCH (n) WHERE id(n) = 'a' DETACH DELETE n", &Params::new()).unwrap();

    let mut e = reopen(e);
    assert!(!e.has_node("a"));
    assert!(e.get_edge("r1").unwrap().is_none());
    assert!(e.get_edge("r2").unwrap().is_none());
    assert!(e.get_edge("r3").unwrap().is_none());
    assert!(e.get_edge("r4").unwrap().is_some());
}

#[test]
fn where_clause_three_valued_logic() {
    let mut e = engine();
    seed_people(&mut e);
    e.insert_node(Node::new("z", "Person")).unwrap();
    // A missing property is NULL; NULL >= 30 is NULL, which does not hold.
    let r = e.query("MATCH (n) WHERE n.age >= 30 RETURN n.age ORDER BY n.age", &Params::new()).unwrap();
    assert_eq!(ints(&r.rows), vec![30, 35, 40]);
    let r = e.query("MATCH (n) WHERE NOT n.age < 35 RETURN n.age ORDER BY n.age", &Params::new()).unwrap();
    assert_eq!(ints(&r.rows), vec![35, 40]);
    let r = e.query("MATCH (n) WHERE n.age = 30.0 OR n.age = 40 RETURN n.age ORDER BY n.age DESC", &Params::new()).unwrap();
    assert_eq!(ints(&r.rows), vec![40, 30]);
    let r = e.query("MATCH (n) WHERE n.age RETURN n", &Params::new()).unwrap_err();
    assert!(matches!(r, EngineError::Query(QueryError::Interpret(_))));
}

#[test]
fn null_sorts_last_ascending() {
    let mut e = engine();
    seed_people(&mut e);
    e.insert_node(Node::new("z", "Person")).unwrap();
    let r = e.query("MATCH (n) RETURN n.age ORDER BY n.age", &Params::new()).unwrap();
    assert_eq!(r.rows.len(), 5);
    assert!(is_value(&r.rows[4][0], Value::Null));
    let r = e.query("MATCH (n) RETURN n.age ORDER BY n.age DESC", &Params::new()).unwrap();
    assert!(is_value(&r.rows[0][0], Value::Null));
}

fn count_of(r: &motif_core::QueryResult) -> i64 {
    match &r.rows[0][0] {
        ResultCell::Value(Value::I64(c)) => *c,
        other => panic!("expected I64 count, got {other:?}"),
    }
}

#[test]
fn count_counts_every_join_of_two_patterns() {
    let mut e = engine();
    seed_people(&mut e);
    let r = e.query("MATCH (a), (b) RETURN count(a)", &Params::new()).unwrap();
    assert_eq!(count_of(&r), 16);
}

#[test]
fn count_counts_every_walk_of_a_path() {
    let mut e = engine();
    seed(&mut e);
    let r = e.query("MATCH (a)-[r]->(b)-[s]->(c) RETURN count(r)", &Params::new()).unwrap();
    assert_eq!(count_of(&r), 1);
    let r = e.query("MATCH (a)-[r:KNOWS]->(b) RETURN count(r)", &Params::new()).unwrap();
    assert_eq!(count_of(&r), 2);
    let r = e.query("MATCH (a)-[r]->(b), (b)-[s]->(c) RETURN count(s)", &Params::new()).unwrap();
    assert_eq!(count_of(&r), 1);
}

#[test]
fn where_id_pins_the_start_without_losing_matches() {
    let mut e = engine();
    seed(&mut e);
    let r = e
        .query("MATCH (a)-[r]->(b) WHERE id(a) = 'a' AND r.since = 2020 RETURN count(r)", &Params::new())
        .unwrap();
    assert_eq!(count_of(&r), 1);
    let r = e.query("MATCH (a)-[r]->(b) WHERE id(a) = 'a' RETURN count(r)", &Params::new()).unwrap();
    assert_eq!(count_of(&r), 2);
}

#[test]
fn nested_property_path_is_reported_with_its_segments() {
    let mut e = engine();
    e.query("CREATE (n:Person {id: 'a'})", &Params::new()).unwrap();
    match e.query("MATCH (n:Person) RETURN n.address.city", &Params::new()) {
        Err(EngineError::Query(QueryError::Interpret(InterpretError::NestedPath(p)))) => {
            assert_eq!(p, "address.city")
        }
        other => panic!("unexpected {other:?}"),
    }
}

#[test]
fn duplicate_create_reports_the_id() {
    let mut e = engine();
    e.query("CREATE (n:Person {id: 'a'})", &Params::new()).unwrap();
    match e.query("CREATE (n:Person {id: 'a'})", &Params::new()) {
        Err(EngineError::Query(QueryError::Interpret(InterpretError::TypeMismatch(m)))) => {
            assert_eq!(m, "duplicate id: a")
        }
        other => panic!("unexpected {other:?}"),
    }
}

#[test]
fn delete_of_an_edge_variable_is_refused_and_deletes_nothing() {
    let mut e = engine();
    seed(&mut e);
    match e.query("MATCH (a)-[r:KNOWS]->(b) DELETE r", &Params::new()) {
        Err(EngineError::Query(QueryError::Interpret(InterpretError::DeleteEdgeUnsupported))) => {}
        other => panic!("unexpected {other:?}"),
    }
    assert!(e.get_node("a").unwrap().is_some());
    assert!(e.get_edge("r1").unwrap().is_some());
}

#[test]
fn delete_of_an_unbound_variable_is_a_mismatch_and_deletes_nothing() {
    let mut e = engine();
    seed(&mut e);
    match e.query("MATCH (n:Person) DELETE m", &Params::new()) {
        Err(EngineError::Query(QueryError::Interpret(InterpretError::DeleteVariableMismatch(v)))) => {
            assert_eq!(v, "m")
        }
        other => panic!("unexpected {other:?}"),
    }
    assert!(e.get_node("a").unwrap().is_some());
    assert!(e.get_node("b").unwrap().is_some());
}

#[test]
fn error_messages_read_as_sentences() {
    let mut e = engine();
    let err = e.query("MATCH (n) RETURN n EXTRA", &Params::new()).unwrap_err();
    assert_eq!(
        err.message(),
        "query error: parse error: unexpected token ident(EXTRA) at offset 19 (expected end of statement)"
    );
    let err = e.query("MATCH (n) WHERE n.x = 'open", &Params::new()).unwrap_err();
    assert_eq!(
        err.message(),
        "query error: parse error: lex error: unterminated string starting at offset 22"
    );
}

#[test]
fn descending_string_order_is_ascending_reversed() {
    let mut e = engine();
    for (id, name) in [("a", "Carol"), ("b", "alice"), ("c", "Bob"), ("d", "Émile")] {
        e.insert_node(Node::new(id, "Person").with_property("name", Value::String(name.into()))).unwrap();
    }
    let names = |q: &str, e: &mut Engine<MemoryStorage>| -> Vec<String> {
        let r = e.query(q, &Params::new()).unwrap();
        r.rows
            .iter()
            .map(|row| match &row[0] {
                ResultCell::Value(Value::String(s)) => s.clone(),
                other => panic!("unexpected {other:?}"),
            })
            .collect()
    };
    let asc = names("MATCH (n:Person) RETURN n.name ORDER BY n.name ASC", &mut e);
    let mut desc = names("MATCH (n:Person) RETURN n.name ORDER BY n.name DESC", &mut e);
    assert_eq!(asc, vec!["Bob", "Carol", "alice", "Émile"]);
    desc.reverse();
    assert_eq!(desc, asc);
}

#[test]
fn type_mismatch_messages_name_the_kinds() {
    let mut e = engine();
    e.query("CREATE (n:Person {id: 'a', age: 3})", &Params::new()).unwrap();
    match e.query("MATCH (n) WHERE n.age AND true RETURN n", &Params::new()) {
        Err(EngineError::Query(QueryError::Interpret(InterpretError::TypeMismatch(m)))) => {
            assert_eq!(m, "AND requires booleans, got i64 and bool")
        }
        other => panic!("unexpected {other:?}"),
    }
    match e.query("CREATE (n:Person {id: 7})", &Params::new()) {
        Err(EngineError::Query(QueryError::Interpret(InterpretError::TypeMismatch(m)))) => {
            assert_eq!(m, "`id` property must be a string")
        }
        other => panic!("unexpected {other:?}"),
    }
}

#[test]
fn limit_zero_still_takes_the_first_match() {
    let mut e = engine();
    seed(&mut e);
    let r = e.query("MATCH (n:Person) RETURN n LIMIT 0", &Params::new()).unwrap();
    assert_eq!(r.rows.len(), 1);
    let r = e.query("MATCH (n:Nobody) RETURN n LIMIT 0", &Params::new()).unwrap();
    assert_eq!(r.rows.len(), 0);
}

#[test]
fn delete_stops_at_the_first_unbound_match_without_deleting() {
    let mut e = engine();
    seed(&mut e);
    match e.query("MATCH (a:Person)-[r:KNOWS]->(b) DETACH DELETE r", &Params::new()) {
        Err(EngineError::Query(QueryError::Interpret(InterpretError::DeleteEdgeUnsupported))) => {}
        other => panic!("unexpected {other:?}"),
    }
    assert_eq!(e.node_count(), 3);
    assert!(e.get_edge("r1").unwrap().is_some());
    assert!(e.get_edge("r2").unwrap().is_some());
}
