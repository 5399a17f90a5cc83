use motif_core::record::{decode_framed, encode_framed};
use motif_core::{ActorId, Mutation, MutationOp, PropertyType, Schema, TableKind, TableSchema};

#[test]
fn fluent_construction() {
    let s = Schema::new(1).with_table(
        TableSchema::new("Person", TableKind::Node)
            .with_property("name", PropertyType::String)
            .with_property("age", PropertyType::I64),
    );
    assert!(s.has_label("Person"));
    assert!(!s.has_label("Robot"));
    let t = s.table("Person").unwrap();
    assert_eq!(t.kind, TableKind::Node);
    assert_eq!(t.properties.len(), 2);
}

#[test]
fn schema_round_trips_via_bincode() {
    let s = Schema::new(7).with_table(
        TableSchema::new("Edge", TableKind::Edge).with_property("weight", PropertyType::F64),
    );
    let m = Mutation {
        local_seq: 1,
        actor: ActorId { user_id: "u".into(), device_id: "d".into() },
        foreshadow: true,
        op: MutationOp::SchemaApply(s),
    };
    let framed = encode_framed(&m).unwrap();
    let (back, consumed) = decode_framed(&framed).unwrap().unwrap();
    assert_eq!(consumed, framed.len());
    let MutationOp::SchemaApply(back) = back.op else {
        panic!("expected SchemaApply");
    };
    assert_eq!(back.version, 7);
    let t = back.table("Edge").unwrap();
    assert_eq!(t.label, "Edge");
    assert_eq!(t.kind, TableKind::Edge);
    assert_eq!(t.properties.len(), 1);
    assert_eq!(t.properties.get("weight"), Some(&PropertyType::F64));
}

#[test]
fn replacing_a_table_keeps_one_entry() {
    let s = Schema::new(1)
        .with_table(TableSchema::new("Person", TableKind::Node))
        .with_table(TableSchema::new("Person", TableKind::Edge));
    assert_eq!(s.tables.len(), 1);
    assert_eq!(s.table("Person").unwrap().kind, TableKind::Edge);
}
