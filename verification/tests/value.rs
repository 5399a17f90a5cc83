use motif_core::query::eval::values_equal;
use motif_core::record::put_value;
use motif_core::Value;

#[test]
fn type_name_covers_every_variant() {
    let samples = [
        Value::Null,
        Value::Bool(true),
        Value::I64(0),
        Value::F64(0.0f64.to_bits()),
        Value::String(String::new()),
        Value::Timestamp(0),
        Value::List(vec![]),
    ];
    let names: Vec<&str> = samples.iter().map(|v| v.kind_name()).collect();
    assert_eq!(names, ["null", "bool", "i64", "f64", "string", "timestamp", "list"]);
}

#[test]
fn timestamp_handles_signed_range() {
    let pre_epoch = Value::Timestamp(-86_400_000);
    let post_2262 = Value::Timestamp(i64::MAX);
    assert_eq!(pre_epoch.kind_name(), "timestamp");
    assert_eq!(post_2262.kind_name(), "timestamp");
}

#[test]
fn list_is_recursive() {
    let v = Value::List(vec![Value::I64(1), Value::List(vec![Value::String("nested".into())])]);
    assert_eq!(v.kind_name(), "list");
}

#[test]
fn bincode_round_trip_preserves_discriminant_order() {
    let cases = [
        (Value::Null, 0u8),
        (Value::Bool(true), 1),
        (Value::I64(0), 2),
        (Value::F64(0.0f64.to_bits()), 3),
        (Value::String(String::new()), 4),
        (Value::Timestamp(0), 5),
        (Value::List(vec![]), 6),
    ];
    for (v, expected_disc) in cases {
        let mut bytes = Vec::new();
        put_value(&mut bytes, &v);
        assert_eq!(bytes[0], expected_disc, "discriminant for {} drifted", v.kind_name());
    }
}

#[test]
fn value_encoding_matches_bincode_standard_layout() {
    let cfg = bincode::config::standard();
    let mut ours = Vec::new();
    put_value(&mut ours, &Value::I64(-300));
    let theirs = bincode::encode_to_vec((2u32, -300i64), cfg).unwrap();
    assert_eq!(ours, theirs);

    let mut ours = Vec::new();
    put_value(&mut ours, &Value::String("héllo".into()));
    let theirs = bincode::encode_to_vec((4u32, "héllo".to_string()), cfg).unwrap();
    assert_eq!(ours, theirs);

    let mut ours = Vec::new();
    put_value(&mut ours, &Value::F64(1.5f64.to_bits()));
    let theirs = bincode::encode_to_vec((3u32, 1.5f64), cfg).unwrap();
    assert_eq!(ours, theirs);

    let mut ours = Vec::new();
    put_value(&mut ours, &Value::List(vec![Value::Bool(false), Value::Timestamp(70_000)]));
    let theirs = bincode::encode_to_vec((6u32, 2u64, (1u32, false), (5u32, 70_000i64)), cfg).unwrap();
    assert_eq!(ours, theirs);
}

#[test]
fn value_equality_follows_ieee_doubles() {
    let nan = Value::F64(f64::NAN.to_bits());
    assert!(nan != nan);
    assert_eq!(Value::F64(0.0f64.to_bits()), Value::F64((-0.0f64).to_bits()));
    assert_eq!(
        Value::List(vec![Value::I64(1), Value::String("a".into())]),
        Value::List(vec![Value::I64(1), Value::String("a".into())])
    );
    assert_ne!(Value::I64(1), Value::Timestamp(1));
}

#[test]
fn values_equal_compares_integers_with_doubles_by_value() {
    assert!(values_equal(&Value::I64(30), &Value::F64(30.0f64.to_bits())));
    assert!(values_equal(&Value::F64(30.0f64.to_bits()), &Value::I64(30)));
    assert!(!values_equal(&Value::I64(30), &Value::F64(30.5f64.to_bits())));
    assert!(values_equal(&Value::Null, &Value::Null));
    assert!(!values_equal(&Value::I64(1), &Value::String("1".into())));
    assert!(!values_equal(&Value::Null, &Value::Bool(false)));
}
