use magpies::num::Timestamp;
use magpies::record::{JsonValue, MetricValue, Record};

fn record_of(value: JsonValue) -> Record {
    Record { target: String::from("t"), timestamp: Timestamp::new(0, 0), value }
}

fn keys_of(r: &Record) -> Vec<String> {
    let flat = r.flatten();
    let mut out = Vec::new();
    let mut i = 0;
    while i < flat.metrics.len() {
        out.push(flat.metrics.key_at(i).clone());
        i += 1;
    }
    out
}

#[test]
fn scalars_flatten_to_the_empty_path() {
    let r = record_of(JsonValue::Int(5));
    let flat = r.flatten();
    assert_eq!(flat.metrics.len(), 1);
    assert_eq!(flat.metrics.key_at(0), "");
    assert!(matches!(flat.metrics.val_at(0), MetricValue::Integer(5)));
}

#[test]
fn keys_are_the_root_to_leaf_paths() {
    let r = record_of(JsonValue::Object(vec![
        (
            String::from("cpu"),
            JsonValue::Object(vec![
                (String::from("user"), JsonValue::Float(0.5f64.to_bits())),
                (String::from("sys"), JsonValue::Float(0.25f64.to_bits())),
            ]),
        ),
        (String::from("up"), JsonValue::Bool(true)),
    ]));
    let keys = keys_of(&r);
    assert_eq!(keys, vec!["cpu.sys", "cpu.user", "up"]);
}

#[test]
fn array_indices_are_zero_padded_to_the_width_of_the_largest_index() {
    let elems: Vec<JsonValue> = (0..11).map(JsonValue::Int).collect();
    let r = record_of(JsonValue::Object(vec![(String::from("xs"), JsonValue::Array(elems))]));
    let keys = keys_of(&r);
    assert_eq!(keys.len(), 11);
    assert_eq!(keys[0], "xs.00");
    assert_eq!(keys[9], "xs.09");
    assert_eq!(keys[10], "xs.10");

    // ten elements: the largest index is 9, one digit wide
    let elems: Vec<JsonValue> = (0..10).map(JsonValue::Int).collect();
    let r = record_of(JsonValue::Array(elems));
    let keys = keys_of(&r);
    assert_eq!(keys[0], "0");
    assert_eq!(keys[9], "9");
}

#[test]
fn unsigned_values_beyond_the_signed_range_clamp() {
    let r = record_of(JsonValue::Object(vec![
        (String::from("big"), JsonValue::Uint(u64::MAX)),
        (String::from("small"), JsonValue::Uint(7)),
    ]));
    let flat = r.flatten();
    match flat.metrics.get(&String::from("big")).unwrap() {
        MetricValue::Integer(v) => assert_eq!(*v, i64::MAX),
        _ => panic!("expected an integer"),
    }
    match flat.metrics.get(&String::from("small")).unwrap() {
        MetricValue::Integer(v) => assert_eq!(*v, 7),
        _ => panic!("expected an integer"),
    }
}

#[test]
fn every_scalar_kind_maps_through() {
    let r = record_of(JsonValue::Object(vec![
        (String::from("n"), JsonValue::Null),
        (String::from("b"), JsonValue::Bool(false)),
        (String::from("i"), JsonValue::Int(-3)),
        (String::from("f"), JsonValue::Float(1.5f64.to_bits())),
        (String::from("s"), JsonValue::Text(String::from("hey"))),
    ]));
    let flat = r.flatten();
    assert!(matches!(flat.metrics.get(&String::from("n")).unwrap(), MetricValue::Null));
    assert!(matches!(flat.metrics.get(&String::from("b")).unwrap(), MetricValue::Bool(false)));
    assert!(matches!(flat.metrics.get(&String::from("i")).unwrap(), MetricValue::Integer(-3)));
    match flat.metrics.get(&String::from("f")).unwrap() {
        MetricValue::Float(bits) => assert_eq!(f64::from_bits(*bits), 1.5),
        _ => panic!("expected a float"),
    }
    match flat.metrics.get(&String::from("s")).unwrap() {
        MetricValue::Text(t) => assert_eq!(t, "hey"),
        _ => panic!("expected text"),
    }
}

#[test]
fn later_bindings_override_earlier_ones() {
    let r = record_of(JsonValue::Object(vec![
        (
            String::from("a"),
            JsonValue::Object(vec![(String::from("b"), JsonValue::Int(1))]),
        ),
        (String::from("a.b"), JsonValue::Int(2)),
    ]));
    let flat = r.flatten();
    assert_eq!(flat.metrics.len(), 1);
    match flat.metrics.get(&String::from("a.b")).unwrap() {
        MetricValue::Integer(v) => assert_eq!(*v, 2),
        _ => panic!("expected an integer"),
    }
}
