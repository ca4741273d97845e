use motly::from_json::{from_json, from_wire};
use motly::num::Number;
use motly::tree::{EqValue, MOTLYNode, MOTLYPropertyValue, Property, Scalar, props_insert};

fn node_with_eq(eq: EqValue) -> MOTLYNode {
    MOTLYNode { eq: Some(eq), properties: None, deleted: false }
}

fn scalar_node(s: Scalar) -> MOTLYPropertyValue {
    MOTLYPropertyValue::Node(node_with_eq(EqValue::Scalar(s)))
}

#[test]
fn round_trip_empty() {
    let v = MOTLYNode::new();
    let json = v.to_json();
    let v2 = from_json(&json).unwrap();
    assert_eq!(v, v2);
}

#[test]
fn round_trip_scalar_string() {
    let v = node_with_eq(EqValue::Scalar(Scalar::String("hello".to_string())));
    let json = v.to_json();
    let v2 = from_json(&json).unwrap();
    assert_eq!(v, v2);
}

#[test]
fn round_trip_scalar_number() {
    let v = node_with_eq(EqValue::Scalar(Scalar::Number(Number::Integer(42))));
    let json = v.to_json();
    assert_eq!(json, "{\"eq\":42}");
    let v2 = from_json(&json).unwrap();
    assert_eq!(v, v2);
}

#[test]
fn round_trip_scalar_boolean() {
    let v = node_with_eq(EqValue::Scalar(Scalar::Boolean(true)));
    let json = v.to_json();
    let v2 = from_json(&json).unwrap();
    assert_eq!(v, v2);
}

#[test]
fn round_trip_deleted() {
    let v = MOTLYNode::deleted();
    let json = v.to_json();
    let v2 = from_json(&json).unwrap();
    assert_eq!(v, v2);
}

#[test]
fn round_trip_with_properties() {
    let mut props: Vec<Property> = Vec::new();
    props_insert(
        &mut props,
        "name".to_string(),
        scalar_node(Scalar::String("test".to_string())),
    );
    props_insert(&mut props, "count".to_string(), scalar_node(Scalar::Number(Number::Integer(5))));
    let v = MOTLYNode { eq: None, properties: Some(props), deleted: false };
    let json = v.to_json();
    let v2 = from_json(&json).unwrap();
    assert_eq!(v, v2);
}

#[test]
fn round_trip_with_ref() {
    let mut props: Vec<Property> = Vec::new();
    props_insert(
        &mut props,
        "link".to_string(),
        MOTLYPropertyValue::Ref("$^parent.name".to_string()),
    );
    let v = MOTLYNode { eq: None, properties: Some(props), deleted: false };
    let json = v.to_json();
    let v2 = from_json(&json).unwrap();
    assert_eq!(v, v2);
}

#[test]
fn round_trip_array() {
    let arr = vec![
        scalar_node(Scalar::String("a".to_string())),
        scalar_node(Scalar::Number(Number::Integer(2))),
        MOTLYPropertyValue::Ref("$root".to_string()),
    ];
    let v = node_with_eq(EqValue::Array(arr));
    let json = v.to_json();
    let v2 = from_json(&json).unwrap();
    assert_eq!(v, v2);
}

#[test]
fn round_trip_pretty() {
    let mut props: Vec<Property> = Vec::new();
    props_insert(&mut props, "x".to_string(), scalar_node(Scalar::Boolean(false)));
    let v = MOTLYNode { eq: None, properties: Some(props), deleted: false };
    let json = v.to_json_pretty();
    let v2 = from_json(&json).unwrap();
    assert_eq!(v, v2);
}

#[test]
fn round_trip_escaped_string() {
    let v = node_with_eq(
        EqValue::Scalar(Scalar::String("line1\nline2\ttab\"quote\\back".to_string())),
    );
    let json = v.to_json();
    let v2 = from_json(&json).unwrap();
    assert_eq!(v, v2);
}

#[test]
fn round_trip_negative_number() {
    let v = node_with_eq(EqValue::Scalar(Scalar::Number(Number::Decimal("-3.14".to_string()))));
    let json = v.to_json();
    assert_eq!(json, "{\"eq\":-3.14}");
    let v2 = from_json(&json).unwrap();
    assert_eq!(v, v2);
}

#[test]
fn parse_from_external_json() {
    // JSON a host might hand over: whitespace-free, nested
    let json = "{\"eq\":\"hello\",\"properties\":{\"sub\":{\"eq\":42}}}";
    let v = from_json(json).unwrap();
    assert_eq!(v.eq, Some(EqValue::Scalar(Scalar::String("hello".to_string()))));
    let props = v.properties.unwrap();
    assert_eq!(props.len(), 1);
    assert_eq!(props[0].name, "sub");
    match &props[0].value {
        MOTLYPropertyValue::Node(n) => {
            assert_eq!(n.eq, Some(EqValue::Scalar(Scalar::Number(Number::Integer(42)))));
        },
        _ => panic!("expected a node"),
    }
}

#[test]
fn round_trip_wire_date() {
    let v = node_with_eq(EqValue::Scalar(Scalar::Date("2024-01-15T10:30:00Z".to_string())));
    let wire = motly::json::to_wire(&v);
    assert_eq!(wire, "{\"eq\":{\"$date\":\"2024-01-15T10:30:00Z\"}}");
    let v2 = from_wire(&wire).unwrap();
    assert_eq!(v, v2);
}

#[test]
fn round_trip_wire_keeps_string_date_distinct() {
    // in wire mode a plain string stays a string, a date comes back a date
    let s = node_with_eq(EqValue::Scalar(Scalar::String("2024-01-15".to_string())));
    let wire = motly::json::to_wire(&s);
    assert_eq!(wire, "{\"eq\":\"2024-01-15\"}");
    let s2 = from_wire(&wire).unwrap();
    assert_eq!(s, s2);
}

#[test]
fn round_trip_surrogate_pair_escape() {
    let v = from_json("{\"eq\":\"\\ud83d\\ude00\"}").unwrap();
    assert_eq!(v.eq, Some(EqValue::Scalar(Scalar::String("\u{1F600}".to_string()))));
    let v2 = from_json(&v.to_json()).unwrap();
    assert_eq!(v, v2);
}

#[test]
fn round_trip_lone_surrogate_becomes_replacement() {
    let v = from_json("{\"eq\":\"\\ud800x\"}").unwrap();
    assert_eq!(v.eq, Some(EqValue::Scalar(Scalar::String("\u{FFFD}x".to_string()))));
}

#[test]
fn round_trip_unknown_keys_skipped() {
    let v = from_json("{\"eq\":1,\"future\":[{\"a\":[1,2]},null,true],\"properties\":{}}").unwrap();
    assert_eq!(v.eq, Some(EqValue::Scalar(Scalar::Number(Number::Integer(1)))));
    assert_eq!(v.properties, Some(Vec::new()));
}

#[test]
fn round_trip_big_integer_kept_as_text() {
    // 2^53 itself is beyond the exact range, so the text is kept
    let v = from_json("{\"eq\":9007199254740992}").unwrap();
    assert_eq!(
        v.eq,
        Some(EqValue::Scalar(Scalar::Number(Number::Decimal("9007199254740992".to_string())))),
    );
    let v2 = from_json(&v.to_json()).unwrap();
    assert_eq!(v, v2);
}

#[test]
fn number_integer_has_no_decimal_point() {
    // integers below 2^53 print as plain digits and read back exactly
    let v = node_with_eq(EqValue::Scalar(Scalar::Number(Number::Integer(9007199254740991))));
    let json = v.to_json();
    assert_eq!(json, "{\"eq\":9007199254740991}");
    assert!(!json.contains('.'));
    let v2 = from_json(&json).unwrap();
    assert_eq!(v, v2);
}
