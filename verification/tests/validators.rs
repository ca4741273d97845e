use motly::parse_motly;
use motly::tree::MOTLYNode;
use motly::validate::{validate_references, validate_schema};

fn parse_ok(src: &str) -> MOTLYNode {
    let r = parse_motly(src, MOTLYNode::new());
    assert!(r.errors.is_empty(), "unexpected errors for {:?}: {:?}", src, r.errors);
    r.value
}

// ---- Reference validation ----

#[test]
fn refs_absolute_resolves() {
    let v = parse_ok("target=1 r = $target");
    assert!(validate_references(&v).is_empty());
}

#[test]
fn refs_missing_is_error() {
    let v = parse_ok("r = $missing");
    let errors = validate_references(&v);
    assert_eq!(errors.len(), 1);
    assert_eq!(errors[0].code, "unresolved-reference");
    assert_eq!(errors[0].path, vec!["r".to_string()]);
    assert!(errors[0].message.contains("property \"missing\" not found"), "{}", errors[0].message);
}

#[test]
fn refs_relative_sibling() {
    let v = parse_ok("outer { name=1 inner { r = $^name } }");
    assert!(validate_references(&v).is_empty());
}

#[test]
fn refs_too_many_ups() {
    let v = parse_ok("outer { r = $^^^^nope }");
    let errors = validate_references(&v);
    assert_eq!(errors.len(), 1);
    assert_eq!(errors[0].code, "unresolved-reference");
    assert!(
        errors[0].message.contains("goes 4 level(s) up but only 2 ancestor(s) available"),
        "{}",
        errors[0].message
    );
    assert_eq!(errors[0].path, vec!["outer".to_string(), "r".to_string()]);
}

#[test]
fn refs_index_out_of_bounds() {
    let v = parse_ok("items=[a] r = $items[3]");
    let errors = validate_references(&v);
    assert_eq!(errors.len(), 1);
    assert_eq!(errors[0].code, "unresolved-reference");
    assert!(
        errors[0].message.contains("index [3] out of bounds (array length 1)"),
        "{}",
        errors[0].message
    );
}

#[test]
fn refs_index_on_non_array() {
    let v = parse_ok("s=1 r = $s[0]");
    let errors = validate_references(&v);
    assert_eq!(errors.len(), 1);
    assert!(
        errors[0].message.contains("index [0] used on non-array"),
        "{}",
        errors[0].message
    );
}

#[test]
fn refs_link_is_terminal() {
    // a link at the end resolves; a path through a link does not
    let v = parse_ok("t { x=1 } mid = $t r1 = $mid");
    assert!(validate_references(&v).is_empty());
    let w = parse_ok("t { x=1 } mid = $t r2 = $mid.x");
    let errors = validate_references(&w);
    assert_eq!(errors.len(), 1);
    assert_eq!(errors[0].code, "unresolved-reference");
    assert_eq!(errors[0].path, vec!["r2".to_string()]);
    assert!(
        errors[0].message.contains("cannot follow path through a link"),
        "{}",
        errors[0].message
    );
}

#[test]
fn refs_inside_arrays_are_checked() {
    let v = parse_ok("xs = [$nope]");
    let errors = validate_references(&v);
    assert_eq!(errors.len(), 1);
    assert_eq!(errors[0].path, vec!["xs".to_string(), "[0]".to_string()]);
}

// ---- Schema validation ----

#[test]
fn schema_missing_required() {
    let schema = parse_ok("Required { name = string }");
    let input = parse_ok("other=1");
    let errors = validate_schema(&input, &schema);
    assert_eq!(errors.len(), 2);
    assert_eq!(errors[0].code, "missing-required");
    assert_eq!(errors[0].path, vec!["name".to_string()]);
    assert_eq!(errors[1].code, "unknown-property");
    assert_eq!(errors[1].path, vec!["other".to_string()]);
}

#[test]
fn schema_unknown_property_rejected_by_default() {
    let schema = parse_ok("Required { a = number }");
    let input = parse_ok("a=1 b=2");
    let errors = validate_schema(&input, &schema);
    assert_eq!(errors.len(), 1);
    assert_eq!(errors[0].code, "unknown-property");
    assert_eq!(errors[0].path, vec!["b".to_string()]);
}

#[test]
fn schema_additional_allow() {
    let schema = parse_ok("Required { a = number } Additional = allow");
    let input = parse_ok("a=1 b=2");
    assert!(validate_schema(&input, &schema).is_empty());
}

#[test]
fn schema_additional_without_eq_allows() {
    let schema = parse_ok("Required { a = number } Additional");
    let input = parse_ok("a=1 b=2");
    assert!(validate_schema(&input, &schema).is_empty());
}

#[test]
fn schema_additional_validate_as() {
    let schema = parse_ok("Additional = number");
    let good = parse_ok("a=1 b=2");
    assert!(validate_schema(&good, &schema).is_empty());
    let bad = parse_ok("a=1 b=two");
    let errors = validate_schema(&bad, &schema);
    assert_eq!(errors.len(), 1);
    assert_eq!(errors[0].code, "wrong-type");
    assert_eq!(errors[0].path, vec!["b".to_string()]);
}

#[test]
fn schema_optional_checked_when_present() {
    let schema = parse_ok("Optional { port = number }");
    assert!(validate_schema(&parse_ok("port=80"), &schema).is_empty());
    assert!(validate_schema(&MOTLYNode::new(), &schema).is_empty());
    let errors = validate_schema(&parse_ok("port=x"), &schema);
    assert_eq!(errors.len(), 1);
    assert_eq!(errors[0].code, "wrong-type");
}

#[test]
fn schema_enum_members() {
    let schema = parse_ok("Required { kind { eq = [alpha, beta] } }");
    assert!(validate_schema(&parse_ok("kind=alpha"), &schema).is_empty());
    let errors = validate_schema(&parse_ok("kind=gamma"), &schema);
    assert_eq!(errors.len(), 1);
    assert_eq!(errors[0].code, "invalid-enum-value");
    assert_eq!(errors[0].path, vec!["kind".to_string()]);
}

#[test]
fn schema_pattern_match() {
    let schema = parse_ok("Required { image { matches = \"^[a-z]+:[0-9]+$\" } }");
    assert!(validate_schema(&parse_ok("image=\"nginx:1\""), &schema).is_empty());
    let errors = validate_schema(&parse_ok("image=\"NGINX\""), &schema);
    assert_eq!(errors.len(), 1);
    assert_eq!(errors[0].code, "pattern-mismatch");
    assert_eq!(errors[0].path, vec!["image".to_string()]);
}

#[test]
fn schema_pattern_invalid_regex() {
    let schema = parse_ok("Required { image { matches = \"(\" } }");
    let errors = validate_schema(&parse_ok("image=x"), &schema);
    assert_eq!(errors.len(), 1);
    assert_eq!(errors[0].code, "invalid-schema");
}

#[test]
fn schema_union_one_of() {
    let schema = parse_ok("Required { id { oneOf = [string, number] } }");
    assert!(validate_schema(&parse_ok("id=abc"), &schema).is_empty());
    assert!(validate_schema(&parse_ok("id=42"), &schema).is_empty());
    let errors = validate_schema(&parse_ok("id=@true"), &schema);
    assert_eq!(errors.len(), 1);
    assert_eq!(errors[0].code, "wrong-type");
}

#[test]
fn schema_array_type() {
    let schema = parse_ok("Required { xs = \"number[]\" }");
    assert!(validate_schema(&parse_ok("xs=[1, 2, 3]"), &schema).is_empty());
    let errors = validate_schema(&parse_ok("xs=[1, two]"), &schema);
    assert_eq!(errors.len(), 1);
    assert_eq!(errors[0].code, "wrong-type");
    assert_eq!(errors[0].path, vec!["xs".to_string(), "[1]".to_string()]);
}

#[test]
fn schema_structural_nesting() {
    let schema = parse_ok("Required { server { Required { host = string, port = number } } }");
    assert!(validate_schema(&parse_ok("server { host=a port=1 }"), &schema).is_empty());
    let errors = validate_schema(&parse_ok("server { host=a }"), &schema);
    assert_eq!(errors.len(), 1);
    assert_eq!(errors[0].code, "missing-required");
    assert_eq!(errors[0].path, vec!["server".to_string(), "port".to_string()]);
}

#[test]
fn schema_unknown_type_name() {
    let schema = parse_ok("Required { a = Mystery }");
    let errors = validate_schema(&parse_ok("a=1"), &schema);
    assert_eq!(errors.len(), 1);
    assert_eq!(errors[0].code, "invalid-schema");
}

#[test]
fn schema_tag_and_flag_and_any() {
    let schema = parse_ok("Required { t = tag, f = flag, x = any }");
    assert!(validate_schema(&parse_ok("t { a=1 } f x=99"), &schema).is_empty());
}

#[test]
fn schema_date_and_boolean_types() {
    let schema = parse_ok("Required { d = date, b = boolean }");
    assert!(validate_schema(&parse_ok("d=@2024-01-15 b=@false"), &schema).is_empty());
    let errors = validate_schema(&parse_ok("d=later b=1"), &schema);
    assert_eq!(errors.len(), 2);
    assert_eq!(errors[0].code, "wrong-type");
    assert_eq!(errors[1].code, "wrong-type");
}

#[test]
fn schema_link_is_wrong_type() {
    let schema = parse_ok("Required { name = string }");
    let input = parse_ok("t=hi name = $t");
    let errors = validate_schema(&input, &schema);
    assert_eq!(errors.len(), 2);
    assert_eq!(errors[0].code, "wrong-type");
    assert_eq!(errors[0].path, vec!["name".to_string()]);
    assert_eq!(errors[1].code, "unknown-property");
}

#[test]
fn schema_errors_serialize() {
    let schema = parse_ok("Required { name = string }");
    let errors = validate_schema(&parse_ok("name=1"), &schema);
    let json = motly::json::schema_errors_to_json(&errors);
    assert!(json.starts_with("[{\"code\":\"wrong-type\""));
    assert!(json.contains("\"path\":[\"name\"]"));
}

#[test]
fn validation_errors_serialize() {
    let v = parse_ok("r = $missing");
    let errors = validate_references(&v);
    let json = motly::json::validation_errors_to_json(&errors);
    assert!(json.starts_with("[{\"code\":\"unresolved-reference\""));
    assert!(json.contains("\"path\":[\"r\"]"));
}

#[test]
fn schema_named_type_chain() {
    let schema = parse_ok("Types { A = B, B = C, C = number } Required { x = A }");
    assert!(validate_schema(&parse_ok("x=5"), &schema).is_empty());
    let errors = validate_schema(&parse_ok("x=five"), &schema);
    assert_eq!(errors.len(), 1);
    assert_eq!(errors[0].code, "wrong-type");
}

#[test]
fn schema_cyclic_named_types_rejected() {
    // mutually recursive named types can never settle; the validator
    // reports the schema as invalid instead of running forever
    let schema = parse_ok("Types { A = B, B = A } Required { x = A }");
    let errors = validate_schema(&parse_ok("x=1"), &schema);
    assert_eq!(errors.len(), 1);
    assert_eq!(errors[0].code, "invalid-schema");
}

#[test]
fn schema_nested_array_types() {
    let schema = parse_ok("Required { grid = \"number[][]\" }");
    assert!(validate_schema(&parse_ok("grid=[[1, 2], [3]]"), &schema).is_empty());
    let errors = validate_schema(&parse_ok("grid=[[1], [x]]"), &schema);
    assert_eq!(errors.len(), 1);
    assert_eq!(errors[0].code, "wrong-type");
}
