use motly::parse_motly;
use motly::tree::MOTLYNode;

fn json_of(src: &str) -> String {
    let result = parse_motly(src, MOTLYNode::new());
    assert!(result.errors.is_empty(), "unexpected errors for {:?}", src);
    result.value.to_json()
}

#[test]
fn test_json_simple() {
    assert_eq!(json_of("name=hello"), "{\"properties\":{\"name\":{\"eq\":\"hello\"}}}");
}

#[test]
fn test_json_link() {
    assert_eq!(json_of("ref=$target"), "{\"properties\":{\"ref\":{\"linkTo\":\"$target\"}}}");
}

#[test]
fn test_json_deleted() {
    assert_eq!(json_of("-gone"), "{\"properties\":{\"gone\":{\"deleted\":true}}}");
}

#[test]
fn test_json_array() {
    assert_eq!(
        json_of("items=[a, b]"),
        "{\"properties\":{\"items\":{\"eq\":[{\"eq\":\"a\"},{\"eq\":\"b\"}]}}}"
    );
}

#[test]
fn test_json_number() {
    assert_eq!(json_of("count=42"), "{\"properties\":{\"count\":{\"eq\":42}}}");
}

#[test]
fn test_json_boolean() {
    assert_eq!(json_of("active=@true"), "{\"properties\":{\"active\":{\"eq\":true}}}");
}

#[test]
fn test_json_date() {
    assert_eq!(
        json_of("created=@2024-01-15"),
        "{\"properties\":{\"created\":{\"eq\":\"2024-01-15\"}}}"
    );
}

#[test]
fn test_json_nested() {
    assert_eq!(
        json_of("a { b { c=1 } }"),
        "{\"properties\":{\"a\":{\"properties\":{\"b\":{\"properties\":{\"c\":{\"eq\":1}}}}}}}"
    );
}

#[test]
fn test_json_pretty_layout() {
    let result = parse_motly("a=1", MOTLYNode::new());
    assert!(result.errors.is_empty());
    assert_eq!(
        result.value.to_json_pretty(),
        "{\n  \"properties\": {\n    \"a\": {\n      \"eq\": 1\n    }\n  }\n}"
    );
}

#[test]
fn test_json_wire_date_wrapped() {
    let result = parse_motly("created=@2024-01-15", MOTLYNode::new());
    assert!(result.errors.is_empty());
    assert_eq!(
        motly::json::to_wire(&result.value),
        "{\"properties\":{\"created\":{\"eq\":{\"$date\":\"2024-01-15\"}}}}"
    );
}

#[test]
fn test_json_string_escapes() {
    let result = parse_motly("s=\"a\\nb\\\"c\\\\d\\u0007\"", MOTLYNode::new());
    assert!(result.errors.is_empty());
    assert_eq!(
        result.value.to_json(),
        "{\"properties\":{\"s\":{\"eq\":\"a\\nb\\\"c\\\\d\\u0007\"}}}"
    );
}

#[test]
fn test_json_env_ref() {
    assert_eq!(
        json_of("home=@env.HOME"),
        "{\"properties\":{\"home\":{\"eq\":{\"env\":\"HOME\"}}}}"
    );
}

#[test]
fn test_json_keys_sorted_lexicographically() {
    assert_eq!(
        json_of("zebra=1 apple=2 mango=3"),
        "{\"properties\":{\"apple\":{\"eq\":2},\"mango\":{\"eq\":3},\"zebra\":{\"eq\":1}}}"
    );
}

#[test]
fn test_errors_to_json_empty() {
    let errs: Vec<motly::error::MOTLYError> = Vec::new();
    assert_eq!(motly::json::errors_to_json(&errs), "[]");
}

#[test]
fn test_errors_to_json_one_error() {
    let result = parse_motly("a = [", MOTLYNode::new());
    let json = motly::json::errors_to_json(&result.errors);
    assert!(json.starts_with("[{\"code\":\"tag-parse-syntax-error\""));
    assert!(json.contains("\"begin\":{\"line\":0,"));
}

// ---- Error positions and spans ----

#[test]
fn test_error_unclosed_bracket() {
    let result = parse_motly("a = [", MOTLYNode::new());
    assert_eq!(result.errors.len(), 1);
    assert_eq!(result.errors[0].code, "tag-parse-syntax-error");
    assert_eq!(result.errors[0].begin.line, 0);
    assert!(result.errors[0].begin.offset <= result.errors[0].end.offset);
}

#[test]
fn test_error_unclosed_string() {
    let result = parse_motly("desc=\"forgot to close\n", MOTLYNode::new());
    assert_eq!(result.errors.len(), 1);
    assert_eq!(result.errors[0].begin.line, 0);
    assert!(result.errors[0].begin.offset <= result.errors[0].end.offset);
}

#[test]
fn test_error_on_second_line() {
    let result = parse_motly("valid=1\ninvalid=[", MOTLYNode::new());
    assert_eq!(result.errors.len(), 1);
    assert_eq!(result.errors[0].begin.line, 1);
}

#[test]
fn test_error_span_covers_region() {
    let result = parse_motly("a = [b", MOTLYNode::new());
    let err = &result.errors[0];
    assert_eq!(err.begin.line, 0);
    assert_eq!(err.end.line, 0);
    assert!(err.begin.offset < err.end.offset);
}

#[test]
fn test_error_span_unclosed_string() {
    let result = parse_motly("x=\"unterminated\n", MOTLYNode::new());
    let err = &result.errors[0];
    assert_eq!(err.begin.line, 0);
    assert_eq!(err.end.line, 0);
    assert!(err.begin.offset < err.end.offset);
}

#[test]
fn test_error_has_begin_end_positions() {
    let result = parse_motly("a = [", MOTLYNode::new());
    let err = &result.errors[0];
    assert_eq!(err.begin.line, 0);
    assert_eq!(err.end.line, 0);
    assert!(err.begin.column > 0);
    assert!(err.end.column > 0);
    assert!(err.begin.offset > 0);
    assert!(err.end.offset > 0);
}
