use motly::parse_motly;
use motly::tree::MOTLYNode;
use motly::validate::{validate_references, validate_schema};

fn parse_ok(src: &str) -> MOTLYNode {
    let r = parse_motly(src, MOTLYNode::new());
    assert!(r.errors.is_empty(), "unexpected errors for {:?}: {:?}", src, r.errors);
    r.value
}

#[test]
fn scenario_two_scalar_assignments() {
    let r = parse_motly("a=1 b=2", MOTLYNode::new());
    assert!(r.errors.is_empty());
    assert_eq!(r.value.to_json(), "{\"properties\":{\"a\":{\"eq\":1},\"b\":{\"eq\":2}}}");
}

#[test]
fn scenario_update_merges() {
    let v = parse_ok("root { x=1 } root { y=2 }");
    assert_eq!(
        v.to_json(),
        "{\"properties\":{\"root\":{\"properties\":{\"x\":{\"eq\":1},\"y\":{\"eq\":2}}}}}"
    );
}

#[test]
fn scenario_replace_discards() {
    let v = parse_ok("root { x=1 } root: { y=2 }");
    assert_eq!(
        v.to_json(),
        "{\"properties\":{\"root\":{\"properties\":{\"y\":{\"eq\":2}}}}}"
    );
}

#[test]
fn scenario_clone_is_deep() {
    let v = parse_ok("orig { name=hi } copy := $orig");
    // mutating the copy afterwards leaves the original untouched
    let r2 = parse_motly("copy.name=bye", v);
    assert!(r2.errors.is_empty());
    assert_eq!(
        r2.value.to_json(),
        "{\"properties\":{\"copy\":{\"properties\":{\"name\":{\"eq\":\"bye\"}}},\"orig\":{\"properties\":{\"name\":{\"eq\":\"hi\"}}}}}"
    );
}

#[test]
fn scenario_array_index_reference() {
    let v = parse_ok("items = [a, b] ref = $items[1]");
    let errors = validate_references(&v);
    assert!(errors.is_empty(), "unexpected reference errors: {:?}", errors);
    assert!(v.to_json().contains("\"ref\":{\"linkTo\":\"$items[1]\"}"));
}

#[test]
fn scenario_unresolved_clone_creates_nothing() {
    let r = parse_motly("x := $missing", MOTLYNode::new());
    assert_eq!(r.errors.len(), 1);
    assert_eq!(r.errors[0].code, "unresolved-clone-reference");
    assert_eq!(r.value.to_json(), "{}");
}

#[test]
fn scenario_schema_wrong_type() {
    let schema = parse_ok("Required { name = string }");
    let input = parse_ok("name=1");
    let errors = validate_schema(&input, &schema);
    assert_eq!(errors.len(), 1);
    assert_eq!(errors[0].code, "wrong-type");
    assert_eq!(errors[0].path, vec!["name".to_string()]);
}

#[test]
fn scenario_schema_named_type() {
    let schema = parse_ok("Types { Port = number } Required { port = Port }");
    let good = parse_ok("port=80");
    assert!(validate_schema(&good, &schema).is_empty());
    let bad = parse_ok("port=eighty");
    let errors = validate_schema(&bad, &schema);
    assert_eq!(errors.len(), 1);
    assert_eq!(errors[0].code, "wrong-type");
    assert_eq!(errors[0].path, vec!["port".to_string()]);
}

#[test]
fn test_meta_schema_validates_itself() {
    // a schema describing the shape of schemas, checked against itself
    let meta = parse_ok(
        "Types { Section = tag }\nOptional { Required = Section, Optional = Section, Additional = string, Types = Section }\nAdditional = reject",
    );
    let errors = validate_schema(&meta, &meta);
    assert!(errors.is_empty(), "meta-schema does not validate against itself: {:?}", errors);
}

#[test]
fn scenario_set_eq_preserves_properties() {
    let v = parse_ok("a { x=1 } a = 5");
    assert_eq!(
        v.to_json(),
        "{\"properties\":{\"a\":{\"eq\":5,\"properties\":{\"x\":{\"eq\":1}}}}}"
    );
}

#[test]
fn scenario_assign_both_resets() {
    let v = parse_ok("a { x=1 } a := 5");
    assert_eq!(v.to_json(), "{\"properties\":{\"a\":{\"eq\":5}}}");
}

#[test]
fn scenario_clear_all() {
    let v = parse_ok("a=1 b { c=2 } b { -... }");
    assert_eq!(
        v.to_json(),
        "{\"properties\":{\"a\":{\"eq\":1},\"b\":{\"properties\":{}}}}"
    );
}

#[test]
fn scenario_none_clears_value() {
    let v = parse_ok("a=1 a=@none");
    assert_eq!(v.to_json(), "{\"properties\":{\"a\":{}}}");
}

#[test]
fn scenario_ref_with_properties_error() {
    let r = parse_motly("t=1 r = $t { x=1 }", MOTLYNode::new());
    assert_eq!(r.errors.len(), 1);
    assert_eq!(r.errors[0].code, "ref-with-properties");
    // the link is still created, the block is discarded
    assert!(r.value.to_json().contains("\"r\":{\"linkTo\":\"$t\"}"));
}

#[test]
fn scenario_clone_boundary_escape() {
    // the cloned subtree holds a link that points above the clone
    let r = parse_motly("o { l = $^^q } c := $o", MOTLYNode::new());
    assert_eq!(r.errors.len(), 1);
    assert_eq!(r.errors[0].code, "clone-reference-out-of-scope");
    // the escaping link was replaced by an empty node in the copy
    assert!(r.value.to_json().contains("\"c\":{\"properties\":{\"l\":{}}}"));
}

#[test]
fn scenario_clone_keeps_absolute_links() {
    let r = parse_motly("q=1 o { l = $q } c := $o", MOTLYNode::new());
    assert!(r.errors.is_empty());
    assert!(r.value.to_json().contains("\"c\":{\"properties\":{\"l\":{\"linkTo\":\"$q\"}}}"));
}

#[test]
fn scenario_relative_clone() {
    // from the write target wrap.dst, one level up is the root
    let v = parse_ok("x { v = 7 } wrap.dst := $^x.v");
    assert!(v.to_json().contains("\"dst\":{\"eq\":7}"));
}

#[test]
fn scenario_block_local_clone() {
    // inside a block, an absolute reference starts at the block's node
    let v = parse_ok("o { src = 7 dst := $src }");
    assert!(v.to_json().contains("\"dst\":{\"eq\":7}"));
}

#[test]
fn scenario_interpreter_concatenation() {
    // running two sources in sequence equals running their concatenation
    let one = parse_motly("a=1 b { c=2 }", MOTLYNode::new());
    let two = parse_motly("b { d=3 } a=4", one.value);
    let whole = parse_motly("a=1 b { c=2 } b { d=3 } a=4", MOTLYNode::new());
    assert_eq!(two.value.to_json(), whole.value.to_json());
}

#[test]
fn scenario_build_order_does_not_matter() {
    let forward = parse_ok("a=1 b=2 c=3");
    let backward = parse_ok("c=3 b=2 a=1");
    assert_eq!(forward.to_json(), backward.to_json());
}

#[test]
fn scenario_heredoc() {
    let v = parse_ok("text = <<<\n    line one\n      line two\n\n    end\n    >>>");
    assert_eq!(
        v.to_json(),
        "{\"properties\":{\"text\":{\"eq\":\"line one\\n  line two\\n\\nend\\n\"}}}"
    );
}

#[test]
fn scenario_strings_and_escapes() {
    let v = parse_ok("a='raw\\n' b=\"esc\\n\" d=\"\\u0041\"");
    assert_eq!(
        v.to_json(),
        "{\"properties\":{\"a\":{\"eq\":\"raw\\\\n\"},\"b\":{\"eq\":\"esc\\n\"},\"d\":{\"eq\":\"A\"}}}"
    );
}

#[test]
fn scenario_number_reparsed_as_bare_string() {
    let v = parse_ok("version=1a2");
    assert_eq!(v.to_json(), "{\"properties\":{\"version\":{\"eq\":\"1a2\"}}}");
}

#[test]
fn scenario_fraction_normalized() {
    let v = parse_ok("x=.5 y=-2.25 z=1e3");
    assert_eq!(
        v.to_json(),
        "{\"properties\":{\"x\":{\"eq\":0.5},\"y\":{\"eq\":-2.25},\"z\":{\"eq\":1e3}}}"
    );
}

#[test]
fn scenario_comments_and_commas() {
    let v = parse_ok("# leading comment\na=1, b=2 # trailing\n");
    assert_eq!(v.to_json(), "{\"properties\":{\"a\":{\"eq\":1},\"b\":{\"eq\":2}}}");
}

#[test]
fn scenario_empty_input() {
    let r = parse_motly("", MOTLYNode::new());
    assert!(r.errors.is_empty());
    assert_eq!(r.value.to_json(), "{}");
}

#[test]
fn scenario_eq_brace_is_error() {
    let r = parse_motly("a = { x=1 }", MOTLYNode::new());
    assert_eq!(r.errors.len(), 1);
    assert_eq!(r.errors[0].code, "tag-parse-syntax-error");
}

#[test]
fn scenario_define_only() {
    let v = parse_ok("a.b.c");
    assert_eq!(
        v.to_json(),
        "{\"properties\":{\"a\":{\"properties\":{\"b\":{\"properties\":{\"c\":{}}}}}}}"
    );
}

#[test]
fn scenario_backtick_property_name() {
    let v = parse_ok("`odd name`=1");
    assert_eq!(v.to_json(), "{\"properties\":{\"odd name\":{\"eq\":1}}}");
}

#[test]
fn scenario_trailing_comma_in_array() {
    let v = parse_ok("xs=[1, 2,]");
    assert_eq!(v.to_json(), "{\"properties\":{\"xs\":{\"eq\":[{\"eq\":1},{\"eq\":2}]}}}");
}

#[test]
fn scenario_big_integer_text_kept() {
    // beyond the exact range the lexical text is preserved
    let v = parse_ok("big=9007199254740993");
    assert_eq!(v.to_json(), "{\"properties\":{\"big\":{\"eq\":9007199254740993}}}");
}

#[test]
fn scenario_date_with_time_and_zone() {
    let v = parse_ok("t=@2024-01-15T10:30:00.5+02:00");
    assert_eq!(
        v.to_json(),
        "{\"properties\":{\"t\":{\"eq\":\"2024-01-15T10:30:00.5+02:00\"}}}"
    );
}

#[test]
fn scenario_triple_double_quoted_string() {
    let v = parse_ok("a=\"\"\"two\nlines\"\"\"");
    assert_eq!(v.to_json(), "{\"properties\":{\"a\":{\"eq\":\"two\\nlines\"}}}");
}

#[test]
fn scenario_triple_single_quoted_string() {
    let v = parse_ok("b='''raw ' quote'''");
    assert_eq!(v.to_json(), "{\"properties\":{\"b\":{\"eq\":\"raw ' quote\"}}}");
}

#[test]
fn scenario_nested_array_with_blocks() {
    let v = parse_ok("xs = [[1], { k=2 }, 3 { m=4 }]");
    assert_eq!(
        v.to_json(),
        "{\"properties\":{\"xs\":{\"eq\":[{\"eq\":[{\"eq\":1}]},{\"properties\":{\"k\":{\"eq\":2}}},{\"eq\":3,\"properties\":{\"m\":{\"eq\":4}}}]}}}"
    );
}

#[test]
fn scenario_define_deleted_replaces() {
    let v = parse_ok("a=1 -a");
    assert_eq!(v.to_json(), "{\"properties\":{\"a\":{\"deleted\":true}}}");
}

#[test]
fn scenario_dotted_path_set() {
    let v = parse_ok("a.b.c = 1");
    assert_eq!(
        v.to_json(),
        "{\"properties\":{\"a\":{\"properties\":{\"b\":{\"properties\":{\"c\":{\"eq\":1}}}}}}}"
    );
}

#[test]
fn scenario_assign_with_block_replaces_properties() {
    let v = parse_ok("a { x=1 } a := 2 { y=3 }");
    assert_eq!(
        v.to_json(),
        "{\"properties\":{\"a\":{\"eq\":2,\"properties\":{\"y\":{\"eq\":3}}}}}"
    );
}

#[test]
fn scenario_clone_with_block_replaces_properties() {
    let v = parse_ok("o { x=1 } c := $o { y=2 }");
    assert!(v.to_json().contains("\"c\":{\"properties\":{\"y\":{\"eq\":2}}}"));
}

#[test]
fn scenario_update_converts_link_to_node() {
    let v = parse_ok("t=1 r=$t r { x=1 }");
    assert!(v.to_json().contains("\"r\":{\"properties\":{\"x\":{\"eq\":1}}}"));
}

#[test]
fn scenario_set_eq_through_link_intermediate() {
    // a link at an intermediate path segment becomes an addressable node
    let v = parse_ok("t=1 r=$t r.x = 2");
    assert!(v.to_json().contains("\"r\":{\"properties\":{\"x\":{\"eq\":2}}}"));
}

#[test]
fn scenario_bad_at_constant() {
    let r = parse_motly("a=@maybe", MOTLYNode::new());
    assert_eq!(r.errors.len(), 1);
    assert_eq!(r.errors[0].code, "tag-parse-syntax-error");
}

#[test]
fn scenario_heredoc_needs_newline() {
    let r = parse_motly("t = <<< stuff >>>", MOTLYNode::new());
    assert_eq!(r.errors.len(), 1);
    assert_eq!(r.errors[0].code, "tag-parse-syntax-error");
}

#[test]
fn scenario_comment_inside_block() {
    let v = parse_ok("a { # note\n x=1 }");
    assert_eq!(
        v.to_json(),
        "{\"properties\":{\"a\":{\"properties\":{\"x\":{\"eq\":1}}}}}"
    );
}
