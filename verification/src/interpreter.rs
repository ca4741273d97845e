//! The statement interpreter: folds a statement list into a tree, collecting
//! non-fatal errors. The `spec_exec_*` family defines the semantics over the
//! ghost views; every executable function returns exactly what it says.
use vstd::prelude::*;
use crate::ast::{Statement, TagValue, ScalarValue, ArrayElement, RefPathSegment, value_size,
    elems_size, elem_size, opt_stmts_size, stmt_size, stmts_size, lemma_stmts_size_elem,
    lemma_elems_size_elem, stmt_wf, stmts_wf, value_wf, elems_wf, elem_wf, opt_stmts_wf,
    lemma_stmts_wf_index, lemma_elems_wf_index};
use crate::error::{MOTLYError, zero_position};
use crate::num::Number;
use crate::text::{spec_dec_digits, str_to_chars, chars_to_string, write_u64_dec,
    lemma_push_is_concat, lemma_cat_empty, lemma_group2, lemma_group3, lemma_group4};
use crate::tree::{MOTLYNode, MOTLYPropertyValue, EqValue, Scalar, Property, NodeVal, PropVal,
    EqVal, ScalarVal, view_node, view_pv, view_eq, view_scalar, view_number, view_props, view_pvs,
    empty_node_val, vprops_get, vprops_find, vprops_insert, props_get, props_insert, clone_node,
    clone_number, clone_eq, lemma_view_props_index, lemma_view_pvs_index};

verus! {

// ---- Error codes as sequences --------------------------------------------

/// The codes of a list of errors, in order.
pub open spec fn error_codes(es: Seq<MOTLYError>) -> Seq<Seq<char>> {
    es.map(|i: int, e: MOTLYError| e.code@)
}

pub proof fn lemma_codes_push(es: Seq<MOTLYError>, e: MOTLYError)
    ensures
        error_codes(es.push(e)) == error_codes(es) + seq![e.code@],
{
    assert(error_codes(es.push(e)) =~= error_codes(es) + seq![e.code@]);
}

/// Append an interpreter error with the given code.
fn push_error(errors: &mut Vec<MOTLYError>, code: &str, message: String)
    ensures
        error_codes(final(errors)@) == error_codes(old(errors)@) + seq![code@],
{
    let e = MOTLYError {
        code: code.to_owned(),
        message,
        begin: zero_position(),
        end: zero_position(),
    };
    errors.push(e);
    proof {
        lemma_push_is_concat(old(errors)@, e);
        lemma_codes_push(old(errors)@, e);
    }
}

// ---- Small helpers over node views ----------------------------------------

/// The property of a node's map, if the node has a map holding the key.
pub open spec fn spec_node_get(n: NodeVal, k: Seq<char>) -> Option<PropVal> {
    match n.properties {
        Option::Some(ps) => vprops_get(ps, k),
        Option::None => Option::None,
    }
}

/// Insert into a node's property map, creating the map if absent.
pub open spec fn spec_node_insert(n: NodeVal, k: Seq<char>, v: PropVal) -> NodeVal {
    let ps = match n.properties {
        Option::Some(ps) => ps,
        Option::None => Seq::empty(),
    };
    NodeVal { properties: Option::Some(vprops_insert(ps, k, v)), ..n }
}

/// The node to work on at a key: the present node, or a fresh empty one if
/// the slot is missing or holds a link.
pub open spec fn spec_child_node(n: NodeVal, k: Seq<char>) -> NodeVal {
    match spec_node_get(n, k) {
        Option::Some(PropVal::Node(c)) => c,
        _ => empty_node_val(),
    }
}

/// Look a key up and hand back the node to work on (a deep copy).
fn take_child(n: &MOTLYNode, key: &String) -> (r: MOTLYNode)
    ensures
        view_node(r) == spec_child_node(view_node(*n), key@),
{
    match &n.properties {
        Option::Some(ps) => match props_get(ps, key.as_str()) {
            Option::Some(pv) => match pv.as_node() {
                Option::Some(c) => clone_node(c),
                Option::None => MOTLYNode::new(),
            },
            Option::None => MOTLYNode::new(),
        },
        Option::None => MOTLYNode::new(),
    }
}

/// Insert into an owned node's property map, creating the map if absent.
fn node_insert(node: MOTLYNode, key: &String, pv: MOTLYPropertyValue) -> (r: MOTLYNode)
    ensures
        view_node(r) == spec_node_insert(view_node(node), key@, view_pv(pv)),
{
    let mut n = node;
    n.get_or_create_properties();
    match &mut n.properties {
        Option::Some(ps) => {
            props_insert(ps, key.clone(), pv);
        },
        Option::None => {
            proof {
                assert(false);
            }
        },
    }
    proof {
        assert(view_node(n) =~= spec_node_insert(view_node(node), key@, view_pv(pv)));
    }
    n
}

// ---- Reference strings ------------------------------------------------------

pub open spec fn spec_carets(u: nat) -> Seq<char>
    decreases u,
{
    if u == 0 {
        Seq::empty()
    } else {
        spec_carets((u - 1) as nat) + seq!['^']
    }
}

/// The canonical text of a reference path, `first` telling whether a dot is
/// still owed before the next name.
pub open spec fn spec_ref_segs(segs: Seq<RefPathSegment>, first: bool) -> Seq<char>
    decreases segs,
{
    if segs.len() == 0 {
        Seq::empty()
    } else {
        match segs[0] {
            RefPathSegment::Name(n) => (if first {
                Seq::<char>::empty()
            } else {
                seq!['.']
            }) + n@ + spec_ref_segs(segs.subrange(1, segs.len() as int), false),
            RefPathSegment::Index(i) => seq!['['] + spec_dec_digits(i as nat) + seq![']']
                + spec_ref_segs(segs.subrange(1, segs.len() as int), first),
        }
    }
}

/// The canonical text of a reference: `$`, carets, then the path.
pub open spec fn spec_ref_str(ups: nat, segs: Seq<RefPathSegment>) -> Seq<char> {
    seq!['$'] + spec_carets(ups) + spec_ref_segs(segs, true)
}

/// Format a reference back to its canonical text.
pub fn format_ref_string(ups: usize, path: &Vec<RefPathSegment>) -> (r: String)
    ensures
        r@ == spec_ref_str(ups as nat, path@),
{
    let mut out: Vec<char> = Vec::new();
    out.push('$');
    let mut k: usize = 0;
    while k < ups
        invariant
            k <= ups,
            out@ == seq!['$'] + spec_carets(k as nat),
        decreases ups - k,
    {
        out.push('^');
        proof {
            lemma_push_is_concat(out@.drop_last(), '^');
            assert(seq!['$'] + spec_carets(k as nat) + seq!['^'] =~= seq!['$'] + spec_carets(
                (k + 1) as nat,
            ));
        }
        k += 1;
    }
    let ghost head = out@;
    let mut first = true;
    let mut j: usize = 0;
    proof {
        assert(path@.subrange(0, path@.len() as int) =~= path@);
        lemma_cat_empty(head);
    }
    while j < path.len()
        invariant
            j <= path@.len(),
            head == seq!['$'] + spec_carets(ups as nat),
            out@ + spec_ref_segs(path@.subrange(j as int, path@.len() as int), first) == head
                + spec_ref_segs(path@, true),
        decreases path@.len() - j,
    {
        let ghost pre = out@;
        let ghost rest = path@.subrange(j as int, path@.len() as int);
        let ghost oldfirst = first;
        match &path[j] {
            RefPathSegment::Name(name) => {
                let ghost dot: Seq<char> = if first {
                    Seq::empty()
                } else {
                    seq!['.']
                };
                if !first {
                    out.push('.');
                    proof {
                        lemma_push_is_concat(pre, '.');
                    }
                } else {
                    proof {
                        lemma_cat_empty(pre);
                    }
                }
                crate::json::push_str(&mut out, name.as_str());
                first = false;
                proof {
                    let tail = spec_ref_segs(path@.subrange(j + 1, path@.len() as int), false);
                    assert(rest.subrange(1, rest.len() as int) =~= path@.subrange(
                        j + 1,
                        path@.len() as int,
                    ));
                    assert(out@ == pre + dot + name@);
                    lemma_group3(pre, dot, name@, tail);
                    assert(spec_ref_segs(rest, oldfirst) == dot + name@ + tail);
                }
            },
            RefPathSegment::Index(idx) => {
                out.push('[');
                proof {
                    lemma_push_is_concat(pre, '[');
                }
                write_u64_dec(&mut out, *idx as u64);
                out.push(']');
                proof {
                    lemma_push_is_concat(pre + seq!['['] + spec_dec_digits(*idx as nat), ']');
                    let tail = spec_ref_segs(path@.subrange(j + 1, path@.len() as int), oldfirst);
                    assert(rest.subrange(1, rest.len() as int) =~= path@.subrange(
                        j + 1,
                        path@.len() as int,
                    ));
                    assert(out@ == pre + seq!['['] + spec_dec_digits(*idx as nat) + seq![']']);
                    lemma_group4(pre, seq!['['], spec_dec_digits(*idx as nat), seq![']'], tail);
                    assert(spec_ref_segs(rest, oldfirst) == seq!['['] + spec_dec_digits(*idx as nat)
                        + seq![']'] + tail);
                }
            },
        }
        j += 1;
    }
    proof {
        assert(path@.subrange(path@.len() as int, path@.len() as int) =~= Seq::<
            RefPathSegment,
        >::empty());
        lemma_cat_empty(out@);
        assert(out@ == head + spec_ref_segs(path@, true));
        assert(head + spec_ref_segs(path@, true) =~= spec_ref_str(ups as nat, path@));
    }
    chars_to_string(&out)
}

/// The ups count encoded in a reference string: the number of `^` after a
/// leading `$` (0 if the text does not start with `$`).
pub open spec fn spec_count_carets(s: Seq<char>, i: int) -> nat
    decreases s.len() - i,
{
    if i < 0 || i >= s.len() || s[i] != '^' {
        0
    } else {
        1 + spec_count_carets(s, i + 1)
    }
}

pub open spec fn spec_ref_ups(s: Seq<char>) -> nat {
    if s.len() == 0 || s[0] != '$' {
        0
    } else {
        spec_count_carets(s, 1)
    }
}

proof fn lemma_count_carets_bound(s: Seq<char>, i: int)
    requires
        0 <= i <= s.len(),
    ensures
        spec_count_carets(s, i) <= s.len() - i,
    decreases s.len() - i,
{
    if i < s.len() && s[i] == '^' {
        lemma_count_carets_bound(s, i + 1);
    }
}

/// Extract the ups count from a link string like `$^^name`.
pub fn parse_ref_ups(link_to: &str) -> (r: usize)
    ensures
        r as nat == spec_ref_ups(link_to@),
{
    let cs = str_to_chars(link_to);
    if cs.len() == 0 || cs[0] != '$' {
        return 0;
    }
    let mut i: usize = 1;
    proof {
        lemma_count_carets_bound(cs@, 1);
    }
    while i < cs.len() && cs[i] == '^'
        invariant
            1 <= i <= cs@.len(),
            cs@ == link_to@,
            cs@.len() > 0 && cs@[0] == '$',
            forall|k: int| 1 <= k < i ==> cs@[k] == '^',
            spec_count_carets(cs@, 1) == i - 1 + spec_count_carets(cs@, i as int),
        decreases cs@.len() - i,
    {
        i += 1;
    }
    proof {
        assert(spec_count_carets(cs@, i as int) == 0);
    }
    i - 1
}

// ---- The specification of execution ----------------------------------------

/// Apply a statement list left to right; the result pairs the new tree with
/// the codes of the errors raised, in order.
pub open spec fn spec_exec_stmts(ss: Seq<Statement>, n: NodeVal) -> (NodeVal, Seq<Seq<char>>)
    decreases stmts_size(ss), 0nat, 0nat,
{
    if ss.len() == 0 {
        (n, Seq::empty())
    } else {
        let r1 = spec_exec_stmt(ss[0], n);
        let r2 = spec_exec_stmts(ss.subrange(1, ss.len() as int), r1.0);
        (r2.0, r1.1 + r2.1)
    }
}

pub open spec fn spec_exec_stmt(s: Statement, n: NodeVal) -> (NodeVal, Seq<Seq<char>>)
    decreases stmt_size(s), 0nat, 0nat,
{
    match s {
        Statement::SetEq { path, value, properties } => {
            match value {
                TagValue::Scalar(ScalarValue::Reference { ups, path: rp }) => {
                    let errs: Seq<Seq<char>> = if properties is Some {
                        seq!["ref-with-properties"@]
                    } else {
                        Seq::empty()
                    };
                    let rs = spec_ref_str(ups as nat, rp@);
                    (spec_insert_pv_at(n, path@, 0, PropVal::Ref(rs)), errs)
                },
                _ => spec_set_eq_at(n, path@, 0, value, properties),
            }
        },
        Statement::AssignBoth { path, value, properties } => {
            match value {
                TagValue::Scalar(ScalarValue::Reference { ups, path: rp }) => {
                    match spec_clone_resolve(n, path@, ups as nat, rp@) {
                        Option::Some(cl) => {
                            let s1 = spec_sanitize_node(cl, 0);
                            let after = match properties {
                                Option::Some(ps) => {
                                    let base = NodeVal {
                                        properties: Option::Some(Seq::empty()),
                                        ..s1.0
                                    };
                                    let r2 = spec_exec_stmts(ps@, base);
                                    (r2.0, s1.1 + r2.1)
                                },
                                Option::None => s1,
                            };
                            (spec_insert_pv_at(n, path@, 0, PropVal::Node(after.0)), after.1)
                        },
                        Option::None => (n, seq!["unresolved-clone-reference"@]),
                    }
                },
                _ => {
                    let f1 = spec_set_eq_slot(empty_node_val(), value);
                    let f2 = match properties {
                        Option::Some(ps) => {
                            let r2 = spec_exec_stmts(ps@, f1.0);
                            (r2.0, f1.1 + r2.1)
                        },
                        Option::None => f1,
                    };
                    (spec_insert_pv_at(n, path@, 0, PropVal::Node(f2.0)), f2.1)
                },
            }
        },
        Statement::ReplaceProperties { path, properties } => spec_replace_at(
            n,
            path@,
            0,
            properties,
        ),
        Statement::UpdateProperties { path, properties } => spec_update_at(n, path@, 0, properties),
        Statement::Define { path, deleted } => (spec_define_at(n, path@, 0, deleted), Seq::empty()),
        Statement::ClearAll => (
            NodeVal { eq: Option::None, properties: Option::Some(Seq::empty()), deleted: n.deleted },
            Seq::empty(),
        ),
    }
}

/// Descend to the parent of the last path segment (creating empty nodes,
/// turning links into empty nodes) and insert `pv` at the final key.
pub open spec fn spec_insert_pv_at(n: NodeVal, path: Seq<String>, i: int, pv: PropVal) -> NodeVal
    recommends
        0 <= i < path.len(),
    decreases 0nat, 0nat, path.len() - i,
{
    if i + 1 >= path.len() {
        spec_node_insert(n, path[i]@, pv)
    } else {
        let child = spec_child_node(n, path[i]@);
        let child2 = spec_insert_pv_at(child, path, i + 1, pv);
        spec_node_insert(n, path[i]@, PropVal::Node(child2))
    }
}

/// `name` / `-name`: get-or-create an empty node, or insert a tombstone.
pub open spec fn spec_define_at(n: NodeVal, path: Seq<String>, i: int, deleted: bool) -> NodeVal
    recommends
        0 <= i < path.len(),
    decreases 0nat, 1nat, path.len() - i,
{
    if i + 1 >= path.len() {
        let ps = match n.properties {
            Option::Some(ps) => ps,
            Option::None => Seq::empty(),
        };
        if deleted {
            let tomb = NodeVal { eq: Option::None, properties: Option::None, deleted: true };
            NodeVal { properties: Option::Some(vprops_insert(ps, path[i]@, PropVal::Node(tomb))), ..n }
        } else if vprops_find(ps, path[i]@) >= 0 {
            NodeVal { properties: Option::Some(ps), ..n }
        } else {
            NodeVal {
                properties: Option::Some(
                    vprops_insert(ps, path[i]@, PropVal::Node(empty_node_val())),
                ),
                ..n
            }
        }
    } else {
        let child = spec_child_node(n, path[i]@);
        let child2 = spec_define_at(child, path, i + 1, deleted);
        spec_node_insert(n, path[i]@, PropVal::Node(child2))
    }
}

/// `name = value`: set the value slot at the final key, preserving the
/// node's properties; merge the optional block into it.
pub open spec fn spec_set_eq_at(
    n: NodeVal,
    path: Seq<String>,
    i: int,
    value: TagValue,
    props: Option<Vec<Statement>>,
) -> (NodeVal, Seq<Seq<char>>)
    recommends
        0 <= i < path.len(),
    decreases value_size(value) + opt_stmts_size(props), 1nat, path.len() - i,
{
    if i + 1 >= path.len() {
        let target = spec_child_node(n, path[i]@);
        let r1 = spec_set_eq_slot(target, value);
        let r2 = match props {
            Option::Some(ps) => {
                let q = spec_exec_stmts(ps@, r1.0);
                (q.0, r1.1 + q.1)
            },
            Option::None => r1,
        };
        (spec_node_insert(n, path[i]@, PropVal::Node(r2.0)), r2.1)
    } else {
        let child = spec_child_node(n, path[i]@);
        let r = spec_set_eq_at(child, path, i + 1, value, props);
        (spec_node_insert(n, path[i]@, PropVal::Node(r.0)), r.1)
    }
}

/// `name { ... }`: merge the block into the node at the final key.
pub open spec fn spec_update_at(
    n: NodeVal,
    path: Seq<String>,
    i: int,
    props: Vec<Statement>,
) -> (NodeVal, Seq<Seq<char>>)
    recommends
        0 <= i < path.len(),
    decreases stmts_size(props@), 1nat, path.len() - i,
{
    if i + 1 >= path.len() {
        let target = spec_child_node(n, path[i]@);
        let r = spec_exec_stmts(props@, target);
        (spec_node_insert(n, path[i]@, PropVal::Node(r.0)), r.1)
    } else {
        let child = spec_child_node(n, path[i]@);
        let r = spec_update_at(child, path, i + 1, props);
        (spec_node_insert(n, path[i]@, PropVal::Node(r.0)), r.1)
    }
}

/// `name: { ... }`: keep the existing value slot, rebuild the properties
/// from the block alone.
pub open spec fn spec_replace_at(
    n: NodeVal,
    path: Seq<String>,
    i: int,
    props: Vec<Statement>,
) -> (NodeVal, Seq<Seq<char>>)
    recommends
        0 <= i < path.len(),
    decreases stmts_size(props@), 1nat, path.len() - i,
{
    if i + 1 >= path.len() {
        let kept_eq = match spec_node_get(n, path[i]@) {
            Option::Some(PropVal::Node(c)) => c.eq,
            _ => Option::None,
        };
        let fresh = NodeVal { eq: kept_eq, properties: Option::None, deleted: false };
        let r = spec_exec_stmts(props@, fresh);
        (spec_node_insert(n, path[i]@, PropVal::Node(r.0)), r.1)
    } else {
        let child = spec_child_node(n, path[i]@);
        let r = spec_replace_at(child, path, i + 1, props);
        (spec_node_insert(n, path[i]@, PropVal::Node(r.0)), r.1)
    }
}

/// Set the value slot of a node from a literal (never a reference).
pub open spec fn spec_set_eq_slot(n: NodeVal, value: TagValue) -> (NodeVal, Seq<Seq<char>>)
    decreases value_size(value), 0nat, 0nat,
{
    match value {
        TagValue::Array(es) => {
            let r = spec_resolve_array(es@);
            (NodeVal { eq: Option::Some(EqVal::Array(r.0)), ..n }, r.1)
        },
        TagValue::Scalar(sv) => match sv {
            ScalarValue::String(s) => (
                NodeVal { eq: Option::Some(EqVal::Scalar(ScalarVal::Str(s@))), ..n },
                Seq::empty(),
            ),
            ScalarValue::Number(num) => (
                NodeVal { eq: Option::Some(EqVal::Scalar(ScalarVal::Num(view_number(num)))), ..n },
                Seq::empty(),
            ),
            ScalarValue::Boolean(b) => (
                NodeVal { eq: Option::Some(EqVal::Scalar(ScalarVal::Bool(b))), ..n },
                Seq::empty(),
            ),
            ScalarValue::Date(d) => (
                NodeVal { eq: Option::Some(EqVal::Scalar(ScalarVal::Date(d@))), ..n },
                Seq::empty(),
            ),
            ScalarValue::Env { name } => (
                NodeVal { eq: Option::Some(EqVal::EnvRef(name@)), ..n },
                Seq::empty(),
            ),
            ScalarValue::NoValue => (NodeVal { eq: Option::None, ..n }, Seq::empty()),
            ScalarValue::Reference { .. } => (n, Seq::empty()),
        },
    }
}

/// Resolve the elements of an array literal.
pub open spec fn spec_resolve_array(es: Seq<ArrayElement>) -> (Seq<PropVal>, Seq<Seq<char>>)
    decreases elems_size(es), 1nat, 0nat,
{
    if es.len() == 0 {
        (Seq::empty(), Seq::empty())
    } else {
        let r1 = spec_resolve_elem(es[0]);
        let r2 = spec_resolve_array(es.subrange(1, es.len() as int));
        (seq![r1.0] + r2.0, r1.1 + r2.1)
    }
}

/// Resolve one array element: a reference becomes a link, anything else a
/// node built from the value and the optional block.
pub open spec fn spec_resolve_elem(e: ArrayElement) -> (PropVal, Seq<Seq<char>>)
    decreases elem_size(e), 1nat, 0nat,
{
    match e.value {
        Option::Some(TagValue::Scalar(ScalarValue::Reference { ups, path: rp })) => {
            let errs: Seq<Seq<char>> = if e.properties is Some {
                seq!["ref-with-properties"@]
            } else {
                Seq::empty()
            };
            (PropVal::Ref(spec_ref_str(ups as nat, rp@)), errs)
        },
        _ => {
            let r1 = match e.value {
                Option::Some(v) => spec_set_eq_slot(empty_node_val(), v),
                Option::None => (empty_node_val(), Seq::<Seq<char>>::empty()),
            };
            let r2 = match e.properties {
                Option::Some(ps) => spec_exec_stmts(ps@, r1.0),
                Option::None => (r1.0, Seq::<Seq<char>>::empty()),
            };
            (PropVal::Node(r2.0), r1.1 + r2.1)
        },
    }
}

// ---- The specification of clone resolution ---------------------------------

/// Walk the first `end` names of a statement path from the root; any link or
/// missing name makes the context unresolved.
pub open spec fn spec_descend_names(n: NodeVal, names: Seq<String>, i: int, end: int) -> Option<
    NodeVal,
>
    decreases end - i,
{
    if i >= end {
        Option::Some(n)
    } else if i < 0 || end > names.len() {
        Option::None
    } else {
        match spec_node_get(n, names[i]@) {
            Option::Some(PropVal::Node(c)) => spec_descend_names(c, names, i + 1, end),
            _ => Option::None,
        }
    }
}

/// Follow the parsed segments of a reference; links anywhere make the
/// target unresolvable for cloning.
pub open spec fn spec_follow_segs(n: NodeVal, segs: Seq<RefPathSegment>, i: int) -> Option<NodeVal>
    decreases segs.len() - i,
{
    if i < 0 || i >= segs.len() {
        Option::Some(n)
    } else {
        match segs[i] {
            RefPathSegment::Name(nm) => match spec_node_get(n, nm@) {
                Option::Some(PropVal::Node(c)) => spec_follow_segs(c, segs, i + 1),
                _ => Option::None,
            },
            RefPathSegment::Index(ix) => match n.eq {
                Option::Some(EqVal::Array(a)) => if ix < a.len() {
                    match a[ix as int] {
                        PropVal::Node(c) => spec_follow_segs(c, segs, i + 1),
                        PropVal::Ref(_) => Option::None,
                    }
                } else {
                    Option::None
                },
                _ => Option::None,
            },
        }
    }
}

/// Resolve a clone reference: from the root for an absolute reference, else
/// from the ancestor `ups` levels above the write target.
pub open spec fn spec_clone_resolve(
    root: NodeVal,
    stmt_path: Seq<String>,
    ups: nat,
    segs: Seq<RefPathSegment>,
) -> Option<NodeVal> {
    if ups == 0 {
        spec_follow_segs(root, segs, 0)
    } else if ups + 1 > stmt_path.len() {
        Option::None
    } else {
        match spec_descend_names(root, stmt_path, 0, stmt_path.len() - 1 - ups) {
            Option::Some(s) => spec_follow_segs(s, segs, 0),
            Option::None => Option::None,
        }
    }
}

// ---- The specification of clone sanitization --------------------------------

/// Depth one deeper, saturating at the machine limit exactly as the
/// executable counter does.
pub open spec fn sat_inc(d: nat) -> nat {
    if d < usize::MAX as nat {
        d + 1
    } else {
        d
    }
}

/// A cloned link at depth `d` escapes when it goes up more levels than the
/// clone is deep; such links are replaced by empty nodes.
pub open spec fn spec_sanitize_pv(pv: PropVal, d: nat) -> (PropVal, Seq<Seq<char>>)
    decreases pv, 1nat,
{
    match pv {
        PropVal::Ref(link) => {
            let u = spec_ref_ups(link);
            if u > 0 && u > d {
                (PropVal::Node(empty_node_val()), seq!["clone-reference-out-of-scope"@])
            } else {
                (PropVal::Ref(link), Seq::empty())
            }
        },
        PropVal::Node(n) => {
            let r = spec_sanitize_node(n, d);
            (PropVal::Node(r.0), r.1)
        },
    }
}

pub open spec fn spec_sanitize_pvs(a: Seq<PropVal>, d: nat) -> (Seq<PropVal>, Seq<Seq<char>>)
    decreases a, 0nat,
{
    if a.len() == 0 {
        (Seq::empty(), Seq::empty())
    } else {
        let r1 = spec_sanitize_pv(a[0], d);
        let r2 = spec_sanitize_pvs(a.subrange(1, a.len() as int), d);
        (seq![r1.0] + r2.0, r1.1 + r2.1)
    }
}

pub open spec fn spec_sanitize_entries(ps: Seq<(Seq<char>, PropVal)>, d: nat) -> (
    Seq<(Seq<char>, PropVal)>,
    Seq<Seq<char>>,
)
    decreases ps, 0nat,
{
    if ps.len() == 0 {
        (Seq::empty(), Seq::empty())
    } else {
        let r1 = spec_sanitize_pv(ps[0].1, d);
        let r2 = spec_sanitize_entries(ps.subrange(1, ps.len() as int), d);
        (seq![(ps[0].0, r1.0)] + r2.0, r1.1 + r2.1)
    }
}

/// Sanitize a node at depth `d`: its array elements and property children
/// live at depth `d + 1`.
pub open spec fn spec_sanitize_node(n: NodeVal, d: nat) -> (NodeVal, Seq<Seq<char>>)
    decreases n, 2nat,
{
    let d1 = sat_inc(d);
    let eqr: (Option<EqVal>, Seq<Seq<char>>) = match n.eq {
        Option::Some(EqVal::Array(a)) => {
            let r = spec_sanitize_pvs(a, d1);
            (Option::Some(EqVal::Array(r.0)), r.1)
        },
        other => (other, Seq::empty()),
    };
    let psr: (Option<Seq<(Seq<char>, PropVal)>>, Seq<Seq<char>>) = match n.properties {
        Option::Some(ps) => {
            let r = spec_sanitize_entries(ps, d1);
            (Option::Some(r.0), r.1)
        },
        Option::None => (Option::None, Seq::empty()),
    };
    (NodeVal { eq: eqr.0, properties: psr.0, deleted: n.deleted }, eqr.1 + psr.1)
}

// ---- Laws of execution --------------------------------------------------------

/// Interpreter determinism: executing statement list `a`, then `b`, on any
/// tree gives exactly the tree and the errors of executing their
/// concatenation.
pub proof fn lemma_exec_stmts_concat(a: Seq<Statement>, b: Seq<Statement>, n: NodeVal)
    ensures
        spec_exec_stmts(a + b, n).0 == spec_exec_stmts(b, spec_exec_stmts(a, n).0).0,
        spec_exec_stmts(a + b, n).1 == spec_exec_stmts(a, n).1 + spec_exec_stmts(
            b,
            spec_exec_stmts(a, n).0,
        ).1,
    decreases a.len(),
{
    if a.len() == 0 {
        assert(a + b =~= b);
        assert(spec_exec_stmts(a, n) == (n, Seq::<Seq<char>>::empty()));
        lemma_cat_empty(spec_exec_stmts(b, n).1);
    } else {
        let r1 = spec_exec_stmt(a[0], n);
        let atail = a.subrange(1, a.len() as int);
        lemma_exec_stmts_concat(atail, b, r1.0);
        assert((a + b)[0] == a[0]);
        assert((a + b).subrange(1, (a + b).len() as int) =~= atail + b);
        let r2 = spec_exec_stmts(atail, r1.0);
        let r3 = spec_exec_stmts(b, r2.0);
        lemma_group2(r1.1, r2.1, r3.1);
    }
}

/// Whether every link in a node sits within the clone boundary: a link at
/// depth `d` may go up at most `d` levels.
pub open spec fn links_within_node(n: NodeVal, d: nat) -> bool
    decreases n, 2nat,
{
    (match n.eq {
        Option::Some(EqVal::Array(a)) => links_within_pvs(a, sat_inc(d)),
        _ => true,
    }) && (match n.properties {
        Option::Some(ps) => links_within_entries(ps, sat_inc(d)),
        Option::None => true,
    })
}

pub open spec fn links_within_pvs(a: Seq<PropVal>, d: nat) -> bool
    decreases a, 0nat,
{
    if a.len() == 0 {
        true
    } else {
        links_within_pv(a[0], d) && links_within_pvs(a.subrange(1, a.len() as int), d)
    }
}

pub open spec fn links_within_entries(ps: Seq<(Seq<char>, PropVal)>, d: nat) -> bool
    decreases ps, 0nat,
{
    if ps.len() == 0 {
        true
    } else {
        links_within_pv(ps[0].1, d) && links_within_entries(ps.subrange(1, ps.len() as int), d)
    }
}

pub open spec fn links_within_pv(pv: PropVal, d: nat) -> bool
    decreases pv, 1nat,
{
    match pv {
        PropVal::Ref(l) => spec_ref_ups(l) <= d,
        PropVal::Node(n) => links_within_node(n, d),
    }
}

/// The clone boundary law: after sanitization at depth `d`, every link that
/// remains goes up no further than its own depth within the clone.
pub proof fn lemma_sanitize_within_node(n: NodeVal, d: nat)
    ensures
        links_within_node(spec_sanitize_node(n, d).0, d),
    decreases n, 2nat,
{
    let d1 = sat_inc(d);
    match n.eq {
        Option::Some(EqVal::Array(a)) => {
            lemma_sanitize_within_pvs(a, d1);
        },
        _ => {},
    }
    match n.properties {
        Option::Some(ps) => {
            lemma_sanitize_within_entries(ps, d1);
        },
        Option::None => {},
    }
}

pub proof fn lemma_sanitize_within_pvs(a: Seq<PropVal>, d: nat)
    ensures
        links_within_pvs(spec_sanitize_pvs(a, d).0, d),
    decreases a, 0nat,
{
    if a.len() > 0 {
        lemma_sanitize_within_pv(a[0], d);
        lemma_sanitize_within_pvs(a.subrange(1, a.len() as int), d);
        let r = spec_sanitize_pvs(a, d);
        assert(r.0.subrange(1, r.0.len() as int) =~= spec_sanitize_pvs(
            a.subrange(1, a.len() as int),
            d,
        ).0);
    }
}

pub proof fn lemma_sanitize_within_entries(ps: Seq<(Seq<char>, PropVal)>, d: nat)
    ensures
        links_within_entries(spec_sanitize_entries(ps, d).0, d),
    decreases ps, 0nat,
{
    if ps.len() > 0 {
        lemma_sanitize_within_pv(ps[0].1, d);
        lemma_sanitize_within_entries(ps.subrange(1, ps.len() as int), d);
        let r = spec_sanitize_entries(ps, d);
        assert(r.0.subrange(1, r.0.len() as int) =~= spec_sanitize_entries(
            ps.subrange(1, ps.len() as int),
            d,
        ).0);
    }
}

pub proof fn lemma_sanitize_within_pv(pv: PropVal, d: nat)
    ensures
        links_within_pv(spec_sanitize_pv(pv, d).0, d),
    decreases pv, 1nat,
{
    match pv {
        PropVal::Ref(_) => {},
        PropVal::Node(n) => {
            lemma_sanitize_within_node(n, d);
        },
    }
}

// ---- Execution preserves well-formedness ---------------------------------------

proof fn lemma_wf_entries_get(ps: Seq<(Seq<char>, PropVal)>, k: Seq<char>)
    requires
        crate::tree::ventries_wf(ps),
    ensures
        match vprops_get(ps, k) {
            Option::Some(v) => crate::tree::vpv_wf(v),
            Option::None => true,
        },
{
    crate::tree::lemma_ventries_wf_index(ps);
    crate::tree::lemma_vprops_find_properties(ps, k, 0);
}

/// A property looked up in a well-formed node is well-formed.
pub proof fn lemma_wf_node_get(n: NodeVal, k: Seq<char>)
    requires
        crate::tree::vnode_wf(n),
    ensures
        match spec_node_get(n, k) {
            Option::Some(v) => crate::tree::vpv_wf(v),
            Option::None => true,
        },
{
    match n.properties {
        Option::Some(ps) => {
            lemma_wf_entries_get(ps, k);
        },
        Option::None => {},
    }
}

proof fn lemma_wf_child_node(n: NodeVal, k: Seq<char>)
    requires
        crate::tree::vnode_wf(n),
    ensures
        crate::tree::vnode_wf(spec_child_node(n, k)),
{
    lemma_wf_node_get(n, k);
}

proof fn lemma_wf_node_insert(n: NodeVal, k: Seq<char>, v: PropVal)
    requires
        crate::tree::vnode_wf(n),
        crate::tree::vpv_wf(v),
    ensures
        crate::tree::vnode_wf(spec_node_insert(n, k, v)),
{
    let ps = match n.properties {
        Option::Some(ps) => ps,
        Option::None => Seq::empty(),
    };
    crate::tree::lemma_vprops_insert_sorted(ps, k, v);
    crate::tree::lemma_vprops_insert_wf(ps, k, v);
}

proof fn lemma_wf_insert_pv_at(n: NodeVal, path: Seq<String>, i: int, pv: PropVal)
    requires
        0 <= i < path.len(),
        crate::tree::vnode_wf(n),
        crate::tree::vpv_wf(pv),
    ensures
        crate::tree::vnode_wf(spec_insert_pv_at(n, path, i, pv)),
    decreases path.len() - i,
{
    if i + 1 >= path.len() {
        lemma_wf_node_insert(n, path[i]@, pv);
    } else {
        lemma_wf_child_node(n, path[i]@);
        lemma_wf_insert_pv_at(spec_child_node(n, path[i]@), path, i + 1, pv);
        lemma_wf_node_insert(
            n,
            path[i]@,
            PropVal::Node(spec_insert_pv_at(spec_child_node(n, path[i]@), path, i + 1, pv)),
        );
    }
}

proof fn lemma_wf_define_at(n: NodeVal, path: Seq<String>, i: int, deleted: bool)
    requires
        0 <= i < path.len(),
        crate::tree::vnode_wf(n),
    ensures
        crate::tree::vnode_wf(spec_define_at(n, path, i, deleted)),
    decreases path.len() - i,
{
    if i + 1 >= path.len() {
        let ps = match n.properties {
            Option::Some(ps) => ps,
            Option::None => Seq::empty(),
        };
        if deleted {
            let tomb = NodeVal { eq: Option::None, properties: Option::None, deleted: true };
            crate::tree::lemma_vprops_insert_sorted(ps, path[i]@, PropVal::Node(tomb));
            crate::tree::lemma_vprops_insert_wf(ps, path[i]@, PropVal::Node(tomb));
        } else if vprops_find(ps, path[i]@) >= 0 {
        } else {
            crate::tree::lemma_vprops_insert_sorted(ps, path[i]@, PropVal::Node(empty_node_val()));
            crate::tree::lemma_vprops_insert_wf(ps, path[i]@, PropVal::Node(empty_node_val()));
        }
    } else {
        lemma_wf_child_node(n, path[i]@);
        lemma_wf_define_at(spec_child_node(n, path[i]@), path, i + 1, deleted);
        lemma_wf_node_insert(
            n,
            path[i]@,
            PropVal::Node(spec_define_at(spec_child_node(n, path[i]@), path, i + 1, deleted)),
        );
    }
}

proof fn lemma_wf_set_eq_slot(n: NodeVal, value: TagValue)
    requires
        crate::tree::vnode_wf(n),
        value_wf(value),
        !is_ref_value(value),
    ensures
        crate::tree::vnode_wf(spec_set_eq_slot(n, value).0),
    decreases value_size(value), 0nat, 0nat,
{
    match value {
        TagValue::Array(es) => {
            lemma_wf_resolve_array(es@);
        },
        TagValue::Scalar(_) => {},
    }
}

proof fn lemma_wf_resolve_array(es: Seq<ArrayElement>)
    requires
        elems_wf(es),
    ensures
        crate::tree::vpvs_wf(spec_resolve_array(es).0),
    decreases elems_size(es), 1nat, 0nat,
{
    if es.len() > 0 {
        lemma_wf_resolve_elem(es[0]);
        lemma_wf_resolve_array(es.subrange(1, es.len() as int));
        let r = spec_resolve_array(es);
        assert(r.0.subrange(1, r.0.len() as int) =~= spec_resolve_array(
            es.subrange(1, es.len() as int),
        ).0);
    }
}

proof fn lemma_wf_resolve_elem(e: ArrayElement)
    requires
        elem_wf(e),
    ensures
        crate::tree::vpv_wf(spec_resolve_elem(e).0),
    decreases elem_size(e), 1nat, 0nat,
{
    match e.value {
        Option::Some(TagValue::Scalar(ScalarValue::Reference { .. })) => {},
        _ => {
            let r1 = match e.value {
                Option::Some(v) => spec_set_eq_slot(empty_node_val(), v),
                Option::None => (empty_node_val(), Seq::<Seq<char>>::empty()),
            };
            match e.value {
                Option::Some(v) => {
                    lemma_wf_set_eq_slot(empty_node_val(), v);
                },
                Option::None => {},
            }
            match e.properties {
                Option::Some(ps) => {
                    lemma_wf_exec_stmts(ps@, r1.0);
                },
                Option::None => {},
            }
        },
    }
}

proof fn lemma_wf_set_eq_at(
    n: NodeVal,
    path: Seq<String>,
    i: int,
    value: TagValue,
    props: Option<Vec<Statement>>,
)
    requires
        0 <= i < path.len(),
        crate::tree::vnode_wf(n),
        value_wf(value),
        !is_ref_value(value),
        opt_stmts_wf(props),
    ensures
        crate::tree::vnode_wf(spec_set_eq_at(n, path, i, value, props).0),
    decreases value_size(value) + opt_stmts_size(props), 1nat, path.len() - i,
{
    if i + 1 >= path.len() {
        let target = spec_child_node(n, path[i]@);
        lemma_wf_child_node(n, path[i]@);
        lemma_wf_set_eq_slot(target, value);
        let r1 = spec_set_eq_slot(target, value);
        let r2 = match props {
            Option::Some(ps) => {
                lemma_wf_exec_stmts(ps@, r1.0);
                spec_exec_stmts(ps@, r1.0)
            },
            Option::None => r1,
        };
        lemma_wf_node_insert(n, path[i]@, PropVal::Node(r2.0));
    } else {
        lemma_wf_child_node(n, path[i]@);
        lemma_wf_set_eq_at(spec_child_node(n, path[i]@), path, i + 1, value, props);
        lemma_wf_node_insert(
            n,
            path[i]@,
            PropVal::Node(spec_set_eq_at(spec_child_node(n, path[i]@), path, i + 1, value, props).0),
        );
    }
}

proof fn lemma_wf_update_at(n: NodeVal, path: Seq<String>, i: int, props: Vec<Statement>)
    requires
        0 <= i < path.len(),
        crate::tree::vnode_wf(n),
        stmts_wf(props@),
    ensures
        crate::tree::vnode_wf(spec_update_at(n, path, i, props).0),
    decreases stmts_size(props@), 1nat, path.len() - i,
{
    if i + 1 >= path.len() {
        lemma_wf_child_node(n, path[i]@);
        lemma_wf_exec_stmts(props@, spec_child_node(n, path[i]@));
        lemma_wf_node_insert(
            n,
            path[i]@,
            PropVal::Node(spec_exec_stmts(props@, spec_child_node(n, path[i]@)).0),
        );
    } else {
        lemma_wf_child_node(n, path[i]@);
        lemma_wf_update_at(spec_child_node(n, path[i]@), path, i + 1, props);
        lemma_wf_node_insert(
            n,
            path[i]@,
            PropVal::Node(spec_update_at(spec_child_node(n, path[i]@), path, i + 1, props).0),
        );
    }
}

proof fn lemma_wf_replace_at(n: NodeVal, path: Seq<String>, i: int, props: Vec<Statement>)
    requires
        0 <= i < path.len(),
        crate::tree::vnode_wf(n),
        stmts_wf(props@),
    ensures
        crate::tree::vnode_wf(spec_replace_at(n, path, i, props).0),
    decreases stmts_size(props@), 1nat, path.len() - i,
{
    if i + 1 >= path.len() {
        let kept_eq = match spec_node_get(n, path[i]@) {
            Option::Some(PropVal::Node(c)) => c.eq,
            _ => Option::None,
        };
        lemma_wf_node_get(n, path[i]@);
        let fresh = NodeVal { eq: kept_eq, properties: Option::None, deleted: false };
        assert(crate::tree::vnode_wf(fresh));
        lemma_wf_exec_stmts(props@, fresh);
        lemma_wf_node_insert(n, path[i]@, PropVal::Node(spec_exec_stmts(props@, fresh).0));
    } else {
        lemma_wf_child_node(n, path[i]@);
        lemma_wf_replace_at(spec_child_node(n, path[i]@), path, i + 1, props);
        lemma_wf_node_insert(
            n,
            path[i]@,
            PropVal::Node(spec_replace_at(spec_child_node(n, path[i]@), path, i + 1, props).0),
        );
    }
}

proof fn lemma_wf_descend_names(n: NodeVal, names: Seq<String>, i: int, end: int)
    requires
        crate::tree::vnode_wf(n),
    ensures
        match spec_descend_names(n, names, i, end) {
            Option::Some(c) => crate::tree::vnode_wf(c),
            Option::None => true,
        },
    decreases end - i,
{
    if i < end && 0 <= i && end <= names.len() {
        lemma_wf_node_get(n, names[i]@);
        match spec_node_get(n, names[i]@) {
            Option::Some(PropVal::Node(c)) => {
                lemma_wf_descend_names(c, names, i + 1, end);
            },
            _ => {},
        }
    }
}

proof fn lemma_wf_follow_segs(n: NodeVal, segs: Seq<RefPathSegment>, i: int)
    requires
        crate::tree::vnode_wf(n),
    ensures
        match spec_follow_segs(n, segs, i) {
            Option::Some(c) => crate::tree::vnode_wf(c),
            Option::None => true,
        },
    decreases segs.len() - i,
{
    if 0 <= i && i < segs.len() {
        match segs[i] {
            RefPathSegment::Name(nm) => {
                lemma_wf_node_get(n, nm@);
                match spec_node_get(n, nm@) {
                    Option::Some(PropVal::Node(c)) => {
                        lemma_wf_follow_segs(c, segs, i + 1);
                    },
                    _ => {},
                }
            },
            RefPathSegment::Index(ix) => {
                match n.eq {
                    Option::Some(EqVal::Array(a)) => {
                        if ix < a.len() {
                            crate::tree::lemma_vpvs_wf_index(a);
                            match a[ix as int] {
                                PropVal::Node(c) => {
                                    lemma_wf_follow_segs(c, segs, i + 1);
                                },
                                PropVal::Ref(_) => {},
                            }
                        }
                    },
                    _ => {},
                }
            },
        }
    }
}

proof fn lemma_wf_clone_resolve(
    root: NodeVal,
    stmt_path: Seq<String>,
    ups: nat,
    segs: Seq<RefPathSegment>,
)
    requires
        crate::tree::vnode_wf(root),
    ensures
        match spec_clone_resolve(root, stmt_path, ups, segs) {
            Option::Some(c) => crate::tree::vnode_wf(c),
            Option::None => true,
        },
{
    if ups == 0 {
        lemma_wf_follow_segs(root, segs, 0);
    } else if ups + 1 <= stmt_path.len() {
        lemma_wf_descend_names(root, stmt_path, 0, stmt_path.len() - 1 - ups);
        match spec_descend_names(root, stmt_path, 0, stmt_path.len() - 1 - ups) {
            Option::Some(s) => {
                lemma_wf_follow_segs(s, segs, 0);
            },
            Option::None => {},
        }
    }
}

proof fn lemma_sanitize_entries_names(ps: Seq<(Seq<char>, PropVal)>, d: nat)
    ensures
        spec_sanitize_entries(ps, d).0.len() == ps.len(),
        forall|j: int|
            0 <= j < ps.len() ==> #[trigger] spec_sanitize_entries(ps, d).0[j].0 == ps[j].0,
    decreases ps,
{
    if ps.len() > 0 {
        lemma_sanitize_entries_names(ps.subrange(1, ps.len() as int), d);
        let r = spec_sanitize_entries(ps, d);
        assert(r.0.subrange(1, r.0.len() as int) =~= spec_sanitize_entries(
            ps.subrange(1, ps.len() as int),
            d,
        ).0);
        assert forall|j: int| 0 <= j < ps.len() implies #[trigger] r.0[j].0 == ps[j].0 by {
            if j > 0 {
                assert(r.0[j] == spec_sanitize_entries(ps.subrange(1, ps.len() as int), d).0[j - 1]);
                assert(ps.subrange(1, ps.len() as int)[j - 1] == ps[j]);
            }
        }
    }
}

proof fn lemma_wf_sanitize_node(n: NodeVal, d: nat)
    requires
        crate::tree::vnode_wf(n),
    ensures
        crate::tree::vnode_wf(spec_sanitize_node(n, d).0),
    decreases n, 2nat,
{
    let d1 = sat_inc(d);
    match n.eq {
        Option::Some(EqVal::Array(a)) => {
            lemma_wf_sanitize_pvs(a, d1);
        },
        _ => {},
    }
    match n.properties {
        Option::Some(ps) => {
            lemma_wf_sanitize_entries(ps, d1);
            lemma_sanitize_entries_names(ps, d1);
            let r = spec_sanitize_entries(ps, d1);
            assert forall|i: int, j: int| 0 <= i < j < r.0.len() implies crate::text::seq_lt(
                #[trigger] r.0[i].0,
                #[trigger] r.0[j].0,
            ) by {
                assert(r.0[i].0 == ps[i].0 && r.0[j].0 == ps[j].0);
            }
        },
        Option::None => {},
    }
}

proof fn lemma_wf_sanitize_pvs(a: Seq<PropVal>, d: nat)
    requires
        crate::tree::vpvs_wf(a),
    ensures
        crate::tree::vpvs_wf(spec_sanitize_pvs(a, d).0),
    decreases a, 0nat,
{
    if a.len() > 0 {
        lemma_wf_sanitize_pv(a[0], d);
        lemma_wf_sanitize_pvs(a.subrange(1, a.len() as int), d);
        let r = spec_sanitize_pvs(a, d);
        assert(r.0.subrange(1, r.0.len() as int) =~= spec_sanitize_pvs(
            a.subrange(1, a.len() as int),
            d,
        ).0);
    }
}

proof fn lemma_wf_sanitize_entries(ps: Seq<(Seq<char>, PropVal)>, d: nat)
    requires
        crate::tree::ventries_wf(ps),
    ensures
        crate::tree::ventries_wf(spec_sanitize_entries(ps, d).0),
    decreases ps, 0nat,
{
    if ps.len() > 0 {
        lemma_wf_sanitize_pv(ps[0].1, d);
        lemma_wf_sanitize_entries(ps.subrange(1, ps.len() as int), d);
        let r = spec_sanitize_entries(ps, d);
        assert(r.0.subrange(1, r.0.len() as int) =~= spec_sanitize_entries(
            ps.subrange(1, ps.len() as int),
            d,
        ).0);
    }
}

proof fn lemma_wf_sanitize_pv(pv: PropVal, d: nat)
    requires
        crate::tree::vpv_wf(pv),
    ensures
        crate::tree::vpv_wf(spec_sanitize_pv(pv, d).0),
    decreases pv, 1nat,
{
    match pv {
        PropVal::Ref(_) => {},
        PropVal::Node(n) => {
            lemma_wf_sanitize_node(n, d);
        },
    }
}

proof fn lemma_wf_exec_stmt(s: Statement, n: NodeVal)
    requires
        stmt_wf(s),
        crate::tree::vnode_wf(n),
    ensures
        crate::tree::vnode_wf(spec_exec_stmt(s, n).0),
    decreases stmt_size(s), 0nat, 0nat,
{
    match s {
        Statement::SetEq { path, value, properties } => {
            match value {
                TagValue::Scalar(ScalarValue::Reference { ups, path: rp }) => {
                    lemma_wf_insert_pv_at(
                        n,
                        path@,
                        0,
                        PropVal::Ref(spec_ref_str(ups as nat, rp@)),
                    );
                },
                _ => {
                    lemma_wf_set_eq_at(n, path@, 0, value, properties);
                },
            }
        },
        Statement::AssignBoth { path, value, properties } => {
            match value {
                TagValue::Scalar(ScalarValue::Reference { ups, path: rp }) => {
                    lemma_wf_clone_resolve(n, path@, ups as nat, rp@);
                    match spec_clone_resolve(n, path@, ups as nat, rp@) {
                        Option::Some(cl) => {
                            lemma_wf_sanitize_node(cl, 0);
                            let s1 = spec_sanitize_node(cl, 0);
                            let after = match properties {
                                Option::Some(ps) => {
                                    let base = NodeVal {
                                        properties: Option::Some(Seq::empty()),
                                        ..s1.0
                                    };
                                    assert(crate::tree::vnode_wf(base));
                                    lemma_wf_exec_stmts(ps@, base);
                                    spec_exec_stmts(ps@, base)
                                },
                                Option::None => s1,
                            };
                            lemma_wf_insert_pv_at(n, path@, 0, PropVal::Node(after.0));
                        },
                        Option::None => {},
                    }
                },
                _ => {
                    lemma_wf_set_eq_slot(empty_node_val(), value);
                    let f1 = spec_set_eq_slot(empty_node_val(), value);
                    let f2 = match properties {
                        Option::Some(ps) => {
                            lemma_wf_exec_stmts(ps@, f1.0);
                            spec_exec_stmts(ps@, f1.0)
                        },
                        Option::None => f1,
                    };
                    lemma_wf_insert_pv_at(n, path@, 0, PropVal::Node(f2.0));
                },
            }
        },
        Statement::ReplaceProperties { path, properties } => {
            lemma_wf_replace_at(n, path@, 0, properties);
        },
        Statement::UpdateProperties { path, properties } => {
            lemma_wf_update_at(n, path@, 0, properties);
        },
        Statement::Define { path, deleted } => {
            lemma_wf_define_at(n, path@, 0, deleted);
        },
        Statement::ClearAll => {},
    }
}

/// Execution preserves well-formedness: on a tree with sorted property
/// maps and in-range numbers, a well-formed statement list always yields
/// such a tree again.
pub proof fn lemma_wf_exec_stmts(ss: Seq<Statement>, n: NodeVal)
    requires
        stmts_wf(ss),
        crate::tree::vnode_wf(n),
    ensures
        crate::tree::vnode_wf(spec_exec_stmts(ss, n).0),
    decreases stmts_size(ss), 0nat, 0nat,
{
    if ss.len() > 0 {
        lemma_wf_exec_stmt(ss[0], n);
        lemma_wf_exec_stmts(ss.subrange(1, ss.len() as int), spec_exec_stmt(ss[0], n).0);
    }
}

// ---- Executable interpreter -------------------------------------------------

/// Whether a value is a reference (which the value-slot setter never takes).
pub open spec fn is_ref_value(v: TagValue) -> bool {
    v matches TagValue::Scalar(ScalarValue::Reference { .. })
}

/// Concatenation helper for error messages.
fn concat3(a: &str, b: &str, c: &str) -> String {
    let mut out: Vec<char> = Vec::new();
    crate::json::push_str(&mut out, a);
    crate::json::push_str(&mut out, b);
    crate::json::push_str(&mut out, c);
    chars_to_string(&out)
}

/// Concatenation helper for error messages.
fn concat5(a: &str, b: &str, c: &str, d: &str, e: &str) -> String {
    let mut out: Vec<char> = Vec::new();
    crate::json::push_str(&mut out, a);
    crate::json::push_str(&mut out, b);
    crate::json::push_str(&mut out, c);
    crate::json::push_str(&mut out, d);
    crate::json::push_str(&mut out, e);
    chars_to_string(&out)
}

/// An unresolved clone reference error.
fn clone_error(message: String) -> (e: MOTLYError)
    ensures
        e.code@ == "unresolved-clone-reference"@,
{
    MOTLYError {
        code: "unresolved-clone-reference".to_owned(),
        message,
        begin: zero_position(),
        end: zero_position(),
    }
}

/// Descend to the parent of the final key (creating empty nodes on the way,
/// replacing links by empty nodes) and put `pv` there unconditionally.
fn insert_pv_at(node: MOTLYNode, path: &Vec<String>, i: usize, pv: MOTLYPropertyValue) -> (r:
    MOTLYNode)
    requires
        i < path@.len(),
    ensures
        view_node(r) == spec_insert_pv_at(view_node(node), path@, i as int, view_pv(pv)),
    decreases 0nat, 0nat, path@.len() - i,
{
    if i == path.len() - 1 {
        node_insert(node, &path[i], pv)
    } else {
        let child = take_child(&node, &path[i]);
        let child2 = insert_pv_at(child, path, i + 1, pv);
        node_insert(node, &path[i], MOTLYPropertyValue::Node(child2))
    }
}

/// `name` / `-name`: get-or-create an empty node, or insert a tombstone.
fn define_at(node: MOTLYNode, path: &Vec<String>, i: usize, deleted: bool) -> (r: MOTLYNode)
    requires
        i < path@.len(),
    ensures
        view_node(r) == spec_define_at(view_node(node), path@, i as int, deleted),
    decreases 0nat, 1nat, path@.len() - i,
{
    if i == path.len() - 1 {
        let mut n = node;
        n.get_or_create_properties();
        if deleted {
            match &mut n.properties {
                Option::Some(ps) => {
                    props_insert(ps, path[i].clone(), MOTLYPropertyValue::Node(
                        MOTLYNode::deleted(),
                    ));
                },
                Option::None => {
                    proof {
                        assert(false);
                    }
                },
            }
        } else {
            let present = match &n.properties {
                Option::Some(ps) => props_get(ps, path[i].as_str()).is_some(),
                Option::None => false,
            };
            if !present {
                match &mut n.properties {
                    Option::Some(ps) => {
                        props_insert(ps, path[i].clone(), MOTLYPropertyValue::new_node());
                    },
                    Option::None => {
                        proof {
                            assert(false);
                        }
                    },
                }
            }
        }
        proof {
            assert(view_node(n) =~= spec_define_at(view_node(node), path@, i as int, deleted));
        }
        n
    } else {
        let child = take_child(&node, &path[i]);
        let child2 = define_at(child, path, i + 1, deleted);
        node_insert(node, &path[i], MOTLYPropertyValue::Node(child2))
    }
}

/// `name = value` at the final key: set the value slot on the existing (or
/// fresh) node there and merge the optional block.
fn set_eq_at(
    node: MOTLYNode,
    path: &Vec<String>,
    i: usize,
    value: &TagValue,
    props: &Option<Vec<Statement>>,
    errors: &mut Vec<MOTLYError>,
) -> (r: MOTLYNode)
    requires
        i < path@.len(),
        !is_ref_value(*value),
        value_wf(*value),
        opt_stmts_wf(*props),
    ensures
        ({
            let sr = spec_set_eq_at(view_node(node), path@, i as int, *value, *props);
            view_node(r) == sr.0 && error_codes(final(errors)@) == error_codes(old(errors)@)
                + sr.1
        }),
    decreases value_size(*value) + opt_stmts_size(*props), 1nat, path@.len() - i,
{
    if i == path.len() - 1 {
        let target = take_child(&node, &path[i]);
        let ghost c0 = error_codes(errors@);
        let target1 = set_eq_slot(target, value, errors);
        let ghost r1 = spec_set_eq_slot(spec_child_node(view_node(node), path@[i as int]@), *value);
        let target2 = match props {
            Option::Some(ps) => {
                let t = exec_stmts(ps, target1, errors);
                proof {
                    lemma_group2(c0, r1.1, spec_exec_stmts(ps@, r1.0).1);
                }
                t
            },
            Option::None => {
                proof {
                    lemma_cat_empty(r1.1);
                }
                target1
            },
        };
        node_insert(node, &path[i], MOTLYPropertyValue::Node(target2))
    } else {
        let child = take_child(&node, &path[i]);
        let child2 = set_eq_at(child, path, i + 1, value, props, errors);
        node_insert(node, &path[i], MOTLYPropertyValue::Node(child2))
    }
}

/// `name { ... }` at the final key.
fn update_at(
    node: MOTLYNode,
    path: &Vec<String>,
    i: usize,
    props: &Vec<Statement>,
    errors: &mut Vec<MOTLYError>,
) -> (r: MOTLYNode)
    requires
        i < path@.len(),
        stmts_wf(props@),
    ensures
        ({
            let sr = spec_update_at(view_node(node), path@, i as int, *props);
            view_node(r) == sr.0 && error_codes(final(errors)@) == error_codes(old(errors)@)
                + sr.1
        }),
    decreases stmts_size(props@), 1nat, path@.len() - i,
{
    if i == path.len() - 1 {
        let target = take_child(&node, &path[i]);
        let target1 = exec_stmts(props, target, errors);
        node_insert(node, &path[i], MOTLYPropertyValue::Node(target1))
    } else {
        let child = take_child(&node, &path[i]);
        let child2 = update_at(child, path, i + 1, props, errors);
        node_insert(node, &path[i], MOTLYPropertyValue::Node(child2))
    }
}

/// `name: { ... }` at the final key: keep the value slot, rebuild the
/// properties from the block alone.
fn replace_at(
    node: MOTLYNode,
    path: &Vec<String>,
    i: usize,
    props: &Vec<Statement>,
    errors: &mut Vec<MOTLYError>,
) -> (r: MOTLYNode)
    requires
        i < path@.len(),
        stmts_wf(props@),
    ensures
        ({
            let sr = spec_replace_at(view_node(node), path@, i as int, *props);
            view_node(r) == sr.0 && error_codes(final(errors)@) == error_codes(old(errors)@)
                + sr.1
        }),
    decreases stmts_size(props@), 1nat, path@.len() - i,
{
    if i == path.len() - 1 {
        let kept_eq: Option<EqValue> = match &node.properties {
            Option::Some(ps) => match props_get(ps, path[i].as_str()) {
                Option::Some(pv) => match pv.as_node() {
                    Option::Some(c) => match &c.eq {
                        Option::Some(e) => Option::Some(clone_eq(e)),
                        Option::None => Option::None,
                    },
                    Option::None => Option::None,
                },
                Option::None => Option::None,
            },
            Option::None => Option::None,
        };
        let fresh = MOTLYNode { eq: kept_eq, properties: Option::None, deleted: false };
        let fresh1 = exec_stmts(props, fresh, errors);
        node_insert(node, &path[i], MOTLYPropertyValue::Node(fresh1))
    } else {
        let child = take_child(&node, &path[i]);
        let child2 = replace_at(child, path, i + 1, props, errors);
        node_insert(node, &path[i], MOTLYPropertyValue::Node(child2))
    }
}

/// Set a node's value slot from a literal value.
fn set_eq_slot(target: MOTLYNode, value: &TagValue, errors: &mut Vec<MOTLYError>) -> (r: MOTLYNode)
    requires
        !is_ref_value(*value),
        value_wf(*value),
    ensures
        ({
            let sr = spec_set_eq_slot(view_node(target), *value);
            view_node(r) == sr.0 && error_codes(final(errors)@) == error_codes(old(errors)@)
                + sr.1
        }),
    decreases value_size(*value), 0nat, 0nat,
{
    let mut n = target;
    match value {
        TagValue::Array(elements) => {
            let pvs = resolve_array(elements, errors);
            n.eq = Option::Some(EqValue::Array(pvs));
        },
        TagValue::Scalar(sv) => {
            match sv {
                ScalarValue::String(s) => {
                    n.eq = Option::Some(EqValue::Scalar(Scalar::String(s.clone())));
                    proof {
                        lemma_cat_empty(error_codes(errors@));
                    }
                },
                ScalarValue::Number(num) => {
                    n.eq = Option::Some(EqValue::Scalar(Scalar::Number(clone_number(num))));
                    proof {
                        lemma_cat_empty(error_codes(errors@));
                    }
                },
                ScalarValue::Boolean(b) => {
                    n.eq = Option::Some(EqValue::Scalar(Scalar::Boolean(*b)));
                    proof {
                        lemma_cat_empty(error_codes(errors@));
                    }
                },
                ScalarValue::Date(d) => {
                    n.eq = Option::Some(EqValue::Scalar(Scalar::Date(d.clone())));
                    proof {
                        lemma_cat_empty(error_codes(errors@));
                    }
                },
                ScalarValue::Env { name } => {
                    n.eq = Option::Some(EqValue::EnvRef(name.clone()));
                    proof {
                        lemma_cat_empty(error_codes(errors@));
                    }
                },
                ScalarValue::NoValue => {
                    n.eq = Option::None;
                    proof {
                        lemma_cat_empty(error_codes(errors@));
                    }
                },
                ScalarValue::Reference { .. } => {
                    proof {
                        assert(false);
                    }
                },
            }
        },
    }
    proof {
        assert(view_node(n) =~= spec_set_eq_slot(view_node(target), *value).0);
    }
    n
}

/// Resolve the elements of an array literal.
fn resolve_array(elements: &Vec<ArrayElement>, errors: &mut Vec<MOTLYError>) -> (r: Vec<
    MOTLYPropertyValue,
>)
    requires
        elems_wf(elements@),
    ensures
        ({
            let sr = spec_resolve_array(elements@);
            view_pvs(r@) == sr.0 && error_codes(final(errors)@) == error_codes(old(errors)@)
                + sr.1
        }),
    decreases elems_size(elements@), 1nat, 0nat,
{
    let ghost e0 = error_codes(old(errors)@);
    let mut out: Vec<MOTLYPropertyValue> = Vec::new();
    let mut j: usize = 0;
    proof {
        assert(elements@.subrange(0, elements@.len() as int) =~= elements@);
        assert(view_pvs(out@) =~= Seq::<PropVal>::empty());
        lemma_cat_empty(e0);
        lemma_cat_empty(spec_resolve_array(elements@).1);
        lemma_cat_empty(spec_resolve_array(elements@).0);
        assert(Seq::<PropVal>::empty() + spec_resolve_array(elements@).0 =~= spec_resolve_array(
            elements@,
        ).0);
    }
    while j < elements.len()
        invariant
            j <= elements@.len(),
            elems_wf(elements@),
            e0 == error_codes(old(errors)@),
            view_pvs(out@) + spec_resolve_array(
                elements@.subrange(j as int, elements@.len() as int),
            ).0 == spec_resolve_array(elements@).0,
            error_codes(errors@) + spec_resolve_array(
                elements@.subrange(j as int, elements@.len() as int),
            ).1 == e0 + spec_resolve_array(elements@).1,
        decreases elements@.len() - j,
    {
        proof {
            lemma_elems_wf_index(elements@);
            lemma_elems_size_elem(elements@, j as int);
        }
        let ghost pre_out = view_pvs(out@);
        let ghost pre_codes = error_codes(errors@);
        let ghost rest = elements@.subrange(j as int, elements@.len() as int);
        let pv = resolve_array_element(&elements[j], errors);
        let ghost bout = out@;
        out.push(pv);
        proof {
            let r1 = spec_resolve_elem(elements@[j as int]);
            let rest2 = spec_resolve_array(elements@.subrange(j + 1, elements@.len() as int));
            assert(rest[0] == elements@[j as int]);
            assert(rest.subrange(1, rest.len() as int) =~= elements@.subrange(
                j + 1,
                elements@.len() as int,
            ));
            lemma_view_pvs_index(out@);
            lemma_view_pvs_index(bout);
            assert(out@ == bout.push(pv));
            assert(view_pvs(out@) =~= pre_out + seq![r1.0]);
            lemma_group2(pre_out, seq![r1.0], rest2.0);
            assert(spec_resolve_array(rest).0 == seq![r1.0] + rest2.0);
            lemma_group2(pre_codes, r1.1, rest2.1);
            assert(spec_resolve_array(rest).1 == r1.1 + rest2.1);
        }
        j += 1;
    }
    proof {
        assert(elements@.subrange(elements@.len() as int, elements@.len() as int) =~= Seq::<
            ArrayElement,
        >::empty());
        lemma_cat_empty(view_pvs(out@));
        lemma_cat_empty(error_codes(errors@));
    }
    out
}

/// Resolve one array element.
fn resolve_array_element(el: &ArrayElement, errors: &mut Vec<MOTLYError>) -> (r:
    MOTLYPropertyValue)
    requires
        elem_wf(*el),
    ensures
        ({
            let sr = spec_resolve_elem(*el);
            view_pv(r) == sr.0 && error_codes(final(errors)@) == error_codes(old(errors)@) + sr.1
        }),
    decreases elem_size(*el), 1nat, 0nat,
{
    match &el.value {
        Option::Some(TagValue::Scalar(ScalarValue::Reference { ups, path })) => {
            let ref_str = format_ref_string(*ups, path);
            if el.properties.is_some() {
                push_error(
                    errors,
                    "ref-with-properties",
                    concat3(
                        "Cannot add properties to a reference",
                        ". Did you mean := ",
                        "(clone)?",
                    ),
                );
            } else {
                proof {
                    lemma_cat_empty(error_codes(errors@));
                }
            }
            MOTLYPropertyValue::Ref(ref_str)
        },
        _ => {
            let ghost c0 = error_codes(errors@);
            let ghost r1 = match &el.value {
                Option::Some(v) => spec_set_eq_slot(empty_node_val(), *v),
                Option::None => (empty_node_val(), Seq::<Seq<char>>::empty()),
            };
            let n0 = MOTLYNode::new();
            let n1 = match &el.value {
                Option::Some(v) => set_eq_slot(n0, v, errors),
                Option::None => {
                    proof {
                        lemma_cat_empty(c0);
                    }
                    n0
                },
            };
            let n2 = match &el.properties {
                Option::Some(ps) => {
                    let t = exec_stmts(ps, n1, errors);
                    proof {
                        lemma_group2(c0, r1.1, spec_exec_stmts(ps@, r1.0).1);
                    }
                    t
                },
                Option::None => {
                    proof {
                        lemma_cat_empty(r1.1);
                        lemma_cat_empty(c0 + r1.1);
                    }
                    n1
                },
            };
            MOTLYPropertyValue::Node(n2)
        },
    }
}

/// Resolve a clone reference in the tree and hand back a deep copy of the
/// target; unresolved references report `unresolved-clone-reference`.
pub fn resolve_and_clone(
    root: &MOTLYNode,
    stmt_path: &Vec<String>,
    ups: usize,
    ref_path: &Vec<RefPathSegment>,
) -> (r: Result<MOTLYNode, MOTLYError>)
    ensures
        ({
            let sr = spec_clone_resolve(view_node(*root), stmt_path@, ups as nat, ref_path@);
            match r {
                Result::Ok(n) => sr == Option::Some(view_node(n)),
                Result::Err(e) => sr is None && e.code@ == "unresolved-clone-reference"@,
            }
        }),
{
    let ghost target = spec_clone_resolve(view_node(*root), stmt_path@, ups as nat, ref_path@);
    let ref_str = format_ref_string(ups, ref_path);
    let mut cur: &MOTLYNode = root;
    if ups > 0 {
        if ups >= stmt_path.len() {
            return Result::Err(
                clone_error(
                    concat3(
                        "Clone reference ",
                        ref_str.as_str(),
                        " goes up more levels than there are ancestors",
                    ),
                ),
            );
        }
        let end = stmt_path.len() - 1 - ups;
        let mut k: usize = 0;
        while k < end
            invariant
                k <= end,
                end == stmt_path@.len() - 1 - ups,
                ups > 0,
                ups < stmt_path@.len(),
                target == spec_clone_resolve(
                    view_node(*root),
                    stmt_path@,
                    ups as nat,
                    ref_path@,
                ),
                target == (match spec_descend_names(
                    view_node(*cur),
                    stmt_path@,
                    k as int,
                    end as int,
                ) {
                    Option::Some(s) => spec_follow_segs(s, ref_path@, 0),
                    Option::None => Option::None,
                }),
            decreases end - k,
        {
            let step: Option<&MOTLYNode> = match &cur.properties {
                Option::Some(ps) => match props_get(ps, stmt_path[k].as_str()) {
                    Option::Some(pv) => pv.as_node(),
                    Option::None => Option::None,
                },
                Option::None => Option::None,
            };
            match step {
                Option::Some(c) => {
                    cur = c;
                },
                Option::None => {
                    return Result::Err(
                        clone_error(
                            concat5(
                                "Clone reference ",
                                ref_str.as_str(),
                                " could not be resolved: path segment \"",
                                stmt_path[k].as_str(),
                                "\" not found or is a link reference",
                            ),
                        ),
                    );
                },
            }
            k += 1;
        }
    }
    proof {
        assert(target == spec_follow_segs(view_node(*cur), ref_path@, 0));
    }
    let mut j: usize = 0;
    while j < ref_path.len()
        invariant
            j <= ref_path@.len(),
            target == spec_clone_resolve(view_node(*root), stmt_path@, ups as nat, ref_path@),
            target == spec_follow_segs(view_node(*cur), ref_path@, j as int),
        decreases ref_path@.len() - j,
    {
        match &ref_path[j] {
            RefPathSegment::Name(name) => {
                let step: Option<&MOTLYNode> = match &cur.properties {
                    Option::Some(ps) => match props_get(ps, name.as_str()) {
                        Option::Some(pv) => pv.as_node(),
                        Option::None => Option::None,
                    },
                    Option::None => Option::None,
                };
                match step {
                    Option::Some(c) => {
                        cur = c;
                    },
                    Option::None => {
                        return Result::Err(
                            clone_error(
                                concat5(
                                    "Clone reference ",
                                    ref_str.as_str(),
                                    " could not be resolved: property \"",
                                    name.as_str(),
                                    "\" not found or is a link reference",
                                ),
                            ),
                        );
                    },
                }
            },
            RefPathSegment::Index(idx) => {
                match &cur.eq {
                    Option::Some(EqValue::Array(arr)) => {
                        proof {
                            lemma_view_pvs_index(arr@);
                        }
                        if *idx >= arr.len() {
                            return Result::Err(
                                clone_error(
                                    concat3(
                                        "Clone reference ",
                                        ref_str.as_str(),
                                        " could not be resolved: index out of bounds",
                                    ),
                                ),
                            );
                        }
                        match arr[*idx].as_node() {
                            Option::Some(c) => {
                                cur = c;
                            },
                            Option::None => {
                                return Result::Err(
                                    clone_error(
                                        concat3(
                                            "Clone reference ",
                                            ref_str.as_str(),
                                            " could not be resolved: index is a link reference",
                                        ),
                                    ),
                                );
                            },
                        }
                    },
                    _ => {
                        return Result::Err(
                            clone_error(
                                concat3(
                                    "Clone reference ",
                                    ref_str.as_str(),
                                    " could not be resolved: index used on non-array",
                                ),
                            ),
                        );
                    },
                }
            },
        }
        j += 1;
    }
    Result::Ok(clone_node(cur))
}

/// Walk a cloned subtree and replace any relative reference that escapes
/// the clone boundary by an empty node, reporting each one.
#[verifier::loop_isolation(false)]
pub fn sanitize_cloned_refs(node: &MOTLYNode, depth: usize, errors: &mut Vec<MOTLYError>) -> (r:
    MOTLYNode)
    ensures
        ({
            let sr = spec_sanitize_node(view_node(*node), depth as nat);
            view_node(r) == sr.0 && error_codes(final(errors)@) == error_codes(old(errors)@)
                + sr.1
        }),
    decreases *node, 2nat,
{
    let child_depth: usize = if depth < usize::MAX {
        depth + 1
    } else {
        depth
    };
    proof {
        assert(child_depth as nat == sat_inc(depth as nat));
    }
    let ghost e0 = error_codes(old(errors)@);
    let eq2: Option<EqValue> = match &node.eq {
        Option::Some(EqValue::Array(arr)) => {
            let ghost av = view_pvs(arr@);
            proof {
                lemma_view_pvs_index(arr@);
                assert(av.subrange(0, av.len() as int) =~= av);
                lemma_cat_empty(e0);
                lemma_cat_empty(spec_sanitize_pvs(av, child_depth as nat).0);
                assert(Seq::<PropVal>::empty() + spec_sanitize_pvs(av, child_depth as nat).0
                    =~= spec_sanitize_pvs(av, child_depth as nat).0);
            }
            let mut out: Vec<MOTLYPropertyValue> = Vec::new();
            let mut i: usize = 0;
            while i < arr.len()
                invariant
                    i <= arr@.len(),
                    view_pvs(out@) + spec_sanitize_pvs(
                        av.subrange(i as int, av.len() as int),
                        child_depth as nat,
                    ).0 == spec_sanitize_pvs(av, child_depth as nat).0,
                    error_codes(errors@) + spec_sanitize_pvs(
                        av.subrange(i as int, av.len() as int),
                        child_depth as nat,
                    ).1 == e0 + spec_sanitize_pvs(av, child_depth as nat).1,
                decreases arr@.len() - i,
            {
                proof {
                    assert(decreases_to!(*node => *arr));
                    assert(decreases_to!(*arr => arr@));
                    assert(decreases_to!(arr@ => arr@[i as int]));
                }
                let ghost pre_out = view_pvs(out@);
                let ghost pre_codes = error_codes(errors@);
                let ghost rest = av.subrange(i as int, av.len() as int);
                let pv = sanitize_cloned_pv(&arr[i], child_depth, errors);
                let ghost bout = out@;
                out.push(pv);
                proof {
                    let r1 = spec_sanitize_pv(av[i as int], child_depth as nat);
                    let rest2 = spec_sanitize_pvs(
                        av.subrange(i + 1, av.len() as int),
                        child_depth as nat,
                    );
                    assert(rest[0] == av[i as int]);
                    assert(rest.subrange(1, rest.len() as int) =~= av.subrange(
                        i + 1,
                        av.len() as int,
                    ));
                    lemma_view_pvs_index(out@);
                    lemma_view_pvs_index(bout);
                    assert(out@ == bout.push(pv));
                    assert(view_pvs(out@) =~= pre_out + seq![r1.0]);
                    lemma_group2(pre_out, seq![r1.0], rest2.0);
                    lemma_group2(pre_codes, r1.1, rest2.1);
                }
                i += 1;
            }
            proof {
                assert(av.subrange(av.len() as int, av.len() as int) =~= Seq::<PropVal>::empty());
                lemma_cat_empty(view_pvs(out@));
                lemma_cat_empty(error_codes(errors@));
            }
            Option::Some(EqValue::Array(out))
        },
        Option::Some(e) => {
            proof {
                lemma_cat_empty(e0);
            }
            Option::Some(clone_eq(e))
        },
        Option::None => {
            proof {
                lemma_cat_empty(e0);
            }
            Option::None
        },
    };
    let ghost codes_after_eq = error_codes(errors@);
    let props2: Option<Vec<Property>> = match &node.properties {
        Option::Some(ps) => {
            let ghost pw = view_props(ps@);
            proof {
                lemma_view_props_index(ps@);
                assert(pw.subrange(0, pw.len() as int) =~= pw);
                lemma_cat_empty(codes_after_eq);
                assert(Seq::<(Seq<char>, PropVal)>::empty() + spec_sanitize_entries(
                    pw,
                    child_depth as nat,
                ).0 =~= spec_sanitize_entries(pw, child_depth as nat).0);
            }
            let mut out: Vec<Property> = Vec::new();
            let mut i: usize = 0;
            while i < ps.len()
                invariant
                    i <= ps@.len(),
                    view_props(out@) + spec_sanitize_entries(
                        pw.subrange(i as int, pw.len() as int),
                        child_depth as nat,
                    ).0 == spec_sanitize_entries(pw, child_depth as nat).0,
                    error_codes(errors@) + spec_sanitize_entries(
                        pw.subrange(i as int, pw.len() as int),
                        child_depth as nat,
                    ).1 == codes_after_eq + spec_sanitize_entries(pw, child_depth as nat).1,
                decreases ps@.len() - i,
            {
                proof {
                    assert(decreases_to!(*node => *ps));
                    assert(decreases_to!(*ps => ps@));
                    assert(decreases_to!(ps@ => ps@[i as int]));
                    assert(decreases_to!(ps@[i as int] => ps@[i as int].value));
                }
                let ghost pre_out = view_props(out@);
                let ghost pre_codes = error_codes(errors@);
                let ghost rest = pw.subrange(i as int, pw.len() as int);
                let pv = sanitize_cloned_pv(&ps[i].value, child_depth, errors);
                let ghost bout = out@;
                let entry = Property { name: ps[i].name.clone(), value: pv };
                let ghost ge = entry;
                out.push(entry);
                proof {
                    let r1 = spec_sanitize_pv(pw[i as int].1, child_depth as nat);
                    let rest2 = spec_sanitize_entries(
                        pw.subrange(i + 1, pw.len() as int),
                        child_depth as nat,
                    );
                    assert(rest[0] == pw[i as int]);
                    assert(rest.subrange(1, rest.len() as int) =~= pw.subrange(
                        i + 1,
                        pw.len() as int,
                    ));
                    lemma_view_props_index(out@);
                    lemma_view_props_index(bout);
                    assert(out@ == bout.push(ge));
                    assert(view_props(out@) =~= pre_out + seq![(pw[i as int].0, r1.0)]);
                    lemma_group2(pre_out, seq![(pw[i as int].0, r1.0)], rest2.0);
                    lemma_group2(pre_codes, r1.1, rest2.1);
                }
                i += 1;
            }
            proof {
                assert(pw.subrange(pw.len() as int, pw.len() as int) =~= Seq::<(
                    Seq<char>,
                    PropVal,
                )>::empty());
                lemma_cat_empty(view_props(out@));
                lemma_cat_empty(error_codes(errors@));
            }
            Option::Some(out)
        },
        Option::None => {
            proof {
                lemma_cat_empty(codes_after_eq);
            }
            Option::None
        },
    };
    let r = MOTLYNode { eq: eq2, properties: props2, deleted: node.deleted };
    proof {
        let sr = spec_sanitize_node(view_node(*node), depth as nat);
        assert(view_node(r) =~= sr.0);
        lemma_group2(e0, spec_sanitize_node(view_node(*node), depth as nat).1, Seq::empty());
        assert(error_codes(errors@) =~= e0 + sr.1);
    }
    r
}

/// Sanitize one property value of a cloned subtree.
fn sanitize_cloned_pv(pv: &MOTLYPropertyValue, depth: usize, errors: &mut Vec<MOTLYError>) -> (r:
    MOTLYPropertyValue)
    ensures
        ({
            let sr = spec_sanitize_pv(view_pv(*pv), depth as nat);
            view_pv(r) == sr.0 && error_codes(final(errors)@) == error_codes(old(errors)@) + sr.1
        }),
    decreases *pv, 3nat,
{
    match pv {
        MOTLYPropertyValue::Ref(link_to) => {
            let u = parse_ref_ups(link_to.as_str());
            if u > 0 && u > depth {
                push_error(
                    errors,
                    "clone-reference-out-of-scope",
                    concat3(
                        "Cloned reference \"",
                        link_to.as_str(),
                        "\" escapes the clone boundary",
                    ),
                );
                MOTLYPropertyValue::Node(MOTLYNode::new())
            } else {
                proof {
                    lemma_cat_empty(error_codes(errors@));
                }
                MOTLYPropertyValue::Ref(link_to.clone())
            }
        },
        MOTLYPropertyValue::Node(n) => MOTLYPropertyValue::Node(
            sanitize_cloned_refs(n, depth, errors),
        ),
    }
}

/// Execute one statement against an owned tree.
fn exec_stmt(stmt: &Statement, node: MOTLYNode, errors: &mut Vec<MOTLYError>) -> (r: MOTLYNode)
    requires
        stmt_wf(*stmt),
    ensures
        ({
            let sr = spec_exec_stmt(*stmt, view_node(node));
            view_node(r) == sr.0 && error_codes(final(errors)@) == error_codes(old(errors)@)
                + sr.1
        }),
    decreases stmt_size(*stmt), 0nat, 0nat,
{
    match stmt {
        Statement::SetEq { path, value, properties } => {
            match value {
                TagValue::Scalar(ScalarValue::Reference { ups, path: rpath }) => {
                    let ref_str = format_ref_string(*ups, rpath);
                    if properties.is_some() {
                        push_error(
                            errors,
                            "ref-with-properties",
                            concat3(
                                "Cannot add properties to a reference",
                                ". Did you mean := ",
                                "(clone)?",
                            ),
                        );
                    } else {
                        proof {
                            lemma_cat_empty(error_codes(errors@));
                        }
                    }
                    insert_pv_at(node, path, 0, MOTLYPropertyValue::Ref(ref_str))
                },
                _ => set_eq_at(node, path, 0, value, properties, errors),
            }
        },
        Statement::AssignBoth { path, value, properties } => {
            match value {
                TagValue::Scalar(ScalarValue::Reference { ups, path: rpath }) => {
                    let cloned = resolve_and_clone(&node, path, *ups, rpath);
                    match cloned {
                        Result::Ok(cl) => {
                            let ghost c0 = error_codes(errors@);
                            let ghost s1 = spec_sanitize_node(view_node(cl), 0);
                            let cl1 = sanitize_cloned_refs(&cl, 0, errors);
                            let cl2 = match properties {
                                Option::Some(ps) => {
                                    let mut c = cl1;
                                    c.properties = Option::Some(Vec::new());
                                    proof {
                                        assert(view_node(c) =~= (NodeVal {
                                            properties: Option::Some(
                                                Seq::<(Seq<char>, PropVal)>::empty(),
                                            ),
                                            ..s1.0
                                        }));
                                    }
                                    let t = exec_stmts(ps, c, errors);
                                    proof {
                                        lemma_group2(
                                            c0,
                                            s1.1,
                                            spec_exec_stmts(ps@, view_node(c)).1,
                                        );
                                    }
                                    t
                                },
                                Option::None => {
                                    proof {
                                        lemma_cat_empty(s1.1);
                                    }
                                    cl1
                                },
                            };
                            insert_pv_at(node, path, 0, MOTLYPropertyValue::Node(cl2))
                        },
                        Result::Err(e) => {
                            let ghost ev = e;
                            errors.push(e);
                            proof {
                                lemma_codes_push(old(errors)@, ev);
                            }
                            node
                        },
                    }
                },
                _ => {
                    let ghost c0 = error_codes(errors@);
                    let ghost f1 = spec_set_eq_slot(empty_node_val(), *value);
                    let fresh = MOTLYNode::new();
                    let fresh1 = set_eq_slot(fresh, value, errors);
                    let fresh2 = match properties {
                        Option::Some(ps) => {
                            let t = exec_stmts(ps, fresh1, errors);
                            proof {
                                lemma_group2(c0, f1.1, spec_exec_stmts(ps@, f1.0).1);
                            }
                            t
                        },
                        Option::None => {
                            proof {
                                lemma_cat_empty(f1.1);
                            }
                            fresh1
                        },
                    };
                    insert_pv_at(node, path, 0, MOTLYPropertyValue::Node(fresh2))
                },
            }
        },
        Statement::ReplaceProperties { path, properties } => replace_at(
            node,
            path,
            0,
            properties,
            errors,
        ),
        Statement::UpdateProperties { path, properties } => update_at(
            node,
            path,
            0,
            properties,
            errors,
        ),
        Statement::Define { path, deleted } => {
            proof {
                lemma_cat_empty(error_codes(errors@));
            }
            define_at(node, path, 0, *deleted)
        },
        Statement::ClearAll => {
            proof {
                lemma_cat_empty(error_codes(errors@));
            }
            let r = MOTLYNode {
                eq: Option::None,
                properties: Option::Some(Vec::new()),
                deleted: node.deleted,
            };
            proof {
                assert(view_props(Seq::<Property>::empty()) =~= Seq::<(Seq<char>, PropVal)>::empty());
                assert(view_node(r) =~= spec_exec_stmt(*stmt, view_node(node)).0);
            }
            r
        },
    }
}

/// Execute a statement list left to right against an owned tree.
fn exec_stmts(stmts: &Vec<Statement>, node: MOTLYNode, errors: &mut Vec<MOTLYError>) -> (r:
    MOTLYNode)
    requires
        stmts_wf(stmts@),
    ensures
        ({
            let sr = spec_exec_stmts(stmts@, view_node(node));
            view_node(r) == sr.0 && error_codes(final(errors)@) == error_codes(old(errors)@)
                + sr.1
        }),
    decreases stmts_size(stmts@), 0nat, 0nat,
{
    let ghost v0 = view_node(node);
    let ghost e0 = error_codes(old(errors)@);
    let mut cur = node;
    let mut j: usize = 0;
    proof {
        assert(stmts@.subrange(0, stmts@.len() as int) =~= stmts@);
        lemma_cat_empty(e0);
        lemma_cat_empty(spec_exec_stmts(stmts@, v0).1);
    }
    while j < stmts.len()
        invariant
            j <= stmts@.len(),
            stmts_wf(stmts@),
            e0 == error_codes(old(errors)@),
            spec_exec_stmts(stmts@, v0).0 == spec_exec_stmts(
                stmts@.subrange(j as int, stmts@.len() as int),
                view_node(cur),
            ).0,
            error_codes(errors@) + spec_exec_stmts(
                stmts@.subrange(j as int, stmts@.len() as int),
                view_node(cur),
            ).1 == e0 + spec_exec_stmts(stmts@, v0).1,
        decreases stmts@.len() - j,
    {
        proof {
            lemma_stmts_wf_index(stmts@);
            lemma_stmts_size_elem(stmts@, j as int);
        }
        let ghost pre_codes = error_codes(errors@);
        let ghost vcur = view_node(cur);
        let ghost rest = stmts@.subrange(j as int, stmts@.len() as int);
        cur = exec_stmt(&stmts[j], cur, errors);
        proof {
            let r1 = spec_exec_stmt(stmts@[j as int], vcur);
            let rest2 = spec_exec_stmts(
                stmts@.subrange(j + 1, stmts@.len() as int),
                view_node(cur),
            );
            assert(rest[0] == stmts@[j as int]);
            assert(rest.subrange(1, rest.len() as int) =~= stmts@.subrange(
                j + 1,
                stmts@.len() as int,
            ));
            lemma_group2(pre_codes, r1.1, rest2.1);
            assert(spec_exec_stmts(rest, vcur).1 == r1.1 + rest2.1);
        }
        j += 1;
    }
    proof {
        assert(stmts@.subrange(stmts@.len() as int, stmts@.len() as int) =~= Seq::<
            Statement,
        >::empty());
        lemma_cat_empty(error_codes(errors@));
    }
    cur
}

/// Execute a list of parsed statements against an existing tree, mutating
/// it in place and returning the non-fatal errors in order.
pub fn execute(statements: &Vec<Statement>, root: &mut MOTLYNode) -> (errors: Vec<MOTLYError>)
    requires
        stmts_wf(statements@),
    ensures
        ({
            let sr = spec_exec_stmts(statements@, view_node(*old(root)));
            view_node(*final(root)) == sr.0 && error_codes(errors@) == sr.1
        }),
        crate::tree::vnode_wf(view_node(*old(root))) ==> crate::tree::vnode_wf(
            view_node(*final(root)),
        ),
{
    proof {
        if crate::tree::vnode_wf(view_node(*old(root))) {
            lemma_wf_exec_stmts(statements@, view_node(*old(root)));
        }
    }
    let mut errors: Vec<MOTLYError> = Vec::new();
    proof {
        assert(error_codes(Seq::<MOTLYError>::empty()) =~= Seq::<Seq<char>>::empty());
    }
    let start = clone_node(root);
    let result = exec_stmts(statements, start, &mut errors);
    *root = result;
    proof {
        lemma_cat_empty(spec_exec_stmts(statements@, view_node(*old(root))).1);
    }
    errors
}

} // verus!
