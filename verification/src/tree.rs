//! The document tree: nodes with an optional value slot, an optional
//! ordered property map (lexicographic by key), and a tombstone flag.
//! Ghost views give every tree a mathematical value that contracts speak of.
use vstd::prelude::*;
use crate::num::{Number, INT_BOUND, spec_num_token, spec_small_int_token};
use crate::text::{seq_lt, lemma_seq_lt_trichotomy, lemma_seq_lt_asym, lemma_seq_lt_trans, str_eq,
    str_to_chars, chars_lt};

verus! {

// ---- Executable data model ----------------------------------------------

/// A scalar value: string, number, boolean, or an ISO-8601 date kept as text.
#[derive(Debug, PartialEq)]
pub enum Scalar {
    String(String),
    Number(Number),
    Boolean(bool),
    Date(String),
}

/// The value slot of a node: a scalar, an array, or an environment
/// variable reference.
#[derive(Debug, PartialEq)]
pub enum EqValue {
    Scalar(Scalar),
    Array(Vec<MOTLYPropertyValue>),
    EnvRef(String),
}

/// What a property or array element holds: a full node, or a link to
/// another node kept as its textual reference string.
#[derive(Debug, PartialEq)]
pub enum MOTLYPropertyValue {
    Node(MOTLYNode),
    Ref(String),
}

/// One named property of a node.
#[derive(Debug, PartialEq)]
pub struct Property {
    pub name: String,
    pub value: MOTLYPropertyValue,
}

/// A node of the tree. The property list is kept sorted by name in strict
/// lexicographic order, so iteration order is deterministic.
#[derive(Debug, PartialEq)]
pub struct MOTLYNode {
    pub eq: Option<EqValue>,
    pub properties: Option<Vec<Property>>,
    pub deleted: bool,
}

// ---- Ghost views ---------------------------------------------------------

pub ghost enum NumberVal {
    Integer(int),
    Decimal(Seq<char>),
}

pub ghost enum ScalarVal {
    Str(Seq<char>),
    Num(NumberVal),
    Bool(bool),
    Date(Seq<char>),
}

#[verifier::ext_equal]
pub ghost enum EqVal {
    Scalar(ScalarVal),
    Array(Seq<PropVal>),
    EnvRef(Seq<char>),
}

#[verifier::ext_equal]
pub ghost enum PropVal {
    Node(NodeVal),
    Ref(Seq<char>),
}

#[verifier::ext_equal]
pub ghost struct NodeVal {
    pub eq: Option<EqVal>,
    pub properties: Option<Seq<(Seq<char>, PropVal)>>,
    pub deleted: bool,
}

/// The empty node.
pub open spec fn empty_node_val() -> NodeVal {
    NodeVal { eq: Option::None, properties: Option::None, deleted: false }
}

pub open spec fn view_number(n: Number) -> NumberVal {
    match n {
        Number::Integer(i) => NumberVal::Integer(i as int),
        Number::Decimal(s) => NumberVal::Decimal(s@),
    }
}

pub open spec fn view_scalar(s: Scalar) -> ScalarVal {
    match s {
        Scalar::String(v) => ScalarVal::Str(v@),
        Scalar::Number(n) => ScalarVal::Num(view_number(n)),
        Scalar::Boolean(b) => ScalarVal::Bool(b),
        Scalar::Date(d) => ScalarVal::Date(d@),
    }
}

pub open spec fn view_eq(e: EqValue) -> EqVal
    decreases e,
{
    match e {
        EqValue::Scalar(s) => EqVal::Scalar(view_scalar(s)),
        EqValue::Array(a) => EqVal::Array(view_pvs(a@)),
        EqValue::EnvRef(n) => EqVal::EnvRef(n@),
    }
}

pub open spec fn view_pvs(s: Seq<MOTLYPropertyValue>) -> Seq<PropVal>
    decreases s,
{
    if s.len() == 0 {
        Seq::empty()
    } else {
        seq![view_pv(s[0])] + view_pvs(s.subrange(1, s.len() as int))
    }
}

pub open spec fn view_pv(p: MOTLYPropertyValue) -> PropVal
    decreases p,
{
    match p {
        MOTLYPropertyValue::Node(n) => PropVal::Node(view_node(n)),
        MOTLYPropertyValue::Ref(r) => PropVal::Ref(r@),
    }
}

pub open spec fn view_props(s: Seq<Property>) -> Seq<(Seq<char>, PropVal)>
    decreases s,
{
    if s.len() == 0 {
        Seq::empty()
    } else {
        seq![(s[0].name@, view_pv(s[0].value))] + view_props(s.subrange(1, s.len() as int))
    }
}

pub open spec fn view_node(n: MOTLYNode) -> NodeVal
    decreases n,
{
    NodeVal {
        eq: match n.eq {
            Option::Some(e) => Option::Some(view_eq(e)),
            Option::None => Option::None,
        },
        properties: match n.properties {
            Option::Some(ps) => Option::Some(view_props(ps@)),
            Option::None => Option::None,
        },
        deleted: n.deleted,
    }
}

/// `view_pvs` maps the view over the elements.
pub proof fn lemma_view_pvs_index(s: Seq<MOTLYPropertyValue>)
    ensures
        view_pvs(s).len() == s.len(),
        forall|i: int| 0 <= i < s.len() ==> #[trigger] view_pvs(s)[i] == view_pv(s[i]),
    decreases s,
{
    if s.len() > 0 {
        lemma_view_pvs_index(s.subrange(1, s.len() as int));
    }
}

/// `view_props` maps name view and value view over the entries.
pub proof fn lemma_view_props_index(s: Seq<Property>)
    ensures
        view_props(s).len() == s.len(),
        forall|i: int|
            0 <= i < s.len() ==> #[trigger] view_props(s)[i] == (s[i].name@, view_pv(s[i].value)),
    decreases s,
{
    if s.len() > 0 {
        lemma_view_props_index(s.subrange(1, s.len() as int));
    }
}

// ---- Well-formedness (stated over views) ---------------------------------

pub open spec fn vnumber_wf(n: NumberVal) -> bool {
    match n {
        NumberVal::Integer(i) => -(INT_BOUND as int) < i && i < INT_BOUND as int,
        NumberVal::Decimal(s) => spec_num_token(s) && !spec_small_int_token(s),
    }
}

pub open spec fn vscalar_wf(s: ScalarVal) -> bool {
    match s {
        ScalarVal::Num(n) => vnumber_wf(n),
        _ => true,
    }
}

/// Property entries are in strictly increasing lexicographic name order;
/// in particular the names are unique.
pub open spec fn vprops_sorted(s: Seq<(Seq<char>, PropVal)>) -> bool {
    forall|i: int, j: int| 0 <= i < j < s.len() ==> seq_lt(#[trigger] s[i].0, #[trigger] s[j].0)
}

pub open spec fn veq_wf(e: EqVal) -> bool
    decreases e,
{
    match e {
        EqVal::Scalar(s) => vscalar_wf(s),
        EqVal::Array(a) => vpvs_wf(a),
        EqVal::EnvRef(_) => true,
    }
}

pub open spec fn vpvs_wf(a: Seq<PropVal>) -> bool
    decreases a,
{
    if a.len() == 0 {
        true
    } else {
        vpv_wf(a[0]) && vpvs_wf(a.subrange(1, a.len() as int))
    }
}

pub open spec fn vpv_wf(p: PropVal) -> bool
    decreases p,
{
    match p {
        PropVal::Node(n) => vnode_wf(n),
        PropVal::Ref(_) => true,
    }
}

pub open spec fn ventries_wf(s: Seq<(Seq<char>, PropVal)>) -> bool
    decreases s,
{
    if s.len() == 0 {
        true
    } else {
        vpv_wf(s[0].1) && ventries_wf(s.subrange(1, s.len() as int))
    }
}

/// A well-formed node: numbers in range, property lists sorted, at every
/// depth.
pub open spec fn vnode_wf(n: NodeVal) -> bool
    decreases n,
{
    (match n.eq {
        Option::Some(e) => veq_wf(e),
        Option::None => true,
    }) && (match n.properties {
        Option::Some(ps) => vprops_sorted(ps) && ventries_wf(ps),
        Option::None => true,
    })
}

pub proof fn lemma_vpvs_wf_index(a: Seq<PropVal>)
    ensures
        vpvs_wf(a) <==> (forall|i: int| 0 <= i < a.len() ==> vpv_wf(#[trigger] a[i])),
    decreases a,
{
    if a.len() > 0 {
        let sub = a.subrange(1, a.len() as int);
        lemma_vpvs_wf_index(sub);
        assert(forall|i: int| 0 <= i < sub.len() ==> #[trigger] sub[i] == a[i + 1]);
        if vpvs_wf(a) {
            assert forall|i: int| 0 <= i < a.len() implies vpv_wf(#[trigger] a[i]) by {
                if i > 0 {
                    assert(sub[i - 1] == a[i]);
                }
            }
        }
        if forall|i: int| 0 <= i < a.len() ==> vpv_wf(#[trigger] a[i]) {
            assert forall|i: int| 0 <= i < sub.len() implies vpv_wf(#[trigger] sub[i]) by {
                assert(sub[i] == a[i + 1]);
            }
        }
    }
}

pub proof fn lemma_ventries_wf_index(s: Seq<(Seq<char>, PropVal)>)
    ensures
        ventries_wf(s) <==> (forall|i: int| 0 <= i < s.len() ==> vpv_wf(#[trigger] s[i].1)),
    decreases s,
{
    if s.len() > 0 {
        let sub = s.subrange(1, s.len() as int);
        lemma_ventries_wf_index(sub);
        assert(forall|i: int| 0 <= i < sub.len() ==> #[trigger] sub[i] == s[i + 1]);
        if ventries_wf(s) {
            assert forall|i: int| 0 <= i < s.len() implies vpv_wf(#[trigger] s[i].1) by {
                if i > 0 {
                    assert(sub[i - 1] == s[i]);
                }
            }
        }
        if forall|i: int| 0 <= i < s.len() ==> vpv_wf(#[trigger] s[i].1) {
            assert forall|i: int| 0 <= i < sub.len() implies vpv_wf(#[trigger] sub[i].1) by {
                assert(sub[i] == s[i + 1]);
            }
        }
    }
}

// ---- Lookup and sorted insertion over property entries -------------------

/// The first index at or after `i` whose name is `k`, or -1.
pub open spec fn vprops_find_from(s: Seq<(Seq<char>, PropVal)>, k: Seq<char>, i: int) -> int
    decreases s.len() - i,
{
    if i < 0 || i >= s.len() {
        -1
    } else if s[i].0 == k {
        i
    } else {
        vprops_find_from(s, k, i + 1)
    }
}

pub open spec fn vprops_find(s: Seq<(Seq<char>, PropVal)>, k: Seq<char>) -> int {
    vprops_find_from(s, k, 0)
}

/// The value at key `k`, if any.
pub open spec fn vprops_get(s: Seq<(Seq<char>, PropVal)>, k: Seq<char>) -> Option<PropVal> {
    let f = vprops_find(s, k);
    if f >= 0 {
        Option::Some(s[f].1)
    } else {
        Option::None
    }
}

/// The first index at or after `i` whose name is not strictly below `k`
/// (the insertion point for `k`).
pub open spec fn vprops_pos_from(s: Seq<(Seq<char>, PropVal)>, k: Seq<char>, i: int) -> int
    decreases s.len() - i,
{
    if i < 0 || i >= s.len() {
        s.len() as int
    } else if !seq_lt(s[i].0, k) {
        i
    } else {
        vprops_pos_from(s, k, i + 1)
    }
}

/// Insert or replace the entry for `k`, keeping the sorted order.
pub open spec fn vprops_insert(s: Seq<(Seq<char>, PropVal)>, k: Seq<char>, v: PropVal) -> Seq<
    (Seq<char>, PropVal),
> {
    let p = vprops_pos_from(s, k, 0);
    if p < s.len() && s[p].0 == k {
        s.update(p, (k, v))
    } else {
        s.insert(p, (k, v))
    }
}

pub proof fn lemma_vprops_find_properties(s: Seq<(Seq<char>, PropVal)>, k: Seq<char>, i: int)
    requires
        0 <= i <= s.len(),
    ensures
        vprops_find_from(s, k, i) == -1 || (i <= vprops_find_from(s, k, i) < s.len()
            && s[vprops_find_from(s, k, i)].0 == k),
        vprops_find_from(s, k, i) == -1 ==> forall|j: int| i <= j < s.len() ==> s[j].0 != k,
        forall|j: int| i <= j < vprops_find_from(s, k, i) ==> s[j].0 != k,
    decreases s.len() - i,
{
    if i < s.len() && s[i].0 != k {
        lemma_vprops_find_properties(s, k, i + 1);
    }
}

pub proof fn lemma_vprops_pos_properties(s: Seq<(Seq<char>, PropVal)>, k: Seq<char>, i: int)
    requires
        0 <= i <= s.len(),
    ensures
        i <= vprops_pos_from(s, k, i) <= s.len(),
        forall|j: int| i <= j < vprops_pos_from(s, k, i) ==> seq_lt(#[trigger] s[j].0, k),
        vprops_pos_from(s, k, i) < s.len() ==> !seq_lt(s[vprops_pos_from(s, k, i)].0, k),
    decreases s.len() - i,
{
    if i < s.len() && seq_lt(s[i].0, k) {
        lemma_vprops_pos_properties(s, k, i + 1);
    }
}

/// Inserting keeps the entries sorted.
pub proof fn lemma_vprops_insert_sorted(s: Seq<(Seq<char>, PropVal)>, k: Seq<char>, v: PropVal)
    requires
        vprops_sorted(s),
    ensures
        vprops_sorted(vprops_insert(s, k, v)),
{
    let p = vprops_pos_from(s, k, 0);
    lemma_vprops_pos_properties(s, k, 0);
    let t = vprops_insert(s, k, v);
    if p < s.len() && s[p].0 == k {
        assert forall|i: int, j: int| 0 <= i < j < t.len() implies seq_lt(
            #[trigger] t[i].0,
            #[trigger] t[j].0,
        ) by {
            assert(t[i].0 == s[i].0);
            assert(t[j].0 == s[j].0);
        }
    } else {
        // entries before p are strictly below k; entries at or after p are
        // strictly above k (not below and not equal)
        assert forall|j: int| p <= j < s.len() implies seq_lt(k, #[trigger] s[j].0) by {
            lemma_seq_lt_trichotomy(k, s[p].0);
            if k =~= s[p].0 {
                assert(s[p].0 == k);
                assert(false);
            }
            assert(seq_lt(k, s[p].0));
            if j > p {
                assert(seq_lt(s[p].0, s[j].0));
                lemma_seq_lt_trans(k, s[p].0, s[j].0);
            }
        }
        assert forall|i: int, j: int| 0 <= i < j < t.len() implies seq_lt(
            #[trigger] t[i].0,
            #[trigger] t[j].0,
        ) by {
            if i < p && j < p {
                assert(t[i].0 == s[i].0 && t[j].0 == s[j].0);
            } else if i < p && j == p {
                assert(t[i].0 == s[i].0 && t[j].0 == k);
            } else if i < p && j > p {
                assert(t[i].0 == s[i].0 && t[j].0 == s[j - 1].0);
            } else if i == p {
                assert(t[i].0 == k && t[j].0 == s[j - 1].0);
            } else {
                assert(t[i].0 == s[i - 1].0 && t[j].0 == s[j - 1].0);
            }
        }
    }
}

/// Inserting a well-formed value keeps every entry well-formed.
pub proof fn lemma_vprops_insert_wf(s: Seq<(Seq<char>, PropVal)>, k: Seq<char>, v: PropVal)
    requires
        ventries_wf(s),
        vpv_wf(v),
    ensures
        ventries_wf(vprops_insert(s, k, v)),
{
    let t = vprops_insert(s, k, v);
    lemma_ventries_wf_index(s);
    lemma_ventries_wf_index(t);
    let p = vprops_pos_from(s, k, 0);
    lemma_vprops_pos_properties(s, k, 0);
    assert forall|i: int| 0 <= i < t.len() implies vpv_wf(#[trigger] t[i].1) by {
        if p < s.len() && s[p].0 == k {
            if i != p {
                assert(t[i] == s[i]);
            }
        } else {
            if i < p {
                assert(t[i] == s[i]);
            } else if i > p {
                assert(t[i] == s[i - 1]);
            }
        }
    }
}

// ---- Sorted property lists are canonical -----------------------------------

/// A key present at an index is the one the search finds.
pub proof fn lemma_sorted_find_is(s: Seq<(Seq<char>, PropVal)>, q: Seq<char>, j: int)
    requires
        vprops_sorted(s),
        0 <= j < s.len(),
        s[j].0 == q,
    ensures
        vprops_find(s, q) == j,
{
    lemma_vprops_find_properties(s, q, 0);
    let f = vprops_find(s, q);
    if f == -1 {
        assert(s[j].0 != q);
        assert(false);
    }
    if f < j {
        assert(seq_lt(s[f].0, s[j].0));
        lemma_seq_lt_asym(s[f].0, s[j].0);
        assert(false);
    }
    if f > j {
        assert(s[j].0 != q);
        assert(false);
    }
}

/// Searching from `i` is searching the suffix.
pub proof fn lemma_find_from_sub(s: Seq<(Seq<char>, PropVal)>, q: Seq<char>, i: int)
    requires
        0 <= i <= s.len(),
    ensures
        ({
            let t = s.subrange(i, s.len() as int);
            vprops_find_from(s, q, i) == (if vprops_find(t, q) == -1 {
                -1
            } else {
                vprops_find(t, q) + i
            })
        }),
    decreases s.len() - i,
{
    let t = s.subrange(i, s.len() as int);
    if i < s.len() {
        assert(t[0] == s[i]);
        if s[i].0 == q {
            assert(vprops_find_from(s, q, i) == i);
            assert(vprops_find_from(t, q, 0) == 0);
            assert(vprops_find(t, q) == 0);
            assert(vprops_find_from(s, q, i) == (if vprops_find(t, q) == -1 {
                -1
            } else {
                vprops_find(t, q) + i
            }));
        } else {
            let sub2 = s.subrange(i + 1, s.len() as int);
            lemma_vprops_find_properties(sub2, q, 0);
            lemma_find_from_sub(s, q, i + 1);
            assert(t.subrange(1, t.len() as int) =~= sub2);
            lemma_find_from_sub(t, q, 1);
            assert(vprops_find_from(s, q, i) == vprops_find_from(s, q, i + 1));
            assert(vprops_find_from(t, q, 0) == vprops_find_from(t, q, 1));
            assert(vprops_find_from(s, q, i + 1) == (if vprops_find(sub2, q) == -1 {
                -1
            } else {
                vprops_find(sub2, q) + i + 1
            }));
            assert(vprops_find_from(t, q, 1) == (if vprops_find(sub2, q) == -1 {
                -1
            } else {
                vprops_find(sub2, q) + 1
            }));
            assert(t[0].0 != q);
            assert(vprops_find_from(t, q, 0) == vprops_find_from(t, q, 1));
            assert(vprops_find(t, q) == vprops_find_from(t, q, 0));
            assert(vprops_find_from(s, q, i) == (if vprops_find(t, q) == -1 {
                -1
            } else {
                vprops_find(t, q) + i
            }));
        }
    } else {
        assert(t.len() == 0);
        assert(vprops_find(t, q) == -1);
        assert(vprops_find_from(s, q, i) == -1);
        assert(vprops_find_from(s, q, i) == (if vprops_find(t, q) == -1 {
            -1
        } else {
            vprops_find(t, q) + i
        }));
    }
}

/// Looking a key up after a sorted insert: the inserted key has the new
/// value, every other key is untouched.
pub proof fn lemma_vprops_insert_get(
    s: Seq<(Seq<char>, PropVal)>,
    k: Seq<char>,
    v: PropVal,
    q: Seq<char>,
)
    requires
        vprops_sorted(s),
    ensures
        vprops_get(vprops_insert(s, k, v), q) == (if q == k {
            Option::Some(v)
        } else {
            vprops_get(s, q)
        }),
{
    let p = vprops_pos_from(s, k, 0);
    lemma_vprops_pos_properties(s, k, 0);
    lemma_vprops_insert_sorted(s, k, v);
    lemma_vprops_find_properties(s, q, 0);
    let t = vprops_insert(s, k, v);
    if p < s.len() && s[p].0 == k {
        // replacement: the names are unchanged
        assert(forall|j: int| 0 <= j < s.len() ==> #[trigger] t[j].0 == s[j].0);
        if q == k {
            lemma_sorted_find_is(t, k, p);
        } else {
            let f = vprops_find(s, q);
            if f >= 0 {
                lemma_sorted_find_is(t, q, f);
                assert(f != p);
            } else {
                lemma_vprops_find_properties(t, q, 0);
                let ft = vprops_find(t, q);
                if ft >= 0 {
                    assert(s[ft].0 == q);
                    assert(false);
                }
            }
        }
    } else {
        // a fresh entry at position p; s has no entry named k
        assert forall|j: int| 0 <= j < s.len() implies s[j].0 != k by {
            if s[j].0 == k {
                if j < p {
                    lemma_seq_lt_asym(s[j].0, k);
                } else if j == p {
                } else {
                    assert(p < s.len());
                    assert(seq_lt(s[p].0, s[j].0));
                }
            }
        }
        assert(forall|j: int| 0 <= j < p ==> #[trigger] t[j] == s[j]);
        assert(t[p] == (k, v));
        assert(forall|j: int| p < j < t.len() ==> #[trigger] t[j] == s[j - 1]);
        if q == k {
            lemma_sorted_find_is(t, k, p);
        } else {
            let f = vprops_find(s, q);
            if f >= 0 {
                if f < p {
                    lemma_sorted_find_is(t, q, f);
                } else {
                    lemma_sorted_find_is(t, q, f + 1);
                }
            } else {
                lemma_vprops_find_properties(t, q, 0);
                let ft = vprops_find(t, q);
                if ft >= 0 {
                    assert(t[ft].0 == q);
                    if ft < p {
                        assert(s[ft].0 == q);
                    } else if ft == p {
                        assert(q == k);
                    } else {
                        assert(s[ft - 1].0 == q);
                    }
                    assert(false);
                }
            }
        }
    }
}

/// Canonical form: two sorted property lists holding the same contents are
/// the same list. With the serializer being a function of the list, the
/// same contents always print as the same bytes, whatever order the
/// entries were inserted in.
pub proof fn lemma_sorted_props_canonical(s: Seq<(Seq<char>, PropVal)>, t: Seq<(Seq<char>, PropVal)>)
    requires
        vprops_sorted(s),
        vprops_sorted(t),
        forall|q: Seq<char>| #[trigger] vprops_get(s, q) == vprops_get(t, q),
    ensures
        s =~= t,
    decreases s.len() + t.len(),
{
    if s.len() == 0 && t.len() == 0 {
    } else if s.len() == 0 {
        assert(vprops_get(t, t[0].0) == Option::Some(t[0].1));
        assert(vprops_get(s, t[0].0) is None);
        assert(false);
    } else if t.len() == 0 {
        assert(vprops_get(s, s[0].0) == Option::Some(s[0].1));
        assert(vprops_get(t, s[0].0) is None);
        assert(false);
    } else {
        let sk = s[0].0;
        let tk = t[0].0;
        lemma_seq_lt_trichotomy(sk, tk);
        if seq_lt(sk, tk) {
            assert forall|j: int| 0 <= j < t.len() implies t[j].0 != sk by {
                if j == 0 {
                    lemma_seq_lt_asym(sk, tk);
                    if t[j].0 == sk {
                        assert(seq_lt(sk, sk));
                        lemma_seq_lt_asym(sk, sk);
                    }
                } else {
                    assert(seq_lt(tk, t[j].0));
                    lemma_seq_lt_trans(sk, tk, t[j].0);
                    if t[j].0 == sk {
                        assert(seq_lt(sk, sk));
                        lemma_seq_lt_asym(sk, sk);
                    }
                }
            }
            lemma_vprops_find_properties(t, sk, 0);
            assert(vprops_get(t, sk) is None);
            assert(vprops_get(s, sk) == Option::Some(s[0].1));
            assert(false);
        } else if seq_lt(tk, sk) {
            assert forall|j: int| 0 <= j < s.len() implies s[j].0 != tk by {
                if j == 0 {
                    if s[j].0 == tk {
                        assert(seq_lt(tk, tk));
                        lemma_seq_lt_asym(tk, tk);
                    }
                } else {
                    assert(seq_lt(sk, s[j].0));
                    lemma_seq_lt_trans(tk, sk, s[j].0);
                    if s[j].0 == tk {
                        assert(seq_lt(tk, tk));
                        lemma_seq_lt_asym(tk, tk);
                    }
                }
            }
            lemma_vprops_find_properties(s, tk, 0);
            assert(vprops_get(s, tk) is None);
            assert(vprops_get(t, tk) == Option::Some(t[0].1));
            assert(false);
        } else {
            assert(sk == tk);
            assert(vprops_get(s, sk) == Option::Some(s[0].1));
            assert(vprops_get(t, sk) == Option::Some(t[0].1));
            assert(s[0].1 == t[0].1);
            let st = s.subrange(1, s.len() as int);
            let tt = t.subrange(1, t.len() as int);
            assert forall|i: int, j: int| 0 <= i < j < st.len() implies seq_lt(
                #[trigger] st[i].0,
                #[trigger] st[j].0,
            ) by {
                assert(st[i] == s[i + 1] && st[j] == s[j + 1]);
            }
            assert forall|i: int, j: int| 0 <= i < j < tt.len() implies seq_lt(
                #[trigger] tt[i].0,
                #[trigger] tt[j].0,
            ) by {
                assert(tt[i] == t[i + 1] && tt[j] == t[j + 1]);
            }
            assert forall|q: Seq<char>| #[trigger] vprops_get(st, q) == vprops_get(tt, q) by {
                lemma_get_tail(s, q);
                lemma_get_tail(t, q);
                if q == sk {
                    lemma_tail_misses_head(s);
                    lemma_tail_misses_head(t);
                }
            }
            lemma_sorted_props_canonical(st, tt);
            assert(s[0] == t[0]);
            assert(s.len() == t.len());
            assert forall|j: int| 0 <= j < s.len() implies s[j] == t[j] by {
                if j > 0 {
                    assert(st[j - 1] == s[j]);
                    assert(tt[j - 1] == t[j]);
                }
            }
            assert(s =~= t);
        }
    }
}

/// Looking up in the tail: same as in the whole list, unless the key is
/// the head's.
proof fn lemma_get_tail(s: Seq<(Seq<char>, PropVal)>, q: Seq<char>)
    requires
        s.len() > 0,
    ensures
        s[0].0 != q ==> vprops_get(s.subrange(1, s.len() as int), q) == vprops_get(s, q),
{
    if s[0].0 != q {
        lemma_find_from_sub(s, q, 1);
        assert(s.subrange(1, s.len() as int) =~= s.subrange(1, s.len() as int));
        let st = s.subrange(1, s.len() as int);
        let f = vprops_find(st, q);
        if f >= 0 {
            lemma_vprops_find_properties(st, q, 0);
            assert(s[f + 1] == st[f]);
        }
    }
}

/// In a sorted list, the head's key does not recur in the tail.
proof fn lemma_tail_misses_head(s: Seq<(Seq<char>, PropVal)>)
    requires
        vprops_sorted(s),
        s.len() > 0,
    ensures
        vprops_get(s.subrange(1, s.len() as int), s[0].0) is None,
{
    let st = s.subrange(1, s.len() as int);
    let k = s[0].0;
    assert forall|j: int| 0 <= j < st.len() implies st[j].0 != k by {
        assert(st[j] == s[j + 1]);
        assert(seq_lt(k, s[j + 1].0));
        if st[j].0 == k {
            assert(seq_lt(k, k));
            lemma_seq_lt_asym(k, k);
        }
    }
    lemma_vprops_find_properties(st, k, 0);
}

// ---- Executable property map operations ----------------------------------

/// Find the index of `key` in the property list, scanning from `i`.
fn props_find_from(props: &Vec<Property>, key: &str, i: usize) -> (r: Option<usize>)
    requires
        i <= props@.len(),
    ensures
        match r {
            Option::Some(j) => i <= j < props@.len() && vprops_find_from(
                view_props(props@),
                key@,
                i as int,
            ) == j as int,
            Option::None => vprops_find_from(view_props(props@), key@, i as int) == -1,
        },
    decreases props@.len() - i,
{
    proof {
        lemma_view_props_index(props@);
    }
    if i >= props.len() {
        Option::None
    } else if str_eq(props[i].name.as_str(), key) {
        Option::Some(i)
    } else {
        props_find_from(props, key, i + 1)
    }
}

/// Look a property up by name.
pub fn props_get<'a>(props: &'a Vec<Property>, key: &str) -> (r: Option<&'a MOTLYPropertyValue>)
    ensures
        match r {
            Option::Some(pv) => vprops_get(view_props(props@), key@) == Option::Some(view_pv(*pv)),
            Option::None => vprops_get(view_props(props@), key@) is None,
        },
{
    proof {
        lemma_view_props_index(props@);
    }
    match props_find_from(props, key, 0) {
        Option::Some(j) => Option::Some(&props[j].value),
        Option::None => Option::None,
    }
}

/// Whether the name of entry `p` is strictly below the key `kc`.
fn name_lt(props: &Vec<Property>, p: usize, kc: &Vec<char>) -> (r: bool)
    requires
        p < props@.len(),
    ensures
        r == seq_lt(view_props(props@)[p as int].0, kc@),
{
    proof {
        lemma_view_props_index(props@);
    }
    let nc = str_to_chars(props[p].name.as_str());
    chars_lt(&nc, kc)
}

/// Insert or replace a property, keeping the list sorted by name.
pub fn props_insert(props: &mut Vec<Property>, key: String, value: MOTLYPropertyValue)
    ensures
        view_props(final(props)@) == vprops_insert(
            view_props(old(props)@),
            key@,
            view_pv(value),
        ),
{
    proof {
        lemma_view_props_index(old(props)@);
    }
    let kc = str_to_chars(key.as_str());
    let ghost s = view_props(old(props)@);
    let ghost kview = key@;
    let ghost vview = view_pv(value);
    let mut p: usize = 0;
    while p < props.len() && name_lt(props, p, &kc)
        invariant
            p <= props@.len(),
            props@ == old(props)@,
            kc@ == kview,
            s == view_props(props@),
            s.len() == props@.len(),
            vprops_pos_from(s, kview, 0) == vprops_pos_from(s, kview, p as int),
        decreases props@.len() - p,
    {
        proof {
            lemma_view_props_index(props@);
            assert(seq_lt(s[p as int].0, kview));
        }
        p += 1;
    }
    proof {
        lemma_view_props_index(props@);
        if p < props@.len() {
            assert(!seq_lt(s[p as int].0, kview));
        }
        assert(vprops_pos_from(s, kview, p as int) == p as int);
    }
    let entry = Property { name: key, value };
    let ghost ge = entry;
    proof {
        assert(ge.name@ == kview);
        assert(view_pv(ge.value) == vview);
    }
    if p < props.len() && str_eq(props[p].name.as_str(), entry.name.as_str()) {
        proof {
            lemma_view_props_index(props@);
            assert(s[p as int].0 == kview);
        }
        let ghost before = props@;
        props.remove(p);
        props.insert(p, entry);
        proof {
            assert(props@ =~= before.update(p as int, ge));
            lemma_view_props_update(before, p as int, ge);
            assert(view_props(props@) =~= vprops_insert(s, kview, vview));
        }
    } else {
        proof {
            lemma_view_props_index(props@);
            if p < props@.len() {
                assert(s[p as int].0 != kview);
            }
        }
        let ghost before = props@;
        props.insert(p, entry);
        proof {
            assert(props@ =~= before.insert(p as int, ge));
            lemma_view_props_insert_at(before, p as int, ge);
            assert(view_props(props@) =~= vprops_insert(s, kview, vview));
        }
    }
}

proof fn lemma_view_props_update(s: Seq<Property>, p: int, e: Property)
    requires
        0 <= p < s.len(),
    ensures
        view_props(s.update(p, e)) =~= view_props(s).update(p, (e.name@, view_pv(e.value))),
{
    lemma_view_props_index(s);
    lemma_view_props_index(s.update(p, e));
}

proof fn lemma_view_props_insert_at(s: Seq<Property>, p: int, e: Property)
    requires
        0 <= p <= s.len(),
    ensures
        view_props(s.insert(p, e)) =~= view_props(s).insert(p, (e.name@, view_pv(e.value))),
{
    lemma_view_props_index(s);
    lemma_view_props_index(s.insert(p, e));
}

// ---- Deep clone -----------------------------------------------------------

pub fn clone_number(n: &Number) -> (r: Number)
    ensures
        view_number(r) == view_number(*n),
{
    match n {
        Number::Integer(i) => Number::Integer(*i),
        Number::Decimal(s) => Number::Decimal(s.clone()),
    }
}

pub fn clone_scalar(s: &Scalar) -> (r: Scalar)
    ensures
        view_scalar(r) == view_scalar(*s),
{
    match s {
        Scalar::String(v) => Scalar::String(v.clone()),
        Scalar::Number(n) => Scalar::Number(clone_number(n)),
        Scalar::Boolean(b) => Scalar::Boolean(*b),
        Scalar::Date(d) => Scalar::Date(d.clone()),
    }
}

#[verifier::loop_isolation(false)]
pub fn clone_eq(e: &EqValue) -> (r: EqValue)
    ensures
        view_eq(r) == view_eq(*e),
    decreases *e,
{
    match e {
        EqValue::Scalar(s) => EqValue::Scalar(clone_scalar(s)),
        EqValue::Array(a) => {
            let mut out: Vec<MOTLYPropertyValue> = Vec::new();
            let mut i: usize = 0;
            while i < a.len()
                invariant
                    i <= a@.len(),
                    out@.len() == i,
                    forall|j: int| 0 <= j < i ==> view_pv(#[trigger] out@[j]) == view_pv(a@[j]),
                decreases a@.len() - i,
            {
                proof {
                    assert(decreases_to!(*e => *a));
                    assert(decreases_to!(*a => a@));
                    assert(decreases_to!(a@ => a@[i as int]));
                }
                out.push(clone_pv(&a[i]));
                i += 1;
            }
            proof {
                lemma_view_pvs_index(a@);
                lemma_view_pvs_index(out@);
                assert(view_pvs(out@) =~= view_pvs(a@));
            }
            EqValue::Array(out)
        },
        EqValue::EnvRef(n) => EqValue::EnvRef(n.clone()),
    }
}

pub fn clone_pv(p: &MOTLYPropertyValue) -> (r: MOTLYPropertyValue)
    ensures
        view_pv(r) == view_pv(*p),
    decreases *p,
{
    match p {
        MOTLYPropertyValue::Node(n) => MOTLYPropertyValue::Node(clone_node(n)),
        MOTLYPropertyValue::Ref(s) => MOTLYPropertyValue::Ref(s.clone()),
    }
}

/// Deep copy of a node; the copy has the same view, so the same contents.
#[verifier::loop_isolation(false)]
pub fn clone_node(n: &MOTLYNode) -> (r: MOTLYNode)
    ensures
        view_node(r) == view_node(*n),
    decreases *n,
{
    let eq = match &n.eq {
        Option::Some(e) => Option::Some(clone_eq(e)),
        Option::None => Option::None,
    };
    let properties = match &n.properties {
        Option::Some(ps) => {
            let mut out: Vec<Property> = Vec::new();
            let mut i: usize = 0;
            while i < ps.len()
                invariant
                    i <= ps@.len(),
                    out@.len() == i,
                    forall|j: int|
                        0 <= j < i ==> #[trigger] out@[j].name@ == ps@[j].name@ && view_pv(
                            out@[j].value,
                        ) == view_pv(ps@[j].value),
                decreases ps@.len() - i,
            {
                proof {
                    assert(decreases_to!(*n => *ps));
                    assert(decreases_to!(*ps => ps@));
                    assert(decreases_to!(ps@ => ps@[i as int]));
                    assert(decreases_to!(ps@[i as int] => ps@[i as int].value));
                }
                out.push(Property { name: ps[i].name.clone(), value: clone_pv(&ps[i].value) });
                i += 1;
            }
            proof {
                lemma_view_props_index(ps@);
                lemma_view_props_index(out@);
                assert(view_props(out@) =~= view_props(ps@));
            }
            Option::Some(out)
        },
        Option::None => Option::None,
    };
    MOTLYNode { eq, properties, deleted: n.deleted }
}

// ---- Node and property value helpers --------------------------------------

impl MOTLYNode {
    /// The empty node: no value, no properties, not deleted.
    pub fn new() -> (r: MOTLYNode)
        ensures
            view_node(r) == empty_node_val(),
    {
        MOTLYNode { eq: Option::None, properties: Option::None, deleted: false }
    }

    /// A node carrying only a value slot.
    pub fn with_eq(eq: EqValue) -> (r: MOTLYNode)
        ensures
            view_node(r) == (NodeVal {
                eq: Option::Some(view_eq(eq)),
                properties: Option::None,
                deleted: false,
            }),
    {
        MOTLYNode { eq: Option::Some(eq), properties: Option::None, deleted: false }
    }

    /// A tombstone: the name was explicitly removed.
    pub fn deleted() -> (r: MOTLYNode)
        ensures
            view_node(r) == (NodeVal {
                eq: Option::None,
                properties: Option::None,
                deleted: true,
            }),
    {
        MOTLYNode { eq: Option::None, properties: Option::None, deleted: true }
    }

    /// Make sure the property map exists (empty if it was absent); value
    /// slot and tombstone flag are untouched.
    pub fn get_or_create_properties(&mut self)
        ensures
            final(self).properties is Some,
            view_node(*final(self)) == (NodeVal {
                properties: match view_node(*old(self)).properties {
                    Option::Some(ps) => Option::Some(ps),
                    Option::None => Option::Some(Seq::empty()),
                },
                ..view_node(*old(self))
            }),
    {
        if self.properties.is_none() {
            self.properties = Option::Some(Vec::new());
            proof {
                assert(view_props(Seq::<Property>::empty()) =~= Seq::<(
                    Seq<char>,
                    PropVal,
                )>::empty());
            }
        }
    }

    /// Whether the value slot is an environment reference.
    pub fn is_env_ref(&self) -> (r: bool)
        ensures
            r == (view_node(*self).eq matches Some(EqVal::EnvRef(_))),
    {
        match &self.eq {
            Option::Some(EqValue::EnvRef(_)) => true,
            _ => false,
        }
    }
}

impl Default for MOTLYNode {
    /// The default node is the empty node.
    fn default() -> (r: MOTLYNode)
        ensures
            view_node(r) == empty_node_val(),
    {
        MOTLYNode::new()
    }
}

impl MOTLYPropertyValue {
    /// A property holding a fresh empty node.
    pub fn new_node() -> (r: MOTLYPropertyValue)
        ensures
            view_pv(r) == PropVal::Node(empty_node_val()),
    {
        MOTLYPropertyValue::Node(MOTLYNode::new())
    }

    /// Whether this property is a link.
    pub fn is_ref(&self) -> (r: bool)
        ensures
            r == (view_pv(*self) is Ref),
    {
        match self {
            MOTLYPropertyValue::Ref(_) => true,
            MOTLYPropertyValue::Node(_) => false,
        }
    }

    /// The inner node, if this property holds one.
    pub fn as_node(&self) -> (r: Option<&MOTLYNode>)
        ensures
            match r {
                Option::Some(n) => view_pv(*self) == PropVal::Node(view_node(*n)),
                Option::None => view_pv(*self) is Ref,
            },
    {
        match self {
            MOTLYPropertyValue::Node(n) => Option::Some(n),
            MOTLYPropertyValue::Ref(_) => Option::None,
        }
    }

    /// Convert a link into an empty node (for intermediate path traversal);
    /// a node is left as it is.
    pub fn ensure_node(&mut self)
        ensures
            view_pv(*final(self)) == (match view_pv(*old(self)) {
                PropVal::Node(n) => PropVal::Node(n),
                PropVal::Ref(_) => PropVal::Node(empty_node_val()),
            }),
    {
        if self.is_ref() {
            *self = MOTLYPropertyValue::new_node();
        }
    }
}

} // verus!
