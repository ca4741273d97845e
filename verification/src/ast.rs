//! The statement intermediate representation produced by the parser and
//! consumed by the interpreter.
use vstd::prelude::*;
use crate::num::{Number, number_wf};

verus! {

/// A scalar or reference value.
#[derive(Debug, PartialEq)]
pub enum ScalarValue {
    String(String),
    Number(Number),
    Boolean(bool),
    /// An ISO-8601 date, kept as its source text.
    Date(String),
    /// A reference: `ups` counts the leading `^`, `path` is the dotted
    /// segment list with optional array indices.
    Reference { ups: usize, path: Vec<RefPathSegment> },
    /// `@none`: clears the value slot.
    NoValue,
    /// `@env.NAME`: an environment variable reference.
    Env { name: String },
}

/// A segment in a reference path: a named property or an array index.
#[derive(Debug, PartialEq)]
pub enum RefPathSegment {
    Name(String),
    Index(usize),
}

/// A value that can be assigned with `=` or `:=`.
#[derive(Debug, PartialEq)]
pub enum TagValue {
    Scalar(ScalarValue),
    Array(Vec<ArrayElement>),
}

/// One element of an array literal.
#[derive(Debug, PartialEq)]
pub struct ArrayElement {
    pub value: Option<TagValue>,
    pub properties: Option<Vec<Statement>>,
}

/// A parsed statement.
#[derive(Debug, PartialEq)]
pub enum Statement {
    /// `name = value`: set the value slot, preserve existing properties;
    /// with a block, merge the block's statements in.
    SetEq { path: Vec<String>, value: TagValue, properties: Option<Vec<Statement>> },
    /// `name := value`: replace the whole node; with a reference, clone the
    /// referent; with a block, replace the properties.
    AssignBoth { path: Vec<String>, value: TagValue, properties: Option<Vec<Statement>> },
    /// `name: { ... }`: keep the value slot, replace the properties.
    ReplaceProperties { path: Vec<String>, properties: Vec<Statement> },
    /// `name { ... }`: merge into the existing properties.
    UpdateProperties { path: Vec<String>, properties: Vec<Statement> },
    /// `name` or `-name`: get-or-create, or a tombstone.
    Define { path: Vec<String>, deleted: bool },
    /// `-...`: drop the value slot and all properties of the current node.
    ClearAll,
}

// ---- Ghost views of statements --------------------------------------------
// The mathematical value of a statement: what the grammar assigns to source
// text, and what the parser's contracts speak of.

pub ghost enum SegV {
    Name(Seq<char>),
    Index(nat),
}

#[verifier::ext_equal]
pub ghost enum ScalarV {
    Str(Seq<char>),
    Num(crate::tree::NumberVal),
    Bool(bool),
    Date(Seq<char>),
    Reference { ups: nat, path: Seq<SegV> },
    NoVal,
    Env(Seq<char>),
}

#[verifier::ext_equal]
pub ghost enum ValueV {
    Scalar(ScalarV),
    Array(Seq<ElemV>),
}

#[verifier::ext_equal]
pub ghost struct ElemV {
    pub value: Option<ValueV>,
    pub properties: Option<Seq<StmtV>>,
}

#[verifier::ext_equal]
pub ghost enum StmtV {
    SetEq { path: Seq<Seq<char>>, value: ValueV, properties: Option<Seq<StmtV>> },
    AssignBoth { path: Seq<Seq<char>>, value: ValueV, properties: Option<Seq<StmtV>> },
    ReplaceProperties { path: Seq<Seq<char>>, properties: Seq<StmtV> },
    UpdateProperties { path: Seq<Seq<char>>, properties: Seq<StmtV> },
    Define { path: Seq<Seq<char>>, deleted: bool },
    ClearAll,
}

pub open spec fn seg_view(s: RefPathSegment) -> SegV {
    match s {
        RefPathSegment::Name(n) => SegV::Name(n@),
        RefPathSegment::Index(i) => SegV::Index(i as nat),
    }
}

pub open spec fn segs_views(s: Seq<RefPathSegment>) -> Seq<SegV> {
    Seq::new(s.len(), |i: int| seg_view(s[i]))
}

pub open spec fn path_views(p: Seq<String>) -> Seq<Seq<char>> {
    Seq::new(p.len(), |i: int| p[i]@)
}

pub open spec fn sval_view(v: ScalarValue) -> ScalarV {
    match v {
        ScalarValue::String(s) => ScalarV::Str(s@),
        ScalarValue::Number(n) => ScalarV::Num(crate::tree::view_number(n)),
        ScalarValue::Boolean(b) => ScalarV::Bool(b),
        ScalarValue::Date(d) => ScalarV::Date(d@),
        ScalarValue::Reference { ups, path } => ScalarV::Reference {
            ups: ups as nat,
            path: segs_views(path@),
        },
        ScalarValue::NoValue => ScalarV::NoVal,
        ScalarValue::Env { name } => ScalarV::Env(name@),
    }
}

pub open spec fn tval_view(v: TagValue) -> ValueV
    decreases v,
{
    match v {
        TagValue::Scalar(s) => ValueV::Scalar(sval_view(s)),
        TagValue::Array(es) => ValueV::Array(elems_views(es@)),
    }
}

pub open spec fn elems_views(es: Seq<ArrayElement>) -> Seq<ElemV>
    decreases es,
{
    if es.len() == 0 {
        Seq::empty()
    } else {
        seq![elem_view(es[0])] + elems_views(es.subrange(1, es.len() as int))
    }
}

pub open spec fn elem_view(e: ArrayElement) -> ElemV
    decreases e,
{
    ElemV {
        value: match e.value {
            Option::Some(v) => Option::Some(tval_view(v)),
            Option::None => Option::None,
        },
        properties: match e.properties {
            Option::Some(ps) => Option::Some(stmts_views(ps@)),
            Option::None => Option::None,
        },
    }
}

pub open spec fn stmts_views(ss: Seq<Statement>) -> Seq<StmtV>
    decreases ss,
{
    if ss.len() == 0 {
        Seq::empty()
    } else {
        seq![stmt_view(ss[0])] + stmts_views(ss.subrange(1, ss.len() as int))
    }
}

pub open spec fn stmt_view(s: Statement) -> StmtV
    decreases s,
{
    match s {
        Statement::SetEq { path, value, properties } => StmtV::SetEq {
            path: path_views(path@),
            value: tval_view(value),
            properties: match properties {
                Option::Some(ps) => Option::Some(stmts_views(ps@)),
                Option::None => Option::None,
            },
        },
        Statement::AssignBoth { path, value, properties } => StmtV::AssignBoth {
            path: path_views(path@),
            value: tval_view(value),
            properties: match properties {
                Option::Some(ps) => Option::Some(stmts_views(ps@)),
                Option::None => Option::None,
            },
        },
        Statement::ReplaceProperties { path, properties } => StmtV::ReplaceProperties {
            path: path_views(path@),
            properties: stmts_views(properties@),
        },
        Statement::UpdateProperties { path, properties } => StmtV::UpdateProperties {
            path: path_views(path@),
            properties: stmts_views(properties@),
        },
        Statement::Define { path, deleted } => StmtV::Define {
            path: path_views(path@),
            deleted,
        },
        Statement::ClearAll => StmtV::ClearAll,
    }
}

/// `stmts_views` maps the view over the elements.
pub proof fn lemma_stmts_views_index(ss: Seq<Statement>)
    ensures
        stmts_views(ss).len() == ss.len(),
        forall|i: int| 0 <= i < ss.len() ==> #[trigger] stmts_views(ss)[i] == stmt_view(ss[i]),
    decreases ss,
{
    if ss.len() > 0 {
        lemma_stmts_views_index(ss.subrange(1, ss.len() as int));
    }
}

/// `elems_views` maps the view over the elements.
pub proof fn lemma_elems_views_index(es: Seq<ArrayElement>)
    ensures
        elems_views(es).len() == es.len(),
        forall|i: int| 0 <= i < es.len() ==> #[trigger] elems_views(es)[i] == elem_view(es[i]),
    decreases es,
{
    if es.len() > 0 {
        lemma_elems_views_index(es.subrange(1, es.len() as int));
    }
}

// ---- Statement sizes (the termination measure of the interpreter) --------

pub open spec fn value_size(v: TagValue) -> nat
    decreases v,
{
    match v {
        TagValue::Scalar(_) => 1,
        TagValue::Array(es) => 1 + elems_size(es@),
    }
}

pub open spec fn elems_size(es: Seq<ArrayElement>) -> nat
    decreases es,
{
    if es.len() == 0 {
        0
    } else {
        1 + elem_size(es[0]) + elems_size(es.subrange(1, es.len() as int))
    }
}

pub open spec fn elem_size(e: ArrayElement) -> nat
    decreases e,
{
    1 + (match e.value {
        Option::Some(v) => value_size(v),
        Option::None => 0,
    }) + (match e.properties {
        Option::Some(ps) => stmts_size(ps@),
        Option::None => 0,
    })
}

pub open spec fn opt_stmts_size(ps: Option<Vec<Statement>>) -> nat
    decreases ps,
{
    match ps {
        Option::Some(v) => stmts_size(v@),
        Option::None => 0,
    }
}

pub open spec fn stmt_size(s: Statement) -> nat
    decreases s,
{
    match s {
        Statement::SetEq { path: _, value, properties } => 1 + value_size(value) + opt_stmts_size(
            properties,
        ),
        Statement::AssignBoth { path: _, value, properties } => 1 + value_size(value)
            + opt_stmts_size(properties),
        Statement::ReplaceProperties { path: _, properties } => 1 + stmts_size(properties@),
        Statement::UpdateProperties { path: _, properties } => 1 + stmts_size(properties@),
        Statement::Define { .. } => 1,
        Statement::ClearAll => 1,
    }
}

pub open spec fn stmts_size(ss: Seq<Statement>) -> nat
    decreases ss,
{
    if ss.len() == 0 {
        0
    } else {
        1 + stmt_size(ss[0]) + stmts_size(ss.subrange(1, ss.len() as int))
    }
}

/// Every element weighs strictly less than the whole list.
pub proof fn lemma_stmts_size_elem(ss: Seq<Statement>, j: int)
    requires
        0 <= j < ss.len(),
    ensures
        stmt_size(ss[j]) < stmts_size(ss),
    decreases ss.len(),
{
    if j > 0 {
        lemma_stmts_size_elem(ss.subrange(1, ss.len() as int), j - 1);
        assert(ss.subrange(1, ss.len() as int)[j - 1] == ss[j]);
    }
}

/// Every array element weighs strictly less than the whole array.
pub proof fn lemma_elems_size_elem(es: Seq<ArrayElement>, j: int)
    requires
        0 <= j < es.len(),
    ensures
        elem_size(es[j]) < elems_size(es),
    decreases es.len(),
{
    if j > 0 {
        lemma_elems_size_elem(es.subrange(1, es.len() as int), j - 1);
        assert(es.subrange(1, es.len() as int)[j - 1] == es[j]);
    }
}

// ---- Statement well-formedness -------------------------------------------

pub open spec fn scalar_value_wf(v: ScalarValue) -> bool {
    match v {
        ScalarValue::Number(n) => number_wf(n),
        _ => true,
    }
}

pub open spec fn value_wf(v: TagValue) -> bool
    decreases v,
{
    match v {
        TagValue::Scalar(s) => scalar_value_wf(s),
        TagValue::Array(es) => elems_wf(es@),
    }
}

pub open spec fn elems_wf(es: Seq<ArrayElement>) -> bool
    decreases es,
{
    if es.len() == 0 {
        true
    } else {
        elem_wf(es[0]) && elems_wf(es.subrange(1, es.len() as int))
    }
}

pub open spec fn elem_wf(e: ArrayElement) -> bool
    decreases e,
{
    (match e.value {
        Option::Some(v) => value_wf(v),
        Option::None => true,
    }) && (match e.properties {
        Option::Some(ps) => stmts_wf(ps@),
        Option::None => true,
    })
}

pub open spec fn opt_stmts_wf(ps: Option<Vec<Statement>>) -> bool
    decreases ps,
{
    match ps {
        Option::Some(v) => stmts_wf(v@),
        Option::None => true,
    }
}

/// A well-formed statement: every path has at least one segment, every
/// number is in range, recursively through nested blocks.
pub open spec fn stmt_wf(s: Statement) -> bool
    decreases s,
{
    match s {
        Statement::SetEq { path, value, properties } => path@.len() >= 1 && value_wf(value)
            && opt_stmts_wf(properties),
        Statement::AssignBoth { path, value, properties } => path@.len() >= 1 && value_wf(value)
            && opt_stmts_wf(properties),
        Statement::ReplaceProperties { path, properties } => path@.len() >= 1 && stmts_wf(
            properties@,
        ),
        Statement::UpdateProperties { path, properties } => path@.len() >= 1 && stmts_wf(
            properties@,
        ),
        Statement::Define { path, .. } => path@.len() >= 1,
        Statement::ClearAll => true,
    }
}

pub open spec fn stmts_wf(ss: Seq<Statement>) -> bool
    decreases ss,
{
    if ss.len() == 0 {
        true
    } else {
        stmt_wf(ss[0]) && stmts_wf(ss.subrange(1, ss.len() as int))
    }
}

/// Well-formedness of a list is well-formedness of every element.
pub proof fn lemma_stmts_wf_index(ss: Seq<Statement>)
    ensures
        stmts_wf(ss) <==> (forall|i: int| 0 <= i < ss.len() ==> stmt_wf(#[trigger] ss[i])),
    decreases ss.len(),
{
    if ss.len() > 0 {
        let sub = ss.subrange(1, ss.len() as int);
        lemma_stmts_wf_index(sub);
        assert(forall|i: int| 0 <= i < sub.len() ==> #[trigger] sub[i] == ss[i + 1]);
        if stmts_wf(ss) {
            assert forall|i: int| 0 <= i < ss.len() implies stmt_wf(#[trigger] ss[i]) by {
                if i > 0 {
                    assert(sub[i - 1] == ss[i]);
                }
            }
        }
        if forall|i: int| 0 <= i < ss.len() ==> stmt_wf(#[trigger] ss[i]) {
            assert forall|i: int| 0 <= i < sub.len() implies stmt_wf(#[trigger] sub[i]) by {
                assert(sub[i] == ss[i + 1]);
            }
        }
    }
}

/// Appending a well-formed statement keeps a list well-formed.
pub proof fn lemma_stmts_wf_push(s: Seq<Statement>, x: Statement)
    requires
        stmts_wf(s),
        stmt_wf(x),
    ensures
        stmts_wf(s.push(x)),
{
    lemma_stmts_wf_index(s);
    lemma_stmts_wf_index(s.push(x));
    assert(forall|i: int| 0 <= i < s.len() ==> s.push(x)[i] == #[trigger] s[i]);
    assert(s.push(x)[s.len() as int] == x);
}

/// Appending a well-formed element keeps an array literal well-formed.
pub proof fn lemma_elems_wf_push(s: Seq<ArrayElement>, x: ArrayElement)
    requires
        elems_wf(s),
        elem_wf(x),
    ensures
        elems_wf(s.push(x)),
{
    lemma_elems_wf_index(s);
    lemma_elems_wf_index(s.push(x));
    assert(forall|i: int| 0 <= i < s.len() ==> s.push(x)[i] == #[trigger] s[i]);
    assert(s.push(x)[s.len() as int] == x);
}

/// Well-formedness of an element list is well-formedness of every element.
pub proof fn lemma_elems_wf_index(es: Seq<ArrayElement>)
    ensures
        elems_wf(es) <==> (forall|i: int| 0 <= i < es.len() ==> elem_wf(#[trigger] es[i])),
    decreases es.len(),
{
    if es.len() > 0 {
        let sub = es.subrange(1, es.len() as int);
        lemma_elems_wf_index(sub);
        assert(forall|i: int| 0 <= i < sub.len() ==> #[trigger] sub[i] == es[i + 1]);
        if elems_wf(es) {
            assert forall|i: int| 0 <= i < es.len() implies elem_wf(#[trigger] es[i]) by {
                if i > 0 {
                    assert(sub[i - 1] == es[i]);
                }
            }
        }
        if forall|i: int| 0 <= i < es.len() ==> elem_wf(#[trigger] es[i]) {
            assert forall|i: int| 0 <= i < sub.len() implies elem_wf(#[trigger] sub[i]) by {
                assert(sub[i] == es[i + 1]);
            }
        }
    }
}

} // verus!
