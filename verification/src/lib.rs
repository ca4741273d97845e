//! MOTLY: a tag-oriented configuration language. Parser, statement
//! interpreter, document tree with JSON serialization, and validators.
pub mod ast;
pub mod error;
pub mod from_json;
pub mod interpreter;
pub mod json;
pub mod num;
pub mod parser;
pub mod text;
pub mod tree;
pub mod validate;

use vstd::prelude::*;
use crate::ast::{Statement, stmts_wf, stmts_views};
use crate::error::MOTLYError;
use crate::interpreter::{execute, spec_exec_stmts, error_codes};
use crate::tree::{MOTLYNode, view_node};

pub use validate::{validate_references, validate_schema, SchemaError, ValidationError};

verus! {

/// The result of parsing MOTLY source: the updated tree, and the errors in
/// order (a single fatal parse error, or the interpreter's non-fatal ones).
pub struct MOTLYResult {
    pub value: MOTLYNode,
    pub errors: Vec<MOTLYError>,
}

/// Parse MOTLY source and execute its statements against the given tree.
/// If the grammar rejects the source, the tree is unchanged and the single
/// error is the parse error; otherwise the statement list the grammar
/// assigns to the source was executed, and the tree and error codes are
/// exactly its interpretation. A well-formed tree (sorted unique keys,
/// numbers in range) stays well-formed.
pub fn parse_motly(input: &str, value: MOTLYNode) -> (r: MOTLYResult)
    ensures
        match crate::parser::sp_document(input@) {
            Option::Some(svs) => exists|stmts: Seq<Statement>|
                #[trigger] stmts_views(stmts) == svs && stmts_wf(stmts) && view_node(r.value)
                    == spec_exec_stmts(stmts, view_node(value)).0 && error_codes(r.errors@)
                    == spec_exec_stmts(stmts, view_node(value)).1,
            Option::None => r.errors@.len() == 1 && r.errors@[0].code@
                == "tag-parse-syntax-error"@ && view_node(r.value) == view_node(value),
        },
        crate::tree::vnode_wf(view_node(value)) ==> crate::tree::vnode_wf(view_node(r.value)),
{
    match crate::parser::parse(input) {
        Result::Ok(stmts) => {
            let mut v = value;
            let errors = execute(&stmts, &mut v);
            proof {
                assert(stmts_wf(stmts@) && view_node(v) == spec_exec_stmts(
                    stmts@,
                    view_node(value),
                ).0 && error_codes(errors@) == spec_exec_stmts(stmts@, view_node(value)).1);
                if crate::tree::vnode_wf(view_node(value)) {
                    crate::interpreter::lemma_wf_exec_stmts(stmts@, view_node(value));
                }
            }
            MOTLYResult { value: v, errors }
        },
        Result::Err(e) => {
            let mut errors: Vec<MOTLYError> = Vec::new();
            errors.push(e);
            MOTLYResult { value, errors }
        },
    }
}

} // verus!
