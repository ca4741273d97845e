//! The MOTLY parser: consumes text, yields an ordered statement list, or
//! stops at the first syntax error. It always terminates, never panics, and
//! on success the statements are well formed; every error carries the one
//! parse error code. On success the whole input has been consumed.
use vstd::prelude::*;
use crate::ast::{Statement, TagValue, ScalarValue, ArrayElement, RefPathSegment, stmt_wf,
    stmts_wf, value_wf, scalar_value_wf, elems_wf, elem_wf, opt_stmts_wf, lemma_stmts_wf_push,
    lemma_elems_wf_push, StmtV, ValueV, ScalarV, ElemV, SegV, stmt_view, stmts_views, tval_view,
    sval_view, elem_view, elems_views, seg_view, segs_views, path_views, lemma_stmts_views_index,
    lemma_elems_views_index};
use crate::tree::NumberVal;
use crate::error::{MOTLYError, Position};
use crate::num::{Number, number_from_token, spec_num_token, spec_small_int_token,
    spec_token_int_val, lemma_digits_end_eq, spec_digits_end};
use crate::text::{is_digit, is_hex_digit, hex_val, is_ws, is_bare_char, utf8_len, str_to_chars,
    chars_to_string, char_from_u32, spec_is_digit};

verus! {

struct Parser {
    input: Vec<char>,
    pos: usize,
}

/// The parser position never leaves the input.
spec fn pwf(p: Parser) -> bool {
    p.pos <= p.input@.len()
}

/// The input is never changed and the position never moves backwards.
spec fn adv(a: Parser, b: Parser) -> bool {
    b.input@ == a.input@ && a.pos <= b.pos && b.pos <= b.input@.len()
}

/// Every parse error carries the single fatal code.
spec fn perr(e: MOTLYError) -> bool {
    e.code@ == "tag-parse-syntax-error"@
}

/// The literal `lit` occurs in `s` at position `i`.
pub open spec fn lit_at(s: Seq<char>, i: int, lit: Seq<char>) -> bool {
    0 <= i && i + lit.len() <= s.len() && s.subrange(i, i + lit.len()) == lit
}

// ---- The grammar, as specification functions over the text -----------------
// `sp_*` assigns to every source text and position the value the grammar
// produces there (`None` is a syntax error). The executable parser's
// contracts say it returns exactly these values. Where a sub-parse is known
// to advance, the recursive definitions guard on that bound so that
// termination is structural; the executable proofs show the guards hold.

/// End of a run of plain whitespace characters.
pub open spec fn sp_ws_run(s: Seq<char>, i: int) -> int
    decreases s.len() - i,
{
    if i < 0 || i >= s.len() || !crate::text::spec_is_ws(s[i]) {
        i
    } else {
        sp_ws_run(s, i + 1)
    }
}

/// End of a `#` comment: the next carriage return or newline, or the end.
pub open spec fn sp_comment_end(s: Seq<char>, i: int) -> int
    decreases s.len() - i,
{
    if i < 0 || i >= s.len() || s[i] == '\r' || s[i] == '\n' {
        i
    } else {
        sp_comment_end(s, i + 1)
    }
}

pub proof fn lemma_sp_ws_run_bounds(s: Seq<char>, i: int)
    requires
        0 <= i <= s.len(),
    ensures
        i <= sp_ws_run(s, i) <= s.len(),
    decreases s.len() - i,
{
    if i < s.len() && crate::text::spec_is_ws(s[i]) {
        lemma_sp_ws_run_bounds(s, i + 1);
    }
}

pub proof fn lemma_sp_comment_end_bounds(s: Seq<char>, i: int)
    requires
        0 <= i <= s.len(),
    ensures
        i <= sp_comment_end(s, i) <= s.len(),
    decreases s.len() - i,
{
    if i < s.len() && s[i] != '\r' && s[i] != '\n' {
        lemma_sp_comment_end_bounds(s, i + 1);
    }
}

/// Position after whitespace and `#` line comments.
pub open spec fn sp_ws(s: Seq<char>, i: int) -> int
    decreases s.len() - i,
    via sp_ws_dec
{
    if i < 0 || i > s.len() {
        i
    } else {
        let j = sp_ws_run(s, i);
        if j < s.len() && s[j] == '#' {
            sp_ws(s, sp_comment_end(s, j + 1))
        } else {
            j
        }
    }
}

#[via_fn]
proof fn sp_ws_dec(s: Seq<char>, i: int) {
    if 0 <= i && i <= s.len() {
        lemma_sp_ws_run_bounds(s, i);
        let j = sp_ws_run(s, i);
        if j < s.len() && s[j] == '#' {
            lemma_sp_comment_end_bounds(s, j + 1);
        }
    }
}

pub proof fn lemma_sp_ws_bounds(s: Seq<char>, i: int)
    requires
        0 <= i <= s.len(),
    ensures
        i <= sp_ws(s, i) <= s.len(),
        sp_ws(s, i) < s.len() ==> !crate::text::spec_is_ws(s[sp_ws(s, i)]) && s[sp_ws(s, i)] != '#',
    decreases s.len() - i,
{
    lemma_sp_ws_run_bounds(s, i);
    let j = sp_ws_run(s, i);
    if j < s.len() && s[j] == '#' {
        lemma_sp_comment_end_bounds(s, j + 1);
        lemma_sp_ws_bounds(s, sp_comment_end(s, j + 1));
    } else {
        lemma_sp_ws_run_fix(s, i);
    }
}

pub proof fn lemma_sp_ws_run_fix(s: Seq<char>, i: int)
    requires
        0 <= i <= s.len(),
    ensures
        sp_ws_run(s, i) < s.len() ==> !crate::text::spec_is_ws(s[sp_ws_run(s, i)]),
    decreases s.len() - i,
{
    if i < s.len() && crate::text::spec_is_ws(s[i]) {
        lemma_sp_ws_run_fix(s, i + 1);
    }
}

/// Skipping whitespace twice is skipping it once.
pub proof fn lemma_sp_ws_idem(s: Seq<char>, i: int)
    requires
        0 <= i <= s.len(),
    ensures
        sp_ws(s, sp_ws(s, i)) == sp_ws(s, i),
{
    lemma_sp_ws_bounds(s, i);
    let j = sp_ws(s, i);
    assert(sp_ws_run(s, j) == j);
}

/// Position after whitespace, comments, and commas.
pub open spec fn sp_wsc(s: Seq<char>, i: int) -> int
    decreases s.len() - i,
    via sp_wsc_dec
{
    if i < 0 || i > s.len() {
        i
    } else {
        let j = sp_ws(s, i);
        if j < s.len() && s[j] == ',' {
            sp_wsc(s, j + 1)
        } else {
            j
        }
    }
}

#[via_fn]
proof fn sp_wsc_dec(s: Seq<char>, i: int) {
    if 0 <= i && i <= s.len() {
        lemma_sp_ws_bounds(s, i);
    }
}

pub proof fn lemma_sp_wsc_bounds(s: Seq<char>, i: int)
    requires
        0 <= i <= s.len(),
    ensures
        i <= sp_wsc(s, i) <= s.len(),
    decreases s.len() - i,
{
    lemma_sp_ws_bounds(s, i);
    let j = sp_ws(s, i);
    if j < s.len() && s[j] == ',' {
        lemma_sp_wsc_bounds(s, j + 1);
    }
}

pub proof fn lemma_sp_ws_bounds_all(s: Seq<char>)
    ensures
        forall|j: int| 0 <= j <= s.len() ==> j <= #[trigger] sp_ws(s, j) <= s.len(),
{
    assert forall|j: int| 0 <= j <= s.len() implies j <= #[trigger] sp_ws(s, j) <= s.len() by {
        lemma_sp_ws_bounds(s, j);
    }
}

pub proof fn lemma_sp_wsc_bounds_all(s: Seq<char>)
    ensures
        forall|j: int| 0 <= j <= s.len() ==> j <= #[trigger] sp_wsc(s, j) <= s.len(),
{
    assert forall|j: int| 0 <= j <= s.len() implies j <= #[trigger] sp_wsc(s, j) <= s.len() by {
        lemma_sp_wsc_bounds(s, j);
    }
}

/// Skipping whitespace before whitespace-and-commas changes nothing.
pub proof fn lemma_sp_ws_wsc(s: Seq<char>, i: int)
    requires
        0 <= i <= s.len(),
    ensures
        sp_wsc(s, sp_ws(s, i)) == sp_wsc(s, i),
{
    lemma_sp_ws_bounds(s, i);
    lemma_sp_ws_idem(s, i);
}

/// Skipping whitespace and commas twice is skipping them once.
pub proof fn lemma_sp_wsc_idem(s: Seq<char>, i: int)
    requires
        0 <= i <= s.len(),
    ensures
        sp_wsc(s, sp_wsc(s, i)) == sp_wsc(s, i),
    decreases s.len() - i,
{
    lemma_sp_ws_bounds(s, i);
    let j = sp_ws(s, i);
    if j < s.len() && s[j] == ',' {
        lemma_sp_wsc_idem(s, j + 1);
    } else {
        lemma_sp_ws_idem(s, i);
        assert(sp_ws(s, j) == j);
    }
}

/// End of a run of bare (identifier) characters.
pub open spec fn sp_bare_end(s: Seq<char>, i: int) -> int
    decreases s.len() - i,
{
    if i < 0 || i >= s.len() || !crate::text::spec_is_bare(s[i]) {
        i
    } else {
        sp_bare_end(s, i + 1)
    }
}

pub proof fn lemma_sp_bare_end_bounds(s: Seq<char>, i: int)
    requires
        0 <= i <= s.len(),
    ensures
        i <= sp_bare_end(s, i) <= s.len(),
    decreases s.len() - i,
{
    if i < s.len() && crate::text::spec_is_bare(s[i]) {
        lemma_sp_bare_end_bounds(s, i + 1);
    }
}

/// A bare string: one or more bare characters, taken verbatim.
pub open spec fn sp_bare(s: Seq<char>, i: int) -> Option<(Seq<char>, int)> {
    let e = sp_bare_end(s, i);
    if e > i {
        Option::Some((s.subrange(i, e), e))
    } else {
        Option::None
    }
}

/// Four hex digits and their value.
pub open spec fn sp_hex4(s: Seq<char>, i: int) -> Option<(int, int)> {
    if 0 <= i && i + 4 <= s.len() && crate::text::spec_is_hex_digit(s[i])
        && crate::text::spec_is_hex_digit(s[i + 1]) && crate::text::spec_is_hex_digit(s[i + 2])
        && crate::text::spec_is_hex_digit(s[i + 3]) {
        Option::Some(
            (
                ((crate::text::spec_hex_val(s[i]) * 16 + crate::text::spec_hex_val(s[i + 1])) * 16
                    + crate::text::spec_hex_val(s[i + 2])) * 16 + crate::text::spec_hex_val(
                    s[i + 3],
                ),
                i + 4,
            ),
        )
    } else {
        Option::None
    }
}

/// The character(s) an escape after a backslash denotes: short escapes,
/// `\uXXXX` with surrogate pairing (lone surrogates become U+FFFD), or the
/// escaped character itself.
pub open spec fn sp_escape(s: Seq<char>, i: int) -> Option<(Seq<char>, int)> {
    if i < 0 || i >= s.len() {
        Option::None
    } else if s[i] == 'b' {
        Option::Some((seq!['\u{0008}'], i + 1))
    } else if s[i] == 'f' {
        Option::Some((seq!['\u{000C}'], i + 1))
    } else if s[i] == 'n' {
        Option::Some((seq!['\n'], i + 1))
    } else if s[i] == 'r' {
        Option::Some((seq!['\r'], i + 1))
    } else if s[i] == 't' {
        Option::Some((seq!['\t'], i + 1))
    } else if s[i] == 'u' {
        match sp_hex4(s, i + 1) {
            Option::Some((first, j)) => {
                if 0xD800 <= first && first <= 0xDBFF {
                    if lit_at(s, j, "\\u"@) {
                        match sp_hex4(s, j + 2) {
                            Option::Some((low, k)) => {
                                if 0xDC00 <= low && low <= 0xDFFF {
                                    Option::Some(
                                        (
                                            seq![
                                                (((0x10000 + (first - 0xD800) * 0x400 + (low
                                                    - 0xDC00)) as u32) as char),
                                            ],
                                            k,
                                        ),
                                    )
                                } else {
                                    Option::Some((seq!['\u{FFFD}'], k))
                                }
                            },
                            Option::None => Option::None,
                        }
                    } else {
                        Option::Some((seq!['\u{FFFD}'], j))
                    }
                } else if 0xDC00 <= first && first <= 0xDFFF {
                    Option::Some((seq!['\u{FFFD}'], j))
                } else {
                    Option::Some((seq![((first as u32) as char)], j))
                }
            },
            Option::None => Option::None,
        }
    } else {
        Option::Some((seq![s[i]], i + 1))
    }
}

pub proof fn lemma_sp_escape_bounds(s: Seq<char>, i: int)
    requires
        0 <= i,
    ensures
        match sp_escape(s, i) {
            Option::Some(p) => i < p.1 <= s.len(),
            Option::None => true,
        },
{
}

/// The body of a `"..."` string from inside the quotes, and the position
/// after the closing quote.
pub open spec fn sp_dq_tail(s: Seq<char>, i: int) -> Option<(Seq<char>, int)>
    decreases s.len() - i,
    via sp_dq_tail_dec
{
    if i < 0 || i >= s.len() || s[i] == '\r' || s[i] == '\n' {
        Option::None
    } else if s[i] == '"' {
        Option::Some((Seq::empty(), i + 1))
    } else if s[i] == '\\' {
        match sp_escape(s, i + 1) {
            Option::Some((t, j)) => {
                match sp_dq_tail(s, j) {
                    Option::Some((rest, e)) => Option::Some((t + rest, e)),
                    Option::None => Option::None,
                }
            },
            Option::None => Option::None,
        }
    } else {
        match sp_dq_tail(s, i + 1) {
            Option::Some((rest, e)) => Option::Some((seq![s[i]] + rest, e)),
            Option::None => Option::None,
        }
    }
}

#[via_fn]
proof fn sp_dq_tail_dec(s: Seq<char>, i: int) {
    if 0 <= i && i < s.len() && s[i] == '\\' {
        lemma_sp_escape_bounds(s, i + 1);
    }
}

pub open spec fn sp_dq(s: Seq<char>, i: int) -> Option<(Seq<char>, int)> {
    if 0 <= i && i < s.len() && s[i] == '"' {
        sp_dq_tail(s, i + 1)
    } else {
        Option::None
    }
}

/// The body of a `` ` `` string (escapes honored, no newlines).
pub open spec fn sp_bt_tail(s: Seq<char>, i: int) -> Option<(Seq<char>, int)>
    decreases s.len() - i,
    via sp_bt_tail_dec
{
    if i < 0 || i >= s.len() || s[i] == '\r' || s[i] == '\n' {
        Option::None
    } else if s[i] == '`' {
        Option::Some((Seq::empty(), i + 1))
    } else if s[i] == '\\' {
        match sp_escape(s, i + 1) {
            Option::Some((t, j)) => {
                match sp_bt_tail(s, j) {
                    Option::Some((rest, e)) => Option::Some((t + rest, e)),
                    Option::None => Option::None,
                }
            },
            Option::None => Option::None,
        }
    } else {
        match sp_bt_tail(s, i + 1) {
            Option::Some((rest, e)) => Option::Some((seq![s[i]] + rest, e)),
            Option::None => Option::None,
        }
    }
}

#[via_fn]
proof fn sp_bt_tail_dec(s: Seq<char>, i: int) {
    if 0 <= i && i < s.len() && s[i] == '\\' {
        lemma_sp_escape_bounds(s, i + 1);
    }
}

pub open spec fn sp_backtick(s: Seq<char>, i: int) -> Option<(Seq<char>, int)> {
    if 0 <= i && i < s.len() && s[i] == '`' {
        sp_bt_tail(s, i + 1)
    } else {
        Option::None
    }
}

/// The body of a raw `'...'` string: a backslash stays and absorbs the
/// next character.
pub open spec fn sp_sq_tail(s: Seq<char>, i: int) -> Option<(Seq<char>, int)>
    decreases s.len() - i,
{
    if i < 0 || i >= s.len() || s[i] == '\r' || s[i] == '\n' {
        Option::None
    } else if s[i] == '\'' {
        Option::Some((Seq::empty(), i + 1))
    } else if s[i] == '\\' {
        if i + 1 >= s.len() || s[i + 1] == '\r' || s[i + 1] == '\n' {
            Option::None
        } else {
            match sp_sq_tail(s, i + 2) {
                Option::Some((rest, e)) => Option::Some((seq!['\\', s[i + 1]] + rest, e)),
                Option::None => Option::None,
            }
        }
    } else {
        match sp_sq_tail(s, i + 1) {
            Option::Some((rest, e)) => Option::Some((seq![s[i]] + rest, e)),
            Option::None => Option::None,
        }
    }
}

pub open spec fn sp_sq(s: Seq<char>, i: int) -> Option<(Seq<char>, int)> {
    if 0 <= i && i < s.len() && s[i] == '\'' {
        sp_sq_tail(s, i + 1)
    } else {
        Option::None
    }
}

/// The body of a raw `'''...'''` string (newlines allowed).
pub open spec fn sp_tsq_tail(s: Seq<char>, i: int) -> Option<(Seq<char>, int)>
    decreases s.len() - i,
{
    if i < 0 {
        Option::None
    } else if lit_at(s, i, "'''"@) {
        Option::Some((Seq::empty(), i + 3))
    } else if i >= s.len() {
        Option::None
    } else if s[i] == '\\' {
        if i + 1 >= s.len() {
            Option::None
        } else {
            match sp_tsq_tail(s, i + 2) {
                Option::Some((rest, e)) => Option::Some((seq!['\\', s[i + 1]] + rest, e)),
                Option::None => Option::None,
            }
        }
    } else {
        match sp_tsq_tail(s, i + 1) {
            Option::Some((rest, e)) => Option::Some((seq![s[i]] + rest, e)),
            Option::None => Option::None,
        }
    }
}

pub open spec fn sp_tsq(s: Seq<char>, i: int) -> Option<(Seq<char>, int)> {
    if lit_at(s, i, "'''"@) {
        sp_tsq_tail(s, i + 3)
    } else {
        Option::None
    }
}

/// The body of a `"""..."""` string (escapes honored, newlines allowed).
pub open spec fn sp_tq_tail(s: Seq<char>, i: int) -> Option<(Seq<char>, int)>
    decreases s.len() - i,
    via sp_tq_tail_dec
{
    if i < 0 {
        Option::None
    } else if lit_at(s, i, "\"\"\""@) {
        Option::Some((Seq::empty(), i + 3))
    } else if i >= s.len() {
        Option::None
    } else if s[i] == '\\' {
        match sp_escape(s, i + 1) {
            Option::Some((t, j)) => {
                match sp_tq_tail(s, j) {
                    Option::Some((rest, e)) => Option::Some((t + rest, e)),
                    Option::None => Option::None,
                }
            },
            Option::None => Option::None,
        }
    } else {
        match sp_tq_tail(s, i + 1) {
            Option::Some((rest, e)) => Option::Some((seq![s[i]] + rest, e)),
            Option::None => Option::None,
        }
    }
}

#[via_fn]
proof fn sp_tq_tail_dec(s: Seq<char>, i: int) {
    if 0 <= i && i < s.len() && s[i] == '\\' && !lit_at(s, i, "\"\"\""@) {
        lemma_sp_escape_bounds(s, i + 1);
    }
}

pub open spec fn sp_tq(s: Seq<char>, i: int) -> Option<(Seq<char>, int)> {
    if lit_at(s, i, "\"\"\""@) {
        sp_tq_tail(s, i + 3)
    } else {
        Option::None
    }
}

/// Exactly `n` digits starting at `i`.
pub open spec fn sp_ndigits(s: Seq<char>, i: int, n: int) -> bool {
    0 <= i && i + n <= s.len() && (forall|k: int| i <= k < i + n ==> spec_is_digit(#[trigger] s[k]))
}

/// A date constant after the `@`: `YYYY-MM-DD` with the optional time,
/// fraction and zone parts; the value is the matched text.
pub open spec fn sp_date(s: Seq<char>, i: int) -> Option<(Seq<char>, int)> {
    if !(sp_ndigits(s, i, 4) && i + 4 < s.len() && s[i + 4] == '-' && sp_ndigits(s, i + 5, 2) && i
        + 7 < s.len() && s[i + 7] == '-' && sp_ndigits(s, i + 8, 2)) {
        Option::None
    } else {
        let p = i + 10;
        if p < s.len() && s[p] == 'T' {
            sp_date_time(s, i, p + 1)
        } else {
            Option::Some((s.subrange(i, p), p))
        }
    }
}

/// The time part of a date, from just after the `T`.
pub open spec fn sp_date_time(s: Seq<char>, start: int, p: int) -> Option<(Seq<char>, int)> {
    if !(sp_ndigits(s, p, 2) && p + 2 < s.len() && s[p + 2] == ':' && sp_ndigits(s, p + 3, 2)) {
        Option::None
    } else {
        let q = p + 5;
        let after_sec: Option<int> = if q < s.len() && s[q] == ':' {
            if sp_ndigits(s, q + 1, 2) {
                let r = q + 3;
                if r < s.len() && s[r] == '.' {
                    let f = spec_digits_end(s, r + 1);
                    if f == r + 1 {
                        Option::None
                    } else {
                        Option::Some(f)
                    }
                } else {
                    Option::Some(r)
                }
            } else {
                Option::None
            }
        } else {
            Option::Some(q)
        };
        match after_sec {
            Option::None => Option::None,
            Option::Some(t) => {
                if t < s.len() && s[t] == 'Z' {
                    Option::Some((s.subrange(start, t + 1), t + 1))
                } else if t < s.len() && (s[t] == '+' || s[t] == '-') {
                    if sp_ndigits(s, t + 1, 2) {
                        let u = if t + 3 < s.len() && s[t + 3] == ':' {
                            t + 4
                        } else {
                            t + 3
                        };
                        if sp_ndigits(s, u, 2) {
                            Option::Some((s.subrange(start, u + 2), u + 2))
                        } else {
                            Option::None
                        }
                    } else {
                        Option::None
                    }
                } else {
                    Option::Some((s.subrange(start, t), t))
                }
            },
        }
    }
}

/// Whether a bare character stands at `j` (false at or past the end).
pub open spec fn sp_bare_at(s: Seq<char>, j: int) -> bool {
    0 <= j && j < s.len() && crate::text::spec_is_bare(s[j])
}

/// An `@` constant: `@true`, `@false`, `@none`, `@env.NAME`, or a date.
pub open spec fn sp_at(s: Seq<char>, i: int) -> Option<(ScalarV, int)> {
    if !(0 <= i && i < s.len() && s[i] == '@') {
        Option::None
    } else if lit_at(s, i + 1, "true"@) && !sp_bare_at(s, i + 5) {
        Option::Some((ScalarV::Bool(true), i + 5))
    } else if lit_at(s, i + 1, "false"@) && !sp_bare_at(s, i + 6) {
        Option::Some((ScalarV::Bool(false), i + 6))
    } else if lit_at(s, i + 1, "none"@) && !sp_bare_at(s, i + 5) {
        Option::Some((ScalarV::NoVal, i + 5))
    } else if lit_at(s, i + 1, "env."@) {
        match sp_bare(s, i + 5) {
            Option::Some((n, j)) => Option::Some((ScalarV::Env(n), j)),
            Option::None => Option::None,
        }
    } else if i + 1 < s.len() && spec_is_digit(s[i + 1]) {
        match sp_date(s, i + 1) {
            Option::Some((d, j)) => Option::Some((ScalarV::Date(d), j)),
            Option::None => Option::None,
        }
    } else {
        Option::None
    }
}

/// What a numeric token denotes: exact integers below 2^53, lexical text
/// otherwise.
pub open spec fn sp_number_of(token: Seq<char>) -> NumberVal {
    if spec_small_int_token(token) {
        NumberVal::Integer(spec_token_int_val(token))
    } else {
        NumberVal::Decimal(token)
    }
}

/// A bare-string value (the fallback of the number scanner).
pub open spec fn sp_bare_value(s: Seq<char>, i: int) -> Option<(ValueV, int)> {
    match sp_bare(s, i) {
        Option::Some((t, e)) => Option::Some((ValueV::Scalar(ScalarV::Str(t)), e)),
        Option::None => Option::None,
    }
}

/// The exponent part and the end of a number scan, from `p2`; the bare
/// fallback and the token classification happen in the callers.
pub open spec fn sp_exp_end(s: Seq<char>, p2: int) -> Option<int> {
    if p2 < s.len() && (s[p2] == 'e' || s[p2] == 'E') {
        let es: int = if p2 + 1 < s.len() && (s[p2 + 1] == '+' || s[p2 + 1] == '-') {
            p2 + 2
        } else {
            p2 + 1
        };
        let e1 = spec_digits_end(s, es);
        if e1 == es {
            Option::None
        } else {
            Option::Some(e1)
        }
    } else {
        Option::Some(p2)
    }
}

/// The integer-or-bare reparse path taken when a `.` has no digits after
/// it: digits, optional exponent, or a bare string.
pub open spec fn sp_int_or_bare(s: Seq<char>, i: int, has_minus: bool) -> Option<(ValueV, int)> {
    if has_minus && !(0 <= i && i < s.len() && s[i] == '-') {
        Option::None
    } else {
        let pm: int = if has_minus {
            i + 1
        } else {
            i
        };
        let d1 = spec_digits_end(s, pm);
        if d1 == pm {
            if has_minus {
                Option::None
            } else {
                sp_bare_value(s, i)
            }
        } else if !has_minus && d1 < s.len() && crate::text::spec_is_bare(s[d1]) && !spec_is_digit(
            s[d1],
        ) {
            sp_bare_value(s, i)
        } else {
            match sp_exp_end(s, d1) {
                Option::None => Option::None,
                Option::Some(p3) => {
                    let token = (if has_minus {
                        seq!['-']
                    } else {
                        Seq::<char>::empty()
                    }) + s.subrange(pm, d1) + s.subrange(d1, p3);
                    if !spec_num_token(token) {
                        Option::None
                    } else {
                        Option::Some(
                            (ValueV::Scalar(ScalarV::Num(sp_number_of(token))), p3),
                        )
                    }
                },
            }
        }
    }
}

/// A number, or the bare-string fallback when the token is immediately
/// followed by a bare character, mirroring the scanner's decisions.
pub open spec fn sp_numstr(s: Seq<char>, i: int) -> Option<(ValueV, int)> {
    let has_minus = 0 <= i && i < s.len() && s[i] == '-';
    let pm: int = if has_minus {
        i + 1
    } else {
        i
    };
    let d1 = spec_digits_end(s, pm);
    let has_int = d1 > pm;
    if d1 < s.len() && s[d1] == '.' {
        let f1 = spec_digits_end(s, d1 + 1);
        if f1 == d1 + 1 {
            sp_int_or_bare(s, i, has_minus)
        } else {
            sp_num_tail(s, i, has_minus, has_int, pm, d1, true, f1)
        }
    } else if !has_int {
        if has_minus {
            Option::None
        } else {
            sp_bare_value(s, i)
        }
    } else {
        sp_num_tail(s, i, has_minus, has_int, pm, d1, false, d1)
    }
}

/// Exponent, bare-character fallback, and token classification shared by
/// the number scan.
pub open spec fn sp_num_tail(
    s: Seq<char>,
    i: int,
    has_minus: bool,
    has_int: bool,
    pm: int,
    d1: int,
    has_dot: bool,
    p2: int,
) -> Option<(ValueV, int)> {
    match sp_exp_end(s, p2) {
        Option::None => Option::None,
        Option::Some(p3) => {
            if p3 < s.len() && crate::text::spec_is_bare(s[p3]) && !spec_is_digit(s[p3]) {
                if has_minus {
                    Option::None
                } else {
                    sp_bare_value(s, i)
                }
            } else {
                let token = (if has_minus {
                    seq!['-']
                } else {
                    Seq::<char>::empty()
                }) + s.subrange(pm, d1) + (if has_dot {
                    (if !has_int {
                        seq!['0']
                    } else {
                        Seq::<char>::empty()
                    }) + seq!['.'] + s.subrange(d1 + 1, p2)
                } else {
                    Seq::<char>::empty()
                }) + s.subrange(p2, p3);
                if !spec_num_token(token) {
                    Option::None
                } else {
                    Option::Some((ValueV::Scalar(ScalarV::Num(sp_number_of(token))), p3))
                }
            }
        },
    }
}

/// A non-negative array index; a value beyond the machine range is a
/// parse error.
pub open spec fn sp_ref_index(s: Seq<char>, i: int) -> Option<(nat, int)> {
    let d1 = spec_digits_end(s, i);
    if d1 == i {
        Option::None
    } else {
        let v = crate::text::spec_digits_val(s.subrange(i, d1));
        if v > usize::MAX as nat {
            Option::None
        } else {
            Option::Some((v, d1))
        }
    }
}

/// End of a run of `^` characters.
pub open spec fn sp_caret_run(s: Seq<char>, i: int) -> int
    decreases s.len() - i,
{
    if i < 0 || i >= s.len() || s[i] != '^' {
        i
    } else {
        sp_caret_run(s, i + 1)
    }
}

pub proof fn lemma_sp_caret_run_bounds(s: Seq<char>, i: int)
    requires
        0 <= i <= s.len(),
    ensures
        i <= sp_caret_run(s, i) <= s.len(),
    decreases s.len() - i,
{
    if i < s.len() && s[i] == '^' {
        lemma_sp_caret_run_bounds(s, i + 1);
    }
}

/// A bare or backtick identifier.
pub open spec fn sp_ident(s: Seq<char>, i: int) -> Option<(Seq<char>, int)> {
    if 0 <= i && i < s.len() && s[i] == '`' {
        sp_backtick(s, i)
    } else {
        sp_bare(s, i)
    }
}

/// One optional `[N]` index after a name segment.
pub open spec fn sp_opt_index(s: Seq<char>, i: int, acc: Seq<SegV>) -> Option<(Seq<SegV>, int)> {
    if 0 <= i && i < s.len() && s[i] == '[' {
        let w = sp_ws(s, i + 1);
        match sp_ref_index(s, w) {
            Option::Some((v, k)) => {
                let w2 = sp_ws(s, k);
                if w2 < s.len() && s[w2] == ']' {
                    Option::Some((acc.push(SegV::Index(v)), w2 + 1))
                } else {
                    Option::None
                }
            },
            Option::None => Option::None,
        }
    } else {
        Option::Some((acc, i))
    }
}

/// The remaining `.name[N]` segments of a reference.
pub open spec fn sp_ref_more(s: Seq<char>, i: int, acc: Seq<SegV>) -> Option<(Seq<SegV>, int)>
    decreases s.len() - i,
{
    if 0 <= i && i < s.len() && s[i] == '.' {
        match sp_ident(s, i + 1) {
            Option::Some((n, j)) => {
                match sp_opt_index(s, j, acc.push(SegV::Name(n))) {
                    Option::Some((acc2, k)) => {
                        if i < k && k <= s.len() {
                            sp_ref_more(s, k, acc2)
                        } else {
                            Option::None
                        }
                    },
                    Option::None => Option::None,
                }
            },
            Option::None => Option::None,
        }
    } else {
        Option::Some((acc, i))
    }
}

/// A reference: `$`, carets, then a dotted path with optional indices.
pub open spec fn sp_reference(s: Seq<char>, i: int) -> Option<(ScalarV, int)> {
    if !(0 <= i && i < s.len() && s[i] == '$') {
        Option::None
    } else {
        let u_end = sp_caret_run(s, i + 1);
        let ups = (u_end - (i + 1)) as nat;
        match sp_ident(s, u_end) {
            Option::Some((n0, j)) => {
                match sp_opt_index(s, j, seq![SegV::Name(n0)]) {
                    Option::Some((acc, k)) => {
                        match sp_ref_more(s, k, acc) {
                            Option::Some((segs, e)) => Option::Some(
                                (ScalarV::Reference { ups, path: segs }, e),
                            ),
                            Option::None => Option::None,
                        }
                    },
                    Option::None => Option::None,
                }
            },
            Option::None => Option::None,
        }
    }
}

// ---- The heredoc --------------------------------------------------------------

/// End of a run of spaces and tabs.
pub open spec fn sp_st_run(s: Seq<char>, i: int) -> int
    decreases s.len() - i,
{
    if i < 0 || i >= s.len() || !(s[i] == ' ' || s[i] == '\t') {
        i
    } else {
        sp_st_run(s, i + 1)
    }
}

pub proof fn lemma_sp_st_run_bounds(s: Seq<char>, i: int)
    requires
        0 <= i <= s.len(),
    ensures
        i <= sp_st_run(s, i) <= s.len(),
    decreases s.len() - i,
{
    if i < s.len() && (s[i] == ' ' || s[i] == '\t') {
        lemma_sp_st_run_bounds(s, i + 1);
    }
}

/// The next newline at or after `i`, or the end.
pub open spec fn sp_line_end(s: Seq<char>, i: int) -> int
    decreases s.len() - i,
{
    if i < 0 || i >= s.len() || s[i] == '\n' {
        i
    } else {
        sp_line_end(s, i + 1)
    }
}

pub proof fn lemma_sp_line_end_bounds(s: Seq<char>, i: int)
    requires
        0 <= i <= s.len(),
    ensures
        i <= sp_line_end(s, i) <= s.len(),
    decreases s.len() - i,
{
    if i < s.len() && s[i] != '\n' {
        lemma_sp_line_end_bounds(s, i + 1);
    }
}

/// Trim trailing whitespace of `line` down to `a`.
pub open spec fn sp_rtrim(line: Seq<char>, a: int, b: int) -> int
    decreases b,
{
    if b > a && 0 < b && b <= line.len() && crate::text::spec_is_ws(line[b - 1]) {
        sp_rtrim(line, a, b - 1)
    } else {
        b
    }
}

/// Whether a heredoc line, trimmed on both sides, is exactly `>>>`.
pub open spec fn sp_is_term(line: Seq<char>) -> bool {
    let a = sp_ws_run(line, 0);
    let b = sp_rtrim(line, a, line.len() as int);
    b - a == 3 && a + 2 < line.len() && line[a] == '>' && line[a + 1] == '>' && line[a + 2] == '>'
}

/// Whether a heredoc line holds only whitespace.
pub open spec fn sp_is_blank(line: Seq<char>) -> bool {
    sp_ws_run(line, 0) == line.len()
}

/// The strip amount: the leading whitespace of the first non-blank line.
pub open spec fn sp_strip_of(lines: Seq<Seq<char>>, k: int) -> int
    decreases lines.len() - k,
{
    if k < 0 || k >= lines.len() {
        0
    } else if !sp_is_blank(lines[k]) {
        sp_ws_run(lines[k], 0)
    } else {
        sp_strip_of(lines, k + 1)
    }
}

/// One heredoc line after stripping.
pub open spec fn sp_stripped(line: Seq<char>, strip: int) -> Seq<char> {
    if sp_is_blank(line) {
        Seq::empty()
    } else if strip <= line.len() {
        line.subrange(strip, line.len() as int)
    } else {
        line
    }
}

/// The joined heredoc body from line `i` on, with newline separators.
pub open spec fn sp_hd_join(lines: Seq<Seq<char>>, i: int, strip: int) -> Seq<char>
    decreases lines.len() - i,
{
    if i < 0 || i >= lines.len() {
        Seq::empty()
    } else {
        (if i > 0 {
            seq!['\n']
        } else {
            Seq::<char>::empty()
        }) + sp_stripped(lines[i], strip) + sp_hd_join(lines, i + 1, strip)
    }
}

/// The heredoc value of a collected line list.
pub open spec fn sp_hd_value(lines: Seq<Seq<char>>) -> Seq<char> {
    if lines.len() == 0 {
        Seq::empty()
    } else {
        sp_hd_join(lines, 0, sp_strip_of(lines, 0)) + seq!['\n']
    }
}

/// Collect heredoc lines until the `>>>` terminator line.
pub open spec fn sp_hd_lines(s: Seq<char>, i: int, acc: Seq<Seq<char>>) -> Option<(Seq<char>, int)>
    decreases s.len() - i,
    via sp_hd_lines_dec
{
    if i < 0 || i >= s.len() {
        Option::None
    } else {
        let le = sp_line_end(s, i);
        let le2: int = if le > i && s[le - 1] == '\r' {
            le - 1
        } else {
            le
        };
        let line = s.subrange(i, le2);
        let at_eof = le >= s.len();
        let next: int = if at_eof {
            le
        } else {
            le + 1
        };
        if sp_is_term(line) {
            Option::Some((sp_hd_value(acc), next))
        } else if at_eof {
            Option::None
        } else {
            sp_hd_lines(s, next, acc.push(line))
        }
    }
}

#[via_fn]
proof fn sp_hd_lines_dec(s: Seq<char>, i: int, acc: Seq<Seq<char>>) {
    if 0 <= i && i < s.len() {
        lemma_sp_line_end_bounds(s, i);
    }
}

/// A heredoc: `<<<`, spaces/tabs, a newline, then lines up to `>>>`.
pub open spec fn sp_heredoc(s: Seq<char>, i: int) -> Option<(Seq<char>, int)> {
    if !lit_at(s, i, "<<<"@) {
        Option::None
    } else {
        let p = sp_st_run(s, i + 3);
        let p2: int = if p < s.len() && s[p] == '\r' {
            p + 1
        } else {
            p
        };
        if p2 < s.len() && s[p2] == '\n' {
            sp_hd_lines(s, p2 + 1, Seq::empty())
        } else {
            Option::None
        }
    }
}

// ---- Values, arrays, blocks, statements ----------------------------------------

/// A value: heredoc, array (when allowed), `@` constant, reference, one of
/// the string forms, a number, or a bare string.
pub open spec fn sp_value(s: Seq<char>, i: int, allow_arrays: bool) -> Option<(ValueV, int)>
    decreases s.len() - i, 3nat,
{
    if lit_at(s, i, "<<<"@) {
        match sp_heredoc(s, i) {
            Option::Some((t, e)) => Option::Some((ValueV::Scalar(ScalarV::Str(t)), e)),
            Option::None => Option::None,
        }
    } else if i < 0 || i >= s.len() {
        Option::None
    } else if s[i] == '[' && allow_arrays {
        match sp_array(s, i) {
            Option::Some((es, e)) => Option::Some((ValueV::Array(es), e)),
            Option::None => Option::None,
        }
    } else if s[i] == '@' {
        match sp_at(s, i) {
            Option::Some((v, e)) => Option::Some((ValueV::Scalar(v), e)),
            Option::None => Option::None,
        }
    } else if s[i] == '$' {
        match sp_reference(s, i) {
            Option::Some((v, e)) => Option::Some((ValueV::Scalar(v), e)),
            Option::None => Option::None,
        }
    } else if s[i] == '"' {
        match (if lit_at(s, i, "\"\"\""@) {
            sp_tq(s, i)
        } else {
            sp_dq(s, i)
        }) {
            Option::Some((t, e)) => Option::Some((ValueV::Scalar(ScalarV::Str(t)), e)),
            Option::None => Option::None,
        }
    } else if s[i] == '\'' {
        match (if lit_at(s, i, "'''"@) {
            sp_tsq(s, i)
        } else {
            sp_sq(s, i)
        }) {
            Option::Some((t, e)) => Option::Some((ValueV::Scalar(ScalarV::Str(t)), e)),
            Option::None => Option::None,
        }
    } else if s[i] == '-' || spec_is_digit(s[i]) || s[i] == '.' {
        sp_numstr(s, i)
    } else if crate::text::spec_is_bare(s[i]) {
        sp_bare_value(s, i)
    } else {
        Option::None
    }
}

/// One array element: a block, a nested array, or a value with an
/// optional block.
pub open spec fn sp_elem(s: Seq<char>, i: int) -> Option<(ElemV, int)>
    decreases s.len() - i, 4nat,
    via sp_elem_dec
{
    if i < 0 || i > s.len() {
        Option::None
    } else {
        let w = sp_ws(s, i);
        if w < s.len() && s[w] == '{' {
            match sp_block(s, w) {
                Option::Some((ps, e)) => Option::Some(
                    (ElemV { value: Option::None, properties: Option::Some(ps) }, e),
                ),
                Option::None => Option::None,
            }
        } else if w < s.len() && s[w] == '[' {
            match sp_array(s, w) {
                Option::Some((es, e)) => Option::Some(
                    (
                        ElemV {
                            value: Option::Some(ValueV::Array(es)),
                            properties: Option::None,
                        },
                        e,
                    ),
                ),
                Option::None => Option::None,
            }
        } else {
            match sp_value(s, w, false) {
                Option::Some((v, j)) => {
                    if !(w <= j && j <= s.len()) {
                        Option::None
                    } else {
                        let w2 = sp_ws(s, j);
                        if w2 < s.len() && s[w2] == '{' {
                            match sp_block(s, w2) {
                                Option::Some((ps, e)) => Option::Some(
                                    (
                                        ElemV {
                                            value: Option::Some(v),
                                            properties: Option::Some(ps),
                                        },
                                        e,
                                    ),
                                ),
                                Option::None => Option::None,
                            }
                        } else {
                            Option::Some(
                                (
                                    ElemV { value: Option::Some(v), properties: Option::None },
                                    w2,
                                ),
                            )
                        }
                    }
                },
                Option::None => Option::None,
            }
        }
    }
}

#[via_fn]
proof fn sp_elem_dec(s: Seq<char>, i: int) {
    lemma_sp_ws_bounds_all(s);
}

/// The elements after the first, separated by commas, with a trailing
/// comma allowed.
pub open spec fn sp_array_more(s: Seq<char>, i: int, acc: Seq<ElemV>) -> Option<(Seq<ElemV>, int)>
    decreases s.len() - i, 9nat,
    via sp_array_more_dec
{
    if i < 0 || i > s.len() {
        Option::None
    } else {
        let w = sp_ws(s, i);
        if w < s.len() && s[w] == ']' {
            Option::Some((acc, w + 1))
        } else if w < s.len() && s[w] == ',' {
            let w2 = sp_ws(s, w + 1);
            if w2 < s.len() && s[w2] == ']' {
                Option::Some((acc, w2 + 1))
            } else {
                match sp_elem(s, w2) {
                    Option::Some((el, j)) => {
                        if w2 < j && j <= s.len() {
                            sp_array_more(s, j, acc.push(el))
                        } else {
                            Option::None
                        }
                    },
                    Option::None => Option::None,
                }
            }
        } else {
            Option::None
        }
    }
}

#[via_fn]
proof fn sp_array_more_dec(s: Seq<char>, i: int, acc: Seq<ElemV>) {
    lemma_sp_ws_bounds_all(s);
}

/// An array literal.
pub open spec fn sp_array(s: Seq<char>, i: int) -> Option<(Seq<ElemV>, int)>
    decreases s.len() - i, 1nat,
    via sp_array_dec
{
    if !(0 <= i && i < s.len() && s[i] == '[') {
        Option::None
    } else {
        let w = sp_ws(s, i + 1);
        if w < s.len() && s[w] == ']' {
            Option::Some((Seq::empty(), w + 1))
        } else {
            match sp_elem(s, w) {
                Option::Some((el, j)) => {
                    if i < j && j <= s.len() {
                        sp_array_more(s, j, seq![el])
                    } else {
                        Option::None
                    }
                },
                Option::None => Option::None,
            }
        }
    }
}

#[via_fn]
proof fn sp_array_dec(s: Seq<char>, i: int) {
    lemma_sp_ws_bounds_all(s);
}

/// The statements of a `{ ... }` block.
pub open spec fn sp_block_more(s: Seq<char>, i: int, acc: Seq<StmtV>) -> Option<(Seq<StmtV>, int)>
    decreases s.len() - i, 9nat,
    via sp_block_more_dec
{
    if i < 0 || i > s.len() {
        Option::None
    } else {
        let w = sp_wsc(s, i);
        if w < s.len() && s[w] == '}' {
            Option::Some((acc, w + 1))
        } else if w >= s.len() {
            Option::None
        } else {
            match sp_statement(s, w) {
                Option::Some((st, j)) => {
                    if w < j && j <= s.len() {
                        sp_block_more(s, j, acc.push(st))
                    } else {
                        Option::None
                    }
                },
                Option::None => Option::None,
            }
        }
    }
}

#[via_fn]
proof fn sp_block_more_dec(s: Seq<char>, i: int, acc: Seq<StmtV>) {
    lemma_sp_wsc_bounds_all(s);
}

/// A `{ ... }` properties block.
pub open spec fn sp_block(s: Seq<char>, i: int) -> Option<(Seq<StmtV>, int)>
    decreases s.len() - i, 2nat,
{
    if !(0 <= i && i < s.len() && s[i] == '{') {
        Option::None
    } else {
        sp_block_more(s, i + 1, Seq::empty())
    }
}

/// A dotted identifier path.
pub open spec fn sp_name_more(s: Seq<char>, i: int, acc: Seq<Seq<char>>) -> Option<
    (Seq<Seq<char>>, int),
>
    decreases s.len() - i,
{
    if 0 <= i && i < s.len() && s[i] == '.' {
        match sp_ident(s, i + 1) {
            Option::Some((n, j)) => {
                if i < j && j <= s.len() {
                    sp_name_more(s, j, acc.push(n))
                } else {
                    Option::None
                }
            },
            Option::None => Option::None,
        }
    } else {
        Option::Some((acc, i))
    }
}

pub open spec fn sp_prop_name(s: Seq<char>, i: int) -> Option<(Seq<Seq<char>>, int)> {
    match sp_ident(s, i) {
        Option::Some((n0, j)) => sp_name_more(s, j, seq![n0]),
        Option::None => Option::None,
    }
}

/// One statement, as the grammar of the surface syntax assigns it.
#[verifier::opaque]
pub open spec fn sp_statement(s: Seq<char>, i: int) -> Option<(StmtV, int)>
    decreases s.len() - i, 8nat,
    via sp_statement_dec
{
    if i < 0 || i >= s.len() {
        Option::None
    } else if lit_at(s, i, "-..."@) {
        Option::Some((StmtV::ClearAll, i + 4))
    } else if s[i] == '-' {
        match sp_prop_name(s, i + 1) {
            Option::Some((p, j)) => Option::Some((StmtV::Define { path: p, deleted: true }, j)),
            Option::None => Option::None,
        }
    } else {
        match sp_prop_name(s, i) {
            Option::Some((p, j)) => {
                if !(i < j && j <= s.len()) {
                    Option::None
                } else {
                    let w = sp_ws(s, j);
                    if lit_at(s, w, ":="@) {
                        let w2 = sp_ws(s, w + 2);
                        match sp_value(s, w2, true) {
                            Option::Some((v, k)) => {
                                if !(w2 <= k && k <= s.len()) {
                                    Option::None
                                } else {
                                    let w3 = sp_ws(s, k);
                                    if w3 < s.len() && s[w3] == '{' {
                                        match sp_block(s, w3) {
                                            Option::Some((ps, m)) => Option::Some(
                                                (
                                                    StmtV::AssignBoth {
                                                        path: p,
                                                        value: v,
                                                        properties: Option::Some(ps),
                                                    },
                                                    m,
                                                ),
                                            ),
                                            Option::None => Option::None,
                                        }
                                    } else {
                                        Option::Some(
                                            (
                                                StmtV::AssignBoth {
                                                    path: p,
                                                    value: v,
                                                    properties: Option::None,
                                                },
                                                w3,
                                            ),
                                        )
                                    }
                                }
                            },
                            Option::None => Option::None,
                        }
                    } else if w < s.len() && s[w] == '=' {
                        let w2 = sp_ws(s, w + 1);
                        if w2 < s.len() && s[w2] == '{' {
                            Option::None
                        } else {
                            match sp_value(s, w2, true) {
                                Option::Some((v, k)) => {
                                    if !(w2 <= k && k <= s.len()) {
                                        Option::None
                                    } else {
                                        let w3 = sp_ws(s, k);
                                        if w3 < s.len() && s[w3] == '{' {
                                            match sp_block(s, w3) {
                                                Option::Some((ps, m)) => Option::Some(
                                                    (
                                                        StmtV::SetEq {
                                                            path: p,
                                                            value: v,
                                                            properties: Option::Some(ps),
                                                        },
                                                        m,
                                                    ),
                                                ),
                                                Option::None => Option::None,
                                            }
                                        } else {
                                            Option::Some(
                                                (
                                                    StmtV::SetEq {
                                                        path: p,
                                                        value: v,
                                                        properties: Option::None,
                                                    },
                                                    w3,
                                                ),
                                            )
                                        }
                                    }
                                },
                                Option::None => Option::None,
                            }
                        }
                    } else if w < s.len() && s[w] == ':' {
                        let w2 = sp_ws(s, w + 1);
                        match sp_block(s, w2) {
                            Option::Some((ps, m)) => Option::Some(
                                (StmtV::ReplaceProperties { path: p, properties: ps }, m),
                            ),
                            Option::None => Option::None,
                        }
                    } else if w < s.len() && s[w] == '{' {
                        match sp_block(s, w) {
                            Option::Some((ps, m)) => Option::Some(
                                (StmtV::UpdateProperties { path: p, properties: ps }, m),
                            ),
                            Option::None => Option::None,
                        }
                    } else {
                        Option::Some((StmtV::Define { path: p, deleted: false }, w))
                    }
                }
            },
            Option::None => Option::None,
        }
    }
}

#[via_fn]
proof fn sp_statement_dec(s: Seq<char>, i: int) {
    reveal_strlit("-...");
    reveal_strlit(":=");
    lemma_sp_ws_bounds_all(s);
}

/// The statements after position `i` of a whole document.
#[verifier::opaque]
pub open spec fn sp_doc_more(s: Seq<char>, i: int, acc: Seq<StmtV>) -> Option<Seq<StmtV>>
    decreases s.len() - i, 9nat,
    via sp_doc_more_dec
{
    if i < 0 || i > s.len() {
        Option::None
    } else {
        let w = sp_wsc(s, i);
        if w >= s.len() {
            Option::Some(acc)
        } else {
            match sp_statement(s, w) {
                Option::Some((st, j)) => {
                    if w < j && j <= s.len() {
                        sp_doc_more(s, j, acc.push(st))
                    } else {
                        Option::None
                    }
                },
                Option::None => Option::None,
            }
        }
    }
}

#[via_fn]
proof fn sp_doc_more_dec(s: Seq<char>, i: int, acc: Seq<StmtV>) {
    lemma_sp_wsc_bounds_all(s);
}

/// What the grammar assigns to a whole document: its statement list, or a
/// syntax error.
pub open spec fn sp_document(s: Seq<char>) -> Option<Seq<StmtV>> {
    sp_doc_more(s, 0, Seq::empty())
}


// ---- Bridges between scans and the run functions ---------------------------

pub proof fn lemma_sp_ws_run_eq(s: Seq<char>, i: int, j: int)
    requires
        0 <= i <= j <= s.len(),
        forall|k: int| i <= k < j ==> crate::text::spec_is_ws(#[trigger] s[k]),
        j < s.len() ==> !crate::text::spec_is_ws(s[j]),
    ensures
        sp_ws_run(s, i) == j,
    decreases j - i,
{
    if i < j {
        lemma_sp_ws_run_eq(s, i + 1, j);
    }
}

pub proof fn lemma_sp_comment_end_eq(s: Seq<char>, i: int, j: int)
    requires
        0 <= i <= j <= s.len(),
        forall|k: int| i <= k < j ==> #[trigger] s[k] != '\r' && s[k] != '\n',
        j < s.len() ==> (s[j] == '\r' || s[j] == '\n'),
    ensures
        sp_comment_end(s, i) == j,
    decreases j - i,
{
    if i < j {
        lemma_sp_comment_end_eq(s, i + 1, j);
    }
}

pub proof fn lemma_sp_bare_end_eq(s: Seq<char>, i: int, j: int)
    requires
        0 <= i <= j <= s.len(),
        forall|k: int| i <= k < j ==> crate::text::spec_is_bare(#[trigger] s[k]),
        j < s.len() ==> !crate::text::spec_is_bare(s[j]),
    ensures
        sp_bare_end(s, i) == j,
    decreases j - i,
{
    if i < j {
        lemma_sp_bare_end_eq(s, i + 1, j);
    }
}

pub proof fn lemma_sp_caret_run_eq(s: Seq<char>, i: int, j: int)
    requires
        0 <= i <= j <= s.len(),
        forall|k: int| i <= k < j ==> #[trigger] s[k] == '^',
        j < s.len() ==> s[j] != '^',
    ensures
        sp_caret_run(s, i) == j,
    decreases j - i,
{
    if i < j {
        lemma_sp_caret_run_eq(s, i + 1, j);
    }
}

pub proof fn lemma_sp_st_run_eq(s: Seq<char>, i: int, j: int)
    requires
        0 <= i <= j <= s.len(),
        forall|k: int| i <= k < j ==> (#[trigger] s[k] == ' ' || s[k] == '\t'),
        j < s.len() ==> !(s[j] == ' ' || s[j] == '\t'),
    ensures
        sp_st_run(s, i) == j,
    decreases j - i,
{
    if i < j {
        lemma_sp_st_run_eq(s, i + 1, j);
    }
}

pub proof fn lemma_sp_line_end_eq(s: Seq<char>, i: int, j: int)
    requires
        0 <= i <= j <= s.len(),
        forall|k: int| i <= k < j ==> #[trigger] s[k] != '\n',
        j < s.len() ==> s[j] == '\n',
    ensures
        sp_line_end(s, i) == j,
    decreases j - i,
{
    if i < j {
        lemma_sp_line_end_eq(s, i + 1, j);
    }
}

pub proof fn lemma_sp_rtrim_eq(line: Seq<char>, a: int, b0: int, b: int)
    requires
        0 <= a <= b <= b0 <= line.len(),
        forall|k: int| b <= k < b0 ==> crate::text::spec_is_ws(#[trigger] line[k]),
        b > a ==> !crate::text::spec_is_ws(line[b - 1]),
    ensures
        sp_rtrim(line, a, b0) == b,
    decreases b0,
{
    if b0 > b {
        lemma_sp_rtrim_eq(line, a, b0 - 1, b);
    }
}

/// Parse a MOTLY document into its statement list, or the first syntax
/// error. On success every statement is well formed and the whole input
/// was consumed.
/// One step of the document loop: a statement consumed at a settled
/// position, then whitespace and commas, keeps the document relation.
proof fn lemma_doc_step(s: Seq<char>, pos: int, views: Seq<StmtV>, st: StmtV, j: int)
    requires
        0 <= pos < s.len(),
        sp_wsc(s, pos) == pos,
        sp_statement(s, pos) == Option::Some((st, j)),
        pos < j <= s.len(),
    ensures
        sp_doc_more(s, pos, views) == sp_doc_more(s, sp_wsc(s, j), views.push(st)),
        sp_wsc(s, sp_wsc(s, j)) == sp_wsc(s, j),
    decreases 0int,
{
    reveal(sp_doc_more);
    lemma_sp_wsc_idem(s, j);
    lemma_sp_wsc_bounds(s, j);
    assert(sp_doc_more(s, pos, views) == sp_doc_more(s, j, views.push(st)));
    assert(sp_doc_more(s, j, views.push(st)) == sp_doc_more(s, sp_wsc(s, j), views.push(st)));
}

#[verifier::rlimit(100)]
#[verifier::spinoff_prover]
pub fn parse(input: &str) -> (r: Result<Vec<Statement>, MOTLYError>)
    ensures
        (r matches Ok(stmts) ==> stmts_wf(stmts@) && sp_document(input@) == Option::Some(
            stmts_views(stmts@),
        )),
        (r matches Err(e) ==> e.code@ == "tag-parse-syntax-error"@ && sp_document(
            input@,
        ) is None),
{
    let chars = str_to_chars(input);
    let ghost s0 = input@;
    let mut parser = Parser { input: chars, pos: 0 };
    let mut statements: Vec<Statement> = Vec::new();

    parser.skip_ws_and_commas();
    proof {
        reveal(sp_doc_more);
        assert(stmts_views(statements@) =~= Seq::<StmtV>::empty());
        lemma_sp_wsc_idem(s0, 0);
        assert(parser.pos as int == sp_wsc(s0, 0));
        assert(sp_wsc(s0, parser.pos as int) == sp_wsc(s0, 0));
        assert(sp_document(s0) == sp_doc_more(s0, parser.pos as int, stmts_views(statements@)));
    }
    while parser.pos < parser.input.len()
        invariant
            s0 == input@,
            pwf(parser),
            parser.input@ == s0,
            stmts_wf(statements@),
            sp_wsc(s0, parser.pos as int) == parser.pos as int,
            sp_document(s0) == sp_doc_more(s0, parser.pos as int, stmts_views(statements@)),
        decreases parser.input@.len() - parser.pos,
    {
        let ghost pre_pos = parser.pos as int;
        let stmt = match parser.parse_statement() {
            Result::Ok(s) => s,
            Result::Err(e) => {
                proof {
                    reveal(sp_doc_more);
                    assert(sp_wsc(s0, pre_pos) == pre_pos);
                    assert(sp_statement(s0, pre_pos) is None);
                    assert(sp_doc_more(s0, pre_pos, stmts_views(statements@)) is None);
                    assert(sp_document(s0) is None);
                    assert(s0 == input@);
                    assert(sp_document(input@) is None);
                    assert(perr(e));
                }
                return Result::Err(e);
            },
        };
        proof {
            lemma_stmts_wf_push(statements@, stmt);
        }
        let ghost sv = stmt_view(stmt);
        let ghost bvec = statements@;
        let ghost before_views = stmts_views(statements@);
        statements.push(stmt);
        proof {
            assert(stmts_views(statements@) =~= before_views.push(sv)) by {
                lemma_stmts_views_index(bvec);
                lemma_stmts_views_index(statements@);
                assert(statements@ =~= bvec.push(stmt));
            }
        }
        let ghost after_stmt = parser.pos as int;
        parser.skip_ws_and_commas();
        proof {
            lemma_doc_step(s0, pre_pos, before_views, sv, after_stmt);
        }
    }
    proof {
        reveal(sp_doc_more);
    }
    Result::Ok(statements)
}

impl Parser {
    // ---- Basic cursor handling -------------------------------------------

    fn peek_char(&self) -> (r: Option<char>)
        requires
            pwf(*self),
        ensures
            r matches Some(c) ==> self.pos < self.input@.len() && c == self.input@[self.pos as int],
            r is None <==> self.pos == self.input@.len(),
    {
        if self.pos < self.input.len() {
            Option::Some(self.input[self.pos])
        } else {
            Option::None
        }
    }

    fn advance(&mut self, n: usize)
        requires
            pwf(*old(self)),
            old(self).pos + n <= old(self).input@.len(),
        ensures
            pwf(*final(self)),
            final(self).input@ == old(self).input@,
            final(self).pos == old(self).pos + n,
    {
        proof {
            vstd::std_specs::vec::axiom_spec_len(&self.input);
        }
        self.pos = self.pos + n;
    }

    fn starts_with(&self, s: &str) -> (r: bool)
        requires
            pwf(*self),
        ensures
            r == lit_at(self.input@, self.pos as int, s@),
    {
        let sc = str_to_chars(s);
        proof {
            vstd::std_specs::vec::axiom_spec_len(&self.input);
        }
        if self.input.len() - self.pos < sc.len() {
            return false;
        }
        let mut i: usize = 0;
        while i < sc.len()
            invariant
                pwf(*self),
                sc@ == s@,
                i <= sc@.len(),
                self.pos + sc@.len() <= self.input@.len(),
                forall|k: int| 0 <= k < i ==> self.input@[self.pos + k] == sc@[k],
            decreases sc@.len() - i,
        {
            proof {
                vstd::std_specs::vec::axiom_spec_len(&self.input);
            }
            if self.input[self.pos + i] != sc[i] {
                proof {
                    if lit_at(self.input@, self.pos as int, s@) {
                        assert(self.input@.subrange(self.pos as int, self.pos + s@.len())[i as int]
                            == self.input@[self.pos + i]);
                    }
                }
                return false;
            }
            i += 1;
        }
        proof {
            assert(self.input@.subrange(self.pos as int, self.pos + sc@.len()) =~= sc@);
        }
        true
    }

    fn eat_char(&mut self, ch: char) -> (r: bool)
        requires
            pwf(*old(self)),
        ensures
            adv(*old(self), *final(self)),
            r ==> final(self).pos == old(self).pos + 1 && old(self).pos < old(self).input@.len()
                && old(self).input@[old(self).pos as int] == ch,
            !r ==> final(self).pos == old(self).pos && !(old(self).pos < old(self).input@.len()
                && old(self).input@[old(self).pos as int] == ch),
    {
        match self.peek_char() {
            Option::Some(c) => {
                if c == ch {
                    self.advance(1);
                    true
                } else {
                    false
                }
            },
            Option::None => false,
        }
    }

    fn expect_char(&mut self, ch: char) -> (r: Result<(), MOTLYError>)
        requires
            pwf(*old(self)),
        ensures
            adv(*old(self), *final(self)),
            r is Ok ==> final(self).pos == old(self).pos + 1 && old(self).pos < old(
                self,
            ).input@.len() && old(self).input@[old(self).pos as int] == ch,
            r matches Err(e) ==> perr(e) && final(self).pos == old(self).pos && !(old(self).pos
                < old(self).input@.len() && old(self).input@[old(self).pos as int] == ch),
    {
        if self.eat_char(ch) {
            Result::Ok(())
        } else {
            Result::Err(self.error_point("Expected another character here".to_owned()))
        }
    }

    // ---- Positions and errors ----------------------------------------------

    /// The current position: 0-based line, byte column, absolute byte
    /// offset (the latter two saturate at the machine limit).
    fn position(&self) -> (p: Position)
        requires
            pwf(*self),
    {
        let mut line: usize = 0;
        let mut col: usize = 0;
        let mut off: usize = 0;
        let mut i: usize = 0;
        while i < self.pos
            invariant
                pwf(*self),
                i <= self.pos,
            decreases self.pos - i,
        {
            let c = self.input[i];
            let w = utf8_len(c);
            off = if off <= usize::MAX - w {
                off + w
            } else {
                usize::MAX
            };
            if c == '\n' {
                line = if line < usize::MAX {
                    line + 1
                } else {
                    line
                };
                col = 0;
            } else {
                col = if col <= usize::MAX - w {
                    col + w
                } else {
                    usize::MAX
                };
            }
            i += 1;
        }
        Position { line, column: col, offset: off }
    }

    fn error_point(&self, message: String) -> (e: MOTLYError)
        requires
            pwf(*self),
        ensures
            perr(e),
    {
        let pos = self.position();
        MOTLYError::syntax_error(message, pos, pos)
    }

    fn error_span(&self, message: String, begin: Position) -> (e: MOTLYError)
        requires
            pwf(*self),
        ensures
            perr(e),
    {
        MOTLYError::syntax_error(message, begin, self.position())
    }

    /// Copy a region of the input.
    fn slice_chars(&self, a: usize, b: usize) -> (r: Vec<char>)
        requires
            pwf(*self),
            a <= b <= self.input@.len(),
        ensures
            r@ == self.input@.subrange(a as int, b as int),
    {
        let mut out: Vec<char> = Vec::new();
        let mut i: usize = a;
        while i < b
            invariant
                pwf(*self),
                a <= i <= b <= self.input@.len(),
                out@ == self.input@.subrange(a as int, i as int),
            decreases b - i,
        {
            out.push(self.input[i]);
            proof {
                assert(self.input@.subrange(a as int, i as int).push(self.input@[i as int])
                    =~= self.input@.subrange(a as int, i + 1));
            }
            i += 1;
        }
        out
    }

    // ---- Whitespace and comments -------------------------------------------

    /// Skip whitespace and `#` line comments.
    #[verifier::loop_isolation(false)]
    fn skip_ws(&mut self)
        requires
            pwf(*old(self)),
        ensures
            adv(*old(self), *final(self)),
            final(self).pos as int == sp_ws(old(self).input@, old(self).pos as int),
        decreases old(self).input@.len() - old(self).pos,
    {
        let ghost s0 = old(self).input@;
        let ghost p0 = old(self).pos as int;
        while self.pos < self.input.len() && is_ws(self.input[self.pos])
            invariant
                pwf(*self),
                self.input@ == old(self).input@,
                old(self).pos <= self.pos,
                forall|k: int|
                    p0 <= k < self.pos ==> crate::text::spec_is_ws(#[trigger] s0[k]),
            decreases self.input@.len() - self.pos,
        {
            self.advance(1);
        }
        proof {
            lemma_sp_ws_run_eq(s0, p0, self.pos as int);
        }
        if self.pos < self.input.len() && self.input[self.pos] == '#' {
            let ghost c0 = self.pos as int + 1;
            self.advance(1);
            while self.pos < self.input.len() && self.input[self.pos] != '\r'
                && self.input[self.pos] != '\n'
                invariant
                    pwf(*self),
                    self.input@ == old(self).input@,
                    old(self).pos < self.pos,
                    c0 <= self.pos,
                    forall|k: int| c0 <= k < self.pos ==> #[trigger] s0[k] != '\r' && s0[k] != '\n',
                decreases self.input@.len() - self.pos,
            {
                self.advance(1);
            }
            proof {
                lemma_sp_comment_end_eq(s0, c0, self.pos as int);
            }
            self.skip_ws();
        }
    }

    /// Skip whitespace, comments and commas between statements.
    fn skip_ws_and_commas(&mut self)
        requires
            pwf(*old(self)),
        ensures
            adv(*old(self), *final(self)),
            final(self).pos as int == sp_wsc(old(self).input@, old(self).pos as int),
        decreases old(self).input@.len() - old(self).pos,
    {
        self.skip_ws();
        if self.pos < self.input.len() && self.input[self.pos] == ',' {
            self.advance(1);
            self.skip_ws_and_commas();
        }
    }

    // ---- Statements ---------------------------------------------------------

    /// One statement. On success at least one character was consumed, the
    /// statement is well formed, and it is the one the grammar assigns to
    /// the consumed characters.
    #[verifier::rlimit(100)]
    fn parse_statement(&mut self) -> (r: Result<Statement, MOTLYError>)
        requires
            pwf(*old(self)),
            old(self).pos < old(self).input@.len(),
        ensures
            adv(*old(self), *final(self)),
            (r matches Ok(s) ==> stmt_wf(s) && final(self).pos > old(self).pos && sp_statement(
                old(self).input@,
                old(self).pos as int,
            ) == Option::Some((stmt_view(s), final(self).pos as int))),
            (r matches Err(e) ==> perr(e) && sp_statement(
                old(self).input@,
                old(self).pos as int,
            ) is None),
        decreases old(self).input@.len() - old(self).pos, 5nat,
    {
        proof {
            reveal(sp_statement);
            reveal_strlit("-...");
            reveal_strlit(":=");
        }
        // -... (clear all)
        if self.starts_with("-...") {
            proof {
                reveal_strlit("-...");
            }
            self.advance(4);
            return Result::Ok(Statement::ClearAll);
        }
        // -name (tombstone)
        if self.input[self.pos] == '-' {
            self.advance(1);
            let path = match self.parse_prop_name() {
                Result::Ok(p) => p,
                Result::Err(e) => {
                    return Result::Err(e);
                },
            };
            return Result::Ok(Statement::Define { path, deleted: true });
        }
        let path = match self.parse_prop_name() {
            Result::Ok(p) => p,
            Result::Err(e) => {
                return Result::Err(e);
            },
        };
        self.skip_ws();
        // := before :
        if self.starts_with(":=") {
            proof {
                reveal_strlit(":=");
            }
            self.advance(2);
            self.skip_ws();
            let value = match self.parse_eq_value(true) {
                Result::Ok(v) => v,
                Result::Err(e) => {
                    return Result::Err(e);
                },
            };
            self.skip_ws();
            let properties = if self.pos < self.input.len() && self.input[self.pos] == '{' {
                match self.parse_properties_block() {
                    Result::Ok(ps) => Option::Some(ps),
                    Result::Err(e) => {
                        return Result::Err(e);
                    },
                }
            } else {
                Option::None
            };
            return Result::Ok(Statement::AssignBoth { path, value, properties });
        }
        match self.peek_char() {
            Option::Some('=') => {
                let eq_begin = self.position();
                self.advance(1);
                self.skip_ws();
                // `= {` without a value is a parse error
                if self.pos < self.input.len() && self.input[self.pos] == '{' {
                    return Result::Err(
                        self.error_span(
                            "Expected a value after '='; use ':' for property-only replacement".to_owned(),
                            eq_begin,
                        ),
                    );
                }
                let value = match self.parse_eq_value(true) {
                    Result::Ok(v) => v,
                    Result::Err(e) => {
                        return Result::Err(e);
                    },
                };
                self.skip_ws();
                let properties = if self.pos < self.input.len() && self.input[self.pos] == '{' {
                    match self.parse_properties_block() {
                        Result::Ok(ps) => Option::Some(ps),
                        Result::Err(e) => {
                            return Result::Err(e);
                        },
                    }
                } else {
                    Option::None
                };
                Result::Ok(Statement::SetEq { path, value, properties })
            },
            Option::Some(':') => {
                self.advance(1);
                self.skip_ws();
                let props = match self.parse_properties_block() {
                    Result::Ok(ps) => ps,
                    Result::Err(e) => {
                        return Result::Err(e);
                    },
                };
                Result::Ok(Statement::ReplaceProperties { path, properties: props })
            },
            Option::Some('{') => {
                let props = match self.parse_properties_block() {
                    Result::Ok(ps) => ps,
                    Result::Err(e) => {
                        return Result::Err(e);
                    },
                };
                Result::Ok(Statement::UpdateProperties { path, properties: props })
            },
            _ => Result::Ok(Statement::Define { path, deleted: false }),
        }
    }

    // ---- Property names -------------------------------------------------------

    /// A dotted path of identifiers; never empty.
    #[verifier::loop_isolation(false)]
    fn parse_prop_name(&mut self) -> (r: Result<Vec<String>, MOTLYError>)
        requires
            pwf(*old(self)),
        ensures
            adv(*old(self), *final(self)),
            (r matches Ok(p) ==> p@.len() >= 1 && final(self).pos > old(self).pos
                && sp_prop_name(old(self).input@, old(self).pos as int) == Option::Some(
                (path_views(p@), final(self).pos as int),
            )),
            (r matches Err(e) ==> perr(e) && sp_prop_name(
                old(self).input@,
                old(self).pos as int,
            ) is None),
        decreases old(self).input@.len() - old(self).pos, 2nat,
    {
        let ghost s0 = old(self).input@;
        let ghost p0 = old(self).pos as int;
        let first = match self.parse_identifier() {
            Result::Ok(s) => s,
            Result::Err(e) => {
                return Result::Err(e);
            },
        };
        let mut path: Vec<String> = Vec::new();
        let ghost first_v = first@;
        path.push(first);
        proof {
            assert(path_views(path@) =~= seq![first_v]);
        }
        while self.pos < self.input.len() && self.input[self.pos] == '.'
            invariant
                pwf(*self),
                self.input@ == old(self).input@,
                old(self).pos < self.pos,
                path@.len() >= 1,
                sp_prop_name(s0, p0) == sp_name_more(s0, self.pos as int, path_views(path@)),
            decreases self.input@.len() - self.pos,
        {
            let ghost pos_dot = self.pos as int;
            let ghost acc0 = path_views(path@);
            self.advance(1);
            let next = match self.parse_identifier() {
                Result::Ok(s) => s,
                Result::Err(e) => {
                    return Result::Err(e);
                },
            };
            let ghost next_v = next@;
            path.push(next);
            proof {
                assert(path_views(path@) =~= acc0.push(next_v));
            }
        }
        Result::Ok(path)
    }

    /// A bare identifier or a backtick-quoted one.
    fn parse_identifier(&mut self) -> (r: Result<String, MOTLYError>)
        requires
            pwf(*old(self)),
        ensures
            adv(*old(self), *final(self)),
            (r matches Ok(t) ==> final(self).pos > old(self).pos && sp_ident(
                old(self).input@,
                old(self).pos as int,
            ) == Option::Some((t@, final(self).pos as int))),
            (r matches Err(e) ==> perr(e) && sp_ident(
                old(self).input@,
                old(self).pos as int,
            ) is None),
        decreases old(self).input@.len() - old(self).pos, 1nat,
    {
        if self.pos < self.input.len() && self.input[self.pos] == '`' {
            self.parse_backtick_string()
        } else {
            self.parse_bare_string()
        }
    }

    // ---- Values ---------------------------------------------------------------

    /// A value: heredoc, array (when allowed), `@`-constant, reference, any
    /// of the string forms, a number, or a bare string.
    #[verifier::rlimit(100)]
    fn parse_eq_value(&mut self, allow_arrays: bool) -> (r: Result<TagValue, MOTLYError>)
        requires
            pwf(*old(self)),
        ensures
            adv(*old(self), *final(self)),
            (r matches Ok(v) ==> value_wf(v) && final(self).pos > old(self).pos && sp_value(
                old(self).input@,
                old(self).pos as int,
                allow_arrays,
            ) == Option::Some((tval_view(v), final(self).pos as int))),
            (r matches Err(e) ==> perr(e) && sp_value(
                old(self).input@,
                old(self).pos as int,
                allow_arrays,
            ) is None),
        decreases old(self).input@.len() - old(self).pos, 3nat,
    {
        if self.starts_with("<<<") {
            proof {
                reveal_strlit("<<<");
            }
            return match self.parse_heredoc() {
                Result::Ok(s) => Result::Ok(TagValue::Scalar(ScalarValue::String(s))),
                Result::Err(e) => Result::Err(e),
            };
        }
        match self.peek_char() {
            Option::Some('[') if allow_arrays => match self.parse_array() {
                Result::Ok(es) => Result::Ok(TagValue::Array(es)),
                Result::Err(e) => Result::Err(e),
            },
            Option::Some('@') => match self.parse_at_value() {
                Result::Ok(sv) => Result::Ok(TagValue::Scalar(sv)),
                Result::Err(e) => Result::Err(e),
            },
            Option::Some('$') => match self.parse_reference() {
                Result::Ok(sv) => Result::Ok(TagValue::Scalar(sv)),
                Result::Err(e) => Result::Err(e),
            },
            Option::Some('"') => {
                if self.starts_with("\"\"\"") {
                    proof {
                        reveal_strlit("\"\"\"");
                    }
                    match self.parse_triple_string() {
                        Result::Ok(s) => Result::Ok(TagValue::Scalar(ScalarValue::String(s))),
                        Result::Err(e) => Result::Err(e),
                    }
                } else {
                    match self.parse_double_quoted_string() {
                        Result::Ok(s) => Result::Ok(TagValue::Scalar(ScalarValue::String(s))),
                        Result::Err(e) => Result::Err(e),
                    }
                }
            },
            Option::Some('\'') => {
                if self.starts_with("'''") {
                    proof {
                        reveal_strlit("'''");
                    }
                    match self.parse_triple_single_quoted_string() {
                        Result::Ok(s) => Result::Ok(TagValue::Scalar(ScalarValue::String(s))),
                        Result::Err(e) => Result::Err(e),
                    }
                } else {
                    match self.parse_single_quoted_string() {
                        Result::Ok(s) => Result::Ok(TagValue::Scalar(ScalarValue::String(s))),
                        Result::Err(e) => Result::Err(e),
                    }
                }
            },
            Option::Some(ch) => {
                if ch == '-' || is_digit(ch) || ch == '.' {
                    self.parse_number_or_string()
                } else if is_bare_char(ch) {
                    match self.parse_bare_string() {
                        Result::Ok(s) => Result::Ok(TagValue::Scalar(ScalarValue::String(s))),
                        Result::Err(e) => Result::Err(e),
                    }
                } else {
                    Result::Err(self.error_point("Expected a value".to_owned()))
                }
            },
            Option::None => Result::Err(self.error_point("Expected a value".to_owned())),
        }
    }

    /// `@true`, `@false`, `@none`, `@env.NAME`, or `@<date>`.
    #[verifier::loop_isolation(false)]
    fn parse_at_value(&mut self) -> (r: Result<ScalarValue, MOTLYError>)
        requires
            pwf(*old(self)),
        ensures
            adv(*old(self), *final(self)),
            (r matches Ok(v) ==> scalar_value_wf(v) && final(self).pos > old(self).pos && sp_at(
                old(self).input@,
                old(self).pos as int,
            ) == Option::Some((sval_view(v), final(self).pos as int))),
            (r matches Err(e) ==> perr(e) && sp_at(old(self).input@, old(self).pos as int) is None),
        decreases old(self).input@.len() - old(self).pos, 0nat,
    {
        proof {
            reveal_strlit("true");
            reveal_strlit("false");
            reveal_strlit("none");
            reveal_strlit("env.");
        }
        let begin = self.position();
        match self.expect_char('@') {
            Result::Ok(_) => {},
            Result::Err(e) => {
                return Result::Err(e);
            },
        }
        if self.starts_with("true") && !self.is_bare_char_at(4) {
            proof {
                reveal_strlit("true");
            }
            self.advance(4);
            return Result::Ok(ScalarValue::Boolean(true));
        }
        if self.starts_with("false") && !self.is_bare_char_at(5) {
            proof {
                reveal_strlit("false");
            }
            self.advance(5);
            return Result::Ok(ScalarValue::Boolean(false));
        }
        if self.starts_with("none") && !self.is_bare_char_at(4) {
            proof {
                reveal_strlit("none");
            }
            self.advance(4);
            return Result::Ok(ScalarValue::NoValue);
        }
        if self.starts_with("env.") {
            proof {
                reveal_strlit("env.");
            }
            self.advance(4);
            let name = match self.parse_bare_string() {
                Result::Ok(s) => s,
                Result::Err(e) => {
                    return Result::Err(e);
                },
            };
            return Result::Ok(ScalarValue::Env { name });
        }
        if self.pos < self.input.len() && is_digit(self.input[self.pos]) {
            self.parse_date(begin)
        } else {
            // consume the bad token for a better span
            while self.pos < self.input.len() && is_bare_char(self.input[self.pos])
                invariant
                    pwf(*self),
                    self.input@ == old(self).input@,
                    old(self).pos <= self.pos,
                decreases self.input@.len() - self.pos,
            {
                self.advance(1);
            }
            Result::Err(
                self.error_span(
                    "Illegal constant after @; expected @true, @false, @none, @env.NAME, or @date".to_owned(),
                    begin,
                ),
            )
        }
    }

    /// Whether the character `offset` places ahead is a bare character.
    fn is_bare_char_at(&self, offset: usize) -> (r: bool)
        requires
            pwf(*self),
            self.pos + offset <= self.input@.len(),
        ensures
            r == sp_bare_at(self.input@, self.pos + offset),
    {
        proof {
            vstd::std_specs::vec::axiom_spec_len(&self.input);
        }
        if self.pos + offset < self.input.len() {
            is_bare_char(self.input[self.pos + offset])
        } else {
            false
        }
    }

    /// A date constant: `YYYY-MM-DD` with optional time, fraction and zone;
    /// the matched text is kept verbatim.
    #[verifier::loop_isolation(false)]
    #[verifier::rlimit(50)]
    fn parse_date(&mut self, begin: Position) -> (r: Result<ScalarValue, MOTLYError>)
        requires
            pwf(*old(self)),
        ensures
            adv(*old(self), *final(self)),
            (r matches Ok(v) ==> scalar_value_wf(v) && final(self).pos > old(self).pos && (
            v matches ScalarValue::Date(d) && sp_date(old(self).input@, old(self).pos as int)
                == Option::Some((d@, final(self).pos as int)))),
            (r matches Err(e) ==> perr(e) && sp_date(
                old(self).input@,
                old(self).pos as int,
            ) is None),
        decreases old(self).input@.len() - old(self).pos, 0nat,
    {
        let ghost s0 = old(self).input@;
        let start = self.pos;
        match self.consume_digits(4, begin) {
            Result::Ok(_) => {},
            Result::Err(e) => {
                return Result::Err(e);
            },
        }
        match self.expect_char('-') {
            Result::Ok(_) => {},
            Result::Err(e) => {
                return Result::Err(e);
            },
        }
        match self.consume_digits(2, begin) {
            Result::Ok(_) => {},
            Result::Err(e) => {
                return Result::Err(e);
            },
        }
        match self.expect_char('-') {
            Result::Ok(_) => {},
            Result::Err(e) => {
                return Result::Err(e);
            },
        }
        match self.consume_digits(2, begin) {
            Result::Ok(_) => {},
            Result::Err(e) => {
                return Result::Err(e);
            },
        }
        if self.pos < self.input.len() && self.input[self.pos] == 'T' {
            self.advance(1);
            match self.consume_digits(2, begin) {
                Result::Ok(_) => {},
                Result::Err(e) => {
                    return Result::Err(e);
                },
            }
            match self.expect_char(':') {
                Result::Ok(_) => {},
                Result::Err(e) => {
                    return Result::Err(e);
                },
            }
            match self.consume_digits(2, begin) {
                Result::Ok(_) => {},
                Result::Err(e) => {
                    return Result::Err(e);
                },
            }
            if self.pos < self.input.len() && self.input[self.pos] == ':' {
                self.advance(1);
                match self.consume_digits(2, begin) {
                    Result::Ok(_) => {},
                    Result::Err(e) => {
                        return Result::Err(e);
                    },
                }
                if self.pos < self.input.len() && self.input[self.pos] == '.' {
                    self.advance(1);
                    let frac_start = self.pos;
                    while self.pos < self.input.len() && is_digit(self.input[self.pos])
                        invariant
                            pwf(*self),
                            self.input@ == old(self).input@,
                            old(self).pos < self.pos,
                            start <= self.pos,
                            frac_start <= self.pos,
                            forall|k: int|
                                frac_start <= k < self.pos ==> spec_is_digit(#[trigger] s0[k]),
                        decreases self.input@.len() - self.pos,
                    {
                        self.advance(1);
                    }
                    proof {
                        lemma_digits_end_eq(s0, frac_start as int, self.pos as int);
                    }
                    if self.pos == frac_start {
                        return Result::Err(
                            self.error_span("Expected fractional digits in date".to_owned(), begin),
                        );
                    }
                }
            }
            if self.pos < self.input.len() && self.input[self.pos] == 'Z' {
                self.advance(1);
            } else if self.pos < self.input.len() && (self.input[self.pos] == '+'
                || self.input[self.pos] == '-') {
                self.advance(1);
                match self.consume_digits(2, begin) {
                    Result::Ok(_) => {},
                    Result::Err(e) => {
                        return Result::Err(e);
                    },
                }
                if self.pos < self.input.len() && self.input[self.pos] == ':' {
                    self.advance(1);
                }
                match self.consume_digits(2, begin) {
                    Result::Ok(_) => {},
                    Result::Err(e) => {
                        return Result::Err(e);
                    },
                }
            }
        }
        let text = self.slice_chars(start, self.pos);
        Result::Ok(ScalarValue::Date(chars_to_string(&text)))
    }

    /// Exactly `count` decimal digits.
    #[verifier::loop_isolation(false)]
    fn consume_digits(&mut self, count: usize, begin: Position) -> (r: Result<(), MOTLYError>)
        requires
            pwf(*old(self)),
        ensures
            adv(*old(self), *final(self)),
            r is Ok ==> final(self).pos == old(self).pos + count && sp_ndigits(
                old(self).input@,
                old(self).pos as int,
                count as int,
            ),
            r matches Err(e) ==> perr(e) && !sp_ndigits(
                old(self).input@,
                old(self).pos as int,
                count as int,
            ),
    {
        let ghost s0 = old(self).input@;
        let ghost p0 = old(self).pos as int;
        let mut k: usize = 0;
        while k < count
            invariant
                pwf(*self),
                self.input@ == old(self).input@,
                k <= count,
                self.pos == old(self).pos + k,
                forall|t: int| p0 <= t < p0 + k ==> spec_is_digit(#[trigger] s0[t]),
            decreases count - k,
        {
            if self.pos < self.input.len() && is_digit(self.input[self.pos]) {
                self.advance(1);
            } else {
                proof {
                    if sp_ndigits(s0, p0, count as int) {
                        assert(spec_is_digit(s0[p0 + k]));
                    }
                }
                return Result::Err(self.error_span("Expected digit".to_owned(), begin));
            }
            k += 1;
        }
        Result::Ok(())
    }

    // ---- Numbers ----------------------------------------------------------------

    /// A number, or fall back to a bare string when the token turns out to
    /// be one (a number immediately followed by a bare character).
    #[verifier::loop_isolation(false)]
    #[verifier::rlimit(100)]
    #[verifier::spinoff_prover]
    fn parse_number_or_string(&mut self) -> (r: Result<TagValue, MOTLYError>)
        requires
            pwf(*old(self)),
        ensures
            adv(*old(self), *final(self)),
            (r matches Ok(v) ==> value_wf(v) && final(self).pos > old(self).pos && sp_numstr(
                old(self).input@,
                old(self).pos as int,
            ) == Option::Some((tval_view(v), final(self).pos as int))),
            (r matches Err(e) ==> perr(e) && sp_numstr(
                old(self).input@,
                old(self).pos as int,
            ) is None),
        decreases old(self).input@.len() - old(self).pos, 2nat,
    {
        let ghost s0 = old(self).input@;
        let ghost p0 = old(self).pos as int;
        let start = self.pos;
        let begin = self.position();
        let mut token: Vec<char> = Vec::new();
        let has_minus = self.pos < self.input.len() && self.input[self.pos] == '-';
        let ghost mpart: Seq<char> = if has_minus {
            seq!['-']
        } else {
            Seq::empty()
        };
        if has_minus {
            token.push('-');
            self.advance(1);
        }
        let ghost pm = self.pos as int;
        proof {
            assert(token@ =~= mpart + s0.subrange(pm, pm));
        }
        // integer digits
        let mut has_int = false;
        while self.pos < self.input.len() && is_digit(self.input[self.pos])
            invariant
                pwf(*self),
                self.input@ == old(self).input@,
                start <= self.pos,
                start == old(self).pos,
                pm <= self.pos,
                has_int <==> self.pos > pm,
                forall|k: int| pm <= k < self.pos ==> spec_is_digit(#[trigger] s0[k]),
                token@ == mpart + s0.subrange(pm, self.pos as int),
            decreases self.input@.len() - self.pos,
        {
            let ghost t0 = token@;
            token.push(self.input[self.pos]);
            proof {
                crate::text::lemma_push_is_concat(t0, s0[self.pos as int]);
                assert(s0.subrange(pm, self.pos as int).push(s0[self.pos as int]) =~= s0.subrange(
                    pm,
                    self.pos + 1,
                ));
                crate::text::lemma_group2(mpart, s0.subrange(pm, self.pos as int), seq![
                    s0[self.pos as int],
                ]);
            }
            self.advance(1);
            has_int = true;
        }
        let ghost d1 = self.pos as int;
        proof {
            lemma_digits_end_eq(s0, pm, d1);
        }
        let ghost islice = s0.subrange(pm, d1);
        // fraction
        let mut has_dot = false;
        if self.pos < self.input.len() && self.input[self.pos] == '.' {
            has_dot = true;
            let ghost zpart: Seq<char> = if !has_int {
                seq!['0']
            } else {
                Seq::empty()
            };
            if !has_int {
                // normalize a leading `.` to `0.`
                let ghost t0 = token@;
                token.push('0');
                proof {
                    crate::text::lemma_push_is_concat(t0, '0');
                }
            } else {
                proof {
                    crate::text::lemma_cat_empty(token@);
                }
            }
            let ghost t1 = token@;
            token.push('.');
            proof {
                crate::text::lemma_push_is_concat(t1, '.');
            }
            self.advance(1);
            let frac_start = self.pos;
            proof {
                assert(frac_start as int == d1 + 1);
            }
            let ghost base = mpart + islice + zpart + seq!['.'];
            proof {
                assert(token@ =~= base + s0.subrange(frac_start as int, frac_start as int));
            }
            while self.pos < self.input.len() && is_digit(self.input[self.pos])
                invariant
                    pwf(*self),
                    self.input@ == old(self).input@,
                    start == old(self).pos,
                    frac_start <= self.pos,
                    start < frac_start,
                    forall|k: int|
                        frac_start <= k < self.pos ==> spec_is_digit(#[trigger] s0[k]),
                    token@ == base + s0.subrange(frac_start as int, self.pos as int),
                decreases self.input@.len() - self.pos,
            {
                let ghost t0 = token@;
                token.push(self.input[self.pos]);
                proof {
                    crate::text::lemma_push_is_concat(t0, s0[self.pos as int]);
                    assert(s0.subrange(frac_start as int, self.pos as int).push(
                        s0[self.pos as int],
                    ) =~= s0.subrange(frac_start as int, self.pos + 1));
                    crate::text::lemma_group2(
                        base,
                        s0.subrange(frac_start as int, self.pos as int),
                        seq![s0[self.pos as int]],
                    );
                }
                self.advance(1);
            }
            proof {
                lemma_digits_end_eq(s0, frac_start as int, self.pos as int);
            }
            if self.pos == frac_start {
                self.pos = start;
                return self.parse_integer_or_bare(start, has_minus);
            }
        }
        if !has_int && !has_dot {
            self.pos = start;
            if has_minus {
                return Result::Err(self.error_point("Expected a value".to_owned()));
            }
            return match self.parse_bare_string() {
                Result::Ok(s) => Result::Ok(TagValue::Scalar(ScalarValue::String(s))),
                Result::Err(e) => Result::Err(e),
            };
        }
        let ghost p2 = self.pos as int;
        proof {
            if has_dot {
                let zp: Seq<char> = if !has_int {
                    seq!['0']
                } else {
                    Seq::<char>::empty()
                };
                let fsub = s0.subrange(d1 + 1, p2);
                assert(token@ == mpart + islice + zp + seq!['.'] + fsub);
                crate::text::lemma_group3(mpart + islice, zp, seq!['.'], fsub);
                assert(token@ == mpart + islice + (zp + seq!['.'] + fsub));
            } else {
                crate::text::lemma_cat_empty(mpart + islice);
                assert(token@ == mpart + islice + Seq::<char>::empty());
            }
        }
        self.scan_number_tail(
            token,
            start,
            begin,
            has_minus,
            has_int,
            has_dot,
            Ghost(p0),
            Ghost(pm),
            Ghost(d1),
        )
    }

    /// The exponent part, the bare-character fallback, and the token
    /// classification shared by the number scan.
    #[verifier::loop_isolation(false)]
    #[verifier::rlimit(100)]
    fn scan_number_tail(
        &mut self,
        token: Vec<char>,
        start: usize,
        begin: Position,
        has_minus: bool,
        has_int: bool,
        has_dot: bool,
        Ghost(p0): Ghost<int>,
        Ghost(pm): Ghost<int>,
        Ghost(d1): Ghost<int>,
    ) -> (r: Result<TagValue, MOTLYError>)
        requires
            pwf(*old(self)),
            start as int == p0,
            0 <= p0 <= old(self).pos,
            pm == p0 + (if has_minus {
                1int
            } else {
                0int
            }),
            has_minus ==> p0 < old(self).input@.len() && old(self).input@[p0] == '-',
            !has_minus ==> !(p0 < old(self).input@.len() && old(self).input@[p0] == '-'),
            d1 == spec_digits_end(old(self).input@, pm),
            pm <= d1,
            has_int <==> d1 > pm,
            has_int || has_dot,
            has_dot ==> d1 < old(self).input@.len() && old(self).input@[d1] == '.'
                && old(self).pos as int == spec_digits_end(old(self).input@, d1 + 1) && old(
                self,
            ).pos as int > d1 + 1,
            !has_dot ==> old(self).pos as int == d1 && !(d1 < old(self).input@.len() && old(
                self,
            ).input@[d1] == '.'),
            token@ == (if has_minus {
                seq!['-']
            } else {
                Seq::<char>::empty()
            }) + old(self).input@.subrange(pm, d1) + (if has_dot {
                (if !has_int {
                    seq!['0']
                } else {
                    Seq::<char>::empty()
                }) + seq!['.'] + old(self).input@.subrange(d1 + 1, old(self).pos as int)
            } else {
                Seq::<char>::empty()
            }),
        ensures
            final(self).input@ == old(self).input@,
            p0 <= final(self).pos,
            final(self).pos <= final(self).input@.len(),
            (r matches Ok(v) ==> value_wf(v) && final(self).pos > p0 && sp_numstr(
                old(self).input@,
                p0,
            ) == Option::Some((tval_view(v), final(self).pos as int))),
            (r matches Err(e) ==> perr(e) && sp_numstr(old(self).input@, p0) is None),
        decreases old(self).input@.len() - old(self).pos, 1nat,
    {
        let ghost s0 = old(self).input@;
        let ghost mpart: Seq<char> = if has_minus {
            seq!['-']
        } else {
            Seq::empty()
        };
        let ghost islice = s0.subrange(pm, d1);
        let ghost p2 = self.pos as int;
        let ghost pre_exp = token@;
        proof {
            assert(sp_numstr(s0, p0) == sp_num_tail(s0, p0, has_minus, has_int, pm, d1, has_dot, p2));
        }
        let mut token = token;
        // exponent
        if self.pos < self.input.len() && (self.input[self.pos] == 'e' || self.input[self.pos]
            == 'E') {
            let ghost t0 = token@;
            token.push(self.input[self.pos]);
            proof {
                crate::text::lemma_push_is_concat(t0, s0[self.pos as int]);
                assert(token@ =~= pre_exp + s0.subrange(p2, self.pos + 1));
            }
            self.advance(1);
            if self.pos < self.input.len() && (self.input[self.pos] == '+' || self.input[self.pos]
                == '-') {
                let ghost t1 = token@;
                token.push(self.input[self.pos]);
                proof {
                    crate::text::lemma_push_is_concat(t1, s0[self.pos as int]);
                    assert(token@ =~= pre_exp + s0.subrange(p2, self.pos + 1));
                }
                self.advance(1);
            }
            let exp_start = self.pos;
            while self.pos < self.input.len() && is_digit(self.input[self.pos])
                invariant
                    pwf(*self),
                    self.input@ == old(self).input@,
                    exp_start <= self.pos,
                    p2 < exp_start,
                    forall|k: int|
                        exp_start <= k < self.pos ==> spec_is_digit(#[trigger] s0[k]),
                    token@ == pre_exp + s0.subrange(p2, self.pos as int),
                decreases self.input@.len() - self.pos,
            {
                let ghost t0 = token@;
                token.push(self.input[self.pos]);
                proof {
                    crate::text::lemma_push_is_concat(t0, s0[self.pos as int]);
                    assert(s0.subrange(p2, self.pos as int).push(s0[self.pos as int])
                        =~= s0.subrange(p2, self.pos + 1));
                    crate::text::lemma_group2(pre_exp, s0.subrange(p2, self.pos as int), seq![
                        s0[self.pos as int],
                    ]);
                }
                self.advance(1);
            }
            proof {
                lemma_digits_end_eq(s0, exp_start as int, self.pos as int);
            }
            if self.pos == exp_start {
                return Result::Err(self.error_span("Expected exponent digits".to_owned(), begin));
            }
        } else {
            proof {
                assert(token@ =~= pre_exp + s0.subrange(p2, p2));
            }
        }
        let ghost p3 = self.pos as int;
        proof {
            assert(sp_exp_end(s0, p2) == Option::Some(p3));
        }
        // a number followed by a bare character is a bare string after all
        if self.pos < self.input.len() && is_bare_char(self.input[self.pos]) && !is_digit(
            self.input[self.pos],
        ) {
            self.pos = start;
            if has_minus {
                return Result::Err(self.error_point("Expected a value".to_owned()));
            }
            return match self.parse_bare_string() {
                Result::Ok(s) => Result::Ok(TagValue::Scalar(ScalarValue::String(s))),
                Result::Err(e) => Result::Err(e),
            };
        }
        proof {
            let zp: Seq<char> = if !has_int {
                seq!['0']
            } else {
                Seq::<char>::empty()
            };
            let fslice: Seq<char> = if has_dot {
                s0.subrange(d1 + 1, p2)
            } else {
                Seq::<char>::empty()
            };
            let dotpart: Seq<char> = if has_dot {
                zp + seq!['.'] + fslice
            } else {
                Seq::<char>::empty()
            };
            if has_dot {
                crate::text::lemma_group3(mpart + islice, zp, seq!['.'], fslice);
                assert(pre_exp == mpart + islice + dotpart);
            } else {
                crate::text::lemma_cat_empty(mpart + islice);
                assert(pre_exp == mpart + islice + dotpart);
            }
            assert(token@ == mpart + islice + dotpart + s0.subrange(p2, p3));
        }
        if !check_num_token(&token) {
            return Result::Err(self.error_span("Invalid number".to_owned(), begin));
        }
        let n = number_from_token(&token);
        proof {
            if spec_small_int_token(token@) {
                crate::num::lemma_small_token_val_bounds(token@);
            }
            assert(crate::tree::view_number(n) == sp_number_of(token@));
            assert(sp_num_tail(s0, p0, has_minus, has_int, pm, d1, has_dot, p2)
                == Option::Some(
                (ValueV::Scalar(ScalarV::Num(sp_number_of(token@))), p3),
            ));
            assert(sp_numstr(s0, p0) == Option::Some(
                (ValueV::Scalar(ScalarV::Num(sp_number_of(token@))), p3),
            ));
            assert(tval_view(TagValue::Scalar(ScalarValue::Number(n))) == ValueV::Scalar(
                ScalarV::Num(sp_number_of(token@)),
            ));
            assert(p3 > p0);
            assert(value_wf(TagValue::Scalar(ScalarValue::Number(n))));
        }
        Result::Ok(TagValue::Scalar(ScalarValue::Number(n)))
    }

    /// The integer (with optional exponent) reparse path taken when a `.`
    /// has no digits after it.
    #[verifier::loop_isolation(false)]
    #[verifier::rlimit(100)]
    fn parse_integer_or_bare(&mut self, start: usize, has_minus: bool) -> (r: Result<
        TagValue,
        MOTLYError,
    >)
        requires
            pwf(*old(self)),
            old(self).pos == start,
        ensures
            adv(*old(self), *final(self)),
            (r matches Ok(v) ==> value_wf(v) && final(self).pos > old(self).pos
                && sp_int_or_bare(old(self).input@, old(self).pos as int, has_minus)
                == Option::Some((tval_view(v), final(self).pos as int))),
            (r matches Err(e) ==> perr(e) && sp_int_or_bare(
                old(self).input@,
                old(self).pos as int,
                has_minus,
            ) is None),
        decreases old(self).input@.len() - old(self).pos, 1nat,
    {
        let ghost s0 = old(self).input@;
        let ghost mpart: Seq<char> = if has_minus {
            seq!['-']
        } else {
            Seq::empty()
        };
        let begin = self.position();
        let mut token: Vec<char> = Vec::new();
        if has_minus {
            if !(self.pos < self.input.len() && self.input[self.pos] == '-') {
                return Result::Err(self.error_point("Expected a value".to_owned()));
            }
            token.push('-');
            self.advance(1);
        }
        let digit_start = self.pos;
        proof {
            assert(token@ =~= mpart + s0.subrange(digit_start as int, digit_start as int));
        }
        while self.pos < self.input.len() && is_digit(self.input[self.pos])
            invariant
                pwf(*self),
                self.input@ == old(self).input@,
                digit_start <= self.pos,
                start == old(self).pos,
                start <= digit_start,
                forall|k: int|
                    digit_start <= k < self.pos ==> spec_is_digit(#[trigger] s0[k]),
                token@ == mpart + s0.subrange(digit_start as int, self.pos as int),
            decreases self.input@.len() - self.pos,
        {
            let ghost t0 = token@;
            token.push(self.input[self.pos]);
            proof {
                crate::text::lemma_push_is_concat(t0, s0[self.pos as int]);
                assert(s0.subrange(digit_start as int, self.pos as int).push(s0[self.pos as int])
                    =~= s0.subrange(digit_start as int, self.pos + 1));
                crate::text::lemma_group2(
                    mpart,
                    s0.subrange(digit_start as int, self.pos as int),
                    seq![s0[self.pos as int]],
                );
            }
            self.advance(1);
        }
        let ghost d1 = self.pos as int;
        proof {
            lemma_digits_end_eq(s0, digit_start as int, d1);
        }
        let ghost islice = s0.subrange(digit_start as int, d1);
        if self.pos == digit_start {
            self.pos = start;
            if has_minus {
                return Result::Err(self.error_point("Expected a value".to_owned()));
            }
            return match self.parse_bare_string() {
                Result::Ok(s) => Result::Ok(TagValue::Scalar(ScalarValue::String(s))),
                Result::Err(e) => Result::Err(e),
            };
        }
        if !has_minus {
            if self.pos < self.input.len() && is_bare_char(self.input[self.pos]) && !is_digit(
                self.input[self.pos],
            ) {
                self.pos = start;
                return match self.parse_bare_string() {
                    Result::Ok(s) => Result::Ok(TagValue::Scalar(ScalarValue::String(s))),
                    Result::Err(e) => Result::Err(e),
                };
            }
        }
        let ghost p2 = self.pos as int;
        let ghost pre_exp = token@;
        if self.pos < self.input.len() && (self.input[self.pos] == 'e' || self.input[self.pos]
            == 'E') {
            let ghost t0 = token@;
            token.push(self.input[self.pos]);
            proof {
                crate::text::lemma_push_is_concat(t0, s0[self.pos as int]);
                assert(token@ =~= pre_exp + s0.subrange(p2, self.pos + 1));
            }
            self.advance(1);
            if self.pos < self.input.len() && (self.input[self.pos] == '+' || self.input[self.pos]
                == '-') {
                let ghost t1 = token@;
                token.push(self.input[self.pos]);
                proof {
                    crate::text::lemma_push_is_concat(t1, s0[self.pos as int]);
                    assert(token@ =~= pre_exp + s0.subrange(p2, self.pos + 1));
                }
                self.advance(1);
            }
            let exp_start = self.pos;
            while self.pos < self.input.len() && is_digit(self.input[self.pos])
                invariant
                    pwf(*self),
                    self.input@ == old(self).input@,
                    start == old(self).pos,
                    exp_start <= self.pos,
                    start < exp_start,
                    p2 < exp_start,
                    forall|k: int|
                        exp_start <= k < self.pos ==> spec_is_digit(#[trigger] s0[k]),
                    token@ == pre_exp + s0.subrange(p2, self.pos as int),
                decreases self.input@.len() - self.pos,
            {
                let ghost t0 = token@;
                token.push(self.input[self.pos]);
                proof {
                    crate::text::lemma_push_is_concat(t0, s0[self.pos as int]);
                    assert(s0.subrange(p2, self.pos as int).push(s0[self.pos as int])
                        =~= s0.subrange(p2, self.pos + 1));
                    crate::text::lemma_group2(pre_exp, s0.subrange(p2, self.pos as int), seq![
                        s0[self.pos as int],
                    ]);
                }
                self.advance(1);
            }
            proof {
                lemma_digits_end_eq(s0, exp_start as int, self.pos as int);
            }
            if self.pos == exp_start {
                return Result::Err(self.error_span("Expected exponent digits".to_owned(), begin));
            }
        } else {
            proof {
                assert(token@ =~= pre_exp + s0.subrange(p2, p2));
            }
        }
        let ghost p3 = self.pos as int;
        proof {
            assert(sp_exp_end(s0, p2) == Option::Some(p3));
            assert(token@ == mpart + islice + s0.subrange(d1, p3));
        }
        if !check_num_token(&token) {
            return Result::Err(self.error_span("Invalid number".to_owned(), begin));
        }
        let n = number_from_token(&token);
        proof {
            if spec_small_int_token(token@) {
                crate::num::lemma_small_token_val_bounds(token@);
            }
            assert(crate::tree::view_number(n) == sp_number_of(token@));
        }
        Result::Ok(TagValue::Scalar(ScalarValue::Number(n)))
    }

    // ---- Strings -------------------------------------------------------------

    /// One or more bare characters, taken verbatim.
    #[verifier::loop_isolation(false)]
    fn parse_bare_string(&mut self) -> (r: Result<String, MOTLYError>)
        requires
            pwf(*old(self)),
        ensures
            adv(*old(self), *final(self)),
            (r matches Ok(t) ==> final(self).pos > old(self).pos && sp_bare(
                old(self).input@,
                old(self).pos as int,
            ) == Option::Some((t@, final(self).pos as int))),
            r matches Err(e) ==> perr(e) && final(self).pos == old(self).pos && sp_bare(
                old(self).input@,
                old(self).pos as int,
            ) is None,
        decreases old(self).input@.len() - old(self).pos, 0nat,
    {
        let ghost s0 = old(self).input@;
        let start = self.pos;
        while self.pos < self.input.len() && is_bare_char(self.input[self.pos])
            invariant
                pwf(*self),
                self.input@ == old(self).input@,
                start <= self.pos,
                start == old(self).pos,
                forall|k: int|
                    start <= k < self.pos ==> crate::text::spec_is_bare(#[trigger] s0[k]),
            decreases self.input@.len() - self.pos,
        {
            self.advance(1);
        }
        proof {
            lemma_sp_bare_end_eq(s0, start as int, self.pos as int);
        }
        if self.pos == start {
            return Result::Err(self.error_point("Expected an identifier".to_owned()));
        }
        let text = self.slice_chars(start, self.pos);
        Result::Ok(chars_to_string(&text))
    }

    /// `"..."` with escapes; a newline inside is an error.
    #[verifier::loop_isolation(false)]
    #[verifier::rlimit(50)]
    fn parse_double_quoted_string(&mut self) -> (r: Result<String, MOTLYError>)
        requires
            pwf(*old(self)),
        ensures
            adv(*old(self), *final(self)),
            (r matches Ok(t) ==> final(self).pos > old(self).pos && sp_dq(
                old(self).input@,
                old(self).pos as int,
            ) == Option::Some((t@, final(self).pos as int))),
            (r matches Err(e) ==> perr(e) && sp_dq(old(self).input@, old(self).pos as int) is None),
        decreases old(self).input@.len() - old(self).pos, 0nat,
    {
        let ghost s0 = old(self).input@;
        let begin = self.position();
        match self.expect_char('"') {
            Result::Ok(_) => {},
            Result::Err(e) => {
                return Result::Err(e);
            },
        }
        let ghost inner0 = self.pos as int;
        let mut result: Vec<char> = Vec::new();
        proof {
            match sp_dq_tail(s0, inner0) {
                Option::Some(p) => {
                    assert(result@ + p.0 =~= p.0);
                },
                Option::None => {},
            }
        }
        loop
            invariant
                pwf(*self),
                self.input@ == old(self).input@,
                old(self).pos < self.pos,
                match sp_dq_tail(s0, self.pos as int) {
                    Option::Some(p) => sp_dq_tail(s0, inner0) == Option::Some(
                        (result@ + p.0, p.1),
                    ),
                    Option::None => sp_dq_tail(s0, inner0) is None,
                },
            decreases self.input@.len() - self.pos,
        {
            if self.pos >= self.input.len() || self.input[self.pos] == '\r' || self.input[self.pos]
                == '\n' {
                return Result::Err(self.error_span("Unterminated string".to_owned(), begin));
            }
            let c = self.input[self.pos];
            if c == '"' {
                proof {
                    assert(sp_dq_tail(s0, self.pos as int) == Option::Some(
                        (Seq::<char>::empty(), self.pos + 1),
                    ));
                    crate::text::lemma_cat_empty(result@);
                }
                self.advance(1);
                return Result::Ok(chars_to_string(&result));
            } else if c == '\\' {
                let ghost pos_b = self.pos as int;
                self.advance(1);
                let esc = match self.parse_escape_char() {
                    Result::Ok(s) => s,
                    Result::Err(e) => {
                        return Result::Err(e);
                    },
                };
                let ghost res0 = result@;
                crate::json::push_str(&mut result, esc.as_str());
                proof {
                    match sp_dq_tail(s0, self.pos as int) {
                        Option::Some(p) => {
                            crate::text::lemma_group2(res0, esc@, p.0);
                        },
                        Option::None => {},
                    }
                }
            } else {
                let ghost res0 = result@;
                self.advance(1);
                result.push(c);
                proof {
                    crate::text::lemma_push_is_concat(res0, c);
                    match sp_dq_tail(s0, self.pos as int) {
                        Option::Some(p) => {
                            crate::text::lemma_group2(res0, seq![c], p.0);
                        },
                        Option::None => {},
                    }
                }
            }
        }
    }

    /// `'...'`, raw: a backslash is kept literally but absorbs the next
    /// character for delimiter purposes.
    #[verifier::loop_isolation(false)]
    #[verifier::rlimit(50)]
    fn parse_single_quoted_string(&mut self) -> (r: Result<String, MOTLYError>)
        requires
            pwf(*old(self)),
        ensures
            adv(*old(self), *final(self)),
            (r matches Ok(t) ==> final(self).pos > old(self).pos && sp_sq(
                old(self).input@,
                old(self).pos as int,
            ) == Option::Some((t@, final(self).pos as int))),
            (r matches Err(e) ==> perr(e) && sp_sq(old(self).input@, old(self).pos as int) is None),
        decreases old(self).input@.len() - old(self).pos, 0nat,
    {
        let ghost s0 = old(self).input@;
        let begin = self.position();
        match self.expect_char('\'') {
            Result::Ok(_) => {},
            Result::Err(e) => {
                return Result::Err(e);
            },
        }
        let ghost inner0 = self.pos as int;
        let mut result: Vec<char> = Vec::new();
        proof {
            match sp_sq_tail(s0, inner0) {
                Option::Some(p) => {
                    assert(result@ + p.0 =~= p.0);
                },
                Option::None => {},
            }
        }
        loop
            invariant
                pwf(*self),
                self.input@ == old(self).input@,
                old(self).pos < self.pos,
                match sp_sq_tail(s0, self.pos as int) {
                    Option::Some(p) => sp_sq_tail(s0, inner0) == Option::Some(
                        (result@ + p.0, p.1),
                    ),
                    Option::None => sp_sq_tail(s0, inner0) is None,
                },
            decreases self.input@.len() - self.pos,
        {
            if self.pos >= self.input.len() || self.input[self.pos] == '\r' || self.input[self.pos]
                == '\n' {
                return Result::Err(self.error_span("Unterminated string".to_owned(), begin));
            }
            let c = self.input[self.pos];
            if c == '\'' {
                proof {
                    assert(sp_sq_tail(s0, self.pos as int) == Option::Some(
                        (Seq::<char>::empty(), self.pos + 1),
                    ));
                    crate::text::lemma_cat_empty(result@);
                }
                self.advance(1);
                return Result::Ok(chars_to_string(&result));
            } else if c == '\\' {
                let ghost res0 = result@;
                self.advance(1);
                result.push('\\');
                if self.pos >= self.input.len() || self.input[self.pos] == '\r'
                    || self.input[self.pos] == '\n' {
                    return Result::Err(self.error_span("Unterminated string".to_owned(), begin));
                }
                let c2 = self.input[self.pos];
                self.advance(1);
                result.push(c2);
                proof {
                    assert(result@ =~= res0 + seq!['\\', c2]);
                    match sp_sq_tail(s0, self.pos as int) {
                        Option::Some(p) => {
                            crate::text::lemma_group2(res0, seq!['\\', c2], p.0);
                        },
                        Option::None => {},
                    }
                }
            } else {
                let ghost res0 = result@;
                self.advance(1);
                result.push(c);
                proof {
                    crate::text::lemma_push_is_concat(res0, c);
                    match sp_sq_tail(s0, self.pos as int) {
                        Option::Some(p) => {
                            crate::text::lemma_group2(res0, seq![c], p.0);
                        },
                        Option::None => {},
                    }
                }
            }
        }
    }

    /// `'''...'''`, raw with newlines allowed.
    #[verifier::loop_isolation(false)]
    #[verifier::rlimit(50)]
    fn parse_triple_single_quoted_string(&mut self) -> (r: Result<String, MOTLYError>)
        requires
            pwf(*old(self)),
        ensures
            adv(*old(self), *final(self)),
            (r matches Ok(t) ==> final(self).pos > old(self).pos && sp_tsq(
                old(self).input@,
                old(self).pos as int,
            ) == Option::Some((t@, final(self).pos as int))),
            (r matches Err(e) ==> perr(e) && sp_tsq(
                old(self).input@,
                old(self).pos as int,
            ) is None),
        decreases old(self).input@.len() - old(self).pos, 0nat,
    {
        let ghost s0 = old(self).input@;
        proof {
            reveal_strlit("'''");
        }
        let begin = self.position();
        if !self.starts_with("'''") {
            return Result::Err(
                self.error_point("Expected triple-single-quoted string".to_owned()),
            );
        }
        self.advance(3);
        let ghost inner0 = self.pos as int;
        let mut result: Vec<char> = Vec::new();
        proof {
            match sp_tsq_tail(s0, inner0) {
                Option::Some(p) => {
                    assert(result@ + p.0 =~= p.0);
                },
                Option::None => {},
            }
        }
        loop
            invariant
                pwf(*self),
                self.input@ == old(self).input@,
                old(self).pos < self.pos,
                match sp_tsq_tail(s0, self.pos as int) {
                    Option::Some(p) => sp_tsq_tail(s0, inner0) == Option::Some(
                        (result@ + p.0, p.1),
                    ),
                    Option::None => sp_tsq_tail(s0, inner0) is None,
                },
            decreases self.input@.len() - self.pos,
        {
            if self.starts_with("'''") {
                proof {
                    assert(sp_tsq_tail(s0, self.pos as int) == Option::Some(
                        (Seq::<char>::empty(), self.pos + 3),
                    ));
                    crate::text::lemma_cat_empty(result@);
                }
                self.advance(3);
                return Result::Ok(chars_to_string(&result));
            }
            if self.pos >= self.input.len() {
                return Result::Err(
                    self.error_span("Unterminated triple-single-quoted string".to_owned(), begin),
                );
            }
            let c = self.input[self.pos];
            if c == '\\' {
                let ghost res0 = result@;
                self.advance(1);
                result.push('\\');
                if self.pos >= self.input.len() {
                    return Result::Err(
                        self.error_span(
                            "Unterminated triple-single-quoted string".to_owned(),
                            begin,
                        ),
                    );
                }
                let c2 = self.input[self.pos];
                self.advance(1);
                result.push(c2);
                proof {
                    assert(result@ =~= res0 + seq!['\\', c2]);
                    match sp_tsq_tail(s0, self.pos as int) {
                        Option::Some(p) => {
                            crate::text::lemma_group2(res0, seq!['\\', c2], p.0);
                        },
                        Option::None => {},
                    }
                }
            } else {
                let ghost res0 = result@;
                self.advance(1);
                result.push(c);
                proof {
                    crate::text::lemma_push_is_concat(res0, c);
                    match sp_tsq_tail(s0, self.pos as int) {
                        Option::Some(p) => {
                            crate::text::lemma_group2(res0, seq![c], p.0);
                        },
                        Option::None => {},
                    }
                }
            }
        }
    }

    /// `` `...` `` with escapes, for property names with arbitrary text.
    #[verifier::loop_isolation(false)]
    #[verifier::rlimit(50)]
    fn parse_backtick_string(&mut self) -> (r: Result<String, MOTLYError>)
        requires
            pwf(*old(self)),
        ensures
            adv(*old(self), *final(self)),
            (r matches Ok(t) ==> final(self).pos > old(self).pos && sp_backtick(
                old(self).input@,
                old(self).pos as int,
            ) == Option::Some((t@, final(self).pos as int))),
            (r matches Err(e) ==> perr(e) && sp_backtick(
                old(self).input@,
                old(self).pos as int,
            ) is None),
        decreases old(self).input@.len() - old(self).pos, 0nat,
    {
        let ghost s0 = old(self).input@;
        let begin = self.position();
        match self.expect_char('`') {
            Result::Ok(_) => {},
            Result::Err(e) => {
                return Result::Err(e);
            },
        }
        let ghost inner0 = self.pos as int;
        let mut result: Vec<char> = Vec::new();
        proof {
            match sp_bt_tail(s0, inner0) {
                Option::Some(p) => {
                    assert(result@ + p.0 =~= p.0);
                },
                Option::None => {},
            }
        }
        loop
            invariant
                pwf(*self),
                self.input@ == old(self).input@,
                old(self).pos < self.pos,
                match sp_bt_tail(s0, self.pos as int) {
                    Option::Some(p) => sp_bt_tail(s0, inner0) == Option::Some(
                        (result@ + p.0, p.1),
                    ),
                    Option::None => sp_bt_tail(s0, inner0) is None,
                },
            decreases self.input@.len() - self.pos,
        {
            if self.pos >= self.input.len() || self.input[self.pos] == '\r' || self.input[self.pos]
                == '\n' {
                return Result::Err(
                    self.error_span("Unterminated backtick string".to_owned(), begin),
                );
            }
            let c = self.input[self.pos];
            if c == '`' {
                proof {
                    assert(sp_bt_tail(s0, self.pos as int) == Option::Some(
                        (Seq::<char>::empty(), self.pos + 1),
                    ));
                    crate::text::lemma_cat_empty(result@);
                }
                self.advance(1);
                return Result::Ok(chars_to_string(&result));
            } else if c == '\\' {
                self.advance(1);
                let esc = match self.parse_escape_char() {
                    Result::Ok(s) => s,
                    Result::Err(e) => {
                        return Result::Err(e);
                    },
                };
                let ghost res0 = result@;
                crate::json::push_str(&mut result, esc.as_str());
                proof {
                    match sp_bt_tail(s0, self.pos as int) {
                        Option::Some(p) => {
                            crate::text::lemma_group2(res0, esc@, p.0);
                        },
                        Option::None => {},
                    }
                }
            } else {
                let ghost res0 = result@;
                self.advance(1);
                result.push(c);
                proof {
                    crate::text::lemma_push_is_concat(res0, c);
                    match sp_bt_tail(s0, self.pos as int) {
                        Option::Some(p) => {
                            crate::text::lemma_group2(res0, seq![c], p.0);
                        },
                        Option::None => {},
                    }
                }
            }
        }
    }

    /// `"""..."""` with escapes, newlines allowed.
    #[verifier::loop_isolation(false)]
    #[verifier::rlimit(50)]
    fn parse_triple_string(&mut self) -> (r: Result<String, MOTLYError>)
        requires
            pwf(*old(self)),
        ensures
            adv(*old(self), *final(self)),
            (r matches Ok(t) ==> final(self).pos > old(self).pos && sp_tq(
                old(self).input@,
                old(self).pos as int,
            ) == Option::Some((t@, final(self).pos as int))),
            (r matches Err(e) ==> perr(e) && sp_tq(old(self).input@, old(self).pos as int) is None),
        decreases old(self).input@.len() - old(self).pos, 0nat,
    {
        let ghost s0 = old(self).input@;
        proof {
            reveal_strlit("\"\"\"");
        }
        let begin = self.position();
        if !self.starts_with("\"\"\"") {
            return Result::Err(self.error_point("Expected triple-quoted string".to_owned()));
        }
        self.advance(3);
        let ghost inner0 = self.pos as int;
        let mut result: Vec<char> = Vec::new();
        proof {
            match sp_tq_tail(s0, inner0) {
                Option::Some(p) => {
                    assert(result@ + p.0 =~= p.0);
                },
                Option::None => {},
            }
        }
        loop
            invariant
                pwf(*self),
                self.input@ == old(self).input@,
                old(self).pos < self.pos,
                match sp_tq_tail(s0, self.pos as int) {
                    Option::Some(p) => sp_tq_tail(s0, inner0) == Option::Some(
                        (result@ + p.0, p.1),
                    ),
                    Option::None => sp_tq_tail(s0, inner0) is None,
                },
            decreases self.input@.len() - self.pos,
        {
            if self.starts_with("\"\"\"") {
                proof {
                    assert(sp_tq_tail(s0, self.pos as int) == Option::Some(
                        (Seq::<char>::empty(), self.pos + 3),
                    ));
                    crate::text::lemma_cat_empty(result@);
                }
                self.advance(3);
                return Result::Ok(chars_to_string(&result));
            }
            if self.pos >= self.input.len() {
                return Result::Err(
                    self.error_span("Unterminated triple-quoted string".to_owned(), begin),
                );
            }
            let c = self.input[self.pos];
            if c == '\\' {
                self.advance(1);
                let esc = match self.parse_escape_char() {
                    Result::Ok(s) => s,
                    Result::Err(e) => {
                        return Result::Err(e);
                    },
                };
                let ghost res0 = result@;
                crate::json::push_str(&mut result, esc.as_str());
                proof {
                    match sp_tq_tail(s0, self.pos as int) {
                        Option::Some(p) => {
                            crate::text::lemma_group2(res0, esc@, p.0);
                        },
                        Option::None => {},
                    }
                }
            } else {
                let ghost res0 = result@;
                self.advance(1);
                result.push(c);
                proof {
                    crate::text::lemma_push_is_concat(res0, c);
                    match sp_tq_tail(s0, self.pos as int) {
                        Option::Some(p) => {
                            crate::text::lemma_group2(res0, seq![c], p.0);
                        },
                        Option::None => {},
                    }
                }
            }
        }
    }

    /// `<<<` heredoc: runs to a line whose trimmed content is `>>>`, with
    /// the first non-blank line's leading whitespace stripped from every
    /// line; the result ends with a single newline.
    #[verifier::loop_isolation(false)]
    #[verifier::rlimit(100)]
    fn parse_heredoc(&mut self) -> (r: Result<String, MOTLYError>)
        requires
            pwf(*old(self)),
            lit_at(old(self).input@, old(self).pos as int, "<<<"@),
        ensures
            adv(*old(self), *final(self)),
            (r matches Ok(t) ==> final(self).pos > old(self).pos && sp_heredoc(
                old(self).input@,
                old(self).pos as int,
            ) == Option::Some((t@, final(self).pos as int))),
            (r matches Err(e) ==> perr(e) && sp_heredoc(
                old(self).input@,
                old(self).pos as int,
            ) is None),
        decreases old(self).input@.len() - old(self).pos, 0nat,
    {
        let ghost s0 = old(self).input@;
        let ghost p0 = old(self).pos as int;
        proof {
            reveal_strlit("<<<");
        }
        let begin = self.position();
        self.advance(3);
        // spaces and tabs on the same line
        while self.pos < self.input.len() && (self.input[self.pos] == ' ' || self.input[self.pos]
            == '\t')
            invariant
                pwf(*self),
                self.input@ == old(self).input@,
                old(self).pos < self.pos,
                p0 + 3 <= self.pos,
                forall|k: int|
                    p0 + 3 <= k < self.pos ==> (#[trigger] s0[k] == ' ' || s0[k] == '\t'),
            decreases self.input@.len() - self.pos,
        {
            self.advance(1);
        }
        proof {
            lemma_sp_st_run_eq(s0, p0 + 3, self.pos as int);
        }
        if self.pos < self.input.len() && self.input[self.pos] == '\r' {
            self.advance(1);
        }
        if self.pos < self.input.len() && self.input[self.pos] == '\n' {
            self.advance(1);
        } else {
            return Result::Err(self.error_span("Expected newline after <<<".to_owned(), begin));
        }
        let ghost body0 = self.pos as int;
        // collect lines until a line whose trimmed content is >>>
        let mut lines: Vec<Vec<char>> = Vec::new();
        let mut terminated = false;
        proof {
            assert(vlines(lines@) =~= Seq::<Seq<char>>::empty());
            assert(sp_heredoc(s0, p0) == sp_hd_lines(s0, body0, Seq::empty()));
        }
        while !terminated
            invariant
                pwf(*self),
                self.input@ == old(self).input@,
                old(self).pos < self.pos,
                !terminated ==> sp_heredoc(s0, p0) == sp_hd_lines(
                    s0,
                    self.pos as int,
                    vlines(lines@),
                ),
                terminated ==> sp_heredoc(s0, p0) == Option::Some(
                    (sp_hd_value(vlines(lines@)), self.pos as int),
                ),
            decreases self.input@.len() - self.pos + (if terminated {
                0int
            } else {
                1int
            }),
        {
            if self.pos >= self.input.len() {
                return Result::Err(
                    self.error_span("Unterminated heredoc (expected >>>)".to_owned(), begin),
                );
            }
            let line_start = self.pos;
            while self.pos < self.input.len() && self.input[self.pos] != '\n'
                invariant
                    pwf(*self),
                    self.input@ == old(self).input@,
                    line_start <= self.pos,
                    old(self).pos < self.pos || old(self).pos < line_start,
                    old(self).pos <= line_start,
                    forall|k: int| line_start <= k < self.pos ==> #[trigger] s0[k] != '\n',
                decreases self.input@.len() - self.pos,
            {
                self.advance(1);
            }
            proof {
                lemma_sp_line_end_eq(s0, line_start as int, self.pos as int);
            }
            let mut line_end = self.pos;
            if line_end > line_start && self.input[line_end - 1] == '\r' {
                line_end = line_end - 1;
            }
            let line = self.slice_chars(line_start, line_end);
            let at_eof = self.pos >= self.input.len();
            if !at_eof {
                self.advance(1);
            }
            let ghost vl0 = vlines(lines@);
            if line_is_terminator(&line) {
                terminated = true;
            } else if at_eof {
                return Result::Err(
                    self.error_span("Unterminated heredoc (expected >>>)".to_owned(), begin),
                );
            } else {
                let ghost lv = line@;
                lines.push(line);
                proof {
                    assert(vlines(lines@) =~= vl0.push(lv));
                }
            }
        }
        if lines.len() == 0 {
            let empty: Vec<char> = Vec::new();
            proof {
                assert(sp_hd_value(vlines(lines@)) =~= Seq::<char>::empty());
            }
            return Result::Ok(chars_to_string(&empty));
        }
        let ghost vl = vlines(lines@);
        let ghost end_pos = self.pos as int;
        // strip amount: leading whitespace of the first non-blank line
        let mut strip: usize = 0;
        let mut k: usize = 0;
        let mut found = false;
        while k < lines.len()
            invariant
                k <= lines@.len(),
                found ==> strip as int == sp_strip_of(vl, 0),
                !found ==> strip == 0 && sp_strip_of(vl, 0) == sp_strip_of(vl, k as int),
            decreases lines@.len() - k,
        {
            if !found && !line_is_blank(&lines[k]) {
                strip = line_leading_ws(&lines[k]);
                found = true;
                proof {
                    assert(vl[k as int] == lines@[k as int]@);
                }
            } else {
                proof {
                    if !found {
                        assert(vl[k as int] == lines@[k as int]@);
                    }
                }
            }
            k += 1;
        }
        proof {
            if !found {
                assert(strip as int == sp_strip_of(vl, 0));
            }
        }
        let mut out: Vec<char> = Vec::new();
        let mut i: usize = 0;
        proof {
            crate::text::lemma_cat_empty(sp_hd_join(vl, 0, strip as int));
            assert(out@ + sp_hd_join(vl, 0, strip as int) =~= sp_hd_join(vl, 0, strip as int));
        }
        while i < lines.len()
            invariant
                i <= lines@.len(),
                out@ + sp_hd_join(vl, i as int, strip as int) == sp_hd_join(vl, 0, strip as int),
            decreases lines@.len() - i,
        {
            let ghost pre0 = out@;
            let ghost nlpart: Seq<char> = if i > 0 {
                seq!['\n']
            } else {
                Seq::empty()
            };
            if i > 0 {
                out.push('\n');
                proof {
                    crate::text::lemma_push_is_concat(pre0, '\n');
                }
            } else {
                proof {
                    crate::text::lemma_cat_empty(pre0);
                }
            }
            let line = &lines[i];
            proof {
                assert(vl[i as int] == lines@[i as int]@);
            }
            if line_is_blank(line) {
                // whitespace-only lines become empty
                proof {
                    crate::text::lemma_cat_empty(pre0 + nlpart);
                    assert(out@ == pre0 + nlpart + sp_stripped(vl[i as int], strip as int));
                }
            } else if strip <= line.len() {
                let ghost base = out@;
                let mut j: usize = strip;
                proof {
                    assert(out@ =~= base + lines@[i as int]@.subrange(strip as int, j as int));
                }
                while j < line.len()
                    invariant
                        strip <= j <= line@.len(),
                        out@ == base + lines@[i as int]@.subrange(strip as int, j as int),
                    decreases line@.len() - j,
                {
                    out.push(line[j]);
                    proof {
                        assert(lines@[i as int]@.subrange(strip as int, j as int).push(
                            lines@[i as int]@[j as int],
                        ) =~= lines@[i as int]@.subrange(strip as int, j + 1));
                        crate::text::lemma_group2(
                            base,
                            lines@[i as int]@.subrange(strip as int, j as int),
                            seq![lines@[i as int]@[j as int]],
                        );
                    }
                    j += 1;
                }
                proof {
                    assert(lines@[i as int]@.subrange(strip as int, lines@[i as int]@.len() as int)
                        =~= sp_stripped(vl[i as int], strip as int));
                    assert(out@ == pre0 + nlpart + sp_stripped(vl[i as int], strip as int));
                }
            } else {
                let ghost base = out@;
                let mut j: usize = 0;
                proof {
                    assert(out@ =~= base + lines@[i as int]@.subrange(0, j as int));
                }
                while j < line.len()
                    invariant
                        j <= line@.len(),
                        out@ == base + lines@[i as int]@.subrange(0, j as int),
                    decreases line@.len() - j,
                {
                    out.push(line[j]);
                    proof {
                        assert(lines@[i as int]@.subrange(0, j as int).push(
                            lines@[i as int]@[j as int],
                        ) =~= lines@[i as int]@.subrange(0, j + 1));
                        crate::text::lemma_group2(
                            base,
                            lines@[i as int]@.subrange(0, j as int),
                            seq![lines@[i as int]@[j as int]],
                        );
                    }
                    j += 1;
                }
                proof {
                    assert(lines@[i as int]@.subrange(0, lines@[i as int]@.len() as int)
                        =~= sp_stripped(vl[i as int], strip as int));
                    assert(out@ == pre0 + nlpart + sp_stripped(vl[i as int], strip as int));
                }
            }
            proof {
                let rest = sp_hd_join(vl, i + 1, strip as int);
                crate::text::lemma_group3(
                    pre0,
                    nlpart,
                    sp_stripped(vl[i as int], strip as int),
                    rest,
                );
            }
            i += 1;
        }
        proof {
            crate::text::lemma_cat_empty(out@);
        }
        let ghost joined = out@;
        out.push('\n');
        proof {
            crate::text::lemma_push_is_concat(joined, '\n');
            assert(out@ == sp_hd_value(vl));
        }
        Result::Ok(chars_to_string(&out))
    }

    /// The character after a backslash: a short escape, `\uXXXX` (with
    /// surrogate pairing, lone surrogates becoming U+FFFD), or the
    /// character itself.
    fn parse_escape_char(&mut self) -> (r: Result<String, MOTLYError>)
        requires
            pwf(*old(self)),
        ensures
            adv(*old(self), *final(self)),
            (r matches Ok(t) ==> sp_escape(old(self).input@, old(self).pos as int)
                == Option::Some((t@, final(self).pos as int))),
            (r matches Err(e) ==> perr(e) && sp_escape(
                old(self).input@,
                old(self).pos as int,
            ) is None),
        decreases old(self).input@.len() - old(self).pos, 0nat,
    {
        proof {
            reveal_strlit("\\u");
        }
        if self.pos >= self.input.len() {
            return Result::Err(self.error_point("Unterminated escape sequence".to_owned()));
        }
        let c = self.input[self.pos];
        if c == 'b' {
            self.advance(1);
            Result::Ok(one_char_string('\u{0008}'))
        } else if c == 'f' {
            self.advance(1);
            Result::Ok(one_char_string('\u{000C}'))
        } else if c == 'n' {
            self.advance(1);
            Result::Ok(one_char_string('\n'))
        } else if c == 'r' {
            self.advance(1);
            Result::Ok(one_char_string('\r'))
        } else if c == 't' {
            self.advance(1);
            Result::Ok(one_char_string('\t'))
        } else if c == 'u' {
            let begin = self.position();
            self.advance(1);
            let first = match self.parse_hex4(begin) {
                Result::Ok(v) => v,
                Result::Err(e) => {
                    return Result::Err(e);
                },
            };
            if 0xD800 <= first && first <= 0xDBFF {
                // high surrogate: pair with a following \uXXXX low surrogate
                if self.starts_with("\\u") {
                    proof {
                        reveal_strlit("\\u");
                    }
                    self.advance(2);
                    let low = match self.parse_hex4(begin) {
                        Result::Ok(v) => v,
                        Result::Err(e) => {
                            return Result::Err(e);
                        },
                    };
                    if 0xDC00 <= low && low <= 0xDFFF {
                        let cp: u32 = 0x10000 + ((first - 0xD800) * 0x400) + (low - 0xDC00);
                        match char_from_u32(cp) {
                            Option::Some(ch) => {
                                proof {
                                    vstd::utf8::char_u32_cast(ch, cp);
                                }
                                Result::Ok(one_char_string(ch))
                            },
                            Option::None => {
                                proof {
                                    assert(false);
                                }
                                Result::Ok(one_char_string('\u{FFFD}'))
                            },
                        }
                    } else {
                        Result::Ok(one_char_string('\u{FFFD}'))
                    }
                } else {
                    Result::Ok(one_char_string('\u{FFFD}'))
                }
            } else if 0xDC00 <= first && first <= 0xDFFF {
                // lone low surrogate
                Result::Ok(one_char_string('\u{FFFD}'))
            } else {
                match char_from_u32(first) {
                    Option::Some(ch) => {
                        proof {
                            vstd::utf8::char_u32_cast(ch, first);
                        }
                        Result::Ok(one_char_string(ch))
                    },
                    Option::None => {
                        proof {
                            assert(false);
                        }
                        Result::Ok(one_char_string('\u{FFFD}'))
                    },
                }
            }
        } else {
            // passthrough: \x -> x
            self.advance(1);
            Result::Ok(one_char_string(c))
        }
    }

    /// Exactly four hex digits.
    #[verifier::loop_isolation(false)]
    fn parse_hex4(&mut self, begin: Position) -> (r: Result<u32, MOTLYError>)
        requires
            pwf(*old(self)),
        ensures
            adv(*old(self), *final(self)),
            (r matches Ok(v) ==> v < 0x10000 && sp_hex4(old(self).input@, old(self).pos as int)
                == Option::Some((v as int, final(self).pos as int))),
            (r matches Err(e) ==> perr(e) && sp_hex4(
                old(self).input@,
                old(self).pos as int,
            ) is None),
    {
        let ghost s0 = old(self).input@;
        let ghost p0 = old(self).pos as int;
        let mut v: u32 = 0;
        let mut k: usize = 0;
        while k < 4
            invariant
                pwf(*self),
                self.input@ == old(self).input@,
                old(self).pos <= self.pos,
                self.pos as int == p0 + k,
                k <= 4,
                forall|t: int|
                    p0 <= t < p0 + k ==> crate::text::spec_is_hex_digit(#[trigger] s0[t]),
                k >= 1 ==> v as int == (if k == 1 {
                    crate::text::spec_hex_val(s0[p0])
                } else if k == 2 {
                    crate::text::spec_hex_val(s0[p0]) * 16 + crate::text::spec_hex_val(s0[p0 + 1])
                } else if k == 3 {
                    (crate::text::spec_hex_val(s0[p0]) * 16 + crate::text::spec_hex_val(
                        s0[p0 + 1],
                    )) * 16 + crate::text::spec_hex_val(s0[p0 + 2])
                } else {
                    ((crate::text::spec_hex_val(s0[p0]) * 16 + crate::text::spec_hex_val(
                        s0[p0 + 1],
                    )) * 16 + crate::text::spec_hex_val(s0[p0 + 2])) * 16
                        + crate::text::spec_hex_val(s0[p0 + 3])
                }),
                k == 0 ==> v == 0,
                v < (if k == 0 {
                    1u32
                } else if k == 1 {
                    0x10u32
                } else if k == 2 {
                    0x100u32
                } else if k == 3 {
                    0x1000u32
                } else {
                    0x10000u32
                }),
            decreases 4 - k,
        {
            if self.pos < self.input.len() && is_hex_digit(self.input[self.pos]) {
                let d = hex_val(self.input[self.pos]);
                v = v * 16 + d;
                self.advance(1);
            } else {
                proof {
                    if sp_hex4(s0, p0) is Some {
                        assert(crate::text::spec_is_hex_digit(s0[p0 + k]));
                    }
                }
                return Result::Err(
                    self.error_span("Expected 4 hex digits in unicode escape".to_owned(), begin),
                );
            }
            k += 1;
        }
        Result::Ok(v)
    }

    // ---- Arrays -------------------------------------------------------------

    #[verifier::loop_isolation(false)]
    #[verifier::rlimit(100)]
    #[verifier::spinoff_prover]
    fn parse_array(&mut self) -> (r: Result<Vec<ArrayElement>, MOTLYError>)
        requires
            pwf(*old(self)),
        ensures
            adv(*old(self), *final(self)),
            (r matches Ok(es) ==> elems_wf(es@) && final(self).pos > old(self).pos && sp_array(
                old(self).input@,
                old(self).pos as int,
            ) == Option::Some((elems_views(es@), final(self).pos as int))),
            (r matches Err(e) ==> perr(e) && sp_array(
                old(self).input@,
                old(self).pos as int,
            ) is None),
        decreases old(self).input@.len() - old(self).pos, 1nat,
    {
        let ghost s0 = old(self).input@;
        let ghost p0 = old(self).pos as int;
        let ghost target = sp_array(s0, p0);
        let begin = self.position();
        match self.expect_char('[') {
            Result::Ok(_) => {},
            Result::Err(e) => {
                return Result::Err(e);
            },
        }
        self.skip_ws();
        if self.eat_char(']') {
            let empty: Vec<ArrayElement> = Vec::new();
            proof {
                assert(elems_views(empty@) =~= Seq::<ElemV>::empty());
            }
            return Result::Ok(empty);
        }
        let mut elements: Vec<ArrayElement> = Vec::new();
        let first = match self.parse_array_element() {
            Result::Ok(el) => el,
            Result::Err(e) => {
                return Result::Err(e);
            },
        };
        proof {
            lemma_elems_wf_push(elements@, first);
        }
        let ghost fv = elem_view(first);
        elements.push(first);
        proof {
            lemma_elems_views_index(elements@);
            assert(elems_views(elements@) =~= seq![fv]);
            assert(target == sp_array_more(s0, self.pos as int, elems_views(elements@)));
        }
        loop
            invariant
                pwf(*self),
                self.input@ == old(self).input@,
                old(self).pos < self.pos,
                elems_wf(elements@),
                target == sp_array_more(s0, self.pos as int, elems_views(elements@)),
            decreases self.input@.len() - self.pos,
        {
            self.skip_ws();
            if self.eat_char(']') {
                return Result::Ok(elements);
            }
            if self.eat_char(',') {
                self.skip_ws();
                if self.pos < self.input.len() && self.input[self.pos] == ']' {
                    self.advance(1);
                    return Result::Ok(elements);
                }
                let el = match self.parse_array_element() {
                    Result::Ok(el) => el,
                    Result::Err(e) => {
                        return Result::Err(e);
                    },
                };
                proof {
                    lemma_elems_wf_push(elements@, el);
                }
                let ghost ev = elem_view(el);
                let ghost bvec = elements@;
                let ghost before_views = elems_views(elements@);
                elements.push(el);
                proof {
                    lemma_elems_views_index(bvec);
                    lemma_elems_views_index(elements@);
                    assert(elements@ =~= bvec.push(el));
                    assert(elems_views(elements@) =~= before_views.push(ev));
                }
            } else if self.pos >= self.input.len() {
                return Result::Err(self.error_span("Unclosed '['".to_owned(), begin));
            } else {
                return Result::Err(self.error_point("Expected ',' or ']' in array".to_owned()));
            }
        }
    }

    #[verifier::rlimit(100)]
    fn parse_array_element(&mut self) -> (r: Result<ArrayElement, MOTLYError>)
        requires
            pwf(*old(self)),
        ensures
            adv(*old(self), *final(self)),
            (r matches Ok(el) ==> elem_wf(el) && final(self).pos > old(self).pos && sp_elem(
                old(self).input@,
                old(self).pos as int,
            ) == Option::Some((elem_view(el), final(self).pos as int))),
            (r matches Err(e) ==> perr(e) && sp_elem(
                old(self).input@,
                old(self).pos as int,
            ) is None),
        decreases old(self).input@.len() - old(self).pos, 4nat,
    {
        self.skip_ws();
        match self.peek_char() {
            Option::Some('{') => {
                let props = match self.parse_properties_block() {
                    Result::Ok(ps) => ps,
                    Result::Err(e) => {
                        return Result::Err(e);
                    },
                };
                Result::Ok(ArrayElement { value: Option::None, properties: Option::Some(props) })
            },
            Option::Some('[') => {
                let elements = match self.parse_array() {
                    Result::Ok(es) => es,
                    Result::Err(e) => {
                        return Result::Err(e);
                    },
                };
                Result::Ok(
                    ArrayElement {
                        value: Option::Some(TagValue::Array(elements)),
                        properties: Option::None,
                    },
                )
            },
            _ => {
                let value = match self.parse_eq_value(false) {
                    Result::Ok(v) => v,
                    Result::Err(e) => {
                        return Result::Err(e);
                    },
                };
                self.skip_ws();
                if self.pos < self.input.len() && self.input[self.pos] == '{' {
                    let props = match self.parse_properties_block() {
                        Result::Ok(ps) => ps,
                        Result::Err(e) => {
                            return Result::Err(e);
                        },
                    };
                    Result::Ok(
                        ArrayElement {
                            value: Option::Some(value),
                            properties: Option::Some(props),
                        },
                    )
                } else {
                    Result::Ok(
                        ArrayElement { value: Option::Some(value), properties: Option::None },
                    )
                }
            },
        }
    }

    // ---- Property blocks --------------------------------------------------------

    #[verifier::loop_isolation(false)]
    #[verifier::rlimit(100)]
    #[verifier::spinoff_prover]
    fn parse_properties_block(&mut self) -> (r: Result<Vec<Statement>, MOTLYError>)
        requires
            pwf(*old(self)),
        ensures
            adv(*old(self), *final(self)),
            (r matches Ok(ps) ==> stmts_wf(ps@) && final(self).pos > old(self).pos && sp_block(
                old(self).input@,
                old(self).pos as int,
            ) == Option::Some((stmts_views(ps@), final(self).pos as int))),
            (r matches Err(e) ==> perr(e) && sp_block(
                old(self).input@,
                old(self).pos as int,
            ) is None),
        decreases old(self).input@.len() - old(self).pos, 0nat,
    {
        let ghost s0 = old(self).input@;
        let ghost p0 = old(self).pos as int;
        let ghost target = sp_block(s0, p0);
        let begin = self.position();
        match self.expect_char('{') {
            Result::Ok(_) => {},
            Result::Err(e) => {
                return Result::Err(e);
            },
        }
        self.skip_ws();
        let mut stmts: Vec<Statement> = Vec::new();
        proof {
            // skipping whitespace before the block loop changes nothing:
            // the loop starts by skipping whitespace and commas anyway
            lemma_sp_ws_wsc(s0, p0 + 1);
            assert(stmts_views(stmts@) =~= Seq::<StmtV>::empty());
            assert(self.pos as int == sp_ws(s0, p0 + 1));
            assert(sp_wsc(s0, self.pos as int) == sp_wsc(s0, p0 + 1));
            assert(sp_block(s0, p0) == sp_block_more(s0, p0 + 1, Seq::<StmtV>::empty()));
            assert(sp_block_more(s0, p0 + 1, Seq::<StmtV>::empty()) == sp_block_more(
                s0,
                self.pos as int,
                Seq::<StmtV>::empty(),
            ));
            assert(target == sp_block_more(s0, self.pos as int, stmts_views(stmts@)));
        }
        loop
            invariant
                pwf(*self),
                self.input@ == old(self).input@,
                old(self).pos < self.pos,
                stmts_wf(stmts@),
                target == sp_block_more(s0, self.pos as int, stmts_views(stmts@)),
            decreases self.input@.len() - self.pos,
        {
            self.skip_ws_and_commas();
            if self.eat_char('}') {
                return Result::Ok(stmts);
            }
            if self.pos >= self.input.len() {
                return Result::Err(self.error_span("Unclosed '{'".to_owned(), begin));
            }
            let stmt = match self.parse_statement() {
                Result::Ok(s) => s,
                Result::Err(e) => {
                    return Result::Err(e);
                },
            };
            proof {
                lemma_stmts_wf_push(stmts@, stmt);
            }
            let ghost sv = stmt_view(stmt);
            let ghost bvec = stmts@;
            let ghost before_views = stmts_views(stmts@);
            stmts.push(stmt);
            proof {
                lemma_stmts_views_index(bvec);
                lemma_stmts_views_index(stmts@);
                assert(stmts@ =~= bvec.push(stmt));
                assert(stmts_views(stmts@) =~= before_views.push(sv));
            }
        }
    }

    // ---- References ---------------------------------------------------------------

    /// `$`, `^`s, then a dotted path with optional `[N]` indices.
    #[verifier::loop_isolation(false)]
    #[verifier::rlimit(50)]
    fn parse_reference(&mut self) -> (r: Result<ScalarValue, MOTLYError>)
        requires
            pwf(*old(self)),
        ensures
            adv(*old(self), *final(self)),
            (r matches Ok(v) ==> scalar_value_wf(v) && final(self).pos > old(self).pos
                && sp_reference(old(self).input@, old(self).pos as int) == Option::Some(
                (sval_view(v), final(self).pos as int),
            )),
            (r matches Err(e) ==> perr(e) && sp_reference(
                old(self).input@,
                old(self).pos as int,
            ) is None),
        decreases old(self).input@.len() - old(self).pos, 0nat,
    {
        let ghost s0 = old(self).input@;
        let ghost p0 = old(self).pos as int;
        match self.expect_char('$') {
            Result::Ok(_) => {},
            Result::Err(e) => {
                return Result::Err(e);
            },
        }
        let mut ups: usize = 0;
        while self.pos < self.input.len() && self.input[self.pos] == '^'
            invariant
                pwf(*self),
                self.input@ == old(self).input@,
                old(self).pos < self.pos,
                ups < self.pos,
                self.pos as int == p0 + 1 + ups,
                forall|k: int| p0 + 1 <= k < self.pos ==> #[trigger] s0[k] == '^',
            decreases self.input@.len() - self.pos,
        {
            self.advance(1);
            ups = ups + 1;
        }
        proof {
            lemma_sp_caret_run_eq(s0, p0 + 1, self.pos as int);
        }
        let mut path: Vec<RefPathSegment> = Vec::new();
        let first_name = match self.parse_identifier() {
            Result::Ok(s) => s,
            Result::Err(e) => {
                return Result::Err(e);
            },
        };
        let ghost fname = first_name@;
        path.push(RefPathSegment::Name(first_name));
        proof {
            assert(segs_views(path@) =~= seq![SegV::Name(fname)]);
        }
        if self.pos < self.input.len() && self.input[self.pos] == '[' {
            let ghost acc_b = segs_views(path@);
            self.advance(1);
            self.skip_ws();
            let idx = match self.parse_ref_index() {
                Result::Ok(v) => v,
                Result::Err(e) => {
                    return Result::Err(e);
                },
            };
            path.push(RefPathSegment::Index(idx));
            proof {
                assert(segs_views(path@) =~= acc_b.push(SegV::Index(idx as nat)));
            }
            self.skip_ws();
            match self.expect_char(']') {
                Result::Ok(_) => {},
                Result::Err(e) => {
                    return Result::Err(e);
                },
            }
        }
        let ghost target = sp_reference(s0, p0);
        proof {
            assert(target == (match sp_ref_more(s0, self.pos as int, segs_views(path@)) {
                Option::Some((segs, e)) => Option::Some(
                    (
                        ScalarV::Reference { ups: ups as nat, path: segs },
                        e,
                    ),
                ),
                Option::None => Option::None::<(ScalarV, int)>,
            }));
        }
        while self.pos < self.input.len() && self.input[self.pos] == '.'
            invariant
                pwf(*self),
                self.input@ == old(self).input@,
                old(self).pos < self.pos,
                target == sp_reference(s0, p0),
                target == (match sp_ref_more(s0, self.pos as int, segs_views(path@)) {
                    Option::Some((segs, e)) => Option::Some(
                        (
                            ScalarV::Reference { ups: ups as nat, path: segs },
                            e,
                        ),
                    ),
                    Option::None => Option::None::<(ScalarV, int)>,
                }),
            decreases self.input@.len() - self.pos,
        {
            let ghost pos_dot = self.pos as int;
            let ghost acc0 = segs_views(path@);
            self.advance(1);
            let name = match self.parse_identifier() {
                Result::Ok(s) => s,
                Result::Err(e) => {
                    return Result::Err(e);
                },
            };
            let ghost nv = name@;
            path.push(RefPathSegment::Name(name));
            proof {
                assert(segs_views(path@) =~= acc0.push(SegV::Name(nv)));
            }
            if self.pos < self.input.len() && self.input[self.pos] == '[' {
                let ghost acc_b = segs_views(path@);
                self.advance(1);
                self.skip_ws();
                let idx = match self.parse_ref_index() {
                    Result::Ok(v) => v,
                    Result::Err(e) => {
                        return Result::Err(e);
                    },
                };
                path.push(RefPathSegment::Index(idx));
                proof {
                    assert(segs_views(path@) =~= acc_b.push(SegV::Index(idx as nat)));
                }
                self.skip_ws();
                match self.expect_char(']') {
                    Result::Ok(_) => {},
                    Result::Err(e) => {
                        return Result::Err(e);
                    },
                }
            }
        }
        Result::Ok(ScalarValue::Reference { ups, path })
    }

    /// A non-negative array index; values beyond the machine range are a
    /// parse error.
    #[verifier::loop_isolation(false)]
    #[verifier::rlimit(50)]
    fn parse_ref_index(&mut self) -> (r: Result<usize, MOTLYError>)
        requires
            pwf(*old(self)),
        ensures
            adv(*old(self), *final(self)),
            (r matches Ok(v) ==> final(self).pos > old(self).pos && sp_ref_index(
                old(self).input@,
                old(self).pos as int,
            ) == Option::Some((v as nat, final(self).pos as int))),
            (r matches Err(e) ==> perr(e) && sp_ref_index(
                old(self).input@,
                old(self).pos as int,
            ) is None),
    {
        let ghost s0 = old(self).input@;
        let begin = self.position();
        let start = self.pos;
        let mut value: usize = 0;
        let mut over = false;
        proof {
            assert(s0.subrange(start as int, start as int) =~= Seq::<char>::empty());
        }
        while self.pos < self.input.len() && is_digit(self.input[self.pos])
            invariant
                pwf(*self),
                self.input@ == old(self).input@,
                start <= self.pos,
                start == old(self).pos,
                forall|k: int| start <= k < self.pos ==> spec_is_digit(#[trigger] s0[k]),
                !over ==> value as nat == crate::text::spec_digits_val(
                    s0.subrange(start as int, self.pos as int),
                ),
                over ==> crate::text::spec_digits_val(s0.subrange(start as int, self.pos as int))
                    > usize::MAX as nat,
            decreases self.input@.len() - self.pos,
        {
            let d = (self.input[self.pos] as u32 - 48) as usize;
            proof {
                let pre = s0.subrange(start as int, self.pos as int);
                let post = s0.subrange(start as int, self.pos + 1);
                assert(post.drop_last() =~= pre);
                assert(crate::text::spec_digits_val(post) == crate::text::spec_digits_val(pre) * 10
                    + d);
                if over {
                    assert(crate::text::spec_digits_val(pre) * 10 > usize::MAX as int * 10)
                        by (nonlinear_arith)
                        requires crate::text::spec_digits_val(pre) > usize::MAX as int;
                }
            }
            if value > (usize::MAX - d) / 10 {
                proof {
                    assert(value * 10 + d > usize::MAX) by (nonlinear_arith)
                        requires
                            value > (usize::MAX - d) / 10,
                            d <= 9,
                            value <= usize::MAX,
                    ;
                }
                over = true;
            } else {
                proof {
                    assert(value * 10 + d <= usize::MAX) by (nonlinear_arith)
                        requires
                            value <= (usize::MAX - d) / 10,
                            d <= 9,
                    ;
                }
                value = value * 10 + d;
            }
            self.advance(1);
        }
        proof {
            lemma_digits_end_eq(s0, start as int, self.pos as int);
        }
        if self.pos == start {
            return Result::Err(self.error_point("Expected array index".to_owned()));
        }
        if over {
            return Result::Err(self.error_span("Invalid array index".to_owned(), begin));
        }
        Result::Ok(value)
    }
}

/// The end of the run of decimal digits starting at `i`.
fn digits_end_exec(v: &Vec<char>, i: usize) -> (r: usize)
    requires
        i <= v@.len(),
    ensures
        r as int == spec_digits_end(v@, i as int),
        i <= r <= v@.len(),
{
    let mut j: usize = i;
    while j < v.len() && is_digit(v[j])
        invariant
            i <= j <= v@.len(),
            forall|k: int| i <= k < j ==> spec_is_digit(#[trigger] v@[k]),
        decreases v@.len() - j,
    {
        j += 1;
    }
    proof {
        lemma_digits_end_eq(v@, i as int, j as int);
    }
    j
}

/// Whether a scanned token is exactly one numeric token.
pub fn check_num_token(v: &Vec<char>) -> (r: bool)
    ensures
        r == spec_num_token(v@),
{
    let len = v.len();
    let p0: usize = if len > 0 && v[0] == '-' {
        1
    } else {
        0
    };
    let p1 = digits_end_exec(v, p0);
    if p1 <= p0 {
        return false;
    }
    let mut p2 = p1;
    if p1 < len && v[p1] == '.' {
        let q = digits_end_exec(v, p1 + 1);
        if q <= p1 + 1 {
            return false;
        }
        p2 = q;
    }
    if p2 < len && (v[p2] == 'e' || v[p2] == 'E') {
        let p3: usize = if p2 + 1 < len && (v[p2 + 1] == '+' || v[p2 + 1] == '-') {
            p2 + 2
        } else {
            p2 + 1
        };
        let p4 = digits_end_exec(v, p3);
        p4 > p3 && p4 == len
    } else {
        p2 == len
    }
}

/// A string of one character.
fn one_char_string(c: char) -> (r: String)
    ensures
        r@ == seq![c],
{
    let mut v: Vec<char> = Vec::new();
    v.push(c);
    proof {
        assert(v@ =~= seq![c]);
    }
    chars_to_string(&v)
}

/// Whether a heredoc line, trimmed, is exactly `>>>`.
#[verifier::loop_isolation(false)]
fn line_is_terminator(line: &Vec<char>) -> (r: bool)
    ensures
        r == sp_is_term(line@),
{
    let mut a: usize = 0;
    let mut b: usize = line.len();
    while a < b && is_ws(line[a])
        invariant
            a <= b <= line@.len(),
            b == line@.len(),
            forall|k: int| 0 <= k < a ==> crate::text::spec_is_ws(#[trigger] line@[k]),
        decreases b - a,
    {
        a += 1;
    }
    proof {
        if a < line@.len() {
            assert(!crate::text::spec_is_ws(line@[a as int]));
        }
        lemma_sp_ws_run_eq(line@, 0, a as int);
    }
    let ghost a0 = a as int;
    let ghost b_hi = line@.len() as int;
    while b > a && is_ws(line[b - 1])
        invariant
            a as int == a0,
            a <= b <= line@.len(),
            forall|k: int| b <= k < b_hi ==> crate::text::spec_is_ws(#[trigger] line@[k]),
        decreases b,
    {
        b -= 1;
    }
    proof {
        lemma_sp_rtrim_eq(line@, a0, b_hi, b as int);
    }
    if b - a != 3 {
        return false;
    }
    line[a] == '>' && line[a + 1] == '>' && line[a + 2] == '>'
}

/// Whether a heredoc line holds only whitespace.
#[verifier::loop_isolation(false)]
fn line_is_blank(line: &Vec<char>) -> (r: bool)
    ensures
        r == sp_is_blank(line@),
{
    let mut i: usize = 0;
    while i < line.len()
        invariant
            i <= line@.len(),
            forall|k: int| 0 <= k < i ==> crate::text::spec_is_ws(#[trigger] line@[k]),
        decreases line@.len() - i,
    {
        if !is_ws(line[i]) {
            proof {
                lemma_sp_ws_run_eq(line@, 0, i as int);
            }
            return false;
        }
        i += 1;
    }
    proof {
        lemma_sp_ws_run_eq(line@, 0, i as int);
    }
    true
}

/// The number of leading whitespace characters of a heredoc line.
#[verifier::loop_isolation(false)]
fn line_leading_ws(line: &Vec<char>) -> (r: usize)
    ensures
        r <= line@.len(),
        r as int == sp_ws_run(line@, 0),
{
    let mut i: usize = 0;
    while i < line.len()
        invariant
            i <= line@.len(),
            forall|k: int| 0 <= k < i ==> crate::text::spec_is_ws(#[trigger] line@[k]),
        decreases line@.len() - i,
    {
        if !is_ws(line[i]) {
            proof {
                lemma_sp_ws_run_eq(line@, 0, i as int);
            }
            return i;
        }
        i += 1;
    }
    proof {
        lemma_sp_ws_run_eq(line@, 0, i as int);
    }
    i
}

/// Views of a collected line list.
pub open spec fn vlines(ls: Seq<Vec<char>>) -> Seq<Seq<char>> {
    Seq::new(ls.len(), |k: int| ls[k]@)
}

} // verus!
