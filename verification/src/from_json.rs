//! Deserializing a JSON document back into a tree: the inverse direction of
//! the JSON writer. Accepts standard mode, and (for `from_wire`) the wire
//! dialect where `{"$date": "..."}` in a value slot is a date scalar.
//! The reader always terminates, never panics, and a success is a
//! well-formed tree with sorted property maps and in-range numbers.
use vstd::prelude::*;
use crate::num::{Number, number_from_token};
use crate::parser::{sp_ws_run, sp_hex4, sp_escape, lit_at, lemma_sp_escape_bounds, sp_number_of,
    lemma_sp_ws_run_bounds, lemma_sp_ws_run_fix};
use crate::num::{spec_num_token, spec_digits_end, lemma_digits_end_eq};
use crate::tree::view_number;
use crate::text::{is_digit, is_hex_digit, hex_val, str_to_chars, chars_to_string, char_from_u32,
    spec_is_ws, spec_is_hex_digit, spec_hex_val};
use crate::tree::{MOTLYNode, MOTLYPropertyValue, EqValue, Scalar, Property, PropVal, view_node,
    view_pv, view_scalar, view_props, view_pvs, vnode_wf, vpv_wf, veq_wf, vscalar_wf, vpvs_wf,
    ventries_wf, vprops_sorted, props_insert, lemma_view_pvs_index, lemma_vpvs_wf_index,
    lemma_ventries_wf_index, lemma_vprops_insert_sorted, lemma_vprops_insert_wf};

verus! {

struct JsonParser {
    input: Vec<char>,
    pos: usize,
    /// When set, `{"$date": "..."}` in a value slot is a date scalar.
    wire: bool,
}

spec fn jwf(p: JsonParser) -> bool {
    p.pos <= p.input@.len()
}

spec fn jadv(a: JsonParser, b: JsonParser) -> bool {
    b.input@ == a.input@ && a.pos <= b.pos && b.pos <= b.input@.len() && b.wire == a.wire
}

/// Whether a character may follow a backslash in a JSON string.
pub open spec fn sp_jesc_ok(c: char) -> bool {
    c == '"' || c == '\\' || c == '/' || c == 'n' || c == 'r' || c == 't' || c == 'b' || c == 'f'
        || c == 'u'
}

/// The decoded body of a JSON string from inside the quotes (appended to
/// `acc`), and the position after the closing quote: plain characters kept,
/// the JSON escape set decoded by the escape rule (surrogate pairs combine,
/// lone surrogates become U+FFFD), anything else a syntax error.
pub open spec fn sp_jstr_tail(s: Seq<char>, i: int, acc: Seq<char>) -> Option<(Seq<char>, int)>
    decreases s.len() - i,
    via sp_jstr_tail_dec
{
    if i < 0 || i >= s.len() {
        Option::None
    } else if s[i] == '"' {
        Option::Some((acc, i + 1))
    } else if s[i] == '\\' {
        if i + 1 < s.len() && sp_jesc_ok(s[i + 1]) {
            match sp_escape(s, i + 1) {
                Option::Some(p) => sp_jstr_tail(s, p.1, acc + p.0),
                Option::None => Option::None,
            }
        } else {
            Option::None
        }
    } else {
        sp_jstr_tail(s, i + 1, acc.push(s[i]))
    }
}

#[via_fn]
proof fn sp_jstr_tail_dec(s: Seq<char>, i: int, acc: Seq<char>) {
    if 0 <= i && i < s.len() && s[i] == '\\' && i + 1 < s.len() && sp_jesc_ok(s[i + 1]) {
        lemma_sp_escape_bounds(s, i + 1);
    }
}

/// A JSON string literal after optional whitespace: its decoded value and
/// the position after the closing quote.
pub open spec fn sp_jstring(s: Seq<char>, pos: int) -> Option<(Seq<char>, int)> {
    let w = sp_ws_run(s, pos);
    if w < s.len() && s[w] == '"' {
        sp_jstr_tail(s, w + 1, Seq::empty())
    } else {
        Option::None
    }
}

/// Where the greedy numeric scan ends: an optional minus, digits, an
/// optional fraction, an optional exponent (each part as far as it goes).
pub open spec fn sp_jnum_scan(s: Seq<char>, i: int) -> int {
    let a: int = if i < s.len() && s[i] == '-' {
        i + 1
    } else {
        i
    };
    let b = spec_digits_end(s, a);
    let c: int = if b < s.len() && s[b] == '.' {
        spec_digits_end(s, b + 1)
    } else {
        b
    };
    if c < s.len() && (s[c] == 'e' || s[c] == 'E') {
        let d: int = if c + 1 < s.len() && (s[c + 1] == '+' || s[c + 1] == '-') {
            c + 2
        } else {
            c + 1
        };
        spec_digits_end(s, d)
    } else {
        c
    }
}

/// Skipping whitespace from where a skip ended skips nothing more.
proof fn lemma_jws_fix(s: Seq<char>, i: int)
    requires
        0 <= i <= s.len(),
    ensures
        sp_ws_run(s, sp_ws_run(s, i)) == sp_ws_run(s, i),
{
    lemma_sp_ws_run_bounds(s, i);
    lemma_sp_ws_run_fix(s, i);
}

/// A decoded string body always ends past the position it starts at, and
/// within the text.
proof fn lemma_jstr_tail_end(s: Seq<char>, i: int, acc: Seq<char>)
    ensures
        match sp_jstr_tail(s, i, acc) {
            Option::Some(p) => p.1 > i && p.1 <= s.len(),
            Option::None => true,
        },
    decreases s.len() - i,
{
    if 0 <= i && i < s.len() && s[i] != '"' {
        if s[i] == '\\' {
            if i + 1 < s.len() && sp_jesc_ok(s[i + 1]) {
                match sp_escape(s, i + 1) {
                    Option::Some(p) => {
                        lemma_sp_escape_bounds(s, i + 1);
                        lemma_jstr_tail_end(s, p.1, acc + p.0);
                    },
                    Option::None => {},
                }
            }
        } else {
            lemma_jstr_tail_end(s, i + 1, acc.push(s[i]));
        }
    }
}

/// A parsed string literal ends past the whitespace before it.
proof fn lemma_jstring_end(s: Seq<char>, pos: int)
    requires
        0 <= pos <= s.len(),
    ensures
        match sp_jstring(s, pos) {
            Option::Some(p) => p.1 > sp_ws_run(s, pos) && p.1 <= s.len(),
            Option::None => true,
        },
{
    lemma_sp_ws_run_bounds(s, pos);
    lemma_jstr_tail_end(s, sp_ws_run(s, pos) + 1, Seq::empty());
}

/// Whitespace skipping stays within the text, from every position.
proof fn lemma_jws_bounds_all(s: Seq<char>)
    ensures
        forall|j: int| 0 <= j <= s.len() ==> j <= #[trigger] sp_ws_run(s, j) <= s.len(),
{
    assert forall|j: int| 0 <= j <= s.len() implies j <= #[trigger] sp_ws_run(s, j) <= s.len() by {
        lemma_sp_ws_run_bounds(s, j);
    }
}

/// Where skipping one JSON value ends, whatever it is: `None` exactly when
/// no value stands here.
pub open spec fn sp_jskip(s: Seq<char>, pos: int) -> Option<int>
    decreases s.len() - pos, 1nat,
    via sp_jskip_dec
{
    let w = sp_ws_run(s, pos);
    if w >= s.len() {
        Option::None
    } else if s[w] == '"' {
        match sp_jstring(s, w) {
            Option::Some(p) => Option::Some(p.1),
            Option::None => Option::None,
        }
    } else if s[w] == '{' {
        let b = sp_ws_run(s, w + 1);
        if b < s.len() && s[b] == '}' {
            Option::Some(b + 1)
        } else {
            match sp_jskip_omembers(s, w + 1) {
                Option::Some(e) => (if sp_ws_run(s, e) < s.len() && s[sp_ws_run(s, e)] == '}' {
                    Option::Some(sp_ws_run(s, e) + 1)
                } else {
                    Option::None
                }),
                Option::None => Option::None,
            }
        }
    } else if s[w] == '[' {
        let b = sp_ws_run(s, w + 1);
        if b < s.len() && s[b] == ']' {
            Option::Some(b + 1)
        } else {
            match sp_jskip_amembers(s, w + 1) {
                Option::Some(e) => (if sp_ws_run(s, e) < s.len() && s[sp_ws_run(s, e)] == ']' {
                    Option::Some(sp_ws_run(s, e) + 1)
                } else {
                    Option::None
                }),
                Option::None => Option::None,
            }
        }
    } else if s[w] == 't' {
        if lit_at(s, w, "true"@) {
            Option::Some(w + 4)
        } else {
            Option::None
        }
    } else if s[w] == 'f' {
        if lit_at(s, w, "false"@) {
            Option::Some(w + 5)
        } else {
            Option::None
        }
    } else if s[w] == 'n' {
        if lit_at(s, w, "null"@) {
            Option::Some(w + 4)
        } else {
            Option::None
        }
    } else if s[w] == '-' || crate::text::spec_is_digit(s[w]) {
        match sp_jnumber(s, w) {
            Option::Some(p) => Option::Some(p.1),
            Option::None => Option::None,
        }
    } else {
        Option::None
    }
}

#[via_fn]
proof fn sp_jskip_dec(s: Seq<char>, pos: int) {
    lemma_jws_bounds_all(s);
}

/// Where the members of a skipped object end: key string, colon, value,
/// then a comma and more members or the end of the list.
pub open spec fn sp_jskip_omembers(s: Seq<char>, i: int) -> Option<int>
    decreases s.len() - i, 2nat,
    via sp_jskip_omembers_dec
{
    match sp_jstring(s, i) {
        Option::Some(kp) => {
            if kp.1 <= i || kp.1 > s.len() {
                Option::None
            } else {
                let c = sp_ws_run(s, kp.1);
                if c < s.len() && s[c] == ':' {
                    match sp_jskip(s, c + 1) {
                        Option::Some(e) => {
                            if e <= c || e > s.len() {
                                Option::None
                            } else {
                                let t = sp_ws_run(s, e);
                                if t < s.len() && s[t] == ',' {
                                    sp_jskip_omembers(s, t + 1)
                                } else {
                                    Option::Some(e)
                                }
                            }
                        },
                        Option::None => Option::None,
                    }
                } else {
                    Option::None
                }
            }
        },
        Option::None => Option::None,
    }
}

#[via_fn]
proof fn sp_jskip_omembers_dec(s: Seq<char>, i: int) {
    lemma_jws_bounds_all(s);
}

/// Where the elements of a skipped array end.
pub open spec fn sp_jskip_amembers(s: Seq<char>, i: int) -> Option<int>
    decreases s.len() - i, 2nat,
    via sp_jskip_amembers_dec
{
    match sp_jskip(s, i) {
        Option::Some(e) => {
            if e <= i || e > s.len() {
                Option::None
            } else {
                let t = sp_ws_run(s, e);
                if t < s.len() && s[t] == ',' {
                    sp_jskip_amembers(s, t + 1)
                } else {
                    Option::Some(e)
                }
            }
        },
        Option::None => Option::None,
    }
}

#[via_fn]
proof fn sp_jskip_amembers_dec(s: Seq<char>, i: int) {
    lemma_jws_bounds_all(s);
}

/// A digit run ends at or after where it starts, within the text.
proof fn lemma_jdigits_bounds(s: Seq<char>, i: int)
    requires
        0 <= i <= s.len(),
    ensures
        i <= spec_digits_end(s, i) <= s.len(),
    decreases s.len() - i,
{
    if i < s.len() && crate::text::spec_is_digit(s[i]) {
        lemma_jdigits_bounds(s, i + 1);
    }
}

/// A number ends past the whitespace before it, within the text.
proof fn lemma_jnumber_end(s: Seq<char>, pos: int)
    requires
        0 <= pos <= s.len(),
    ensures
        match sp_jnumber(s, pos) {
            Option::Some(p) => p.1 > sp_ws_run(s, pos) && p.1 <= s.len(),
            Option::None => true,
        },
{
    lemma_sp_ws_run_bounds(s, pos);
    let w = sp_ws_run(s, pos);
    let a: int = if w < s.len() && s[w] == '-' {
        w + 1
    } else {
        w
    };
    lemma_jdigits_bounds(s, a);
    let b = spec_digits_end(s, a);
    if b < s.len() && s[b] == '.' {
        lemma_jdigits_bounds(s, b + 1);
    }
    let c: int = if b < s.len() && s[b] == '.' {
        spec_digits_end(s, b + 1)
    } else {
        b
    };
    if c < s.len() && (s[c] == 'e' || s[c] == 'E') {
        let d: int = if c + 1 < s.len() && (s[c + 1] == '+' || s[c + 1] == '-') {
            c + 2
        } else {
            c + 1
        };
        lemma_jdigits_bounds(s, d);
    }
}

/// A skipped value, object member list, or array element list ends past
/// where it starts, within the text.
proof fn lemma_jskip_end(s: Seq<char>, pos: int)
    requires
        0 <= pos <= s.len(),
    ensures
        match sp_jskip(s, pos) {
            Option::Some(e) => e > sp_ws_run(s, pos) && e <= s.len(),
            Option::None => true,
        },
    decreases s.len() - pos, 1nat,
{
    lemma_sp_ws_run_bounds(s, pos);
    let w = sp_ws_run(s, pos);
    if w < s.len() {
        if s[w] == '"' {
            lemma_jws_fix(s, pos);
            lemma_jstring_end(s, w);
        } else if s[w] == '{' || s[w] == '[' {
            lemma_sp_ws_run_bounds(s, w + 1);
            let b = sp_ws_run(s, w + 1);
            if s[w] == '{' {
                if !(b < s.len() && s[b] == '}') {
                    lemma_jomembers_end(s, w + 1);
                    match sp_jskip_omembers(s, w + 1) {
                        Option::Some(e) => {
                            lemma_sp_ws_run_bounds(s, e);
                        },
                        Option::None => {},
                    }
                }
            } else {
                if !(b < s.len() && s[b] == ']') {
                    lemma_jamembers_end(s, w + 1);
                    match sp_jskip_amembers(s, w + 1) {
                        Option::Some(e) => {
                            lemma_sp_ws_run_bounds(s, e);
                        },
                        Option::None => {},
                    }
                }
            }
        } else if s[w] == 't' {
            proof_lit_true();
        } else if s[w] == 'f' {
            proof_lit_false();
        } else if s[w] == 'n' {
            proof_lit_null();
        } else if s[w] == '-' || crate::text::spec_is_digit(s[w]) {
            lemma_jws_fix(s, pos);
            lemma_jnumber_end(s, w);
        }
    }
}

proof fn proof_lit_true()
    ensures
        "true"@.len() == 4,
{
    reveal_strlit("true");
}

proof fn proof_lit_false()
    ensures
        "false"@.len() == 5,
{
    reveal_strlit("false");
}

proof fn proof_lit_null()
    ensures
        "null"@.len() == 4,
{
    reveal_strlit("null");
}

proof fn lemma_jomembers_end(s: Seq<char>, i: int)
    requires
        0 <= i <= s.len(),
    ensures
        match sp_jskip_omembers(s, i) {
            Option::Some(e) => e > i && e <= s.len(),
            Option::None => true,
        },
    decreases s.len() - i, 2nat,
{
    match sp_jstring(s, i) {
        Option::Some(kp) => {
            if !(kp.1 <= i || kp.1 > s.len()) {
                lemma_sp_ws_run_bounds(s, kp.1);
                let c = sp_ws_run(s, kp.1);
                if c < s.len() && s[c] == ':' {
                    lemma_jskip_end(s, c + 1);
                    match sp_jskip(s, c + 1) {
                        Option::Some(e) => {
                            if !(e <= c || e > s.len()) {
                                lemma_sp_ws_run_bounds(s, e);
                                let t = sp_ws_run(s, e);
                                if t < s.len() && s[t] == ',' {
                                    lemma_jomembers_end(s, t + 1);
                                }
                            }
                        },
                        Option::None => {},
                    }
                }
            }
        },
        Option::None => {},
    }
}

proof fn lemma_jamembers_end(s: Seq<char>, i: int)
    requires
        0 <= i <= s.len(),
    ensures
        match sp_jskip_amembers(s, i) {
            Option::Some(e) => e > i && e <= s.len(),
            Option::None => true,
        },
    decreases s.len() - i, 2nat,
{
    lemma_jskip_end(s, i);
    lemma_sp_ws_run_bounds(s, i);
    match sp_jskip(s, i) {
        Option::Some(e) => {
            if !(e <= i || e > s.len()) {
                lemma_sp_ws_run_bounds(s, e);
                let t = sp_ws_run(s, e);
                if t < s.len() && s[t] == ',' {
                    lemma_jamembers_end(s, t + 1);
                }
            }
        },
        Option::None => {},
    }
}

/// Member lists read the same from a position and from the end of the
/// whitespace after it.
proof fn lemma_omembers_ws(s: Seq<char>, i: int)
    requires
        0 <= i <= s.len(),
    ensures
        sp_jskip_omembers(s, i) == sp_jskip_omembers(s, sp_ws_run(s, i)),
{
    lemma_jws_fix(s, i);
    lemma_sp_ws_run_bounds(s, i);
    lemma_jstring_end(s, i);
    assert(sp_jstring(s, i) == sp_jstring(s, sp_ws_run(s, i)));
}

/// Array element lists read the same from a position and from the end of
/// the whitespace after it.
proof fn lemma_amembers_ws(s: Seq<char>, i: int)
    requires
        0 <= i <= s.len(),
    ensures
        sp_jskip_amembers(s, i) == sp_jskip_amembers(s, sp_ws_run(s, i)),
{
    lemma_jws_fix(s, i);
    lemma_sp_ws_run_bounds(s, i);
    lemma_jskip_end(s, i);
    assert(sp_jskip(s, i) == sp_jskip(s, sp_ws_run(s, i)));
}

/// A scalar after optional whitespace: a string, `true`, `false`, or a
/// number, and the position after it.
pub open spec fn sp_jscalar(s: Seq<char>, pos: int) -> Option<(crate::tree::ScalarVal, int)> {
    let w = sp_ws_run(s, pos);
    if w >= s.len() {
        Option::None
    } else if s[w] == '"' {
        match sp_jstring(s, w) {
            Option::Some(p) => Option::Some((crate::tree::ScalarVal::Str(p.0), p.1)),
            Option::None => Option::None,
        }
    } else if s[w] == 't' {
        if lit_at(s, w, "true"@) {
            Option::Some((crate::tree::ScalarVal::Bool(true), w + 4))
        } else {
            Option::None
        }
    } else if s[w] == 'f' {
        if lit_at(s, w, "false"@) {
            Option::Some((crate::tree::ScalarVal::Bool(false), w + 5))
        } else {
            Option::None
        }
    } else if s[w] == '-' || crate::text::spec_is_digit(s[w]) {
        match sp_jnumber(s, w) {
            Option::Some(p) => Option::Some((crate::tree::ScalarVal::Num(p.0), p.1)),
            Option::None => Option::None,
        }
    } else {
        Option::None
    }
}

/// A wire-mode date wrapper after optional whitespace: an object with the
/// single key `$date` and a string value, read back as a date scalar.
pub open spec fn sp_jdate(s: Seq<char>, pos: int) -> Option<(crate::tree::ScalarVal, int)> {
    let w = sp_ws_run(s, pos);
    if w < s.len() && s[w] == '{' {
        match sp_jstring(s, w + 1) {
            Option::Some(kp) => if kp.0 == "$date"@ {
                let c = sp_ws_run(s, kp.1);
                if c < s.len() && s[c] == ':' {
                    match sp_jstring(s, c + 1) {
                        Option::Some(vp) => {
                            let b = sp_ws_run(s, vp.1);
                            if b < s.len() && s[b] == '}' {
                                Option::Some((crate::tree::ScalarVal::Date(vp.0), b + 1))
                            } else {
                                Option::None
                            }
                        },
                        Option::None => Option::None,
                    }
                } else {
                    Option::None
                }
            } else {
                Option::None
            },
            Option::None => Option::None,
        }
    } else {
        Option::None
    }
}

/// A JSON number after optional whitespace: the scanned text must be a
/// numeric token; its classified value and the position after it.
pub open spec fn sp_jnumber(s: Seq<char>, pos: int) -> Option<(crate::tree::NumberVal, int)> {
    let w = sp_ws_run(s, pos);
    let e = sp_jnum_scan(s, w);
    if e > w && spec_num_token(s.subrange(w, e)) {
        Option::Some((sp_number_of(s.subrange(w, e)), e))
    } else {
        Option::None
    }
}

/// Deserialize a standard-mode JSON string into a tree; the whole input
/// (but for trailing whitespace) must be one node object.
pub fn from_json(input: &str) -> (r: Result<MOTLYNode, String>)
    ensures
        (r matches Ok(n) ==> vnode_wf(view_node(n))),
{
    from_json_mode(input, false)
}

/// Deserialize a wire-mode JSON string into a tree: as `from_json`, and
/// `{"$date": "..."}` in a value slot is read back as a date.
pub fn from_wire(input: &str) -> (r: Result<MOTLYNode, String>)
    ensures
        (r matches Ok(n) ==> vnode_wf(view_node(n))),
{
    from_json_mode(input, true)
}

fn from_json_mode(input: &str, wire: bool) -> (r: Result<MOTLYNode, String>)
    ensures
        (r matches Ok(n) ==> vnode_wf(view_node(n))),
{
    let mut p = JsonParser { input: str_to_chars(input), pos: 0, wire };
    let node = match p.parse_node() {
        Result::Ok(n) => n,
        Result::Err(e) => {
            return Result::Err(e);
        },
    };
    p.skip_ws();
    if p.pos < p.input.len() {
        return Result::Err("Trailing content after the document".to_owned());
    }
    Result::Ok(node)
}

impl JsonParser {
    fn skip_ws(&mut self)
        requires
            jwf(*old(self)),
        ensures
            jadv(*old(self), *final(self)),
            final(self).pos == sp_ws_run(old(self).input@, old(self).pos as int),
    {
        while self.pos < self.input.len() && (self.input[self.pos] == ' ' || self.input[self.pos]
            == '\t' || self.input[self.pos] == '\n' || self.input[self.pos] == '\r')
            invariant
                jwf(*self),
                self.input@ == old(self).input@,
                old(self).pos <= self.pos,
                self.wire == old(self).wire,
                sp_ws_run(self.input@, old(self).pos as int) == sp_ws_run(
                    self.input@,
                    self.pos as int,
                ),
            decreases self.input@.len() - self.pos,
        {
            proof {
                assert(spec_is_ws(self.input@[self.pos as int]));
            }
            self.pos = self.pos + 1;
        }
        proof {
            assert(sp_ws_run(self.input@, self.pos as int) == self.pos as int);
        }
    }

    /// The next character after whitespace, without consuming it.
    fn peek(&mut self) -> (r: Option<char>)
        requires
            jwf(*old(self)),
        ensures
            jadv(*old(self), *final(self)),
            final(self).pos == sp_ws_run(old(self).input@, old(self).pos as int),
            r matches Some(c) ==> final(self).pos < final(self).input@.len() && c == final(
                self
            ).input@[final(self).pos as int],
            r is None ==> final(self).pos == final(self).input@.len(),
    {
        self.skip_ws();
        if self.pos < self.input.len() {
            Option::Some(self.input[self.pos])
        } else {
            Option::None
        }
    }

    /// Consume one expected character (after whitespace).
    fn expect(&mut self, ch: char) -> (r: Result<(), String>)
        requires
            jwf(*old(self)),
        ensures
            jadv(*old(self), *final(self)),
            r is Ok ==> final(self).pos > old(self).pos,
            (r is Ok <==> (sp_ws_run(old(self).input@, old(self).pos as int) < old(
                self,
            ).input@.len() && old(self).input@[sp_ws_run(old(self).input@, old(self).pos as int)]
                == ch)),
            r is Ok ==> final(self).pos == sp_ws_run(old(self).input@, old(self).pos as int) + 1,
    {
        self.skip_ws();
        if self.pos < self.input.len() && self.input[self.pos] == ch {
            self.pos = self.pos + 1;
            Result::Ok(())
        } else {
            Result::Err("Unexpected character in JSON".to_owned())
        }
    }

    /// A JSON string literal with escapes; surrogate pairs are combined and
    /// lone surrogates become U+FFFD. The result and the end position are
    /// exactly what the string grammar assigns, and a syntax error is
    /// exactly its rejection.
    #[verifier::loop_isolation(false)]
    #[verifier::rlimit(60)]
    fn parse_string(&mut self) -> (r: Result<String, String>)
        requires
            jwf(*old(self)),
        ensures
            jadv(*old(self), *final(self)),
            r is Ok ==> final(self).pos > old(self).pos,
            (r matches Ok(t) ==> sp_jstring(old(self).input@, old(self).pos as int)
                == Option::Some((t@, final(self).pos as int))),
            r is Err ==> sp_jstring(old(self).input@, old(self).pos as int) is None,
        decreases old(self).input@.len() - old(self).pos, 0nat,
    {
        let ghost s0 = old(self).input@;
        let ghost p0 = old(self).pos as int;
        match self.expect('"') {
            Result::Ok(_) => {},
            Result::Err(e) => {
                return Result::Err(e);
            },
        }
        let mut s: Vec<char> = Vec::new();
        proof {
            assert(s@ =~= Seq::<char>::empty());
        }
        loop
            invariant
                jwf(*self),
                self.input@ == old(self).input@,
                old(self).pos < self.pos,
                self.wire == old(self).wire,
                sp_jstring(s0, p0) == sp_jstr_tail(s0, self.pos as int, s@),
            decreases self.input@.len() - self.pos,
        {
            let ghost ip = self.pos as int;
            let ghost acc0 = s@;
            if self.pos >= self.input.len() {
                return Result::Err("Unterminated string".to_owned());
            }
            let ch = self.input[self.pos];
            if ch == '"' {
                self.pos = self.pos + 1;
                return Result::Ok(chars_to_string(&s));
            }
            if ch == '\\' {
                self.pos = self.pos + 1;
                if self.pos >= self.input.len() {
                    return Result::Err("Unexpected end of input in string escape".to_owned());
                }
                let e = self.input[self.pos];
                if e == '"' {
                    s.push('"');
                    self.pos = self.pos + 1;
                    proof {
                        assert(s@ =~= acc0 + seq!['"']);
                    }
                } else if e == '\\' {
                    s.push('\\');
                    self.pos = self.pos + 1;
                    proof {
                        assert(s@ =~= acc0 + seq!['\\']);
                    }
                } else if e == '/' {
                    s.push('/');
                    self.pos = self.pos + 1;
                    proof {
                        assert(s@ =~= acc0 + seq!['/']);
                    }
                } else if e == 'n' {
                    s.push('\n');
                    self.pos = self.pos + 1;
                    proof {
                        assert(s@ =~= acc0 + seq!['\n']);
                    }
                } else if e == 'r' {
                    s.push('\r');
                    self.pos = self.pos + 1;
                    proof {
                        assert(s@ =~= acc0 + seq!['\r']);
                    }
                } else if e == 't' {
                    s.push('\t');
                    self.pos = self.pos + 1;
                    proof {
                        assert(s@ =~= acc0 + seq!['\t']);
                    }
                } else if e == 'b' {
                    s.push('\u{0008}');
                    self.pos = self.pos + 1;
                    proof {
                        assert(s@ =~= acc0 + seq!['\u{0008}']);
                    }
                } else if e == 'f' {
                    s.push('\u{000C}');
                    self.pos = self.pos + 1;
                    proof {
                        assert(s@ =~= acc0 + seq!['\u{000C}']);
                    }
                } else if e == 'u' {
                    self.pos = self.pos + 1;
                    let cp = match self.parse_hex4() {
                        Result::Ok(v) => v,
                        Result::Err(er) => {
                            proof {
                                assert(sp_escape(s0, ip + 1) is None);
                            }
                            return Result::Err(er);
                        },
                    };
                    proof {
                        assert(sp_hex4(s0, ip + 2) == Option::Some((cp as int, ip + 6)));
                        reveal_strlit("\\u");
                    }
                    if 0xD800 <= cp && cp <= 0xDBFF {
                        // high surrogate: combine with a following low one
                        if self.input.len() - self.pos >= 2 && self.input[self.pos] == '\\'
                            && self.input[self.pos + 1] == 'u' {
                            proof {
                                assert(s0.subrange(ip + 6, ip + 8) =~= "\\u"@);
                                assert(lit_at(s0, ip + 6, "\\u"@));
                            }
                            self.pos = self.pos + 2;
                            let low = match self.parse_hex4() {
                                Result::Ok(v) => v,
                                Result::Err(er) => {
                                    proof {
                                        assert(sp_escape(s0, ip + 1) is None);
                                    }
                                    return Result::Err(er);
                                },
                            };
                            proof {
                                assert(sp_hex4(s0, ip + 8) == Option::Some((low as int, ip + 12)));
                            }
                            if 0xDC00 <= low && low <= 0xDFFF {
                                let combined: u32 = 0x10000 + ((cp - 0xD800) * 0x400) + (low
                                    - 0xDC00);
                                match char_from_u32(combined) {
                                    Option::Some(c) => {
                                        s.push(c);
                                        proof {
                                            vstd::utf8::char_u32_cast(c, combined);
                                            assert(s@ =~= acc0 + seq![c]);
                                        }
                                    },
                                    Option::None => {
                                        s.push('\u{FFFD}');
                                        proof {
                                            assert(false);
                                        }
                                    },
                                }
                            } else {
                                s.push('\u{FFFD}');
                                proof {
                                    assert(s@ =~= acc0 + seq!['\u{FFFD}']);
                                }
                            }
                        } else {
                            proof {
                                if ip + 8 <= s0.len() {
                                    assert(s0.subrange(ip + 6, ip + 8)[0] == s0[ip + 6]);
                                    assert(s0.subrange(ip + 6, ip + 8)[1] == s0[ip + 7]);
                                }
                                assert(!lit_at(s0, ip + 6, "\\u"@));
                            }
                            s.push('\u{FFFD}');
                            proof {
                                assert(s@ =~= acc0 + seq!['\u{FFFD}']);
                            }
                        }
                    } else {
                        match char_from_u32(cp) {
                            Option::Some(c) => {
                                s.push(c);
                                proof {
                                    vstd::utf8::char_u32_cast(c, cp);
                                    assert(!(0xDC00 <= cp as int && cp as int <= 0xDFFF));
                                    assert(s@ =~= acc0 + seq![c]);
                                }
                            },
                            Option::None => {
                                s.push('\u{FFFD}');
                                proof {
                                    assert(0xDC00 <= cp as int && cp as int <= 0xDFFF);
                                    assert(s@ =~= acc0 + seq!['\u{FFFD}']);
                                }
                            },
                        }
                    }
                } else {
                    proof {
                        assert(!sp_jesc_ok(s0[ip + 1]));
                    }
                    return Result::Err("Unknown escape in JSON string".to_owned());
                }
            } else {
                s.push(ch);
                self.pos = self.pos + 1;
                proof {
                    assert(s@ =~= acc0.push(ch));
                }
            }
        }
    }

    /// Exactly four hex digits.
    fn parse_hex4(&mut self) -> (r: Result<u32, String>)
        requires
            jwf(*old(self)),
        ensures
            jadv(*old(self), *final(self)),
            r matches Ok(v) ==> v < 0x10000,
            (r matches Ok(v) ==> sp_hex4(old(self).input@, old(self).pos as int) == Option::Some(
                (v as int, final(self).pos as int),
            )),
            r is Err ==> sp_hex4(old(self).input@, old(self).pos as int) is None,
    {
        let ghost s0 = old(self).input@;
        let ghost p0 = old(self).pos as int;
        let mut v: u32 = 0;
        let mut k: usize = 0;
        while k < 4
            invariant
                jwf(*self),
                self.input@ == old(self).input@,
                old(self).pos <= self.pos,
                self.wire == old(self).wire,
                k <= 4,
                s0 == self.input@,
                p0 == old(self).pos as int,
                self.pos as int == p0 + k,
                forall|m: int| 0 <= m < k ==> spec_is_hex_digit(#[trigger] s0[p0 + m]),
                (k == 1 ==> v as int == spec_hex_val(s0[p0])),
                (k == 2 ==> v as int == spec_hex_val(s0[p0]) * 16 + spec_hex_val(s0[p0 + 1])),
                (k == 3 ==> v as int == (spec_hex_val(s0[p0]) * 16 + spec_hex_val(s0[p0 + 1])) * 16
                    + spec_hex_val(s0[p0 + 2])),
                (k == 4 ==> v as int == ((spec_hex_val(s0[p0]) * 16 + spec_hex_val(s0[p0 + 1]))
                    * 16 + spec_hex_val(s0[p0 + 2])) * 16 + spec_hex_val(s0[p0 + 3])),
                v < (if k == 0 {
                    1u32
                } else if k == 1 {
                    0x10u32
                } else if k == 2 {
                    0x100u32
                } else if k == 3 {
                    0x1000u32
                } else {
                    0x10000u32
                }),
            decreases 4 - k,
        {
            if self.pos < self.input.len() && is_hex_digit(self.input[self.pos]) {
                let d = hex_val(self.input[self.pos]);
                v = v * 16 + d;
                self.pos = self.pos + 1;
            } else {
                proof {
                    assert(sp_hex4(s0, p0) is None);
                }
                return Result::Err("Invalid hex in unicode escape".to_owned());
            }
            k += 1;
        }
        proof {
            assert(p0 + 4 <= s0.len());
            assert(spec_is_hex_digit(s0[p0 + 0]) && spec_is_hex_digit(s0[p0 + 1])
                && spec_is_hex_digit(s0[p0 + 2]) && spec_is_hex_digit(s0[p0 + 3]));
            assert(sp_hex4(s0, p0) == Option::Some((v as int, p0 + 4)));
        }
        Result::Ok(v)
    }

    /// A JSON number token; small integers keep their exact value,
    /// everything else keeps its text. The value and end position are
    /// exactly what the numeric grammar assigns.
    #[verifier::loop_isolation(false)]
    #[verifier::rlimit(100)]
    fn parse_number(&mut self) -> (r: Result<Number, String>)
        requires
            jwf(*old(self)),
        ensures
            jadv(*old(self), *final(self)),
            (r matches Ok(n) ==> crate::num::number_wf(n) && final(self).pos > old(self).pos),
            (r matches Ok(n) ==> sp_jnumber(old(self).input@, old(self).pos as int)
                == Option::Some((view_number(n), final(self).pos as int))),
            r is Err ==> sp_jnumber(old(self).input@, old(self).pos as int) is None,
    {
        let ghost s0 = old(self).input@;
        self.skip_ws();
        let start = self.pos;
        let mut token: Vec<char> = Vec::new();
        proof {
            assert(token@ =~= s0.subrange(start as int, start as int));
        }
        if self.pos < self.input.len() && self.input[self.pos] == '-' {
            token.push('-');
            self.pos = self.pos + 1;
            proof {
                assert(token@ =~= s0.subrange(start as int, self.pos as int));
            }
        }
        let ghost a = self.pos as int;
        while self.pos < self.input.len() && is_digit(self.input[self.pos])
            invariant
                jwf(*self),
                self.input@ == old(self).input@,
                start <= self.pos,
                a <= self.pos,
                self.wire == old(self).wire,
                token@ == s0.subrange(start as int, self.pos as int),
                forall|m: int| a <= m < self.pos ==> crate::text::spec_is_digit(#[trigger] s0[m]),
            decreases self.input@.len() - self.pos,
        {
            token.push(self.input[self.pos]);
            self.pos = self.pos + 1;
            proof {
                assert(token@ =~= s0.subrange(start as int, self.pos as int));
            }
        }
        proof {
            lemma_digits_end_eq(s0, a, self.pos as int);
        }
        let ghost b = self.pos as int;
        if self.pos < self.input.len() && self.input[self.pos] == '.' {
            token.push('.');
            self.pos = self.pos + 1;
            proof {
                assert(token@ =~= s0.subrange(start as int, self.pos as int));
            }
            while self.pos < self.input.len() && is_digit(self.input[self.pos])
                invariant
                    jwf(*self),
                    self.input@ == old(self).input@,
                    start < self.pos,
                    b < self.pos,
                    self.wire == old(self).wire,
                    token@ == s0.subrange(start as int, self.pos as int),
                    forall|m: int|
                        b + 1 <= m < self.pos ==> crate::text::spec_is_digit(#[trigger] s0[m]),
                decreases self.input@.len() - self.pos,
            {
                token.push(self.input[self.pos]);
                self.pos = self.pos + 1;
                proof {
                    assert(token@ =~= s0.subrange(start as int, self.pos as int));
                }
            }
            proof {
                lemma_digits_end_eq(s0, b + 1, self.pos as int);
            }
        }
        let ghost c = self.pos as int;
        if self.pos < self.input.len() && (self.input[self.pos] == 'e' || self.input[self.pos]
            == 'E') {
            token.push(self.input[self.pos]);
            self.pos = self.pos + 1;
            proof {
                assert(token@ =~= s0.subrange(start as int, self.pos as int));
            }
            if self.pos < self.input.len() && (self.input[self.pos] == '+' || self.input[self.pos]
                == '-') {
                token.push(self.input[self.pos]);
                self.pos = self.pos + 1;
                proof {
                    assert(token@ =~= s0.subrange(start as int, self.pos as int));
                }
            }
            let ghost d = self.pos as int;
            while self.pos < self.input.len() && is_digit(self.input[self.pos])
                invariant
                    jwf(*self),
                    self.input@ == old(self).input@,
                    start < self.pos,
                    d <= self.pos,
                    self.wire == old(self).wire,
                    token@ == s0.subrange(start as int, self.pos as int),
                    forall|m: int|
                        d <= m < self.pos ==> crate::text::spec_is_digit(#[trigger] s0[m]),
                decreases self.input@.len() - self.pos,
            {
                token.push(self.input[self.pos]);
                self.pos = self.pos + 1;
                proof {
                    assert(token@ =~= s0.subrange(start as int, self.pos as int));
                }
            }
            proof {
                lemma_digits_end_eq(s0, d, self.pos as int);
            }
        }
        proof {
            assert(sp_jnum_scan(s0, start as int) == self.pos as int);
        }
        if !crate::parser::check_num_token(&token) {
            return Result::Err("Invalid number in JSON".to_owned());
        }
        if self.pos == start {
            return Result::Err("Invalid number in JSON".to_owned());
        }
        let n = number_from_token(&token);
        proof {
            if crate::num::spec_small_int_token(token@) {
                crate::num::lemma_small_token_val_bounds(token@);
            }
            assert(view_number(n) == sp_number_of(token@));
        }
        Result::Ok(n)
    }

    /// An exact literal (`true`, `false`, `null`): consumed if and only if
    /// it stands at the current position.
    #[verifier::loop_isolation(false)]
    fn parse_literal(&mut self, expected: &str) -> (r: Result<(), String>)
        requires
            jwf(*old(self)),
        ensures
            jadv(*old(self), *final(self)),
            r is Ok ==> final(self).pos >= old(self).pos + expected@.len(),
            (r is Ok <==> lit_at(old(self).input@, old(self).pos as int, expected@)),
            r is Ok ==> final(self).pos == old(self).pos + expected@.len(),
    {
        let exp = str_to_chars(expected);
        proof {
            vstd::std_specs::vec::axiom_spec_len(&self.input);
        }
        if self.input.len() - self.pos < exp.len() {
            proof {
                assert(!lit_at(old(self).input@, old(self).pos as int, expected@));
            }
            return Result::Err("Unexpected end of input".to_owned());
        }
        let mut k: usize = 0;
        while k < exp.len()
            invariant
                jwf(*self),
                self.input@ == old(self).input@,
                self.wire == old(self).wire,
                exp@ == expected@,
                k <= exp@.len(),
                self.pos == old(self).pos + k,
                old(self).pos + exp@.len() <= self.input@.len(),
                forall|m: int|
                    0 <= m < k ==> #[trigger] self.input@[old(self).pos + m] == expected@[m],
            decreases exp@.len() - k,
        {
            proof {
                vstd::std_specs::vec::axiom_spec_len(&self.input);
            }
            if self.input[self.pos] != exp[k] {
                proof {
                    let s0 = old(self).input@;
                    let p0 = old(self).pos as int;
                    if lit_at(s0, p0, expected@) {
                        assert(s0.subrange(p0, p0 + expected@.len())[k as int] == s0[p0 + k]);
                        assert(false);
                    }
                }
                return Result::Err("Unexpected token in JSON".to_owned());
            }
            self.pos = self.pos + 1;
            k += 1;
        }
        proof {
            let s0 = old(self).input@;
            let p0 = old(self).pos as int;
            assert forall|m: int|
                0 <= m < expected@.len() implies s0.subrange(p0, p0 + expected@.len() as int)[m]
                == expected@[m] by {
                assert(self.input@[old(self).pos + m] == expected@[m]);
            }
            assert(s0.subrange(p0, p0 + expected@.len() as int) =~= expected@);
        }
        Result::Ok(())
    }

    /// A JSON object read as a property value: a `linkTo` object is a link,
    /// anything else is a node with optional `deleted`, `eq`, `properties`;
    /// unknown keys are skipped.
    fn parse_value(&mut self) -> (r: Result<MOTLYPropertyValue, String>)
        requires
            jwf(*old(self)),
        ensures
            jadv(*old(self), *final(self)),
            (r matches Ok(pv) ==> vpv_wf(view_pv(pv)) && final(self).pos > old(self).pos),
        decreases old(self).input@.len() - old(self).pos, 2nat,
    {
        match self.expect('{') {
            Result::Ok(_) => {},
            Result::Err(e) => {
                return Result::Err(e);
            },
        }
        let mut eq: Option<EqValue> = Option::None;
        let mut properties: Option<Vec<Property>> = Option::None;
        let mut deleted = false;
        let mut link_to: Option<String> = Option::None;
        let first = self.peek();
        let body_empty = match first {
            Option::Some(cc) => cc == '}',
            Option::None => false,
        };
        if !body_empty {
            loop
                invariant
                    jwf(*self),
                    self.input@ == old(self).input@,
                    old(self).pos < self.pos,
                    self.wire == old(self).wire,
                    match &eq {
                        Option::Some(e) => veq_wf(crate::tree::view_eq(*e)),
                        Option::None => true,
                    },
                    match &properties {
                        Option::Some(ps) => vprops_sorted(view_props(ps@)) && ventries_wf(
                            view_props(ps@),
                        ),
                        Option::None => true,
                    },
                decreases self.input@.len() - self.pos,
            {
                let key = match self.parse_string() {
                    Result::Ok(k) => k,
                    Result::Err(e) => {
                        return Result::Err(e);
                    },
                };
                match self.expect(':') {
                    Result::Ok(_) => {},
                    Result::Err(e) => {
                        return Result::Err(e);
                    },
                }
                if crate::text::str_eq(key.as_str(), "linkTo") {
                    let target = match self.parse_string() {
                        Result::Ok(t) => t,
                        Result::Err(e) => {
                            return Result::Err(e);
                        },
                    };
                    link_to = Option::Some(target);
                } else if crate::text::str_eq(key.as_str(), "deleted") {
                    self.skip_ws();
                    match self.parse_literal("true") {
                        Result::Ok(_) => {},
                        Result::Err(e) => {
                            return Result::Err(e);
                        },
                    }
                    deleted = true;
                } else if crate::text::str_eq(key.as_str(), "eq") {
                    let e = match self.parse_eq() {
                        Result::Ok(v) => v,
                        Result::Err(e) => {
                            return Result::Err(e);
                        },
                    };
                    eq = Option::Some(e);
                } else if crate::text::str_eq(key.as_str(), "properties") {
                    let ps = match self.parse_properties() {
                        Result::Ok(v) => v,
                        Result::Err(e) => {
                            return Result::Err(e);
                        },
                    };
                    properties = Option::Some(ps);
                } else {
                    match self.skip_json_value() {
                        Result::Ok(_) => {},
                        Result::Err(e) => {
                            return Result::Err(e);
                        },
                    }
                }
                self.skip_ws();
                if self.pos < self.input.len() && self.input[self.pos] == ',' {
                    self.pos = self.pos + 1;
                } else {
                    break;
                }
            }
        }
        match self.expect('}') {
            Result::Ok(_) => {},
            Result::Err(e) => {
                return Result::Err(e);
            },
        }
        match link_to {
            Option::Some(target) => Result::Ok(MOTLYPropertyValue::Ref(target)),
            Option::None => Result::Ok(
                MOTLYPropertyValue::Node(MOTLYNode { eq, properties, deleted }),
            ),
        }
    }

    /// The top-level node: the document must be a node object, not a link.
    fn parse_node(&mut self) -> (r: Result<MOTLYNode, String>)
        requires
            jwf(*old(self)),
        ensures
            jadv(*old(self), *final(self)),
            (r matches Ok(n) ==> vnode_wf(view_node(n))),
        decreases old(self).input@.len() - old(self).pos, 3nat,
    {
        match self.parse_value() {
            Result::Ok(MOTLYPropertyValue::Node(n)) => Result::Ok(n),
            Result::Ok(MOTLYPropertyValue::Ref(_)) => Result::Err(
                "Expected a node object at the top level, got a link".to_owned(),
            ),
            Result::Err(e) => Result::Err(e),
        }
    }

    /// A value slot: an array, a wire-mode date wrapper, or a scalar.
    fn parse_eq(&mut self) -> (r: Result<EqValue, String>)
        requires
            jwf(*old(self)),
        ensures
            jadv(*old(self), *final(self)),
            (r matches Ok(e) ==> veq_wf(crate::tree::view_eq(e)) && final(self).pos > old(
                self,
            ).pos),
        decreases old(self).input@.len() - old(self).pos, 1nat,
    {
        match self.peek() {
            Option::Some('[') => {
                let arr = match self.parse_array() {
                    Result::Ok(a) => a,
                    Result::Err(e) => {
                        return Result::Err(e);
                    },
                };
                Result::Ok(EqValue::Array(arr))
            },
            Option::Some('{') if self.wire => {
                let scalar = match self.parse_date_wrapper() {
                    Result::Ok(s) => s,
                    Result::Err(e) => {
                        return Result::Err(e);
                    },
                };
                Result::Ok(EqValue::Scalar(scalar))
            },
            _ => {
                let scalar = match self.parse_scalar() {
                    Result::Ok(s) => s,
                    Result::Err(e) => {
                        return Result::Err(e);
                    },
                };
                Result::Ok(EqValue::Scalar(scalar))
            },
        }
    }

    /// A `{"$date": "..."}` wrapper (wire mode): the date text and the end
    /// position are exactly what the wrapper grammar assigns.
    fn parse_date_wrapper(&mut self) -> (r: Result<Scalar, String>)
        requires
            jwf(*old(self)),
        ensures
            jadv(*old(self), *final(self)),
            (r matches Ok(s) ==> vscalar_wf(view_scalar(s)) && final(self).pos > old(self).pos),
            (r matches Ok(sc) ==> sp_jdate(old(self).input@, old(self).pos as int) == Option::Some(
                (view_scalar(sc), final(self).pos as int),
            )),
            r is Err ==> sp_jdate(old(self).input@, old(self).pos as int) is None,
        decreases old(self).input@.len() - old(self).pos, 0nat,
    {
        match self.expect('{') {
            Result::Ok(_) => {},
            Result::Err(e) => {
                return Result::Err(e);
            },
        }
        let key = match self.parse_string() {
            Result::Ok(k) => k,
            Result::Err(e) => {
                return Result::Err(e);
            },
        };
        if !crate::text::str_eq(key.as_str(), "$date") {
            proof {
                reveal_strlit("$date");
            }
            return Result::Err("Expected a \"$date\" key".to_owned());
        }
        proof {
            reveal_strlit("$date");
        }
        match self.expect(':') {
            Result::Ok(_) => {},
            Result::Err(e) => {
                return Result::Err(e);
            },
        }
        let value = match self.parse_string() {
            Result::Ok(v) => v,
            Result::Err(e) => {
                return Result::Err(e);
            },
        };
        match self.expect('}') {
            Result::Ok(_) => {},
            Result::Err(e) => {
                return Result::Err(e);
            },
        }
        Result::Ok(Scalar::Date(value))
    }

    /// A scalar: string, `true`, `false`, or a number; the value and end
    /// position are exactly what the scalar grammar assigns.
    fn parse_scalar(&mut self) -> (r: Result<Scalar, String>)
        requires
            jwf(*old(self)),
        ensures
            jadv(*old(self), *final(self)),
            (r matches Ok(s) ==> vscalar_wf(view_scalar(s)) && final(self).pos > old(self).pos),
            (r matches Ok(sc) ==> sp_jscalar(old(self).input@, old(self).pos as int)
                == Option::Some((view_scalar(sc), final(self).pos as int))),
            r is Err ==> sp_jscalar(old(self).input@, old(self).pos as int) is None,
        decreases old(self).input@.len() - old(self).pos, 0nat,
    {
        let ghost s0 = old(self).input@;
        let ghost w = sp_ws_run(old(self).input@, old(self).pos as int);
        match self.peek() {
            Option::Some('"') => {
                let s = match self.parse_string() {
                    Result::Ok(v) => v,
                    Result::Err(e) => {
                        return Result::Err(e);
                    },
                };
                Result::Ok(Scalar::String(s))
            },
            Option::Some('t') => {
                match self.parse_literal("true") {
                    Result::Ok(_) => {
                        proof {
                            reveal_strlit("true");
                        }
                        Result::Ok(Scalar::Boolean(true))
                    },
                    Result::Err(e) => {
                        proof {
                            reveal_strlit("true");
                        }
                        Result::Err(e)
                    },
                }
            },
            Option::Some('f') => {
                match self.parse_literal("false") {
                    Result::Ok(_) => {
                        proof {
                            reveal_strlit("false");
                        }
                        Result::Ok(Scalar::Boolean(false))
                    },
                    Result::Err(e) => {
                        proof {
                            reveal_strlit("false");
                        }
                        Result::Err(e)
                    },
                }
            },
            Option::Some(c) => {
                if c == '-' || is_digit(c) {
                    let n = match self.parse_number() {
                        Result::Ok(v) => v,
                        Result::Err(e) => {
                            return Result::Err(e);
                        },
                    };
                    Result::Ok(Scalar::Number(n))
                } else {
                    Result::Err("Unexpected character when parsing a scalar".to_owned())
                }
            },
            Option::None => Result::Err("Unexpected end of input when parsing a scalar".to_owned()),
        }
    }

    /// A JSON array of property values.
    fn parse_array(&mut self) -> (r: Result<Vec<MOTLYPropertyValue>, String>)
        requires
            jwf(*old(self)),
        ensures
            jadv(*old(self), *final(self)),
            (r matches Ok(a) ==> vpvs_wf(view_pvs(a@)) && final(self).pos > old(self).pos),
        decreases old(self).input@.len() - old(self).pos, 0nat,
    {
        match self.expect('[') {
            Result::Ok(_) => {},
            Result::Err(e) => {
                return Result::Err(e);
            },
        }
        let mut arr: Vec<MOTLYPropertyValue> = Vec::new();
        proof {
            lemma_vpvs_wf_index(view_pvs(arr@));
            lemma_view_pvs_index(arr@);
        }
        let first = self.peek();
        let body_empty = match first {
            Option::Some(cc) => cc == ']',
            Option::None => false,
        };
        if !body_empty {
            loop
                invariant
                    jwf(*self),
                    self.input@ == old(self).input@,
                    old(self).pos < self.pos,
                    self.wire == old(self).wire,
                    vpvs_wf(view_pvs(arr@)),
                decreases self.input@.len() - self.pos,
            {
                let node = match self.parse_value() {
                    Result::Ok(v) => v,
                    Result::Err(e) => {
                        return Result::Err(e);
                    },
                };
                let ghost before = arr@;
                arr.push(node);
                proof {
                    lemma_view_pvs_index(before);
                    lemma_view_pvs_index(arr@);
                    lemma_vpvs_wf_index(view_pvs(before));
                    lemma_vpvs_wf_index(view_pvs(arr@));
                    assert(arr@ == before.push(node));
                    assert forall|k: int| 0 <= k < arr@.len() implies vpv_wf(
                        #[trigger] view_pvs(arr@)[k],
                    ) by {
                        if k < before.len() {
                            assert(view_pvs(before)[k] == view_pv(before[k]));
                        }
                    }
                }
                self.skip_ws();
                if self.pos < self.input.len() && self.input[self.pos] == ',' {
                    self.pos = self.pos + 1;
                } else {
                    break;
                }
            }
        }
        match self.expect(']') {
            Result::Ok(_) => {},
            Result::Err(e) => {
                return Result::Err(e);
            },
        }
        Result::Ok(arr)
    }

    /// A JSON object read as a property map; keys are kept sorted and a
    /// repeated key keeps its last value.
    fn parse_properties(&mut self) -> (r: Result<Vec<Property>, String>)
        requires
            jwf(*old(self)),
        ensures
            jadv(*old(self), *final(self)),
            (r matches Ok(ps) ==> vprops_sorted(view_props(ps@)) && ventries_wf(view_props(ps@))
                && final(self).pos > old(self).pos),
        decreases old(self).input@.len() - old(self).pos, 0nat,
    {
        match self.expect('{') {
            Result::Ok(_) => {},
            Result::Err(e) => {
                return Result::Err(e);
            },
        }
        let mut map: Vec<Property> = Vec::new();
        proof {
            assert(view_props(map@) =~= Seq::<(Seq<char>, PropVal)>::empty());
            lemma_ventries_wf_index(view_props(map@));
        }
        let first = self.peek();
        let body_empty = match first {
            Option::Some(cc) => cc == '}',
            Option::None => false,
        };
        if !body_empty {
            loop
                invariant
                    jwf(*self),
                    self.input@ == old(self).input@,
                    old(self).pos < self.pos,
                    self.wire == old(self).wire,
                    vprops_sorted(view_props(map@)),
                    ventries_wf(view_props(map@)),
                decreases self.input@.len() - self.pos,
            {
                let key = match self.parse_string() {
                    Result::Ok(k) => k,
                    Result::Err(e) => {
                        return Result::Err(e);
                    },
                };
                match self.expect(':') {
                    Result::Ok(_) => {},
                    Result::Err(e) => {
                        return Result::Err(e);
                    },
                }
                let value = match self.parse_value() {
                    Result::Ok(v) => v,
                    Result::Err(e) => {
                        return Result::Err(e);
                    },
                };
                proof {
                    lemma_vprops_insert_sorted(view_props(map@), key@, view_pv(value));
                    lemma_vprops_insert_wf(view_props(map@), key@, view_pv(value));
                }
                props_insert(&mut map, key, value);
                self.skip_ws();
                if self.pos < self.input.len() && self.input[self.pos] == ',' {
                    self.pos = self.pos + 1;
                } else {
                    break;
                }
            }
        }
        match self.expect('}') {
            Result::Ok(_) => {},
            Result::Err(e) => {
                return Result::Err(e);
            },
        }
        Result::Ok(map)
    }

    /// Skip any one JSON value (used for unknown keys): consumed if and
    /// only if a value stands here, ending exactly where the grammar says.
    #[verifier::loop_isolation(false)]
    #[verifier::rlimit(100)]
    fn skip_json_value(&mut self) -> (r: Result<(), String>)
        requires
            jwf(*old(self)),
        ensures
            jadv(*old(self), *final(self)),
            r is Ok ==> final(self).pos > old(self).pos,
            (r is Ok ==> sp_jskip(old(self).input@, old(self).pos as int) == Option::Some(
                final(self).pos as int,
            )),
            r is Err ==> sp_jskip(old(self).input@, old(self).pos as int) is None,
        decreases old(self).input@.len() - old(self).pos, 0nat,
    {
        let ghost s0 = old(self).input@;
        let ghost p0 = old(self).pos as int;
        let ghost w = sp_ws_run(s0, p0);
        proof {
            lemma_jws_fix(s0, p0);
        }
        match self.peek() {
            Option::Some('"') => {
                match self.parse_string() {
                    Result::Ok(_) => Result::Ok(()),
                    Result::Err(e) => Result::Err(e),
                }
            },
            Option::Some('{') => {
                match self.expect('{') {
                    Result::Ok(_) => {},
                    Result::Err(e) => {
                        return Result::Err(e);
                    },
                }
                let ghost b = sp_ws_run(s0, w + 1);
                proof {
                    lemma_jws_fix(s0, w + 1);
                }
                let first = self.peek();
                let body_empty = match first {
                    Option::Some(cc) => cc == '}',
                    Option::None => false,
                };
                if !body_empty {
                    proof {
                        lemma_omembers_ws(s0, w + 1);
                    }
                    loop
                        invariant
                            jwf(*self),
                            self.input@ == old(self).input@,
                            old(self).pos < self.pos,
                            self.wire == old(self).wire,
                            w < self.pos,
                            sp_jskip_omembers(s0, w + 1) == sp_jskip_omembers(
                                s0,
                                self.pos as int,
                            ),
                        decreases self.input@.len() - self.pos,
                    {
                        let ghost q = self.pos as int;
                        match self.parse_string() {
                            Result::Ok(_) => {},
                            Result::Err(e) => {
                                return Result::Err(e);
                            },
                        }
                        match self.expect(':') {
                            Result::Ok(_) => {},
                            Result::Err(e) => {
                                return Result::Err(e);
                            },
                        }
                        match self.skip_json_value() {
                            Result::Ok(_) => {},
                            Result::Err(e) => {
                                return Result::Err(e);
                            },
                        }
                        let ghost ev = self.pos as int;
                        self.skip_ws();
                        if self.pos < self.input.len() && self.input[self.pos] == ',' {
                            self.pos = self.pos + 1;
                        } else {
                            proof {
                                assert(sp_jskip_omembers(s0, q) == Option::Some(ev));
                                lemma_jws_fix(s0, ev);
                            }
                            break;
                        }
                    }
                }
                match self.expect('}') {
                    Result::Ok(_) => Result::Ok(()),
                    Result::Err(e) => Result::Err(e),
                }
            },
            Option::Some('[') => {
                match self.expect('[') {
                    Result::Ok(_) => {},
                    Result::Err(e) => {
                        return Result::Err(e);
                    },
                }
                let ghost b = sp_ws_run(s0, w + 1);
                proof {
                    lemma_jws_fix(s0, w + 1);
                }
                let first = self.peek();
                let body_empty = match first {
                    Option::Some(cc) => cc == ']',
                    Option::None => false,
                };
                if !body_empty {
                    proof {
                        lemma_amembers_ws(s0, w + 1);
                    }
                    loop
                        invariant
                            jwf(*self),
                            self.input@ == old(self).input@,
                            old(self).pos < self.pos,
                            self.wire == old(self).wire,
                            w < self.pos,
                            sp_jskip_amembers(s0, w + 1) == sp_jskip_amembers(
                                s0,
                                self.pos as int,
                            ),
                        decreases self.input@.len() - self.pos,
                    {
                        let ghost q = self.pos as int;
                        match self.skip_json_value() {
                            Result::Ok(_) => {},
                            Result::Err(e) => {
                                return Result::Err(e);
                            },
                        }
                        let ghost ev = self.pos as int;
                        self.skip_ws();
                        if self.pos < self.input.len() && self.input[self.pos] == ',' {
                            self.pos = self.pos + 1;
                        } else {
                            proof {
                                assert(sp_jskip_amembers(s0, q) == Option::Some(ev));
                                lemma_jws_fix(s0, ev);
                            }
                            break;
                        }
                    }
                }
                match self.expect(']') {
                    Result::Ok(_) => Result::Ok(()),
                    Result::Err(e) => Result::Err(e),
                }
            },
            Option::Some('t') => {
                proof {
                    reveal_strlit("true");
                }
                match self.parse_literal("true") {
                    Result::Ok(_) => Result::Ok(()),
                    Result::Err(e) => Result::Err(e),
                }
            },
            Option::Some('f') => {
                proof {
                    reveal_strlit("false");
                }
                match self.parse_literal("false") {
                    Result::Ok(_) => Result::Ok(()),
                    Result::Err(e) => Result::Err(e),
                }
            },
            Option::Some('n') => {
                proof {
                    reveal_strlit("null");
                }
                match self.parse_literal("null") {
                    Result::Ok(_) => Result::Ok(()),
                    Result::Err(e) => Result::Err(e),
                }
            },
            Option::Some(c) => {
                if c == '-' || is_digit(c) {
                    match self.parse_number() {
                        Result::Ok(_) => Result::Ok(()),
                        Result::Err(e) => Result::Err(e),
                    }
                } else {
                    Result::Err("Unexpected character in JSON".to_owned())
                }
            },
            Option::None => Result::Err("Unexpected end of input".to_owned()),
        }
    }
}

} // verus!
