//! Deterministic JSON serialization of the tree: compact or pretty
//! (two-space indent), standard or wire mode (dates wrapped as objects).
//! The exact output is pinned down by the `spec_json_*` functions.
use vstd::prelude::*;
use crate::error::MOTLYError;
use crate::num::Number;
use crate::text::{spec_int_str, spec_dec_digits, str_to_chars, chars_to_string, write_i64_dec,
    write_u64_dec};
use crate::tree::{MOTLYNode, MOTLYPropertyValue, EqValue, Scalar, Property, NodeVal, PropVal,
    EqVal, ScalarVal, NumberVal, view_node, view_pv, view_eq, view_scalar, view_number,
    view_props, view_pvs, lemma_view_props_index, lemma_view_pvs_index};

verus! {

/// JSON formatting style.
#[derive(Clone, Copy)]
pub enum JsonStyle {
    /// No whitespace between tokens.
    Compact,
    /// Two-space indent, one entry per line.
    Pretty,
}

// ---- The specification of the output ------------------------------------

/// Two spaces per indentation level.
pub open spec fn spec_indent(depth: nat) -> Seq<char>
    decreases depth,
{
    if depth == 0 {
        Seq::empty()
    } else {
        spec_indent((depth - 1) as nat) + seq![' ', ' ']
    }
}

/// What a line break contributes: nothing when compact, newline plus
/// indentation when pretty.
pub open spec fn spec_nl(pretty: bool, depth: nat) -> Seq<char> {
    if pretty {
        seq!['\n'] + spec_indent(depth)
    } else {
        Seq::empty()
    }
}

/// The separator before an entry: a comma unless it is the first entry,
/// then a line break.
pub open spec fn spec_sep(first: bool, pretty: bool, depth: nat) -> Seq<char> {
    (if first {
        Seq::<char>::empty()
    } else {
        seq![',']
    }) + spec_nl(pretty, depth)
}

/// The hexadecimal digit character for a value below 16.
pub open spec fn spec_hex_char(d: int) -> char
    recommends
        0 <= d < 16,
{
    if d == 0 { '0' } else if d == 1 { '1' } else if d == 2 { '2' } else if d == 3 { '3' }
    else if d == 4 { '4' } else if d == 5 { '5' } else if d == 6 { '6' } else if d == 7 { '7' }
    else if d == 8 { '8' } else if d == 9 { '9' } else if d == 10 { 'a' } else if d == 11 { 'b' }
    else if d == 12 { 'c' } else if d == 13 { 'd' } else if d == 14 { 'e' } else { 'f' }
}

/// The JSON escape of one character: short escapes for the usual controls,
/// `\uXXXX` for other characters below U+0020, the character itself
/// otherwise.
pub open spec fn spec_escape_char(c: char) -> Seq<char> {
    if c == '"' {
        seq!['\\', '"']
    } else if c == '\\' {
        seq!['\\', '\\']
    } else if c == '\n' {
        seq!['\\', 'n']
    } else if c == '\r' {
        seq!['\\', 'r']
    } else if c == '\t' {
        seq!['\\', 't']
    } else if c == '\u{0008}' {
        seq!['\\', 'b']
    } else if c == '\u{000C}' {
        seq!['\\', 'f']
    } else if (c as u32) < 0x20 {
        seq!['\\', 'u', '0', '0', spec_hex_char(c as u32 as int / 16), spec_hex_char(
            c as u32 as int % 16,
        )]
    } else {
        seq![c]
    }
}

/// The body of a JSON string: every character escaped.
pub open spec fn spec_escaped(s: Seq<char>) -> Seq<char>
    decreases s.len(),
{
    if s.len() == 0 {
        Seq::empty()
    } else {
        spec_escape_char(s[0]) + spec_escaped(s.subrange(1, s.len() as int))
    }
}

/// A JSON string literal.
pub open spec fn spec_json_string(s: Seq<char>) -> Seq<char> {
    seq!['"'] + spec_escaped(s) + seq!['"']
}

/// A key with its colon (and a space after it when pretty).
pub open spec fn spec_key(k: Seq<char>, pretty: bool) -> Seq<char> {
    spec_json_string(k) + seq![':'] + (if pretty {
        seq![' ']
    } else {
        Seq::<char>::empty()
    })
}

/// The textual form of a number value.
pub open spec fn spec_vnumber_str(n: NumberVal) -> Seq<char> {
    match n {
        NumberVal::Integer(i) => spec_int_str(i),
        NumberVal::Decimal(s) => s,
    }
}

pub open spec fn spec_json_scalar(s: ScalarVal, wire: bool) -> Seq<char> {
    match s {
        ScalarVal::Str(v) => spec_json_string(v),
        ScalarVal::Num(n) => spec_vnumber_str(n),
        ScalarVal::Bool(b) => if b {
            "true"@
        } else {
            "false"@
        },
        ScalarVal::Date(d) => if wire {
            "{\"$date\":"@ + spec_json_string(d) + "}"@
        } else {
            spec_json_string(d)
        },
    }
}

/// A single-entry object, as used for links and environment references.
pub open spec fn spec_json_single(k: Seq<char>, v: Seq<char>, pretty: bool, depth: nat) -> Seq<
    char,
> {
    seq!['{'] + spec_nl(pretty, depth + 1) + spec_key(k, pretty) + spec_json_string(v) + spec_nl(
        pretty,
        depth,
    ) + seq!['}']
}

pub open spec fn spec_json_eq(e: EqVal, pretty: bool, depth: nat, wire: bool) -> Seq<char>
    decreases e,
{
    match e {
        EqVal::Scalar(s) => spec_json_scalar(s, wire),
        EqVal::Array(a) => spec_json_array(a, pretty, depth, wire),
        EqVal::EnvRef(n) => spec_json_single("env"@, n, pretty, depth),
    }
}

pub open spec fn spec_json_array(a: Seq<PropVal>, pretty: bool, depth: nat, wire: bool) -> Seq<
    char,
>
    decreases a, 1nat,
{
    seq!['['] + spec_json_items(a, true, pretty, (depth + 1) as nat, wire) + (if a.len() > 0 {
        spec_nl(pretty, depth)
    } else {
        Seq::<char>::empty()
    }) + seq![']']
}

pub open spec fn spec_json_items(
    a: Seq<PropVal>,
    first: bool,
    pretty: bool,
    depth: nat,
    wire: bool,
) -> Seq<char>
    decreases a, 0nat,
{
    if a.len() == 0 {
        Seq::empty()
    } else {
        (if first {
            Seq::<char>::empty()
        } else {
            seq![',']
        }) + spec_nl(pretty, depth) + spec_json_pv(a[0], pretty, depth, wire) + spec_json_items(
            a.subrange(1, a.len() as int),
            false,
            pretty,
            depth,
            wire,
        )
    }
}

pub open spec fn spec_json_pv(p: PropVal, pretty: bool, depth: nat, wire: bool) -> Seq<char>
    decreases p,
{
    match p {
        PropVal::Node(n) => spec_json_node(n, pretty, depth, wire),
        PropVal::Ref(r) => spec_json_single("linkTo"@, r, pretty, depth),
    }
}

pub open spec fn spec_json_props(
    ps: Seq<(Seq<char>, PropVal)>,
    pretty: bool,
    depth: nat,
    wire: bool,
) -> Seq<char>
    decreases ps, 1nat,
{
    seq!['{'] + spec_json_entries(ps, true, pretty, (depth + 1) as nat, wire) + spec_nl(
        pretty,
        depth,
    ) + seq!['}']
}

pub open spec fn spec_json_entries(
    ps: Seq<(Seq<char>, PropVal)>,
    first: bool,
    pretty: bool,
    depth: nat,
    wire: bool,
) -> Seq<char>
    decreases ps, 0nat,
{
    if ps.len() == 0 {
        Seq::empty()
    } else {
        spec_sep(first, pretty, depth) + spec_key(ps[0].0, pretty) + spec_json_pv(
            ps[0].1,
            pretty,
            depth,
            wire,
        ) + spec_json_entries(ps.subrange(1, ps.len() as int), false, pretty, depth, wire)
    }
}

/// A node object: `deleted` (only if set), `eq` (only if present),
/// `properties` (only if present), in that fixed order.
pub open spec fn spec_json_node(n: NodeVal, pretty: bool, depth: nat, wire: bool) -> Seq<char>
    decreases n,
{
    let d1 = (depth + 1) as nat;
    let del: Seq<char> = if n.deleted {
        spec_sep(true, pretty, d1) + spec_key("deleted"@, pretty) + "true"@
    } else {
        Seq::empty()
    };
    let first_eq = !n.deleted;
    let eqs: Seq<char> = match n.eq {
        Option::Some(e) => spec_sep(first_eq, pretty, d1) + spec_key("eq"@, pretty) + spec_json_eq(
            e,
            pretty,
            d1,
            wire,
        ),
        Option::None => Seq::empty(),
    };
    let first_props = !n.deleted && n.eq is None;
    let prs: Seq<char> = match n.properties {
        Option::Some(ps) => spec_sep(first_props, pretty, d1) + spec_key("properties"@, pretty)
            + spec_json_props(ps, pretty, d1, wire),
        Option::None => Seq::empty(),
    };
    seq!['{'] + del + eqs + prs + spec_nl(pretty, depth) + seq!['}']
}

// ---- The executable writer -----------------------------------------------

struct JsonWriter {
    buf: Vec<char>,
    style: JsonStyle,
    /// The current indentation, two spaces per level.
    indent: Vec<char>,
    /// When set, dates are written as `{"$date": "..."}`.
    wire: bool,
}

spec fn style_is_pretty(s: JsonStyle) -> bool {
    s is Pretty
}

/// The current depth of a writer, as witnessed by its indentation.
spec fn wdepth(w: JsonWriter) -> nat {
    w.indent@.len() / 2
}

/// The writer's indentation always matches its depth exactly.
spec fn writer_wf(w: JsonWriter) -> bool {
    w.indent@ == spec_indent(wdepth(w))
}

impl JsonWriter {
    fn new(style: JsonStyle) -> (r: JsonWriter)
        ensures
            writer_wf(r),
            r.buf@ == Seq::<char>::empty(),
            wdepth(r) == 0,
            style_is_pretty(r.style) == style_is_pretty(style),
            !r.wire,
    {
        let r = JsonWriter { buf: Vec::new(), style, indent: Vec::new(), wire: false };
        proof {
            assert(r.indent@ =~= spec_indent(0));
        }
        r
    }

    fn is_pretty(&self) -> (r: bool)
        ensures
            r == style_is_pretty(self.style),
    {
        match self.style {
            JsonStyle::Pretty => true,
            JsonStyle::Compact => false,
        }
    }

    /// Append the characters of a literal piece verbatim.
    fn push_lit(&mut self, s: &str)
        ensures
            final(self).buf@ == old(self).buf@ + s@,
            final(self).style == old(self).style,
            final(self).indent@ == old(self).indent@,
            final(self).wire == old(self).wire,
    {
        let cs = str_to_chars(s);
        let mut i: usize = 0;
        while i < cs.len()
            invariant
                i <= cs@.len(),
                cs@ == s@,
                self.buf@ == old(self).buf@ + cs@.subrange(0, i as int),
                self.style == old(self).style,
                self.indent@ == old(self).indent@,
                self.wire == old(self).wire,
            decreases cs@.len() - i,
        {
            self.buf.push(cs[i]);
            proof {
                assert(old(self).buf@ + cs@.subrange(0, i as int) + seq![cs@[i as int]] =~= old(
                    self,
                ).buf@ + cs@.subrange(0, i + 1));
            }
            i += 1;
        }
        proof {
            assert(cs@.subrange(0, cs@.len() as int) =~= cs@);
        }
    }

    /// One level deeper.
    fn indent_inc(&mut self)
        requires
            writer_wf(*old(self)),
        ensures
            writer_wf(*final(self)),
            wdepth(*final(self)) == wdepth(*old(self)) + 1,
            final(self).buf@ == old(self).buf@,
            final(self).style == old(self).style,
            final(self).wire == old(self).wire,
    {
        self.indent.push(' ');
        self.indent.push(' ');
        proof {
            assert(self.indent@ =~= spec_indent(wdepth(*old(self)) + 1));
        }
    }

    /// One level back out.
    fn indent_dec(&mut self)
        requires
            writer_wf(*old(self)),
            wdepth(*old(self)) > 0,
        ensures
            writer_wf(*final(self)),
            wdepth(*final(self)) == wdepth(*old(self)) - 1,
            final(self).buf@ == old(self).buf@,
            final(self).style == old(self).style,
            final(self).wire == old(self).wire,
    {
        let d = self.indent.len();
        self.indent.truncate(d - 2);
        proof {
            assert(self.indent@ =~= spec_indent((wdepth(*old(self)) - 1) as nat));
        }
    }

    /// A line break: nothing when compact, newline plus indentation when
    /// pretty.
    fn newline(&mut self)
        requires
            writer_wf(*old(self)),
        ensures
            writer_wf(*final(self)),
            final(self).buf@ == old(self).buf@ + spec_nl(
                style_is_pretty(old(self).style),
                wdepth(*old(self)),
            ),
            final(self).style == old(self).style,
            final(self).indent@ == old(self).indent@,
            final(self).wire == old(self).wire,
    {
        if self.is_pretty() {
            self.buf.push('\n');
            let mut i: usize = 0;
            while i < self.indent.len()
                invariant
                    i <= self.indent@.len(),
                    self.buf@ == old(self).buf@ + seq!['\n'] + self.indent@.subrange(0, i as int),
                    self.style == old(self).style,
                    self.indent@ == old(self).indent@,
                    self.wire == old(self).wire,
                decreases self.indent@.len() - i,
            {
                let c = self.indent[i];
                self.buf.push(c);
                proof {
                    assert(old(self).buf@ + seq!['\n'] + self.indent@.subrange(0, i as int) + seq![
                        self.indent@[i as int],
                    ] =~= old(self).buf@ + seq!['\n'] + self.indent@.subrange(0, i + 1));
                }
                i += 1;
            }
            proof {
                assert(self.indent@.subrange(0, self.indent@.len() as int) =~= self.indent@);
                assert(old(self).buf@ + seq!['\n'] + self.indent@ =~= old(self).buf@ + spec_nl(
                    true,
                    wdepth(*old(self)),
                ));
            }
        } else {
            proof {
                assert(old(self).buf@ + spec_nl(false, wdepth(*old(self))) =~= old(self).buf@);
            }
        }
    }

    /// A space when pretty.
    fn space(&mut self)
        ensures
            final(self).buf@ == old(self).buf@ + (if style_is_pretty(old(self).style) {
                seq![' ']
            } else {
                Seq::<char>::empty()
            }),
            final(self).style == old(self).style,
            final(self).indent@ == old(self).indent@,
            final(self).wire == old(self).wire,
    {
        if self.is_pretty() {
            self.buf.push(' ');
        } else {
            proof {
                assert(old(self).buf@ + Seq::<char>::empty() =~= old(self).buf@);
            }
        }
    }

    /// Comma before every entry but the first, then a line break.
    fn entry_sep(&mut self, first: &mut bool)
        requires
            writer_wf(*old(self)),
        ensures
            writer_wf(*final(self)),
            *final(first) == false,
            final(self).buf@ == old(self).buf@ + spec_sep(
                *old(first),
                style_is_pretty(old(self).style),
                wdepth(*old(self)),
            ),
            final(self).style == old(self).style,
            final(self).indent@ == old(self).indent@,
            final(self).wire == old(self).wire,
    {
        if *first {
            *first = false;
        } else {
            self.buf.push(',');
        }
        self.newline();
        proof {
            if *old(first) {
                assert(old(self).buf@ + spec_nl(
                    style_is_pretty(old(self).style),
                    wdepth(*old(self)),
                ) =~= old(self).buf@ + spec_sep(
                    true,
                    style_is_pretty(old(self).style),
                    wdepth(*old(self)),
                ));
            } else {
                assert(old(self).buf@ + seq![','] + spec_nl(
                    style_is_pretty(old(self).style),
                    wdepth(*old(self)),
                ) =~= old(self).buf@ + spec_sep(
                    false,
                    style_is_pretty(old(self).style),
                    wdepth(*old(self)),
                ));
            }
        }
    }

    /// A JSON string literal with all characters escaped.
    fn write_string_value(&mut self, s: &str)
        ensures
            final(self).buf@ == old(self).buf@ + spec_json_string(s@),
            final(self).style == old(self).style,
            final(self).indent@ == old(self).indent@,
            final(self).wire == old(self).wire,
    {
        self.buf.push('"');
        let cs = str_to_chars(s);
        proof {
            assert(cs@.subrange(0, cs@.len() as int) =~= cs@);
        }
        let mut i: usize = 0;
        while i < cs.len()
            invariant
                i <= cs@.len(),
                cs@ == s@,
                self.buf@ + spec_escaped(cs@.subrange(i as int, cs@.len() as int)) == old(
                    self,
                ).buf@ + seq!['"'] + spec_escaped(cs@),
                self.style == old(self).style,
                self.indent@ == old(self).indent@,
                self.wire == old(self).wire,
            decreases cs@.len() - i,
        {
            let ghost pre = self.buf@;
            let ghost rest = cs@.subrange(i as int, cs@.len() as int);
            let c = cs[i];
            if c == '"' {
                self.buf.push('\\');
                self.buf.push('"');
            } else if c == '\\' {
                self.buf.push('\\');
                self.buf.push('\\');
            } else if c == '\n' {
                self.buf.push('\\');
                self.buf.push('n');
            } else if c == '\r' {
                self.buf.push('\\');
                self.buf.push('r');
            } else if c == '\t' {
                self.buf.push('\\');
                self.buf.push('t');
            } else if c == '\u{0008}' {
                self.buf.push('\\');
                self.buf.push('b');
            } else if c == '\u{000C}' {
                self.buf.push('\\');
                self.buf.push('f');
            } else if (c as u32) < 0x20 {
                self.buf.push('\\');
                self.buf.push('u');
                self.buf.push('0');
                self.buf.push('0');
                let u: u32 = c as u32;
                self.buf.push(hex_char(u / 16));
                self.buf.push(hex_char(u % 16));
            } else {
                self.buf.push(c);
            }
            proof {
                assert(self.buf@ =~= pre + spec_escape_char(c));
                assert(rest[0] == c);
                assert(rest.subrange(1, rest.len() as int) =~= cs@.subrange(
                    i + 1,
                    cs@.len() as int,
                ));
                assert(spec_escaped(rest) == spec_escape_char(c) + spec_escaped(
                    cs@.subrange(i + 1, cs@.len() as int),
                ));
                assert(self.buf@ + spec_escaped(cs@.subrange(i + 1, cs@.len() as int)) =~= pre
                    + spec_escaped(rest));
            }
            i += 1;
        }
        self.buf.push('"');
        proof {
            assert(cs@.subrange(cs@.len() as int, cs@.len() as int) =~= Seq::<char>::empty());
            assert(spec_escaped(Seq::<char>::empty()) =~= Seq::<char>::empty());
            assert(self.buf@ =~= old(self).buf@ + spec_json_string(s@));
        }
    }

    /// A key with its colon (space after it when pretty).
    fn write_key(&mut self, key: &str)
        ensures
            final(self).buf@ == old(self).buf@ + spec_key(key@, style_is_pretty(old(self).style)),
            final(self).style == old(self).style,
            final(self).indent@ == old(self).indent@,
            final(self).wire == old(self).wire,
    {
        self.write_string_value(key);
        self.buf.push(':');
        self.space();
        proof {
            assert(final(self).buf@ =~= old(self).buf@ + spec_key(
                key@,
                style_is_pretty(old(self).style),
            ));
        }
    }

    /// A number: exact digits for an integer, the kept text otherwise.
    fn write_number(&mut self, n: &Number)
        ensures
            final(self).buf@ == old(self).buf@ + spec_vnumber_str(view_number(*n)),
            final(self).style == old(self).style,
            final(self).indent@ == old(self).indent@,
            final(self).wire == old(self).wire,
    {
        match n {
            Number::Integer(i) => {
                write_i64_dec(&mut self.buf, *i);
            },
            Number::Decimal(s) => {
                self.push_lit(s.as_str());
            },
        }
    }

    /// A scalar value.
    fn write_scalar(&mut self, scalar: &Scalar)
        ensures
            final(self).buf@ == old(self).buf@ + spec_json_scalar(
                view_scalar(*scalar),
                old(self).wire,
            ),
            final(self).style == old(self).style,
            final(self).indent@ == old(self).indent@,
            final(self).wire == old(self).wire,
    {
        match scalar {
            Scalar::String(s) => self.write_string_value(s.as_str()),
            Scalar::Number(n) => self.write_number(n),
            Scalar::Boolean(b) => {
                if *b {
                    self.push_lit("true");
                } else {
                    self.push_lit("false");
                }
            },
            Scalar::Date(d) => {
                if self.wire {
                    self.push_lit("{\"$date\":");
                    self.write_string_value(d.as_str());
                    self.push_lit("}");
                    proof {
                        assert(final(self).buf@ =~= old(self).buf@ + spec_json_scalar(
                            view_scalar(*scalar),
                            old(self).wire,
                        ));
                    }
                } else {
                    self.write_string_value(d.as_str());
                }
            },
        }
    }

    /// A single-entry object (`linkTo`, `env`).
    fn write_single(&mut self, key: &str, value: &str)
        requires
            writer_wf(*old(self)),
        ensures
            writer_wf(*final(self)),
            final(self).buf@ == old(self).buf@ + spec_json_single(
                key@,
                value@,
                style_is_pretty(old(self).style),
                wdepth(*old(self)),
            ),
            final(self).style == old(self).style,
            final(self).indent@ == old(self).indent@,
            final(self).wire == old(self).wire,
    {
        self.buf.push('{');
        self.indent_inc();
        self.newline();
        self.write_key(key);
        self.write_string_value(value);
        self.indent_dec();
        self.newline();
        self.buf.push('}');
        proof {
            assert(final(self).buf@ =~= old(self).buf@ + spec_json_single(
                key@,
                value@,
                style_is_pretty(old(self).style),
                wdepth(*old(self)),
            ));
        }
    }

    /// A node's value slot.
    fn write_eq(&mut self, eq: &EqValue)
        requires
            writer_wf(*old(self)),
        ensures
            writer_wf(*final(self)),
            final(self).buf@ == old(self).buf@ + spec_json_eq(
                view_eq(*eq),
                style_is_pretty(old(self).style),
                wdepth(*old(self)),
                old(self).wire,
            ),
            final(self).style == old(self).style,
            final(self).indent@ == old(self).indent@,
            final(self).wire == old(self).wire,
        decreases *eq,
    {
        match eq {
            EqValue::Scalar(s) => self.write_scalar(s),
            EqValue::Array(a) => self.write_array(a),
            EqValue::EnvRef(n) => self.write_single("env", n.as_str()),
        }
    }

    /// An array value, one element per line when pretty.
    #[verifier::loop_isolation(false)]
    #[verifier::rlimit(50)]
    fn write_array(&mut self, arr: &Vec<MOTLYPropertyValue>)
        requires
            writer_wf(*old(self)),
        ensures
            writer_wf(*final(self)),
            final(self).buf@ == old(self).buf@ + spec_json_array(
                view_pvs(arr@),
                style_is_pretty(old(self).style),
                wdepth(*old(self)),
                old(self).wire,
            ),
            final(self).style == old(self).style,
            final(self).indent@ == old(self).indent@,
            final(self).wire == old(self).wire,
        decreases *arr,
    {
        let ghost av = view_pvs(arr@);
        let ghost pretty = style_is_pretty(old(self).style);
        let ghost d1 = wdepth(*old(self)) + 1;
        proof {
            lemma_view_pvs_index(arr@);
        }
        self.buf.push('[');
        self.indent_inc();
        proof {
            assert(av.subrange(0, av.len() as int) =~= av);
        }
        let mut i: usize = 0;
        while i < arr.len()
            invariant
                i <= arr@.len(),
                writer_wf(*self),
                wdepth(*self) == d1,
                self.buf@ + spec_json_items(
                    av.subrange(i as int, av.len() as int),
                    i == 0,
                    pretty,
                    d1,
                    self.wire,
                ) == old(self).buf@ + seq!['['] + spec_json_items(av, true, pretty, d1, self.wire),
                self.style == old(self).style,
                self.wire == old(self).wire,
            decreases arr@.len() - i,
        {
            proof {
                assert(decreases_to!(*arr => arr@));
                assert(decreases_to!(arr@ => arr@[i as int]));
            }
            let ghost pre = self.buf@;
            let ghost rest = av.subrange(i as int, av.len() as int);
            let ghost comma: Seq<char> = if i == 0 {
                Seq::empty()
            } else {
                seq![',']
            };
            if i > 0 {
                self.buf.push(',');
                proof {
                    crate::text::lemma_push_is_concat(pre, ',');
                }
            } else {
                proof {
                    crate::text::lemma_cat_empty(pre);
                }
            }
            self.newline();
            self.write_property_value(&arr[i]);
            proof {
                let nl = spec_nl(pretty, d1);
                let pvs = spec_json_pv(av[i as int], pretty, d1, self.wire);
                let items1 = spec_json_items(av.subrange(i + 1, av.len() as int), false, pretty, d1, self.wire);
                assert(rest[0] == av[i as int]);
                assert(rest.subrange(1, rest.len() as int) =~= av.subrange(
                    i + 1,
                    av.len() as int,
                ));
                assert(self.buf@ == pre + comma + nl + pvs);
                crate::text::lemma_group4(pre, comma, nl, pvs, items1);
                assert(spec_json_items(rest, i == 0, pretty, d1, self.wire) == comma + nl + pvs
                    + items1);
            }
            i += 1;
        }
        let ghost bufend = self.buf@;
        proof {
            assert(av.subrange(av.len() as int, av.len() as int) =~= Seq::<PropVal>::empty());
            crate::text::lemma_cat_empty(bufend);
            assert(bufend == old(self).buf@ + seq!['['] + spec_json_items(
                av,
                true,
                pretty,
                d1,
                self.wire,
            ));
        }
        self.indent_dec();
        let ghost tail: Seq<char> = if arr@.len() > 0 {
            spec_nl(pretty, wdepth(*old(self)))
        } else {
            Seq::empty()
        };
        if arr.len() > 0 {
            self.newline();
        } else {
            proof {
                crate::text::lemma_cat_empty(bufend);
            }
        }
        self.buf.push(']');
        proof {
            crate::text::lemma_push_is_concat(bufend + tail, ']');
            let items = spec_json_items(av, true, pretty, d1, self.wire);
            crate::text::lemma_group4(old(self).buf@, seq!['['], items, tail, seq![']']);
            assert(spec_json_array(av, pretty, wdepth(*old(self)), old(self).wire) == seq!['[']
                + items + tail + seq![']']);
        }
    }

    /// A property value: a node object or a `linkTo` object.
    fn write_property_value(&mut self, pv: &MOTLYPropertyValue)
        requires
            writer_wf(*old(self)),
        ensures
            writer_wf(*final(self)),
            final(self).buf@ == old(self).buf@ + spec_json_pv(
                view_pv(*pv),
                style_is_pretty(old(self).style),
                wdepth(*old(self)),
                old(self).wire,
            ),
            final(self).style == old(self).style,
            final(self).indent@ == old(self).indent@,
            final(self).wire == old(self).wire,
        decreases *pv,
    {
        match pv {
            MOTLYPropertyValue::Node(n) => self.write_node(n),
            MOTLYPropertyValue::Ref(link_to) => self.write_single("linkTo", link_to.as_str()),
        }
    }

    /// The property map, one entry per key in sorted order.
    #[verifier::loop_isolation(false)]
    #[verifier::rlimit(100)]
    fn write_properties(&mut self, props: &Vec<Property>)
        requires
            writer_wf(*old(self)),
        ensures
            writer_wf(*final(self)),
            final(self).buf@ == old(self).buf@ + spec_json_props(
                view_props(props@),
                style_is_pretty(old(self).style),
                wdepth(*old(self)),
                old(self).wire,
            ),
            final(self).style == old(self).style,
            final(self).indent@ == old(self).indent@,
            final(self).wire == old(self).wire,
        decreases *props,
    {
        let ghost pv = view_props(props@);
        let ghost pretty = style_is_pretty(old(self).style);
        let ghost d1 = wdepth(*old(self)) + 1;
        proof {
            lemma_view_props_index(props@);
        }
        self.buf.push('{');
        self.indent_inc();
        proof {
            assert(pv.subrange(0, pv.len() as int) =~= pv);
        }
        let mut first = true;
        let mut i: usize = 0;
        while i < props.len()
            invariant
                i <= props@.len(),
                first == (i == 0),
                writer_wf(*self),
                wdepth(*self) == d1,
                self.buf@ + spec_json_entries(
                    pv.subrange(i as int, pv.len() as int),
                    i == 0,
                    pretty,
                    d1,
                    self.wire,
                ) == old(self).buf@ + seq!['{'] + spec_json_entries(pv, true, pretty, d1, self.wire),
                self.style == old(self).style,
                self.wire == old(self).wire,
            decreases props@.len() - i,
        {
            proof {
                assert(decreases_to!(*props => props@));
                assert(decreases_to!(props@ => props@[i as int]));
                assert(decreases_to!(props@[i as int] => props@[i as int].value));
            }
            let ghost pre = self.buf@;
            let ghost rest = pv.subrange(i as int, pv.len() as int);
            self.entry_sep(&mut first);
            self.write_key(props[i].name.as_str());
            self.write_property_value(&props[i].value);
            proof {
                let sep = spec_sep(i == 0, pretty, d1);
                let ky = spec_key(pv[i as int].0, pretty);
                let pvs = spec_json_pv(pv[i as int].1, pretty, d1, self.wire);
                let ents1 = spec_json_entries(
                    pv.subrange(i + 1, pv.len() as int),
                    false,
                    pretty,
                    d1,
                    self.wire,
                );
                assert(rest[0] == pv[i as int]);
                assert(rest.subrange(1, rest.len() as int) =~= pv.subrange(i + 1, pv.len() as int));
                assert(self.buf@ == pre + sep + ky + pvs);
                crate::text::lemma_group4(pre, sep, ky, pvs, ents1);
                assert(spec_json_entries(rest, i == 0, pretty, d1, self.wire) == sep + ky + pvs
                    + ents1);
            }
            i += 1;
        }
        let ghost bufend = self.buf@;
        proof {
            assert(pv.subrange(pv.len() as int, pv.len() as int) =~= Seq::<(
                Seq<char>,
                PropVal,
            )>::empty());
            crate::text::lemma_cat_empty(bufend);
            assert(bufend == old(self).buf@ + seq!['{'] + spec_json_entries(
                pv,
                true,
                pretty,
                d1,
                self.wire,
            ));
        }
        self.indent_dec();
        self.newline();
        self.buf.push('}');
        proof {
            let ents = spec_json_entries(pv, true, pretty, d1, self.wire);
            let nl = spec_nl(pretty, wdepth(*old(self)));
            crate::text::lemma_push_is_concat(bufend + nl, '}');
            crate::text::lemma_group4(old(self).buf@, seq!['{'], ents, nl, seq!['}']);
            assert(spec_json_props(pv, pretty, wdepth(*old(self)), old(self).wire) == seq!['{']
                + ents + nl + seq!['}']);
        }
    }

    /// A whole node object.
    #[verifier::rlimit(100)]
    fn write_node(&mut self, node: &MOTLYNode)
        requires
            writer_wf(*old(self)),
        ensures
            writer_wf(*final(self)),
            final(self).buf@ == old(self).buf@ + spec_json_node(
                view_node(*node),
                style_is_pretty(old(self).style),
                wdepth(*old(self)),
                old(self).wire,
            ),
            final(self).style == old(self).style,
            final(self).indent@ == old(self).indent@,
            final(self).wire == old(self).wire,
        decreases *node,
    {
        let ghost nv = view_node(*node);
        let ghost pretty = style_is_pretty(old(self).style);
        let ghost dep = wdepth(*old(self));
        let ghost d1 = dep + 1;
        let ghost del_s: Seq<char> = if nv.deleted {
            spec_sep(true, pretty, d1) + spec_key("deleted"@, pretty) + "true"@
        } else {
            Seq::empty()
        };
        let ghost eq_s: Seq<char> = match nv.eq {
            Option::Some(e) => spec_sep(!nv.deleted, pretty, d1) + spec_key("eq"@, pretty)
                + spec_json_eq(e, pretty, d1, old(self).wire),
            Option::None => Seq::empty(),
        };
        let ghost pr_s: Seq<char> = match nv.properties {
            Option::Some(ps) => spec_sep(!nv.deleted && nv.eq is None, pretty, d1) + spec_key(
                "properties"@,
                pretty,
            ) + spec_json_props(ps, pretty, d1, old(self).wire),
            Option::None => Seq::empty(),
        };
        let ghost base = old(self).buf@ + seq!['{'];
        self.buf.push('{');
        proof {
            crate::text::lemma_push_is_concat(old(self).buf@, '{');
        }
        self.indent_inc();
        let mut first = true;
        if node.deleted {
            let ghost b0 = self.buf@;
            self.entry_sep(&mut first);
            self.write_key("deleted");
            self.push_lit("true");
            proof {
                crate::text::lemma_group3(
                    b0,
                    spec_sep(true, pretty, d1),
                    spec_key("deleted"@, pretty),
                    "true"@,
                );
            }
        } else {
            proof {
                crate::text::lemma_cat_empty(self.buf@);
            }
        }
        proof {
            assert(self.buf@ == base + del_s);
            assert(first == !nv.deleted);
        }
        match &node.eq {
            Option::Some(e) => {
                let ghost b0 = self.buf@;
                self.entry_sep(&mut first);
                self.write_key("eq");
                self.write_eq(e);
                proof {
                    crate::text::lemma_group3(
                        b0,
                        spec_sep(!nv.deleted, pretty, d1),
                        spec_key("eq"@, pretty),
                        spec_json_eq(view_eq(*e), pretty, d1, old(self).wire),
                    );
                }
            },
            Option::None => {
                proof {
                    crate::text::lemma_cat_empty(self.buf@);
                }
            },
        }
        proof {
            assert(self.buf@ == base + del_s + eq_s);
            assert(first == (!nv.deleted && nv.eq is None));
        }
        match &node.properties {
            Option::Some(ps) => {
                let ghost b0 = self.buf@;
                self.entry_sep(&mut first);
                self.write_key("properties");
                self.write_properties(ps);
                proof {
                    crate::text::lemma_group3(
                        b0,
                        spec_sep(!nv.deleted && nv.eq is None, pretty, d1),
                        spec_key("properties"@, pretty),
                        spec_json_props(view_props(ps@), pretty, d1, old(self).wire),
                    );
                }
            },
            Option::None => {
                proof {
                    crate::text::lemma_cat_empty(self.buf@);
                }
            },
        }
        let ghost bufend = self.buf@;
        proof {
            assert(bufend == base + del_s + eq_s + pr_s);
        }
        self.indent_dec();
        self.newline();
        self.buf.push('}');
        proof {
            let nl = spec_nl(pretty, dep);
            crate::text::lemma_push_is_concat(bufend + nl, '}');
            crate::text::lemma_group6(
                old(self).buf@,
                seq!['{'],
                del_s,
                eq_s,
                pr_s,
                nl,
                seq!['}'],
            );
            assert(spec_json_node(nv, pretty, dep, old(self).wire) == seq!['{'] + del_s + eq_s
                + pr_s + nl + seq!['}']);
        }
    }
}

/// The hexadecimal digit character of a value below 16.
fn hex_char(d: u32) -> (c: char)
    requires
        d < 16,
    ensures
        c == spec_hex_char(d as int),
{
    match d {
        0 => '0',
        1 => '1',
        2 => '2',
        3 => '3',
        4 => '4',
        5 => '5',
        6 => '6',
        7 => '7',
        8 => '8',
        9 => '9',
        10 => 'a',
        11 => 'b',
        12 => 'c',
        13 => 'd',
        14 => 'e',
        _ => 'f',
    }
}

// ---- Public serialization entry points -----------------------------------

/// Compact JSON of a node (no whitespace between tokens).
pub fn to_json(node: &MOTLYNode) -> (r: String)
    ensures
        r@ == spec_json_node(view_node(*node), false, 0, false),
{
    let mut w = JsonWriter::new(JsonStyle::Compact);
    w.write_node(node);
    chars_to_string(&w.buf)
}

/// Pretty JSON of a node (two-space indent, one entry per line).
pub fn to_json_pretty(node: &MOTLYNode) -> (r: String)
    ensures
        r@ == spec_json_node(view_node(*node), true, 0, false),
{
    let mut w = JsonWriter::new(JsonStyle::Pretty);
    w.write_node(node);
    chars_to_string(&w.buf)
}

/// Compact wire-mode JSON: dates are wrapped as `{"$date": "..."}` so a
/// host can tell them from plain strings.
pub fn to_wire(node: &MOTLYNode) -> (r: String)
    ensures
        r@ == spec_json_node(view_node(*node), false, 0, true),
{
    let mut w = JsonWriter::new(JsonStyle::Compact);
    w.wire = true;
    w.write_node(node);
    chars_to_string(&w.buf)
}

impl MOTLYNode {
    /// Compact JSON of this node.
    pub fn to_json(&self) -> (r: String)
        ensures
            r@ == spec_json_node(view_node(*self), false, 0, false),
    {
        to_json(self)
    }

    /// Pretty JSON of this node.
    pub fn to_json_pretty(&self) -> (r: String)
        ensures
            r@ == spec_json_node(view_node(*self), true, 0, false),
    {
        to_json_pretty(self)
    }
}

// ---- Error list serialization ---------------------------------------------

/// The JSON object of one position.
pub open spec fn spec_position_json(line: nat, column: nat, offset: nat) -> Seq<char> {
    "{\"line\":"@ + spec_dec_digits(line) + ",\"column\":"@ + spec_dec_digits(column)
        + ",\"offset\":"@ + spec_dec_digits(offset) + "}"@
}

/// The JSON object of one parse error.
pub open spec fn spec_error_json(e: MOTLYError) -> Seq<char> {
    "{\"code\":"@ + spec_json_string(e.code@) + ",\"message\":"@ + spec_json_string(e.message@)
        + ",\"begin\":"@ + spec_position_json(
        e.begin.line as nat,
        e.begin.column as nat,
        e.begin.offset as nat,
    ) + ",\"end\":"@ + spec_position_json(
        e.end.line as nat,
        e.end.column as nat,
        e.end.offset as nat,
    ) + "}"@
}

/// The JSON array of a list of parse errors.
pub open spec fn spec_errors_json(errs: Seq<MOTLYError>, first: bool) -> Seq<char>
    decreases errs.len(),
{
    if errs.len() == 0 {
        Seq::empty()
    } else {
        (if first {
            Seq::<char>::empty()
        } else {
            seq![',']
        }) + spec_error_json(errs[0]) + spec_errors_json(errs.subrange(1, errs.len() as int), false)
    }
}

fn write_position(out: &mut Vec<char>, pos: &crate::error::Position)
    ensures
        final(out)@ == old(out)@ + spec_position_json(
            pos.line as nat,
            pos.column as nat,
            pos.offset as nat,
        ),
{
    push_str(out, "{\"line\":");
    write_u64_dec(out, pos.line as u64);
    push_str(out, ",\"column\":");
    write_u64_dec(out, pos.column as u64);
    push_str(out, ",\"offset\":");
    write_u64_dec(out, pos.offset as u64);
    push_str(out, "}");
    proof {
        assert(final(out)@ =~= old(out)@ + spec_position_json(
            pos.line as nat,
            pos.column as nat,
            pos.offset as nat,
        ));
    }
}

/// Append the characters of a string slice to a character vector.
pub fn push_str(out: &mut Vec<char>, s: &str)
    ensures
        final(out)@ == old(out)@ + s@,
{
    let cs = str_to_chars(s);
    let mut i: usize = 0;
    while i < cs.len()
        invariant
            i <= cs@.len(),
            cs@ == s@,
            out@ == old(out)@ + cs@.subrange(0, i as int),
        decreases cs@.len() - i,
    {
        out.push(cs[i]);
        proof {
            assert(old(out)@ + cs@.subrange(0, i as int) + seq![cs@[i as int]] =~= old(out)@
                + cs@.subrange(0, i + 1));
        }
        i += 1;
    }
    proof {
        assert(cs@.subrange(0, cs@.len() as int) =~= cs@);
    }
}

/// Append one JSON string literal to a character vector.
pub fn push_json_string(out: &mut Vec<char>, s: &str)
    ensures
        final(out)@ == old(out)@ + spec_json_string(s@),
{
    let mut w = JsonWriter::new(JsonStyle::Compact);
    w.write_string_value(s);
    let mut i: usize = 0;
    let ghost ws = w.buf@;
    while i < w.buf.len()
        invariant
            i <= w.buf@.len(),
            w.buf@ == ws,
            out@ == old(out)@ + ws.subrange(0, i as int),
        decreases w.buf@.len() - i,
    {
        let c = w.buf[i];
        out.push(c);
        proof {
            assert(old(out)@ + ws.subrange(0, i as int) + seq![ws[i as int]] =~= old(out)@
                + ws.subrange(0, i + 1));
        }
        i += 1;
    }
    proof {
        assert(ws.subrange(0, ws.len() as int) =~= ws);
        assert(old(out)@ + ws =~= old(out)@ + spec_json_string(s@));
    }
}

/// Serialize a list of parse errors to a JSON array string.
#[verifier::rlimit(50)]
pub fn errors_to_json(errors: &Vec<MOTLYError>) -> (r: String)
    ensures
        r@ == seq!['['] + spec_errors_json(errors@, true) + seq![']'],
{
    let mut out: Vec<char> = Vec::new();
    out.push('[');
    proof {
        assert(errors@.subrange(0, errors@.len() as int) =~= errors@);
    }
    let mut i: usize = 0;
    while i < errors.len()
        invariant
            i <= errors@.len(),
            out@ + spec_errors_json(errors@.subrange(i as int, errors@.len() as int), i == 0)
                == seq!['['] + spec_errors_json(errors@, true),
        decreases errors@.len() - i,
    {
        let ghost pre = out@;
        let ghost rest = errors@.subrange(i as int, errors@.len() as int);
        if i > 0 {
            out.push(',');
        }
        push_str(&mut out, "{\"code\":");
        push_json_string(&mut out, errors[i].code.as_str());
        push_str(&mut out, ",\"message\":");
        push_json_string(&mut out, errors[i].message.as_str());
        push_str(&mut out, ",\"begin\":");
        write_position(&mut out, &errors[i].begin);
        push_str(&mut out, ",\"end\":");
        write_position(&mut out, &errors[i].end);
        push_str(&mut out, "}");
        proof {
            assert(rest[0] == errors@[i as int]);
            assert(rest.subrange(1, rest.len() as int) =~= errors@.subrange(
                i + 1,
                errors@.len() as int,
            ));
            assert(out@ =~= pre + (if i == 0 {
                Seq::<char>::empty()
            } else {
                seq![',']
            }) + spec_error_json(errors@[i as int]));
            assert(out@ + spec_errors_json(errors@.subrange(i + 1, errors@.len() as int), false)
                =~= pre + spec_errors_json(rest, i == 0));
        }
        i += 1;
    }
    proof {
        assert(errors@.subrange(errors@.len() as int, errors@.len() as int) =~= Seq::<
            MOTLYError,
        >::empty());
        assert(spec_errors_json(Seq::<MOTLYError>::empty(), errors@.len() == 0) =~= Seq::<
            char,
        >::empty());
        assert(out@ + seq![']'] =~= seq!['['] + spec_errors_json(errors@, true) + seq![']']);
    }
    out.push(']');
    chars_to_string(&out)
}

/// The JSON array of path components.
pub open spec fn spec_path_array_json(path: Seq<String>) -> Seq<char> {
    seq!['['] + spec_string_array(path, true) + seq![']']
}

/// The JSON object of one path-carrying error (schema or reference).
pub open spec fn spec_path_error_json(code: Seq<char>, message: Seq<char>, path: Seq<String>) -> Seq<
    char,
> {
    "{\"code\":"@ + spec_json_string(code) + ",\"message\":"@ + spec_json_string(message)
        + ",\"path\":"@ + spec_path_array_json(path) + "}"@
}

/// The elements of a JSON string array.
pub open spec fn spec_string_array(path: Seq<String>, first: bool) -> Seq<char>
    decreases path.len(),
{
    if path.len() == 0 {
        Seq::empty()
    } else {
        (if first {
            Seq::<char>::empty()
        } else {
            seq![',']
        }) + spec_json_string(path[0]@) + spec_string_array(
            path.subrange(1, path.len() as int),
            false,
        )
    }
}

fn write_string_array(out: &mut Vec<char>, arr: &Vec<String>)
    ensures
        final(out)@ == old(out)@ + spec_path_array_json(arr@),
{
    out.push('[');
    proof {
        crate::text::lemma_push_is_concat(old(out)@, '[');
        assert(arr@.subrange(0, arr@.len() as int) =~= arr@);
    }
    let mut i: usize = 0;
    while i < arr.len()
        invariant
            i <= arr@.len(),
            out@ + spec_string_array(arr@.subrange(i as int, arr@.len() as int), i == 0) == old(
                out,
            )@ + seq!['['] + spec_string_array(arr@, true),
        decreases arr@.len() - i,
    {
        let ghost pre = out@;
        let ghost rest = arr@.subrange(i as int, arr@.len() as int);
        let ghost comma: Seq<char> = if i == 0 {
            Seq::empty()
        } else {
            seq![',']
        };
        if i > 0 {
            out.push(',');
            proof {
                crate::text::lemma_push_is_concat(pre, ',');
            }
        } else {
            proof {
                crate::text::lemma_cat_empty(pre);
            }
        }
        push_json_string(out, arr[i].as_str());
        proof {
            assert(rest[0] == arr@[i as int]);
            assert(rest.subrange(1, rest.len() as int) =~= arr@.subrange(
                i + 1,
                arr@.len() as int,
            ));
            crate::text::lemma_group3(
                pre,
                comma,
                spec_json_string(arr@[i as int]@),
                spec_string_array(arr@.subrange(i + 1, arr@.len() as int), false),
            );
        }
        i += 1;
    }
    proof {
        assert(arr@.subrange(arr@.len() as int, arr@.len() as int) =~= Seq::<String>::empty());
        crate::text::lemma_cat_empty(out@);
    }
    out.push(']');
    proof {
        crate::text::lemma_push_is_concat(old(out)@ + seq!['['] + spec_string_array(arr@, true), ']');
        crate::text::lemma_group3(old(out)@, seq!['['], spec_string_array(arr@, true), seq![']']);
    }
}

/// The JSON array of schema validation errors.
pub open spec fn spec_schema_errors_json(errs: Seq<crate::validate::SchemaError>, first: bool) -> Seq<
    char,
>
    decreases errs.len(),
{
    if errs.len() == 0 {
        Seq::empty()
    } else {
        (if first {
            Seq::<char>::empty()
        } else {
            seq![',']
        }) + spec_path_error_json(errs[0].code@, errs[0].message@, errs[0].path@)
            + spec_schema_errors_json(errs.subrange(1, errs.len() as int), false)
    }
}

/// Serialize schema validation errors to a JSON array string.
#[verifier::rlimit(50)]
pub fn schema_errors_to_json(errors: &Vec<crate::validate::SchemaError>) -> (r: String)
    ensures
        r@ == seq!['['] + spec_schema_errors_json(errors@, true) + seq![']'],
{
    let mut out: Vec<char> = Vec::new();
    out.push('[');
    proof {
        assert(errors@.subrange(0, errors@.len() as int) =~= errors@);
        crate::text::lemma_push_is_concat(Seq::<char>::empty(), '[');
        crate::text::lemma_cat_empty(seq!['[']);
        assert(out@ =~= seq!['[']);
    }
    let mut i: usize = 0;
    while i < errors.len()
        invariant
            i <= errors@.len(),
            out@ + spec_schema_errors_json(errors@.subrange(i as int, errors@.len() as int), i == 0)
                == seq!['['] + spec_schema_errors_json(errors@, true),
        decreases errors@.len() - i,
    {
        let ghost pre = out@;
        let ghost rest = errors@.subrange(i as int, errors@.len() as int);
        let ghost comma: Seq<char> = if i == 0 {
            Seq::empty()
        } else {
            seq![',']
        };
        if i > 0 {
            out.push(',');
            proof {
                crate::text::lemma_push_is_concat(pre, ',');
            }
        } else {
            proof {
                crate::text::lemma_cat_empty(pre);
            }
        }
        let ghost after_comma = out@;
        push_str(&mut out, "{\"code\":");
        push_json_string(&mut out, errors[i].code.as_str());
        push_str(&mut out, ",\"message\":");
        push_json_string(&mut out, errors[i].message.as_str());
        push_str(&mut out, ",\"path\":");
        write_string_array(&mut out, &errors[i].path);
        push_str(&mut out, "}");
        proof {
            assert(rest[0] == errors@[i as int]);
            assert(rest.subrange(1, rest.len() as int) =~= errors@.subrange(
                i + 1,
                errors@.len() as int,
            ));
            let e = errors@[i as int];
            let perr = spec_path_error_json(e.code@, e.message@, e.path@);
            crate::text::lemma_group7(
                after_comma,
                "{\"code\":"@,
                spec_json_string(e.code@),
                ",\"message\":"@,
                spec_json_string(e.message@),
                ",\"path\":"@,
                spec_path_array_json(e.path@),
                "}"@,
            );
            assert(out@ == after_comma + perr);
            crate::text::lemma_group3(
                pre,
                comma,
                perr,
                spec_schema_errors_json(errors@.subrange(i + 1, errors@.len() as int), false),
            );
            assert(spec_schema_errors_json(rest, i == 0) == comma + perr
                + spec_schema_errors_json(errors@.subrange(i + 1, errors@.len() as int), false));
        }
        i += 1;
    }
    proof {
        assert(errors@.subrange(errors@.len() as int, errors@.len() as int) =~= Seq::<
            crate::validate::SchemaError,
        >::empty());
        crate::text::lemma_cat_empty(out@);
        assert(out@ + seq![']'] =~= seq!['['] + spec_schema_errors_json(errors@, true) + seq![
            ']',
        ]);
    }
    out.push(']');
    chars_to_string(&out)
}

/// The JSON array of reference validation errors.
pub open spec fn spec_validation_errors_json(
    errs: Seq<crate::validate::ValidationError>,
    first: bool,
) -> Seq<char>
    decreases errs.len(),
{
    if errs.len() == 0 {
        Seq::empty()
    } else {
        (if first {
            Seq::<char>::empty()
        } else {
            seq![',']
        }) + spec_path_error_json(errs[0].code@, errs[0].message@, errs[0].path@)
            + spec_validation_errors_json(errs.subrange(1, errs.len() as int), false)
    }
}

/// Serialize reference validation errors to a JSON array string.
#[verifier::rlimit(50)]
pub fn validation_errors_to_json(errors: &Vec<crate::validate::ValidationError>) -> (r: String)
    ensures
        r@ == seq!['['] + spec_validation_errors_json(errors@, true) + seq![']'],
{
    let mut out: Vec<char> = Vec::new();
    out.push('[');
    proof {
        assert(errors@.subrange(0, errors@.len() as int) =~= errors@);
        assert(out@ =~= seq!['[']);
    }
    let mut i: usize = 0;
    while i < errors.len()
        invariant
            i <= errors@.len(),
            out@ + spec_validation_errors_json(
                errors@.subrange(i as int, errors@.len() as int),
                i == 0,
            ) == seq!['['] + spec_validation_errors_json(errors@, true),
        decreases errors@.len() - i,
    {
        let ghost pre = out@;
        let ghost rest = errors@.subrange(i as int, errors@.len() as int);
        let ghost comma: Seq<char> = if i == 0 {
            Seq::empty()
        } else {
            seq![',']
        };
        if i > 0 {
            out.push(',');
            proof {
                crate::text::lemma_push_is_concat(pre, ',');
            }
        } else {
            proof {
                crate::text::lemma_cat_empty(pre);
            }
        }
        let ghost after_comma = out@;
        push_str(&mut out, "{\"code\":");
        push_json_string(&mut out, errors[i].code.as_str());
        push_str(&mut out, ",\"message\":");
        push_json_string(&mut out, errors[i].message.as_str());
        push_str(&mut out, ",\"path\":");
        write_string_array(&mut out, &errors[i].path);
        push_str(&mut out, "}");
        proof {
            assert(rest[0] == errors@[i as int]);
            assert(rest.subrange(1, rest.len() as int) =~= errors@.subrange(
                i + 1,
                errors@.len() as int,
            ));
            let e = errors@[i as int];
            let perr = spec_path_error_json(e.code@, e.message@, e.path@);
            crate::text::lemma_group7(
                after_comma,
                "{\"code\":"@,
                spec_json_string(e.code@),
                ",\"message\":"@,
                spec_json_string(e.message@),
                ",\"path\":"@,
                spec_path_array_json(e.path@),
                "}"@,
            );
            assert(out@ == after_comma + perr);
            crate::text::lemma_group3(
                pre,
                comma,
                perr,
                spec_validation_errors_json(errors@.subrange(i + 1, errors@.len() as int), false),
            );
            assert(spec_validation_errors_json(rest, i == 0) == comma + perr
                + spec_validation_errors_json(errors@.subrange(i + 1, errors@.len() as int), false));
        }
        i += 1;
    }
    proof {
        assert(errors@.subrange(errors@.len() as int, errors@.len() as int) =~= Seq::<
            crate::validate::ValidationError,
        >::empty());
        crate::text::lemma_cat_empty(out@);
        assert(out@ + seq![']'] =~= seq!['['] + spec_validation_errors_json(errors@, true) + seq![
            ']',
        ]);
    }
    out.push(']');
    chars_to_string(&out)
}

} // verus!
