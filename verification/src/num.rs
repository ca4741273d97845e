//! Numbers without floating point: small integers are kept exactly, every
//! other numeric literal is kept as its lexical text.
use vstd::prelude::*;
use crate::text::{
    spec_is_digit, spec_digits_val, spec_dec_digits, spec_int_str, is_digit,
    lemma_dec_digits_are_digits, lemma_digits_val_of_dec, chars_to_string,
};

verus! {

/// Integers below this bound (2^53) keep their exact value; `Integer` holds
/// `n` with `|n| < 2^53`, every other numeric literal is a `Decimal` and
/// keeps its lexical text.
pub const INT_BOUND: i64 = 9007199254740992;

#[derive(Debug, Clone, PartialEq)]
pub enum Number {
    /// An integral value `n` with `|n| < 2^53`.
    Integer(i64),
    /// Any other numeric literal, kept as its lexical text.
    Decimal(String),
}

// ---- The lexical grammar of a numeric token ------------------------------

/// The end of the run of decimal digits starting at `i`.
pub open spec fn spec_digits_end(s: Seq<char>, i: int) -> int
    decreases s.len() - i,
{
    if i < 0 || i >= s.len() || !spec_is_digit(s[i]) {
        i
    } else {
        spec_digits_end(s, i + 1)
    }
}

/// `s` is exactly one numeric token: optional `-`, digits, optional
/// fraction (`.` digits), optional exponent (`e`/`E`, optional sign, digits).
pub open spec fn spec_num_token(s: Seq<char>) -> bool {
    let p0: int = if s.len() > 0 && s[0] == '-' {
        1
    } else {
        0
    };
    let p1 = spec_digits_end(s, p0);
    let p2 = if p1 < s.len() && s[p1] == '.' {
        spec_digits_end(s, p1 + 1)
    } else {
        p1
    };
    let frac_ok = if p1 < s.len() && s[p1] == '.' {
        spec_digits_end(s, p1 + 1) > p1 + 1
    } else {
        true
    };
    if p1 <= p0 || !frac_ok {
        false
    } else if p2 < s.len() && (s[p2] == 'e' || s[p2] == 'E') {
        let p3: int = if p2 + 1 < s.len() && (s[p2 + 1] == '+' || s[p2 + 1] == '-') {
            p2 + 2
        } else {
            p2 + 1
        };
        spec_digits_end(s, p3) > p3 && spec_digits_end(s, p3) == s.len()
    } else {
        p2 == s.len()
    }
}

/// `s` is an optional `-` followed only by digits whose value is below 2^53:
/// the tokens that are represented exactly as `Integer`.
pub open spec fn spec_small_int_token(s: Seq<char>) -> bool {
    let p0: int = if s.len() > 0 && s[0] == '-' {
        1
    } else {
        0
    };
    s.len() > p0 && spec_digits_end(s, p0) == s.len() && spec_digits_val(
        s.subrange(p0, s.len() as int),
    ) < INT_BOUND
}

/// The signed value of a small integer token.
pub open spec fn spec_token_int_val(s: Seq<char>) -> int {
    if s.len() > 0 && s[0] == '-' {
        -(spec_digits_val(s.subrange(1, s.len() as int)) as int)
    } else {
        spec_digits_val(s) as int
    }
}

/// Well-formedness of a number: an `Integer` is within the exact range, a
/// `Decimal` is a numeric token that is not a small integer token.
pub open spec fn number_wf(n: Number) -> bool {
    match n {
        Number::Integer(i) => -INT_BOUND < i && i < INT_BOUND,
        Number::Decimal(s) => spec_num_token(s@) && !spec_small_int_token(s@),
    }
}

/// The textual (JSON) form of a number: plain digits for an `Integer`, the
/// kept lexical text for a `Decimal`.
pub open spec fn spec_number_str(n: Number) -> Seq<char> {
    match n {
        Number::Integer(i) => spec_int_str(i as int),
        Number::Decimal(s) => s@,
    }
}

// ---- Classifying a lexed numeric token -----------------------------------

proof fn lemma_digits_end_digits(s: Seq<char>, i: int)
    requires
        0 <= i <= s.len(),
    ensures
        i <= spec_digits_end(s, i) <= s.len(),
        forall|k: int| i <= k < spec_digits_end(s, i) ==> spec_is_digit(#[trigger] s[k]),
        spec_digits_end(s, i) < s.len() ==> !spec_is_digit(s[spec_digits_end(s, i)]),
    decreases s.len() - i,
{
    if !(i >= s.len() || !spec_is_digit(s[i])) {
        lemma_digits_end_digits(s, i + 1);
    }
}

/// Classify one numeric token: small integer tokens become `Integer` with
/// their exact value, everything else keeps its text as `Decimal`.
pub fn number_from_token(text: &Vec<char>) -> (r: Number)
    requires
        spec_num_token(text@),
    ensures
        number_wf(r),
        spec_small_int_token(text@) ==> r == Number::Integer(spec_token_int_val(text@) as i64),
        !spec_small_int_token(text@) ==> (r matches Number::Decimal(d) && d@ == text@),
{
    let neg = text.len() > 0 && text[0] == '-';
    let start: usize = if neg {
        1
    } else {
        0
    };
    let mut i: usize = start;
    let mut acc: u64 = 0;
    let mut over: bool = false;
    proof {
        assert(text@.subrange(start as int, start as int) =~= Seq::<char>::empty());
    }
    while i < text.len() && is_digit(text[i])
        invariant
            start <= i <= text@.len(),
            start == if neg { 1int } else { 0int },
            neg ==> text@.len() > 0 && text@[0] == '-',
            !neg ==> !(text@.len() > 0 && text@[0] == '-'),
            forall|k: int| start <= k < i ==> spec_is_digit(#[trigger] text@[k]),
            !over ==> acc == spec_digits_val(text@.subrange(start as int, i as int)),
            !over ==> acc < INT_BOUND as u64,
            over ==> spec_digits_val(text@.subrange(start as int, i as int)) >= INT_BOUND,
        decreases text@.len() - i,
    {
        let d: u64 = (text[i] as u32 - 48) as u64;
        proof {
            let pre = text@.subrange(start as int, i as int);
            let post = text@.subrange(start as int, i + 1);
            assert(post.drop_last() =~= pre);
            assert(spec_digits_val(post) == spec_digits_val(pre) * 10 + d);
            if over {
                assert(spec_digits_val(pre) * 10 >= INT_BOUND * 10) by (nonlinear_arith)
                    requires spec_digits_val(pre) >= INT_BOUND as int;
            }
        }
        if !over {
            let next: u64 = acc * 10 + d;
            if next >= INT_BOUND as u64 {
                over = true;
            } else {
                acc = next;
            }
            proof {
                let post = text@.subrange(start as int, i + 1);
                assert(spec_digits_val(post) == acc * 10 + d || !over);
            }
        }
        i += 1;
    }
    proof {
        lemma_digits_end_digits(text@, start as int);
        if i < text@.len() {
            assert(!spec_is_digit(text@[i as int]));
        }
        // i is exactly the end of the digit run from start
        assert(spec_digits_end(text@, start as int) == i) by {
            lemma_digits_end_eq(text@, start as int, i as int);
        }
    }
    if i == text.len() && !over {
        // all digits, value in range: exact integer
        proof {
            assert(text@.subrange(start as int, i as int) =~= text@.subrange(
                start as int,
                text@.len() as int,
            ));
            if !neg {
                assert(text@.subrange(0, text@.len() as int) =~= text@);
            }
        }
        let v: i64 = acc as i64;
        if neg {
            Number::Integer(-v)
        } else {
            Number::Integer(v)
        }
    } else {
        proof {
            if spec_small_int_token(text@) {
                assert(spec_digits_end(text@, start as int) == text@.len());
                assert(i == text@.len());
                if !neg {
                    assert(text@.subrange(0, text@.len() as int) =~= text@);
                }
                assert(!over);
            }
        }
        Number::Decimal(chars_to_string(text))
    }
}

/// The end of a digit run is the first non-digit index at or after `i`.
pub proof fn lemma_digits_end_eq(s: Seq<char>, i: int, j: int)
    requires
        0 <= i <= j <= s.len(),
        forall|k: int| i <= k < j ==> spec_is_digit(#[trigger] s[k]),
        j < s.len() ==> !spec_is_digit(s[j]),
    ensures
        spec_digits_end(s, i) == j,
    decreases j - i,
{
    if i < j {
        lemma_digits_end_eq(s, i + 1, j);
    }
}

// ---- The digit string of an integer is a small integer token -------------

/// A small integer token's value lies strictly within the exact range.
pub proof fn lemma_small_token_val_bounds(s: Seq<char>)
    requires
        spec_small_int_token(s),
    ensures
        -INT_BOUND < spec_token_int_val(s) < INT_BOUND,
{
    if s.len() > 0 && s[0] == '-' {
        assert(spec_digits_val(s.subrange(1, s.len() as int)) < INT_BOUND);
    } else {
        assert(s.subrange(0, s.len() as int) =~= s);
        assert(spec_digits_val(s) < INT_BOUND);
    }
}

/// Number preservation: the serialized text of an integer below 2^53 holds
/// no decimal point (it is a minus sign and digits, or digits alone), and
/// reading the token back classifies it as exactly the same integer.
pub proof fn lemma_integer_round_trip(n: int)
    requires
        -INT_BOUND < n < INT_BOUND,
    ensures
        spec_small_int_token(spec_int_str(n)),
        spec_token_int_val(spec_int_str(n)) == n,
        forall|i: int| 0 <= i < spec_int_str(n).len() ==> spec_int_str(n)[i] != '.',
{
    lemma_int_str_small_token(n);
    let s = spec_int_str(n);
    assert forall|i: int| 0 <= i < s.len() implies s[i] != '.' by {
        if n < 0 {
            lemma_dec_digits_are_digits((-n) as nat);
            if i > 0 {
                assert(s[i] == spec_dec_digits((-n) as nat)[i - 1]);
                assert(spec_is_digit(s[i]));
            }
        } else {
            lemma_dec_digits_are_digits(n as nat);
            assert(spec_is_digit(s[i]));
        }
    }
}

/// Every well-formed number prints as a valid numeric token, so the JSON
/// the writer emits can always be read back.
pub proof fn lemma_number_str_token(n: Number)
    requires
        number_wf(n),
    ensures
        spec_num_token(spec_number_str(n)),
{
    match n {
        Number::Integer(i) => {
            lemma_int_str_small_token(i as int);
            let s = spec_int_str(i as int);
            let p0: int = if s.len() > 0 && s[0] == '-' {
                1
            } else {
                0
            };
            assert(spec_digits_end(s, p0) == s.len());
        },
        Number::Decimal(_) => {},
    }
}

/// The decimal string written for an in-range integer is itself a small
/// integer token denoting the same value.
pub proof fn lemma_int_str_small_token(n: int)
    requires
        -INT_BOUND < n < INT_BOUND,
    ensures
        spec_small_int_token(spec_int_str(n)),
        spec_token_int_val(spec_int_str(n)) == n,
{
    if n < 0 {
        let s = spec_int_str(n);
        let d = spec_dec_digits((-n) as nat);
        lemma_dec_digits_are_digits((-n) as nat);
        lemma_digits_val_of_dec((-n) as nat);
        assert(s[0] == '-');
        assert(s.subrange(1, s.len() as int) =~= d);
        lemma_digits_end_eq(s, 1, s.len() as int);
    } else {
        let s = spec_int_str(n);
        lemma_dec_digits_are_digits(n as nat);
        lemma_digits_val_of_dec(n as nat);
        assert(s[0] != '-') by {
            assert(spec_is_digit(s[0]));
        }
        lemma_digits_end_eq(s, 0, s.len() as int);
        assert(s.subrange(0, s.len() as int) =~= s);
    }
}

} // verus!
