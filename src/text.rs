//! Decimal text: the digit characters, the value of a run of them, and the
//! conversion of a character sequence to a `String`.
use crate::digits::{canonical, digits_ok, trim, digits_value, lemma_value_push, lemma_value_single, lemma_value_split, pow10};
use vstd::prelude::*;

verus! {

pub open spec fn is_digit_char(c: char) -> bool {
    '0' <= c && c <= '9'
}

pub open spec fn all_digit_chars(s: Seq<char>) -> bool {
    forall|i: int| 0 <= i < s.len() ==> is_digit_char(#[trigger] s[i])
}

/// The digit that a digit character stands for.
pub open spec fn char_digit(c: char) -> nat {
    ((c as u32) - ('0' as u32)) as nat
}

/// The character that stands for a digit below ten.
pub open spec fn digit_char(d: u8) -> char {
    ((d as u32) + ('0' as u32)) as char
}

/// The value of a run of digit characters, most significant first.
pub open spec fn chars_value(s: Seq<char>) -> nat
    decreases s.len(),
{
    if s.len() == 0 {
        0
    } else {
        10 * chars_value(s.drop_last()) + char_digit(s.last())
    }
}

/// The characters of a digit sequence (least significant digit first),
/// written most significant first.
pub open spec fn digit_chars(d: Seq<u8>) -> Seq<char>
    decreases d.len(),
{
    if d.len() == 0 {
        seq![]
    } else {
        digit_chars(d.drop_first()) + seq![digit_char(d[0])]
    }
}

/// A literal that is rejected: empty, holding a character that is not a
/// digit, or with a misplaced sign or decimal point.
#[derive(Debug, PartialEq, Eq, Structural)]
pub struct MalformedLiteral;

/// An optional minus sign followed by one or more digits.
pub open spec fn is_integer_literal(s: Seq<char>) -> bool {
    let body = if s.len() > 0 && s[0] == '-' {
        s.drop_first()
    } else {
        s
    };
    body.len() >= 1 && all_digit_chars(body)
}

/// The value of an integer literal.
pub open spec fn integer_literal_value(s: Seq<char>) -> int {
    if s.len() > 0 && s[0] == '-' {
        -(chars_value(s.drop_first()) as int)
    } else {
        chars_value(s) as int
    }
}

pub proof fn lemma_chars_prepend(c: char, t: Seq<char>)
    ensures
        chars_value(seq![c] + t) == char_digit(c) * pow10(t.len()) + chars_value(t),
    decreases t.len(),
{
    if t.len() == 0 {
        assert((seq![c] + t).drop_last() =~= seq![]);
        assert(chars_value(seq![]) == 0);
        assert(pow10(0) == 1);
    } else {
        let u = t.drop_last();
        lemma_chars_prepend(c, u);
        assert((seq![c] + t).drop_last() =~= seq![c] + u);
        assert((seq![c] + t).last() == t.last());
        let p = pow10(u.len()) as int;
        assert(pow10(t.len()) == 10 * p);
        let x = char_digit(c) as int;
        assert(10 * (x * p) == x * (10 * p)) by (nonlinear_arith);
    }
}

/// Written out, a digit sequence reads back as its value.
pub proof fn lemma_digit_chars_value(d: Seq<u8>)
    requires
        digits_ok(d),
    ensures
        all_digit_chars(digit_chars(d)),
        digit_chars(d).len() == d.len(),
        chars_value(digit_chars(d)) == digits_value(d),
    decreases d.len(),
{
    if d.len() > 0 {
        let t = d.drop_first();
        assert(digits_ok(t)) by {
            assert forall|i: int| 0 <= i < t.len() implies #[trigger] t[i] < 10 by {
                assert(t[i] == d[i + 1]);
            }
        }
        lemma_digit_chars_value(t);
        let w = digit_chars(d);
        assert(w == digit_chars(t) + seq![digit_char(d[0])]);
        assert(w.drop_last() =~= digit_chars(t));
        assert(d[0] < 10);
        assert(char_digit(digit_char(d[0])) == d[0]);
        lemma_value_split(d, 1);
        assert(d.skip(1) =~= t);
        assert(d.take(1) =~= seq![d[0]]);
        lemma_value_push(seq![], d[0]);
        assert(seq![].push(d[0]) =~= seq![d[0]]);
        assert(pow10(0) == 1);
        assert(pow10(1) == 10);
        lemma_value_single(d[0]);
        assert(digits_value(d.take(1)) == d[0]);
        assert(digits_value(d) == d[0] + 10 * digits_value(t));
        assert(w.last() == digit_char(d[0]));
        assert(chars_value(w) == 10 * chars_value(w.drop_last()) + char_digit(w.last()));
        assert(chars_value(w) == 10 * digits_value(t) + d[0]);
        assert forall|i: int| 0 <= i < w.len() implies is_digit_char(#[trigger] w[i]) by {
            if i < t.len() {
                assert(w[i] == digit_chars(t)[i]);
            }
        }
    }
}

/// Relies on std's `FromIterator<char>` for `String`: the string holds
/// the characters in order.
#[verifier::external_body]
pub(crate) fn string_from_chars(chars: &Vec<char>) -> (r: String)
    ensures
        r@ == chars@,
{
    chars.iter().collect()
}

/// A run of `n` zero characters.
pub open spec fn zero_chars(n: nat) -> Seq<char> {
    Seq::new(n, |i: int| '0')
}

/// The text after an optional leading minus sign.
pub open spec fn unsigned_part(s: Seq<char>) -> Seq<char> {
    if s.len() > 0 && s[0] == '-' {
        s.drop_first()
    } else {
        s
    }
}

/// The characters other than decimal points, in order.
pub open spec fn mantissa(b: Seq<char>) -> Seq<char>
    decreases b.len(),
{
    if b.len() == 0 {
        seq![]
    } else if b.last() == '.' {
        mantissa(b.drop_last())
    } else {
        mantissa(b.drop_last()).push(b.last())
    }
}

pub open spec fn dot_count(b: Seq<char>) -> nat
    decreases b.len(),
{
    if b.len() == 0 {
        0
    } else {
        dot_count(b.drop_last()) + if b.last() == '.' {
            1nat
        } else {
            0nat
        }
    }
}

/// The number of characters after the decimal point; zero without one.
pub open spec fn frac_len(b: Seq<char>) -> nat
    decreases b.len(),
{
    if b.len() == 0 || dot_count(b) == 0 || b.last() == '.' {
        0
    } else {
        frac_len(b.drop_last()) + 1
    }
}

/// An optional minus sign, then digits with at most one decimal point
/// among them, and at least one digit.
pub open spec fn is_float_literal(s: Seq<char>) -> bool {
    let b = unsigned_part(s);
    &&& forall|i: int| 0 <= i < b.len() ==> is_digit_char(#[trigger] b[i]) || b[i] == '.'
    &&& dot_count(b) <= 1
    &&& mantissa(b).len() >= 1
}

pub proof fn lemma_dot_count_prefix(b: Seq<char>, j: int)
    requires
        0 <= j <= b.len(),
    ensures
        dot_count(b.take(j)) <= dot_count(b),
    decreases b.len(),
{
    if j < b.len() {
        lemma_dot_count_prefix(b.drop_last(), j);
        assert(b.drop_last().take(j) =~= b.take(j));
    } else {
        assert(b.take(j) =~= b);
    }
}

/// The characters of a digit sequence, most significant first.
pub fn digit_chars_of(d: &Vec<u8>) -> (r: Vec<char>)
    requires
        digits_ok(d@),
    ensures
        r@ == digit_chars(d@),
{
    let mut chars: Vec<char> = Vec::new();
    let ghost dd = d@;
    let mut i: usize = d.len();
    proof {
        assert(dd.skip(dd.len() as int) =~= seq![]);
        assert(digit_chars(seq![]) =~= seq![]);
        assert(chars@ =~= digit_chars(dd.skip(i as int)));
    }
    while i > 0
        invariant
            i <= dd.len(),
            dd == d@,
            digits_ok(dd),
            chars@ == digit_chars(dd.skip(i as int)),
        decreases i,
    {
        let digit: u8 = d[i - 1];
        proof {
            assert(dd[i - 1] < 10);
        }
        let c: char = ((digit as u32 + '0' as u32) as u8) as char;
        proof {
            let t = dd.skip(i - 1);
            assert(t.drop_first() =~= dd.skip(i as int));
            assert(t[0] == digit);
            assert(c == digit_char(digit));
            assert(digit_chars(t) == digit_chars(dd.skip(i as int)) + seq![c]);
        }
        chars.push(c);
        i = i - 1;
    }
    proof {
        assert(dd.skip(0) =~= dd);
    }
    chars
}

/// The canonical digit sequence of a run of digit characters.
pub fn digits_from_chars(cs: &Vec<char>) -> (r: Vec<u8>)
    requires
        all_digit_chars(cs@),
    ensures
        canonical(r@),
        digits_value(r@) == chars_value(cs@),
{
    let mut digits: Vec<u8> = Vec::new();
    let len: usize = cs.len();
    let mut j: usize = len;
    proof {
        assert(cs@.subrange(len as int, len as int) =~= seq![]);
    }
    while j > 0
        invariant
            j <= len,
            len == cs@.len(),
            all_digit_chars(cs@),
            digits@.len() == len - j,
            digits_ok(digits@),
            digits_value(digits@) == chars_value(cs@.subrange(j as int, len as int)),
        decreases j,
    {
        let c: char = cs[j - 1];
        proof {
            assert(is_digit_char(cs@[j - 1]));
        }
        let d: u8 = ((c as u32) - ('0' as u32)) as u8;
        proof {
            let t = cs@.subrange(j as int, len as int);
            let u = cs@.subrange(j - 1, len as int);
            assert(u =~= seq![c] + t);
            lemma_chars_prepend(c, t);
            lemma_value_push(digits@, d);
            assert(d == char_digit(c));
        }
        digits.push(d);
        j = j - 1;
    }
    proof {
        assert(cs@.subrange(0, len as int) =~= cs@);
    }
    trim(&mut digits);
    digits
}

} // verus!
