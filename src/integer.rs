//! Signed arbitrary-precision integers over base-ten digit sequences.
use crate::digits::{
    canonical, digits_add, digits_cmp, digits_mul, digits_ok, digits_sub, digits_value,
    lemma_canonical_unique, lemma_canonical_zero, lemma_pow10_pos, lemma_value_push,
    lemma_value_split, normalize, ordering_of, pow10, trim,
};
use crate::text::{
    all_digit_chars, char_digit, chars_value, digit_chars, digit_chars_of, integer_literal_value,
    is_digit_char, is_integer_literal, lemma_chars_prepend, lemma_digit_chars_value,
    string_from_chars, MalformedLiteral,
};
use std::cmp::Ordering;
use vstd::arithmetic::power2::pow2;
use vstd::prelude::*;

verus! {

/// A signed whole number: `sign` is true for a negative number, `digits`
/// holds its magnitude, least significant digit first.
#[derive(Clone, Debug)]
pub struct Integer {
    pub sign: bool,
    pub digits: Vec<u8>,
}

impl View for Integer {
    type V = int;

    /// The number denoted.
    open spec fn view(&self) -> int {
        if self.sign {
            -(digits_value(self.digits@) as int)
        } else {
            digits_value(self.digits@) as int
        }
    }
}

/// The text of a signed digit sequence: a minus sign for a negative number,
/// then the digits, most significant first.
pub open spec fn integer_text(sign: bool, digits: Seq<u8>) -> Seq<char> {
    if sign {
        seq!['-'] + digit_chars(digits)
    } else {
        digit_chars(digits)
    }
}

/// Two well-formed integers of one value have the same sign and digits.
pub proof fn lemma_integer_unique(x: Integer, y: Integer)
    requires
        x.wf(),
        y.wf(),
        x@ == y@,
    ensures
        x.sign == y.sign,
        x.digits@ == y.digits@,
{
    assert(digits_value(x.digits@) == digits_value(y.digits@));
    lemma_canonical_unique(x.digits@, y.digits@);
}

/// Addition is commutative and associative, a number plus its opposite is
/// zero, and the order of two numbers is the order of their difference
/// against zero. Since every result is canonical and canonical integers of
/// one value have one representation, results of equal value are equal
/// sign for sign and digit for digit, and zero is always `[0]`, not negative.
pub proof fn law_integer_addition(a: Integer, b: Integer, c: Integer)
    requires
        a.wf(),
        b.wf(),
        c.wf(),
    ensures
        a@ + b@ == b@ + a@,
        (a@ + b@) + c@ == a@ + (b@ + c@),
        a@ + (-a@) == 0,
        ordering_of(a@, b@) == ordering_of(a@ - b@, 0),
        forall|x: Integer, y: Integer|
            x.wf() && y.wf() && x@ == y@ ==> x.sign == y.sign && x.digits@ == y.digits@,
        forall|x: Integer| x.wf() && x@ == 0 ==> !x.sign && x.digits@ == seq![0u8],
{
    assert forall|x: Integer, y: Integer|
        x.wf() && y.wf() && x@ == y@ implies x.sign == y.sign && x.digits@ == y.digits@ by {
        lemma_integer_unique(x, y);
    }
    assert forall|x: Integer| x.wf() && x@ == 0 implies !x.sign && x.digits@ == seq![0u8] by {
        lemma_canonical_zero(x.digits@);
    }
}

/// Multiplication is commutative; with canonical results, `mul(a, b)` and
/// `mul(b, a)` are the same integer digit for digit.
pub proof fn law_integer_multiplication(a: Integer, b: Integer)
    requires
        a.wf(),
        b.wf(),
    ensures
        a@ * b@ == b@ * a@,
        forall|x: Integer, y: Integer|
            x.wf() && y.wf() && x@ == a@ * b@ && y@ == b@ * a@ ==> x.sign == y.sign && x.digits@
                == y.digits@,
{
    assert(a@ * b@ == b@ * a@) by (nonlinear_arith);
    assert forall|x: Integer, y: Integer|
        x.wf() && y.wf() && x@ == a@ * b@ && y@ == b@ * a@ implies x.sign == y.sign
        && x.digits@ == y.digits@ by {
        lemma_integer_unique(x, y);
    }
}

/// Printing a well-formed integer and reading the text back gives the
/// integer again: the text is a valid literal whose value is the integer's,
/// and a well-formed integer of that value has the same sign and digits.
pub proof fn law_integer_text_round_trip(x: Integer)
    requires
        x.wf(),
    ensures
        is_integer_literal(integer_text(x.sign, x.digits@)),
        integer_literal_value(integer_text(x.sign, x.digits@)) == x@,
        forall|y: Integer|
            y.wf() && y@ == integer_literal_value(integer_text(x.sign, x.digits@)) ==> y.sign
                == x.sign && y.digits@ == x.digits@,
{
    let dc = digit_chars(x.digits@);
    lemma_digit_chars_value(x.digits@);
    assert(is_digit_char(dc[0]));
    if x.sign {
        assert((seq!['-'] + dc).drop_first() =~= dc);
    }
    assert forall|y: Integer|
        y.wf() && y@ == integer_literal_value(integer_text(x.sign, x.digits@)) implies y.sign
        == x.sign && y.digits@ == x.digits@ by {
        lemma_integer_unique(x, y);
    }
}

impl Integer {
    /// Canonical form: digits in range, no most-significant zero, and zero
    /// is never negative.
    pub open spec fn wf(&self) -> bool {
        &&& canonical(self.digits@)
        &&& (self.sign ==> digits_value(self.digits@) > 0)
    }

    /// A copy with the same sign and digits.
    pub fn copy(&self) -> (r: Self)
        ensures
            r.sign == self.sign,
            r.digits@ == self.digits@,
            r@ == self@,
            self.wf() ==> r.wf(),
    {
        Self::new(self.sign, self.digits.clone())
    }

    pub fn new(sign: bool, digits: Vec<u8>) -> (r: Self)
        ensures
            r.sign == sign,
            r.digits@ == digits@,
    {
        Self { sign: sign, digits: digits }
    }

    pub fn zero() -> (r: Self)
        ensures
            r.wf(),
            r@ == 0,
            r.digits@ == seq![0u8],
    {
        let mut d: Vec<u8> = Vec::new();
        d.push(0);
        proof {
            lemma_value_push(seq![], 0);
            assert(d@ =~= seq![].push(0u8));
        }
        Self::new(false, d)
    }

    pub fn from_isize(number: isize) -> (r: Self)
        ensures
            r.wf(),
            r@ == number as int,
    {
        let wide: i128 = number as i128;
        let m: u128 = if wide < 0 {
            (-wide) as u128
        } else {
            wide as u128
        };
        Self::from_magnitude(number < 0, m)
    }

    /// A count as an integer.
    pub(crate) fn from_usize(number: usize) -> (r: Self)
        ensures
            r.wf(),
            r@ == number as int,
    {
        Self::from_magnitude(false, number as u128)
    }

    /// The integer with magnitude `magnitude`, negative when `negative` and
    /// the magnitude is not zero.
    fn from_magnitude(negative: bool, magnitude: u128) -> (r: Self)
        ensures
            r.wf(),
            r@ == if negative {
                -(magnitude as int)
            } else {
                magnitude as int
            },
    {
        let mut m: u128 = magnitude;
        let ghost mag: int = m as int;
        let mut digits: Vec<u8> = Vec::new();
        proof {
            assert(digits_value(digits@) == 0);
            assert(pow10(0) == 1);
        }
        while m > 0
            invariant
                digits_ok(digits@),
                digits_value(digits@) + pow10(digits@.len()) * m == mag,
            decreases m,
        {
            let d: u8 = (m % 10) as u8;
            proof {
                lemma_value_push(digits@, d);
                let p = pow10(digits@.len()) as int;
                assert(pow10(digits@.len() + 1) == 10 * p);
                assert(p * (m as int) == (d as int) * p + (10 * p) * ((m / 10) as int))
                    by (nonlinear_arith)
                    requires
                        m as int == d + 10 * (m / 10),
                ;
            }
            digits.push(d);
            m = m / 10;
        }
        proof {
            assert(pow10(digits@.len()) * 0 == 0) by (nonlinear_arith);
            assert(digits_value(digits@) == mag);
        }
        trim(&mut digits);
        proof {
            lemma_canonical_zero(digits@);
        }
        let is_zero: bool = digits.len() == 1 && digits[0] == 0;
        proof {
            if is_zero {
                assert(digits@ =~= seq![0u8]);
            }
        }
        Self::new(negative && !is_zero, digits)
    }

    /// Reads an optional minus sign and one or more decimal digits.
    pub fn from_string(string: String) -> (r: Result<Self, MalformedLiteral>)
        ensures
            match r {
                Ok(n) => is_integer_literal(string@) && n.wf() && n@ == integer_literal_value(
                    string@,
                ),
                Err(_) => !is_integer_literal(string@),
            },
    {
        let s: &str = string.as_str();
        let len: usize = s.unicode_len();
        let mut start: usize = 0;
        if len > 0 && s.get_char(0) == '-' {
            start = 1;
        }
        let ghost body = s@.subrange(start as int, len as int);
        proof {
            if start == 1 {
                assert(body =~= s@.drop_first());
            } else {
                assert(body =~= s@);
            }
        }
        if start >= len {
            return Err(MalformedLiteral);
        }
        let mut digits: Vec<u8> = Vec::new();
        let mut j: usize = len;
        while j > start
            invariant
                start <= j <= len,
                len == s@.len(),
                s@ == string@,
                start == 1 ==> len > 0 && s@[0] == '-',
                start == 0 ==> !(len > 0 && s@[0] == '-'),
                start <= 1,
                body == s@.subrange(start as int, len as int),
                digits@.len() == len - j,
                digits_ok(digits@),
                all_digit_chars(s@.subrange(j as int, len as int)),
                digits_value(digits@) == chars_value(s@.subrange(j as int, len as int)),
            decreases j,
        {
            let c: char = s.get_char(j - 1);
            if !('0' <= c && c <= '9') {
                proof {
                    assert(body[j - 1 - start] == c);
                    assert(!is_digit_char(body[j - 1 - start]));
                    assert(s@ == string@);
                }
                return Err(MalformedLiteral);
            }
            let d: u8 = ((c as u32) - ('0' as u32)) as u8;
            proof {
                let t = s@.subrange(j as int, len as int);
                let u = s@.subrange(j - 1, len as int);
                assert(u =~= seq![c] + t);
                lemma_chars_prepend(c, t);
                lemma_value_push(digits@, d);
                assert(d == char_digit(c));
                assert forall|i: int| 0 <= i < u.len() implies is_digit_char(#[trigger] u[i]) by {
                    if i > 0 {
                        assert(u[i] == t[i - 1]);
                    }
                }
            }
            digits.push(d);
            j = j - 1;
        }
        trim(&mut digits);
        let value_is_zero: bool = digits.len() == 1 && digits[0] == 0;
        proof {
            assert(s@.subrange(start as int, len as int) == body);
            lemma_canonical_zero(digits@);
            if value_is_zero {
                assert(digits@ =~= seq![0u8]);
            }
        }
        Ok(Self::new(start == 1 && !value_is_zero, digits))
    }

    /// The number as a native integer.
    pub fn to_isize(self) -> (r: isize)
        requires
            self.wf(),
            isize::MIN <= self@ <= isize::MAX,
        ensures
            r == self@,
    {
        let mut acc: i128 = 0;
        let mut i: usize = self.digits.len();
        let ghost d = self.digits@;
        proof {
            assert(d.skip(d.len() as int).len() == 0);
            assert(digits_value(d.skip(d.len() as int)) == 0);
        }
        while i > 0
            invariant
                i <= d.len(),
                d == self.digits@,
                digits_ok(d),
                digits_value(d) <= 0x8000_0000_0000_0000,
                acc == digits_value(d.skip(i as int)),
            decreases i,
        {
            proof {
                let t = d.skip(i - 1);
                lemma_value_split(t, 1);
                assert(t.skip(1) =~= d.skip(i as int));
                let e: Seq<u8> = Seq::empty();
                assert(t.take(1) =~= e.push(d[i - 1]));
                lemma_value_push(e, d[i - 1]);
                assert(pow10(0) == 1);
                assert(pow10(1) == 10);
                lemma_value_split(d, i - 1);
                lemma_pow10_pos((i - 1) as nat);
                let p = pow10((i - 1) as nat) as int;
                let v = digits_value(t) as int;
                assert(v <= p * v) by (nonlinear_arith)
                    requires
                        p >= 1,
                        v >= 0,
                ;
                assert(d[i - 1] < 10);
                assert(digits_value(e) == 0);
                assert(e.len() == 0);
                let x = d[i - 1] as nat;
                let one = pow10(0);
                assert(x * one == x) by (nonlinear_arith)
                    requires
                        one == 1,
                ;
                assert(digits_value(e.push(d[i - 1])) == d[i - 1] as nat);
                assert(t.take(1) == e.push(d[i - 1]));
                assert(digits_value(t.take(1)) == d[i - 1]);
                assert(digits_value(t.skip(1)) == acc);
                assert(digits_value(t) == d[i - 1] + 10 * acc);
                assert(digits_value(t) <= digits_value(d));
            }
            acc = acc * 10 + self.digits[i - 1] as i128;
            i = i - 1;
        }
        proof {
            assert(d.skip(0) =~= d);
        }
        if self.sign {
            (-acc) as isize
        } else {
            acc as isize
        }
    }

    /// The number in decimal: a minus sign when negative, then its digits.
    pub fn to_string(self) -> (r: String)
        requires
            digits_ok(self.digits@),
        ensures
            r@ == integer_text(self.sign, self.digits@),
    {
        let digits = digit_chars_of(&self.digits);
        let mut chars: Vec<char> = Vec::new();
        if self.sign {
            chars.push('-');
        }
        let ghost prefix = chars@;
        let mut i: usize = 0;
        while i < digits.len()
            invariant
                i <= digits@.len(),
                chars@ == prefix + digits@.take(i as int),
            decreases digits@.len() - i,
        {
            chars.push(digits[i]);
            i = i + 1;
            proof {
                assert(chars@ =~= prefix + digits@.take(i as int));
            }
        }
        proof {
            assert(digits@.take(i as int) =~= digits@);
            if self.sign {
                assert(prefix =~= seq!['-']);
            } else {
                assert(prefix =~= seq![]);
            }
        }
        string_from_chars(&chars)
    }

    /// Whether the number is zero.
    pub fn is_zero(&self) -> (r: bool)
        requires
            self.wf(),
        ensures
            r == (self@ == 0),
    {
        proof {
            lemma_canonical_zero(self.digits@);
        }
        let r = self.digits.len() == 1 && self.digits[0] == 0;
        proof {
            if r {
                assert(self.digits@ =~= seq![0u8]);
            }
        }
        r
    }

    /// The additive inverse.
    pub fn opposite(n: Self) -> (r: Self)
        requires
            n.wf(),
        ensures
            r.wf(),
            r@ == -n@,
    {
        proof {
            lemma_canonical_zero(n.digits@);
        }
        let is_zero: bool = n.digits.len() == 1 && n.digits[0] == 0;
        proof {
            if is_zero {
                assert(n.digits@ =~= seq![0u8]);
            }
        }
        Self::new(!n.sign && !is_zero, n.digits)
    }

    /// The order of two numbers: the sign first, then the magnitudes,
    /// reversed for two negative numbers.
    pub fn cmp(a: Self, b: Self) -> (r: Ordering)
        requires
            a.wf(),
            b.wf(),
        ensures
            r == ordering_of(a@, b@),
    {
        if !a.sign && b.sign {
            Ordering::Greater
        } else if a.sign && !b.sign {
            Ordering::Less
        } else if !a.sign {
            digits_cmp(&a.digits, &b.digits)
        } else {
            match digits_cmp(&a.digits, &b.digits) {
                Ordering::Greater => Ordering::Less,
                Ordering::Less => Ordering::Greater,
                Ordering::Equal => Ordering::Equal,
            }
        }
    }

    /// Carries digits of ten or more into the next position and trims
    /// most-significant zeros; zero loses its minus sign.
    pub fn tidy(&mut self)
        ensures
            final(self).wf(),
            digits_value(final(self).digits@) == digits_value(old(self).digits@),
            final(self).sign == (old(self).sign && digits_value(old(self).digits@) > 0),
    {
        normalize(&mut self.digits);
        proof {
            lemma_canonical_zero(self.digits@);
        }
        if self.digits.len() == 1 && self.digits[0] == 0 {
            proof {
                assert(self.digits@ =~= seq![0u8]);
            }
            self.sign = false;
        }
    }

    pub fn add(a: Self, b: Self) -> (r: Self)
        requires
            a.wf(),
            b.wf(),
        ensures
            r.wf(),
            r@ == a@ + b@,
    {
        if a.sign == b.sign {
            let digits = digits_add(&a.digits, &b.digits);
            proof {
                lemma_canonical_zero(a.digits@);
            }
            Self::new(a.sign, digits)
        } else {
            match digits_cmp(&a.digits, &b.digits) {
                Ordering::Greater => Self::new(a.sign, digits_sub(&a.digits, &b.digits)),
                Ordering::Less => Self::new(b.sign, digits_sub(&b.digits, &a.digits)),
                Ordering::Equal => Self::zero(),
            }
        }
    }

    pub fn sub(a: Self, b: Self) -> (r: Self)
        requires
            a.wf(),
            b.wf(),
        ensures
            r.wf(),
            r@ == a@ - b@,
    {
        Self::add(a, Self::opposite(b))
    }

    /// Puts `times` zero digits below the least significant digit, which
    /// multiplies the number by ten to the `times`.
    pub fn high_shift(&mut self, times: u32)
        requires
            digits_ok(old(self).digits@),
        ensures
            final(self).sign == old(self).sign,
            final(self).digits@ == Seq::new(times as nat, |i: int| 0u8) + old(self).digits@,
            digits_value(final(self).digits@) == pow10(times as nat) * digits_value(
                old(self).digits@,
            ),
    {
        self.digits = crate::digits::shifted(&self.digits, times as usize);
    }

    /// Drops the `times` least significant digits.
    pub fn low_shift(&mut self, times: u32)
        requires
            times <= old(self).digits@.len(),
        ensures
            final(self).sign == old(self).sign,
            final(self).digits@ == old(self).digits@.skip(times as int),
    {
        let mut rest: Vec<u8> = Vec::new();
        let mut i: usize = times as usize;
        while i < self.digits.len()
            invariant
                times <= i <= self.digits@.len(),
                rest@ == self.digits@.subrange(times as int, i as int),
            decreases self.digits@.len() - i,
        {
            rest.push(self.digits[i]);
            i = i + 1;
            proof {
                assert(rest@ =~= self.digits@.subrange(times as int, i as int));
            }
        }
        proof {
            assert(rest@ =~= self.digits@.skip(times as int));
        }
        self.digits = rest;
    }

    /// The product; the sign is negative when exactly one factor is.
    pub fn mul(a: Self, b: Self) -> (r: Self)
        requires
            a.wf(),
            b.wf(),
        ensures
            r.wf(),
            r@ == a@ * b@,
    {
        proof {
            vstd::arithmetic::power2::lemma2_to64();
        }
        let mut r = Self::new(a.sign != b.sign, digits_mul(&a.digits, &b.digits, 0));
        proof {
            let x = digits_value(a.digits@) as int;
            let y = digits_value(b.digits@) as int;
            assert((-x) * y == -(x * y) && x * (-y) == -(x * y) && (-x) * (-y) == x * y)
                by (nonlinear_arith);
        }
        r.tidy();
        r
    }
}

} // verus!
