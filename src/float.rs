//! Scaled decimals: an integer value times ten to the minus scale.
use crate::digits::{
    canonical, digits_value, lemma_canonical_zero, lemma_pow10_pos, lemma_value_single,
    lemma_value_split, lemma_zeros_value, ordering_of, part, pow10,
};
use crate::integer::Integer;
use crate::text::{
    all_digit_chars, char_digit, chars_value, digit_chars, digit_chars_of, digits_from_chars,
    dot_count, frac_len, is_digit_char, is_float_literal, lemma_chars_prepend,
    lemma_digit_chars_value, lemma_dot_count_prefix, mantissa, string_from_chars, unsigned_part,
    zero_chars, MalformedLiteral,
};
use std::cmp::Ordering;
use vstd::prelude::*;

verus! {

/// The number `value * 10^(-scale)`; both parts are integers and the
/// scale may be negative.
#[derive(Clone, Debug)]
pub struct Float {
    pub scale: Integer,
    pub value: Integer,
}

/// `v` expressed in units of `10^(-m)` when it is given in units of
/// `10^(-s)`, for `s <= m`.
pub open spec fn aligned(v: int, s: int, m: int) -> int {
    v * pow10((m - s) as nat)
}

pub open spec fn max_int(x: int, y: int) -> int {
    if x >= y {
        x
    } else {
        y
    }
}

/// The value part of the sum of `(va, sa)` and `(vb, sb)`, whose scale is
/// the larger of the two scales.
pub open spec fn sum_value(va: int, sa: int, vb: int, sb: int) -> int {
    aligned(va, sa, max_int(sa, sb)) + aligned(vb, sb, max_int(sa, sb))
}

/// The order of the numbers `va * 10^(-sa)` and `vb * 10^(-sb)`.
pub open spec fn float_order(va: int, sa: int, vb: int, sb: int) -> Ordering {
    ordering_of(aligned(va, sa, max_int(sa, sb)), aligned(vb, sb, max_int(sa, sb)))
}

/// A value already at the target scale is unchanged.
pub proof fn lemma_aligned_same(v: int, s: int)
    ensures
        aligned(v, s, s) == v,
{
    let p = pow10(0);
    assert(p == 1);
    assert(v * p == v) by (nonlinear_arith)
        requires
            p == 1,
    ;
}

/// The unsigned text of value digits `d` at scale `s`: for a scale of zero
/// or below, the digits then `-s` zeros; otherwise the digits, padded with
/// leading zeros to more than `s` of them, with a decimal point before the
/// last `s`.
pub open spec fn float_body(d: Seq<u8>, s: int) -> Seq<char> {
    let t = digit_chars(d);
    if s <= 0 {
        t + zero_chars((-s) as nat)
    } else {
        let p = zero_chars(
            if s + 1 > t.len() {
                (s + 1 - t.len()) as nat
            } else {
                0
            },
        ) + t;
        p.take(p.len() - s) + seq!['.'] + p.skip(p.len() - s)
    }
}

/// The text of a decimal: a minus sign when negative, then its body.
pub open spec fn float_text(sign: bool, d: Seq<u8>, s: int) -> Seq<char> {
    if sign {
        seq!['-'] + float_body(d, s)
    } else {
        float_body(d, s)
    }
}

/// Appends `n` zero characters.
fn push_zeros(out: &mut Vec<char>, n: usize)
    ensures
        final(out)@ == old(out)@ + zero_chars(n as nat),
{
    let ghost start = out@;
    let mut i: usize = 0;
    while i < n
        invariant
            i <= n,
            out@ == start + zero_chars(i as nat),
        decreases n - i,
    {
        out.push('0');
        i = i + 1;
        proof {
            assert(out@ =~= start + zero_chars(i as nat));
        }
    }
}

/// Appends the characters of `src` in positions `from..to`.
fn push_range(out: &mut Vec<char>, src: &Vec<char>, from: usize, to: usize)
    requires
        from <= to <= src.len(),
    ensures
        final(out)@ == old(out)@ + src@.subrange(from as int, to as int),
{
    let ghost start = out@;
    let mut i: usize = from;
    while i < to
        invariant
            from <= i <= to,
            to <= src.len(),
            out@ == start + src@.subrange(from as int, i as int),
        decreases to - i,
    {
        out.push(src[i]);
        i = i + 1;
        proof {
            assert(out@ =~= start + src@.subrange(from as int, i as int));
        }
    }
}

impl Float {
    /// Both parts are canonical integers.
    pub open spec fn wf(&self) -> bool {
        self.scale.wf() && self.value.wf()
    }

    pub fn new(scale: Integer, value: Integer) -> (r: Self)
        ensures
            r.scale == scale,
            r.value == value,
    {
        Self { scale: scale, value: value }
    }

    pub fn zero() -> (r: Self)
        ensures
            r.wf(),
            r.scale@ == 0,
            r.value@ == 0,
    {
        Self::new(Integer::zero(), Integer::zero())
    }

    /// The integer with scale zero.
    pub fn from_integer(n: Integer) -> (r: Self)
        ensures
            r.scale.wf(),
            r.scale@ == 0,
            r.value == n,
    {
        Self::new(Integer::zero(), n)
    }

    /// Whether the number is zero.
    pub fn is_zero(&self) -> (r: bool)
        requires
            self.wf(),
        ensures
            r == (self.value@ == 0),
    {
        self.value.is_zero()
    }

    /// Strips least-significant zero digits from the value, lowering the
    /// scale by as many, so that the same number has the fewest digits.
    /// Zero is left as it is.
    pub fn tidy(&mut self)
        requires
            old(self).wf(),
        ensures
            final(self).wf(),
            final(self).scale@ <= old(self).scale@,
            final(self).value@ * pow10((old(self).scale@ - final(self).scale@) as nat) == old(
                self,
            ).value@,
            final(self).value@ == 0 || digits_value(final(self).value.digits@) % 10 != 0,
    {
        let n: usize = self.value.digits.len();
        let mut k: usize = 0;
        while k + 1 < n && self.value.digits[k] == 0
            invariant
                n == self.value.digits@.len(),
                k < n,
                forall|j: int| 0 <= j < k ==> self.value.digits@[j] == 0,
            decreases n - k,
        {
            k = k + 1;
        }
        if self.value.is_zero() {
            proof {
                lemma_aligned_same(self.value@, self.scale@);
            }
            return;
        }
        let ghost old_value = self.value;
        let ghost d = self.value.digits@;
        self.value = Integer::new(self.value.sign, part(&self.value.digits, k, n));
        let count = Integer::from_usize(k);
        self.scale = Integer::sub(self.scale.copy(), count);
        proof {
            lemma_value_split(d, k as int);
            lemma_zeros_value(d.take(k as int));
            let u = d.skip(k as int);
            assert(u =~= d.subrange(k as int, n as int));
            lemma_canonical_zero(d);
            assert(u.last() == d.last());
            assert(u[0] != 0) by {
                if k + 1 == n {
                    if n == 1 {
                        assert(d =~= seq![d[0]]);
                    }
                }
            }
            assert(canonical(u)) by {
                assert forall|j: int| 0 <= j < u.len() implies #[trigger] u[j] < 10 by {
                    assert(u[j] == d[j + k]);
                }
            }
            let x = digits_value(u) as int;
            assert(digits_value(self.value.digits@) == x);
            let p = pow10(k as nat) as int;
            assert(digits_value(d) == p * x);
            lemma_value_split(u, 1);
            lemma_value_single(u[0]);
            assert(u.take(1) =~= seq![u[0]]);
            assert(pow10(1) == 10) by {
                assert(pow10(0) == 1);
            }
            let q = digits_value(u.skip(1)) as int;
            let u0 = u[0] as int;
            assert(x % 10 != 0) by (nonlinear_arith)
                requires
                    x == u0 + 10 * q,
                    0 < u0 < 10,
            ;
            assert(x > 0);
            assert((-x) * p == -(p * x)) by (nonlinear_arith);
            assert(x * p == p * x) by (nonlinear_arith);
        }
    }

    /// Lowers the scale by `times`, which multiplies the number by ten to
    /// the `times`.
    pub fn high_shift(&mut self, times: u32)
        requires
            old(self).wf(),
        ensures
            final(self).wf(),
            final(self).value == old(self).value,
            final(self).scale@ == old(self).scale@ - times,
    {
        self.scale = Integer::sub(self.scale.copy(), Integer::from_usize(times as usize));
    }

    /// Raises the scale by `times`, which divides the number by ten to the
    /// `times`.
    pub fn low_shift(&mut self, times: u32)
        requires
            old(self).wf(),
        ensures
            final(self).wf(),
            final(self).value == old(self).value,
            final(self).scale@ == old(self).scale@ + times,
    {
        self.scale = Integer::add(self.scale.copy(), Integer::from_usize(times as usize));
    }

    /// The same scale with the value's sign flipped.
    pub fn opposite(n: Self) -> (r: Self)
        requires
            n.wf(),
        ensures
            r.wf(),
            r.scale == n.scale,
            r.value@ == -n.value@,
    {
        Self::new(n.scale, Integer::opposite(n.value))
    }

    /// The value of `n` multiplied by ten to the `times`, canonical.
    fn scaled_value(n: Integer, times: usize) -> (r: Integer)
        requires
            n.wf(),
            times <= i32::MAX,
        ensures
            r.wf(),
            r@ == n@ * pow10(times as nat),
    {
        let mut v = n;
        v.high_shift(times as u32);
        proof {
            lemma_pow10_pos(times as nat);
            let x = digits_value(n.digits@) as int;
            let p = pow10(times as nat) as int;
            assert(x > 0 ==> p * x > 0) by (nonlinear_arith)
                requires
                    p >= 1,
            ;
            assert((-x) * p == -(p * x)) by (nonlinear_arith);
            assert(x * p == p * x) by (nonlinear_arith);
        }
        v.tidy();
        v
    }

    /// The distance `big - small` between two scales, as a native count.
    fn scale_gap(big: &Integer, small: &Integer) -> (r: usize)
        requires
            big.wf(),
            small.wf(),
            0 <= big@ - small@ <= i32::MAX,
        ensures
            r == big@ - small@,
    {
        let gap = Integer::sub(big.copy(), small.copy());
        gap.to_isize() as usize
    }

    /// The sum: the operand with the smaller scale is brought to the larger
    /// scale by appending zero digits, and the values are added.
    pub fn add(a: Self, b: Self) -> (r: Self)
        requires
            a.wf(),
            b.wf(),
            -(i32::MAX as int) <= a.scale@ - b.scale@ <= i32::MAX,
        ensures
            r.wf(),
            r.scale@ == max_int(a.scale@, b.scale@),
            r.value@ == sum_value(a.value@, a.scale@, b.value@, b.scale@),
    {
        let a_first: bool = match Integer::cmp(a.scale.copy(), b.scale.copy()) {
            Ordering::Greater => false,
            _ => true,
        };
        let (small, big) = if a_first {
            (a, b)
        } else {
            (b, a)
        };
        let gap: usize = Self::scale_gap(&big.scale, &small.scale);
        let lifted = Self::scaled_value(small.value, gap);
        proof {
            lemma_aligned_same(big.value@, big.scale@);
        }
        Self::new(big.scale, Integer::add(lifted, big.value))
    }

    pub fn sub(a: Self, b: Self) -> (r: Self)
        requires
            a.wf(),
            b.wf(),
            -(i32::MAX as int) <= a.scale@ - b.scale@ <= i32::MAX,
        ensures
            r.wf(),
            r.scale@ == max_int(a.scale@, b.scale@),
            r.value@ == sum_value(a.value@, a.scale@, -b.value@, b.scale@),
    {
        Self::add(a, Self::opposite(b))
    }

    /// The product: the scales add and the values multiply.
    pub fn mul(a: Self, b: Self) -> (r: Self)
        requires
            a.wf(),
            b.wf(),
        ensures
            r.wf(),
            r.scale@ == a.scale@ + b.scale@,
            r.value@ == a.value@ * b.value@,
    {
        Self::new(Integer::add(a.scale, b.scale), Integer::mul(a.value, b.value))
    }

    /// The order of the two numbers, found by bringing both to the larger
    /// scale.
    pub fn cmp(a: Self, b: Self) -> (r: Ordering)
        requires
            a.wf(),
            b.wf(),
            -(i32::MAX as int) <= a.scale@ - b.scale@ <= i32::MAX,
        ensures
            r == float_order(a.value@, a.scale@, b.value@, b.scale@),
    {
        let a_first: bool = match Integer::cmp(a.scale.copy(), b.scale.copy()) {
            Ordering::Greater => false,
            _ => true,
        };
        proof {
            lemma_aligned_same(a.value@, a.scale@);
            lemma_aligned_same(b.value@, b.scale@);
        }
        if a_first {
            let gap: usize = Self::scale_gap(&b.scale, &a.scale);
            Integer::cmp(Self::scaled_value(a.value, gap), b.value)
        } else {
            let gap: usize = Self::scale_gap(&a.scale, &b.scale);
            Integer::cmp(a.value, Self::scaled_value(b.value, gap))
        }
    }

    /// Reads an optional minus sign and digits with at most one decimal
    /// point; the scale is the number of digits after the point.
    pub fn from_string(string: String) -> (r: Result<Self, MalformedLiteral>)
        ensures
            match r {
                Ok(x) => {
                    &&& is_float_literal(string@)
                    &&& x.wf()
                    &&& x.scale@ == frac_len(unsigned_part(string@)) as int
                    &&& x.value@ == if string@.len() > 0 && string@[0] == '-' {
                        -(chars_value(mantissa(unsigned_part(string@))) as int)
                    } else {
                        chars_value(mantissa(unsigned_part(string@))) as int
                    }
                },
                Err(_) => !is_float_literal(string@),
            },
    {
        let s: &str = string.as_str();
        let len: usize = s.unicode_len();
        let mut start: usize = 0;
        if len > 0 && s.get_char(0) == '-' {
            start = 1;
        }
        let ghost b = unsigned_part(s@);
        proof {
            if start == 1 {
                assert(b =~= s@.subrange(1, len as int));
            } else {
                assert(b =~= s@.subrange(0, len as int));
            }
            assert(b.take(0) =~= seq![]);
        }
        let mut mant: Vec<char> = Vec::new();
        let mut dots: usize = 0;
        let mut frac: usize = 0;
        let mut i: usize = start;
        while i < len
            invariant
                start <= i <= len,
                start <= 1,
                len == s@.len(),
                s@ == string@,
                b == unsigned_part(s@),
                b == s@.subrange(start as int, len as int),
                mant@ == mantissa(b.take(i - start)),
                dots as nat == dot_count(b.take(i - start)),
                dots <= 1,
                frac as nat == frac_len(b.take(i - start)),
                frac <= i,
                forall|j: int|
                    0 <= j < i - start ==> is_digit_char(#[trigger] b[j]) || b[j] == '.',
            decreases len - i,
        {
            let c: char = s.get_char(i);
            let ghost pre = b.take(i - start);
            let ghost next = b.take(i + 1 - start);
            proof {
                assert(b[i - start] == c);
                assert(next.drop_last() =~= pre);
                assert(next.last() == c);
            }
            if c == '.' {
                if dots == 1 {
                    proof {
                        lemma_dot_count_prefix(b, i + 1 - start);
                    }
                    return Err(MalformedLiteral);
                }
                dots = 1;
                frac = 0;
            } else if '0' <= c && c <= '9' {
                mant.push(c);
                if dots == 1 {
                    frac = frac + 1;
                }
            } else {
                proof {
                    assert(!is_digit_char(b[i - start]) && b[i - start] != '.');
                }
                return Err(MalformedLiteral);
            }
            i = i + 1;
        }
        proof {
            assert(b.take(len - start) =~= b);
        }
        if mant.len() == 0 {
            return Err(MalformedLiteral);
        }
        proof {
            assert forall|j: int| 0 <= j < mant@.len() implies is_digit_char(#[trigger] mant@[j]) by {
                lemma_mantissa_digits(b, j);
            }
        }
        let digits = digits_from_chars(&mant);
        let negative: bool = start == 1;
        let magnitude = Integer::new(false, digits);
        let value = if negative {
            Integer::opposite(magnitude)
        } else {
            magnitude
        };
        Ok(Self::new(Integer::from_usize(frac), value))
    }

    /// The number in decimal; see `float_text`.
    pub fn to_string(self) -> (r: String)
        requires
            self.wf(),
            -(i32::MAX as int) <= self.scale@ <= i32::MAX,
        ensures
            r@ == float_text(self.value.sign, self.value.digits@, self.scale@),
    {
        let t = digit_chars_of(&self.value.digits);
        let s: isize = self.scale.copy().to_isize();
        let mut out: Vec<char> = Vec::new();
        if self.value.sign {
            out.push('-');
        }
        let ghost prefix = out@;
        proof {
            lemma_digit_chars_value(self.value.digits@);
        }
        if s <= 0 {
            push_range(&mut out, &t, 0, t.len());
            push_zeros(&mut out, (-s) as usize);
            proof {
                assert(t@.subrange(0, t@.len() as int) =~= t@);
                assert(out@ =~= prefix + float_body(self.value.digits@, self.scale@));
            }
        } else {
            let su: usize = s as usize;
            let pad: usize = if su + 1 > t.len() {
                su + 1 - t.len()
            } else {
                0
            };
            let mut p: Vec<char> = Vec::new();
            push_zeros(&mut p, pad);
            push_range(&mut p, &t, 0, t.len());
            proof {
                assert(t@.subrange(0, t@.len() as int) =~= t@);
            }
            let cut: usize = p.len() - su;
            push_range(&mut out, &p, 0, cut);
            out.push('.');
            push_range(&mut out, &p, cut, p.len());
            proof {
                assert(p@.subrange(0, cut as int) =~= p@.take(cut as int));
                assert(p@.subrange(cut as int, p@.len() as int) =~= p@.skip(cut as int));
                assert(out@ =~= prefix + float_body(self.value.digits@, self.scale@));
            }
        }
        proof {
            if self.value.sign {
                assert(prefix =~= seq!['-']);
            } else {
                assert(prefix =~= seq![]);
            }
            assert(out@ =~= float_text(self.value.sign, self.value.digits@, self.scale@));
        }
        string_from_chars(&out)
    }
}

/// Every character of the mantissa of a well-formed body is a digit.
proof fn lemma_mantissa_digits(b: Seq<char>, j: int)
    requires
        forall|i: int| 0 <= i < b.len() ==> is_digit_char(#[trigger] b[i]) || b[i] == '.',
        0 <= j < mantissa(b).len(),
    ensures
        is_digit_char(mantissa(b)[j]),
    decreases b.len(),
{
    let p = b.drop_last();
    assert forall|i: int| 0 <= i < p.len() implies is_digit_char(#[trigger] p[i]) || p[i] == '.' by {
        assert(p[i] == b[i]);
    }
    if b.last() == '.' {
        lemma_mantissa_digits(p, j);
    } else if j < mantissa(p).len() {
        lemma_mantissa_digits(p, j);
    } else {
        assert(is_digit_char(b[b.len() - 1]) || b[b.len() - 1] == '.');
    }
}

proof fn lemma_plain_digits(b: Seq<char>)
    requires
        all_digit_chars(b),
    ensures
        mantissa(b) == b,
        dot_count(b) == 0,
        frac_len(b) == 0,
    decreases b.len(),
{
    if b.len() > 0 {
        let p = b.drop_last();
        assert(all_digit_chars(p)) by {
            assert forall|i: int| 0 <= i < p.len() implies is_digit_char(#[trigger] p[i]) by {
                assert(p[i] == b[i]);
            }
        }
        lemma_plain_digits(p);
        assert(is_digit_char(b[b.len() - 1]));
        assert(mantissa(b) =~= b);
    }
}

proof fn lemma_pointed_digits(a: Seq<char>, e: Seq<char>)
    requires
        all_digit_chars(a),
        all_digit_chars(e),
    ensures
        mantissa(a + seq!['.'] + e) == a + e,
        dot_count(a + seq!['.'] + e) == 1,
        frac_len(a + seq!['.'] + e) == e.len(),
    decreases e.len(),
{
    let c = a + seq!['.'] + e;
    lemma_plain_digits(a);
    if e.len() == 0 {
        assert(c.drop_last() =~= a);
        assert(c =~= a + seq!['.']);
        assert(a + e =~= a);
    } else {
        let f = e.drop_last();
        assert(all_digit_chars(f)) by {
            assert forall|i: int| 0 <= i < f.len() implies is_digit_char(#[trigger] f[i]) by {
                assert(f[i] == e[i]);
            }
        }
        lemma_pointed_digits(a, f);
        assert(c.drop_last() =~= a + seq!['.'] + f);
        assert(c.last() == e.last());
        assert(is_digit_char(e[e.len() - 1]));
        assert(a + e =~= (a + f).push(e.last()));
    }
}

proof fn lemma_leading_zeros(k: nat, t: Seq<char>)
    ensures
        chars_value(zero_chars(k) + t) == chars_value(t),
    decreases k,
{
    if k > 0 {
        lemma_leading_zeros((k - 1) as nat, t);
        let rest = zero_chars((k - 1) as nat) + t;
        assert(zero_chars(k) + t =~= seq!['0'] + rest);
        lemma_chars_prepend('0', rest);
        assert(char_digit('0') == 0);
        let q = pow10(rest.len());
        assert(0 * q == 0) by (nonlinear_arith);
    } else {
        assert(zero_chars(k) + t =~= t);
    }
}

/// Printing a decimal of scale zero or more and reading the text back
/// gives the same value and scale. (A negative scale is printed as trailing
/// zeros, which read back at scale zero: `5` at scale `-1` prints as `50`.)
pub proof fn law_float_text_round_trip(x: Float)
    requires
        x.wf(),
        x.scale@ >= 0,
    ensures
        is_float_literal(float_text(x.value.sign, x.value.digits@, x.scale@)),
        frac_len(unsigned_part(float_text(x.value.sign, x.value.digits@, x.scale@))) == x.scale@,
        x.value@ == if x.value.sign {
            -(chars_value(
                mantissa(unsigned_part(float_text(x.value.sign, x.value.digits@, x.scale@))),
            ) as int)
        } else {
            chars_value(
                mantissa(unsigned_part(float_text(x.value.sign, x.value.digits@, x.scale@))),
            ) as int
        },
        float_text(x.value.sign, x.value.digits@, x.scale@)[0] == '-' <==> x.value.sign,
{
    let d = x.value.digits@;
    let s = x.scale@;
    let t = digit_chars(d);
    lemma_digit_chars_value(d);
    let body = float_body(d, s);
    let text = float_text(x.value.sign, d, s);
    if s == 0 {
        assert(body =~= t);
        lemma_plain_digits(t);
        assert(is_digit_char(body[0]));
    } else {
        let pad: nat = if s + 1 > t.len() {
            (s + 1 - t.len()) as nat
        } else {
            0
        };
        let p = zero_chars(pad) + t;
        let cut = p.len() - s;
        assert(all_digit_chars(p)) by {
            assert forall|i: int| 0 <= i < p.len() implies is_digit_char(#[trigger] p[i]) by {
                if i >= pad {
                    assert(p[i] == t[i - pad]);
                }
            }
        }
        let a = p.take(cut);
        let e = p.skip(cut);
        assert(all_digit_chars(a)) by {
            assert forall|i: int| 0 <= i < a.len() implies is_digit_char(#[trigger] a[i]) by {
                assert(a[i] == p[i]);
            }
        }
        assert(all_digit_chars(e)) by {
            assert forall|i: int| 0 <= i < e.len() implies is_digit_char(#[trigger] e[i]) by {
                assert(e[i] == p[i + cut]);
            }
        }
        lemma_pointed_digits(a, e);
        assert(a + e =~= p);
        lemma_leading_zeros(pad, t);
        assert(body == a + seq!['.'] + e);
        assert(body[0] == p[0]);
        assert(forall|i: int| 0 <= i < body.len() ==> is_digit_char(#[trigger] body[i]) || body[i]
            == '.') by {
            assert forall|i: int| 0 <= i < body.len() implies is_digit_char(#[trigger] body[i])
                || body[i] == '.' by {
                if i < a.len() {
                    assert(body[i] == a[i]);
                } else if i > a.len() {
                    assert(body[i] == e[i - a.len() - 1]);
                }
            }
        }
    }
    if x.value.sign {
        assert(text.drop_first() =~= body);
    }
    assert(unsigned_part(text) == body);
}

} // verus!
