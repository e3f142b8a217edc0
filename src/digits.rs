//! Base-ten digit sequences, least significant digit first, and the
//! arithmetic on their magnitudes.
use std::cmp::Ordering;
use vstd::arithmetic::power2::{lemma2_to64, lemma_pow2_strictly_increases, lemma_pow2_unfold, pow2};
use vstd::prelude::*;

verus! {

/// The radix of every digit sequence.
pub const BASIC_INT_RADIX: usize = 10;

pub open spec fn pow10(n: nat) -> nat
    decreases n,
{
    if n == 0 {
        1
    } else {
        10 * pow10((n - 1) as nat)
    }
}

/// The magnitude that a digit sequence denotes (index 0 is the ones digit).
pub open spec fn digits_value(s: Seq<u8>) -> nat
    decreases s.len(),
{
    if s.len() == 0 {
        0
    } else {
        digits_value(s.drop_last()) + (s.last() as nat) * pow10((s.len() - 1) as nat)
    }
}

/// Every digit lies in `[0, 10)`.
pub open spec fn digits_ok(s: Seq<u8>) -> bool {
    forall|i: int| 0 <= i < s.len() ==> #[trigger] s[i] < 10
}

/// At least one digit, all in range, and no most-significant zero
/// unless the sequence is the single digit zero.
pub open spec fn canonical(s: Seq<u8>) -> bool {
    &&& s.len() >= 1
    &&& digits_ok(s)
    &&& (s.len() == 1 || s.last() != 0)
}

pub proof fn lemma_pow10_pos(n: nat)
    ensures
        pow10(n) >= 1,
    decreases n,
{
    if n > 0 {
        lemma_pow10_pos((n - 1) as nat);
    }
}

pub proof fn lemma_pow10_add(a: nat, b: nat)
    ensures
        pow10(a + b) == pow10(a) * pow10(b),
    decreases b,
{
    if b > 0 {
        lemma_pow10_add(a, (b - 1) as nat);
        assert((a + b - 1) as nat == a + (b - 1) as nat);
        let x = pow10(a) as int;
        let y = pow10((b - 1) as nat) as int;
        assert(pow10(a + b) == 10 * (x * y));
        assert(pow10(b) == 10 * y);
        assert(10 * (x * y) == x * (10 * y)) by (nonlinear_arith);
    } else {
        assert(pow10(0) == 1);
        assert(a + b == a);
    }
}

pub proof fn lemma_pow10_mono(a: nat, b: nat)
    requires
        a <= b,
    ensures
        pow10(a) <= pow10(b),
        a < b ==> pow10(a) * 10 <= pow10(b),
    decreases b,
{
    lemma_pow10_pos(a);
    if a < b {
        lemma_pow10_mono(a, (b - 1) as nat);
    }
}

pub proof fn lemma_value_bound(s: Seq<u8>)
    requires
        digits_ok(s),
    ensures
        digits_value(s) < pow10(s.len()),
    decreases s.len(),
{
    if s.len() > 0 {
        let p = s.drop_last();
        assert(digits_ok(p)) by {
            assert forall|i: int| 0 <= i < p.len() implies #[trigger] p[i] < 10 by {
                assert(p[i] == s[i]);
            }
        }
        lemma_value_bound(p);
        let n = (s.len() - 1) as nat;
        assert(s[s.len() - 1] < 10);
        assert((s.last() as nat) * pow10(n) <= 9 * pow10(n)) by (nonlinear_arith)
            requires
                s.last() < 10,
        ;
    }
}

pub proof fn lemma_value_push(s: Seq<u8>, d: u8)
    ensures
        digits_value(s.push(d)) == digits_value(s) + (d as nat) * pow10(s.len()),
{
    assert(s.push(d).drop_last() =~= s);
}

pub proof fn lemma_value_single(x: u8)
    ensures
        digits_value(seq![x]) == x as nat,
{
    let e: Seq<u8> = Seq::empty();
    assert(seq![x].drop_last() =~= e);
    assert(digits_value(e) == 0);
    let one = pow10(0);
    assert(one == 1);
    let y = x as nat;
    assert(y * one == y) by (nonlinear_arith)
        requires
            one == 1,
    ;
}

/// The value of a prefix grows by the next digit times its place value.
pub proof fn lemma_value_take(s: Seq<u8>, i: int)
    requires
        0 <= i < s.len(),
    ensures
        digits_value(s.take(i + 1)) == digits_value(s.take(i)) + (s[i] as nat) * pow10(i as nat),
{
    assert(s.take(i + 1).drop_last() =~= s.take(i));
}

pub proof fn lemma_canonical_lower(s: Seq<u8>)
    requires
        canonical(s),
        s.len() > 1,
    ensures
        digits_value(s) >= pow10((s.len() - 1) as nat),
{
    let n = (s.len() - 1) as nat;
    assert((s.last() as nat) * pow10(n) >= pow10(n)) by (nonlinear_arith)
        requires
            s.last() >= 1,
    ;
}

/// A canonical sequence is zero exactly when it is the single digit zero.
pub proof fn lemma_canonical_zero(s: Seq<u8>)
    requires
        canonical(s),
    ensures
        (digits_value(s) == 0) <==> (s =~= seq![0u8]),
{
    if s.len() > 1 {
        lemma_canonical_lower(s);
        lemma_pow10_pos((s.len() - 1) as nat);
    } else {
        assert(s.drop_last().len() == 0);
        assert(digits_value(s.drop_last()) == 0);
        assert(pow10(0) == 1);
        assert(s.last() == s[0]);
        assert(digits_value(s) == digits_value(s.drop_last()) + (s.last() as nat) * pow10(0));
        assert(digits_value(s) == s[0] as nat);
    }
}

proof fn lemma_same_len_unique(s: Seq<u8>, t: Seq<u8>)
    requires
        digits_ok(s),
        digits_ok(t),
        s.len() == t.len(),
        digits_value(s) == digits_value(t),
    ensures
        s == t,
    decreases s.len(),
{
    if s.len() == 0 {
        assert(s =~= t);
    } else {
        let ps = s.drop_last();
        let pt = t.drop_last();
        assert(digits_ok(ps)) by {
            assert forall|i: int| 0 <= i < ps.len() implies #[trigger] ps[i] < 10 by {
                assert(ps[i] == s[i]);
            }
        }
        assert(digits_ok(pt)) by {
            assert forall|i: int| 0 <= i < pt.len() implies #[trigger] pt[i] < 10 by {
                assert(pt[i] == t[i]);
            }
        }
        lemma_value_bound(ps);
        lemma_value_bound(pt);
        let n = (s.len() - 1) as nat;
        let p = pow10(n);
        let x = s.last() as int;
        let y = t.last() as int;
        let a = digits_value(ps) as int;
        let b = digits_value(pt) as int;
        assert(x == y) by {
            if x < y {
                assert(a + x * p < b + y * p) by (nonlinear_arith)
                    requires
                        x < y,
                        0 <= a < p,
                        0 <= b,
                ;
            } else if x > y {
                assert(a + x * p > b + y * p) by (nonlinear_arith)
                    requires
                        x > y,
                        0 <= b < p,
                        0 <= a,
                ;
            }
        }
        lemma_same_len_unique(ps, pt);
        assert(s =~= ps.push(s.last()));
        assert(t =~= pt.push(t.last()));
    }
}

/// A canonical sequence that is not longer than another has no larger value;
/// hence a smaller value means a sequence that is not longer.
pub proof fn lemma_canonical_len(s: Seq<u8>, t: Seq<u8>)
    requires
        canonical(s),
        canonical(t),
    ensures
        s.len() < t.len() ==> digits_value(s) < digits_value(t),
        digits_value(s) <= digits_value(t) ==> s.len() <= t.len(),
{
    if s.len() < t.len() {
        lemma_value_bound(s);
        lemma_canonical_lower(t);
        lemma_pow10_mono(s.len(), (t.len() - 1) as nat);
    }
    if t.len() < s.len() {
        lemma_value_bound(t);
        lemma_canonical_lower(s);
        lemma_pow10_mono(t.len(), (s.len() - 1) as nat);
    }
}

/// Equal values have one canonical sequence.
pub proof fn lemma_canonical_unique(s: Seq<u8>, t: Seq<u8>)
    requires
        canonical(s),
        canonical(t),
        digits_value(s) == digits_value(t),
    ensures
        s == t,
{
    lemma_canonical_len(s, t);
    lemma_canonical_len(t, s);
    lemma_same_len_unique(s, t);
}

/// The value of a sequence splits at any position into its low part and
/// its high part scaled by the place value of that position.
pub proof fn lemma_value_split(s: Seq<u8>, k: int)
    requires
        0 <= k <= s.len(),
    ensures
        digits_value(s) == digits_value(s.take(k)) + pow10(k as nat) * digits_value(s.skip(k)),
    decreases s.len(),
{
    if s.len() == k {
        assert(s.take(k) =~= s);
        assert(s.skip(k).len() == 0);
        assert(digits_value(s.skip(k)) == 0);
        assert(pow10(k as nat) * 0 == 0);
    } else {
        let p = s.drop_last();
        lemma_value_split(p, k);
        assert(p.take(k) =~= s.take(k));
        let h = s.skip(k);
        assert(h.drop_last() =~= p.skip(k));
        assert(h.last() == s.last());
        let n = (s.len() - 1 - k) as nat;
        lemma_pow10_add(k as nat, n);
        assert(pow10(k as nat) * (digits_value(p.skip(k)) + (s.last() as nat) * pow10(n))
            == pow10(k as nat) * digits_value(p.skip(k)) + (s.last() as nat) * (pow10(k as nat)
            * pow10(n))) by (nonlinear_arith);
        assert((k as nat + n) == (s.len() - 1) as nat);
        assert(h.len() - 1 == n);
        assert(digits_value(h) == digits_value(h.drop_last()) + (h.last() as nat) * pow10(n));
    }
}

pub proof fn lemma_zeros_value(s: Seq<u8>)
    requires
        forall|i: int| 0 <= i < s.len() ==> #[trigger] s[i] == 0,
    ensures
        digits_value(s) == 0,
    decreases s.len(),
{
    if s.len() > 0 {
        lemma_zeros_value(s.drop_last());
    }
}

/// Drops most-significant zero digits, keeping at least one digit.
pub fn trim(v: &mut Vec<u8>)
    requires
        digits_ok(old(v)@),
    ensures
        canonical(final(v)@),
        digits_value(final(v)@) == digits_value(old(v)@),
        final(v)@.len() <= old(v)@.len() || old(v)@.len() == 0,
{
    while v.len() > 1 && v[v.len() - 1] == 0
        invariant
            digits_ok(v@),
            digits_value(v@) == digits_value(old(v)@),
            v@.len() <= old(v)@.len(),
        decreases v.len(),
    {
        let ghost before = v@;
        proof {
            assert(before.drop_last().push(0) =~= before);
            lemma_value_push(before.drop_last(), 0);
            let q = pow10(before.drop_last().len());
            assert(0 * q == 0) by (nonlinear_arith);
        }
        v.pop();
        proof {
            assert(v@ =~= before.drop_last());
            assert(digits_ok(v@)) by {
                assert forall|i: int| 0 <= i < v@.len() implies #[trigger] v@[i] < 10 by {
                    assert(v@[i] == before[i]);
                }
            }
        }
    }
    if v.len() == 0 {
        v.push(0);
        proof {
            lemma_value_push(seq![], 0);
            assert(v@ =~= seq![0u8]);
        }
    }
}

/// The digit at position `i`, zero past the end.
pub open spec fn digit_at(s: Seq<u8>, i: int) -> nat {
    if 0 <= i < s.len() {
        s[i] as nat
    } else {
        0
    }
}

/// The value of the digits below position `i`.
pub open spec fn prefix_value(s: Seq<u8>, i: int) -> nat {
    if i <= s.len() {
        digits_value(s.take(i))
    } else {
        digits_value(s)
    }
}

/// The order of two integers.
pub open spec fn ordering_of(x: int, y: int) -> Ordering {
    if x < y {
        Ordering::Less
    } else if x == y {
        Ordering::Equal
    } else {
        Ordering::Greater
    }
}

pub proof fn lemma_prefix_step(s: Seq<u8>, i: int)
    requires
        0 <= i,
    ensures
        prefix_value(s, i + 1) == prefix_value(s, i) + digit_at(s, i) * pow10(i as nat),
        prefix_value(s, 0) == 0,
        i >= s.len() ==> prefix_value(s, i) == digits_value(s),
{
    assert(s.take(0).len() == 0);
    assert(digits_value(s.take(0)) == 0);
    if i < s.len() {
        lemma_value_take(s, i);
    } else if i == s.len() {
        assert(s.take(i) =~= s);
    }
}

/// The sum of two digit sequences, in canonical form.
pub fn digits_add(a: &Vec<u8>, b: &Vec<u8>) -> (r: Vec<u8>)
    requires
        digits_ok(a@),
        digits_ok(b@),
    ensures
        canonical(r@),
        digits_value(r@) == digits_value(a@) + digits_value(b@),
{
    let n: usize = if a.len() > b.len() {
        a.len()
    } else {
        b.len()
    };
    let mut r: Vec<u8> = Vec::new();
    let mut carry: u8 = 0;
    let mut i: usize = 0;
    proof {
        lemma_prefix_step(a@, 0);
        lemma_prefix_step(b@, 0);
    }
    while i < n
        invariant
            n >= a.len(),
            n >= b.len(),
            i <= n,
            r@.len() == i,
            digits_ok(a@),
            digits_ok(b@),
            digits_ok(r@),
            carry <= 1,
            digits_value(r@) + (carry as nat) * pow10(i as nat) == prefix_value(a@, i as int)
                + prefix_value(b@, i as int),
        decreases n - i,
    {
        let x: u8 = if i < a.len() {
            a[i]
        } else {
            0
        };
        let y: u8 = if i < b.len() {
            b[i]
        } else {
            0
        };
        let t: u8 = x + y + carry;
        let d: u8 = if t >= 10 {
            t - 10
        } else {
            t
        };
        let c: u8 = if t >= 10 {
            1
        } else {
            0
        };
        proof {
            lemma_prefix_step(a@, i as int);
            lemma_prefix_step(b@, i as int);
            lemma_value_push(r@, d);
            let p = pow10(i as nat) as int;
            assert(pow10((i + 1) as nat) == 10 * p);
            assert((d as int) * p + (c as int) * (10 * p) == (x as int) * p + (y as int) * p + (
            carry as int) * p) by (nonlinear_arith)
                requires
                    d + 10 * c == x + y + carry,
            ;
        }
        r.push(d);
        carry = c;
        i = i + 1;
    }
    proof {
        lemma_prefix_step(a@, n as int);
        lemma_prefix_step(b@, n as int);
        lemma_value_push(r@, carry);
    }
    if carry > 0 {
        r.push(carry);
    }
    trim(&mut r);
    r
}

/// The difference of two canonical digit sequences, the first no smaller.
pub fn digits_sub(big: &Vec<u8>, small: &Vec<u8>) -> (r: Vec<u8>)
    requires
        canonical(big@),
        canonical(small@),
        digits_value(small@) <= digits_value(big@),
    ensures
        canonical(r@),
        digits_value(r@) == digits_value(big@) - digits_value(small@),
{
    proof {
        lemma_canonical_len(small@, big@);
        lemma_prefix_step(big@, 0);
        lemma_prefix_step(small@, 0);
    }
    let n: usize = big.len();
    let mut r: Vec<u8> = Vec::new();
    let mut borrow: u8 = 0;
    let mut i: usize = 0;
    while i < n
        invariant
            n == big.len(),
            small.len() <= n,
            i <= n,
            r@.len() == i,
            digits_ok(big@),
            digits_ok(small@),
            digits_ok(r@),
            borrow <= 1,
            digits_value(r@) + prefix_value(small@, i as int) == prefix_value(big@, i as int) + (
            borrow as nat) * pow10(i as nat),
        decreases n - i,
    {
        let x: u8 = big[i];
        let y: u8 = if i < small.len() {
            small[i]
        } else {
            0
        };
        let d: u8;
        let c: u8;
        if x >= y + borrow {
            d = x - y - borrow;
            c = 0;
        } else {
            d = x + 10 - y - borrow;
            c = 1;
        }
        proof {
            lemma_prefix_step(big@, i as int);
            lemma_prefix_step(small@, i as int);
            lemma_value_push(r@, d);
            let p = pow10(i as nat) as int;
            assert(pow10((i + 1) as nat) == 10 * p);
            assert((d as int) * p + (y as int) * p == (x as int) * p + (c as int) * (10 * p) - (
            borrow as int) * p) by (nonlinear_arith)
                requires
                    d + y == x + 10 * c - borrow,
            ;
        }
        r.push(d);
        borrow = c;
        i = i + 1;
    }
    proof {
        lemma_prefix_step(big@, n as int);
        lemma_prefix_step(small@, n as int);
        lemma_value_bound(r@);
        if borrow == 1 {
            assert((borrow as nat) * pow10(n as nat) == pow10(n as nat));
        }
        assert(borrow == 0);
    }
    trim(&mut r);
    r
}

/// Compares the magnitudes of two canonical digit sequences.
pub fn digits_cmp(a: &Vec<u8>, b: &Vec<u8>) -> (r: Ordering)
    requires
        canonical(a@),
        canonical(b@),
    ensures
        r == ordering_of(digits_value(a@) as int, digits_value(b@) as int),
{
    proof {
        lemma_canonical_len(a@, b@);
        lemma_canonical_len(b@, a@);
    }
    if a.len() > b.len() {
        return Ordering::Greater;
    } else if a.len() < b.len() {
        return Ordering::Less;
    }
    let mut i: usize = a.len();
    while i > 0
        invariant
            i <= a.len(),
            a.len() == b.len(),
            canonical(a@),
            canonical(b@),
            a@.skip(i as int) == b@.skip(i as int),
        decreases i,
    {
        if a[i - 1] != b[i - 1] {
            proof {
                let k = (i - 1) as int;
                lemma_value_split(a@, i as int);
                lemma_value_split(b@, i as int);
                lemma_value_take(a@, k);
                lemma_value_take(b@, k);
                let ta = a@.take(k);
                let tb = b@.take(k);
                assert(digits_ok(ta)) by {
                    assert forall|j: int| 0 <= j < ta.len() implies #[trigger] ta[j] < 10 by {
                        assert(ta[j] == a@[j]);
                    }
                }
                assert(digits_ok(tb)) by {
                    assert forall|j: int| 0 <= j < tb.len() implies #[trigger] tb[j] < 10 by {
                        assert(tb[j] == b@[j]);
                    }
                }
                lemma_value_bound(ta);
                lemma_value_bound(tb);
                let p = pow10(k as nat) as int;
                let va = digits_value(ta) as int;
                let vb = digits_value(tb) as int;
                let x = a@[k] as int;
                let y = b@[k] as int;
                if x > y {
                    assert(va + x * p > vb + y * p) by (nonlinear_arith)
                        requires
                            x > y,
                            0 <= vb < p,
                            0 <= va,
                    ;
                } else {
                    assert(va + x * p < vb + y * p) by (nonlinear_arith)
                        requires
                            x < y,
                            0 <= va < p,
                            0 <= vb,
                    ;
                }
            }
            if a[i - 1] > b[i - 1] {
                return Ordering::Greater;
            } else {
                return Ordering::Less;
            }
        }
        proof {
            assert(a@.skip(i - 1) =~= seq![a@[i - 1]] + a@.skip(i as int));
            assert(b@.skip(i - 1) =~= seq![b@[i - 1]] + b@.skip(i as int));
        }
        i = i - 1;
    }
    proof {
        assert(a@ =~= a@.skip(0));
        assert(b@ =~= b@.skip(0));
    }
    Ordering::Equal
}

/// The sequence with `k` zero digits put below its least significant digit,
/// which multiplies its value by ten to the `k`.
pub fn shifted(v: &Vec<u8>, k: usize) -> (r: Vec<u8>)
    requires
        digits_ok(v@),
    ensures
        r@ == Seq::new(k as nat, |j: int| 0u8) + v@,
        digits_ok(r@),
        digits_value(r@) == pow10(k as nat) * digits_value(v@),
{
    let mut r: Vec<u8> = Vec::new();
    let mut i: usize = 0;
    while i < k
        invariant
            i <= k,
            r@ == Seq::new(i as nat, |j: int| 0u8),
        decreases k - i,
    {
        r.push(0);
        i = i + 1;
        proof {
            assert(r@ =~= Seq::new(i as nat, |j: int| 0u8));
        }
    }
    let mut j: usize = 0;
    while j < v.len()
        invariant
            j <= v.len(),
            r@ == Seq::new(k as nat, |j: int| 0u8) + v@.take(j as int),
        decreases v.len() - j,
    {
        r.push(v[j]);
        j = j + 1;
        proof {
            assert(r@ =~= Seq::new(k as nat, |j: int| 0u8) + v@.take(j as int));
        }
    }
    proof {
        assert(v@.take(v.len() as int) =~= v@);
        let z = Seq::new(k as nat, |j: int| 0u8);
        lemma_value_split(r@, k as int);
        assert(r@.take(k as int) =~= z);
        assert(r@.skip(k as int) =~= v@);
        lemma_zeros_value(z);
    }
    r
}

/// Carries every digit of ten or more into the next position and trims
/// the result: the canonical sequence of the same value.
pub fn normalize(v: &mut Vec<u8>)
    ensures
        canonical(final(v)@),
        digits_value(final(v)@) == digits_value(old(v)@),
{
    let n: usize = v.len();
    let mut r: Vec<u8> = Vec::new();
    let mut carry: u8 = 0;
    let mut i: usize = 0;
    proof {
        lemma_prefix_step(v@, 0);
    }
    while i < n
        invariant
            n == v.len(),
            i <= n,
            r@.len() == i,
            digits_ok(r@),
            carry <= 28,
            digits_value(r@) + (carry as nat) * pow10(i as nat) == prefix_value(v@, i as int),
        decreases n - i,
    {
        let t: u16 = v[i] as u16 + carry as u16;
        let d: u8 = (t % 10) as u8;
        let c: u8 = (t / 10) as u8;
        proof {
            lemma_prefix_step(v@, i as int);
            lemma_value_push(r@, d);
            let p = pow10(i as nat) as int;
            assert(pow10((i + 1) as nat) == 10 * p);
            assert((d as int) * p + (c as int) * (10 * p) == (v@[i as int] as int) * p + (
            carry as int) * p) by (nonlinear_arith)
                requires
                    d + 10 * c == v@[i as int] + carry,
            ;
        }
        r.push(d);
        carry = c;
        i = i + 1;
    }
    proof {
        lemma_prefix_step(v@, n as int);
        let p = pow10(n as nat) as int;
        lemma_value_push(r@, carry % 10);
        lemma_value_push(r@.push(carry % 10), carry / 10);
        assert(pow10((n + 1) as nat) == 10 * p);
        assert((carry as int) * p == ((carry % 10) as int) * p + ((carry / 10) as int) * (10 * p))
            by (nonlinear_arith)
            requires
                carry == carry % 10 + 10 * (carry / 10),
        ;
    }
    r.push(carry % 10);
    r.push(carry / 10);
    trim(&mut r);
    *v = r;
}

/// The canonical sequence of the digits in positions `from..to`.
pub fn part(v: &Vec<u8>, from: usize, to: usize) -> (r: Vec<u8>)
    requires
        digits_ok(v@),
        from <= to <= v.len(),
    ensures
        canonical(r@),
        digits_value(r@) == digits_value(v@.subrange(from as int, to as int)),
{
    let mut r: Vec<u8> = Vec::new();
    let mut i: usize = from;
    while i < to
        invariant
            from <= i <= to,
            to <= v.len(),
            r@ == v@.subrange(from as int, i as int),
        decreases to - i,
    {
        r.push(v[i]);
        i = i + 1;
        proof {
            assert(r@ =~= v@.subrange(from as int, i as int));
        }
    }
    proof {
        assert(digits_ok(r@)) by {
            assert forall|j: int| 0 <= j < r@.len() implies #[trigger] r@[j] < 10 by {
                assert(r@[j] == v@[from + j]);
            }
        }
    }
    trim(&mut r);
    r
}

/// Two to the power `level`, the group width of that recursion level.
fn group_width(level: u32) -> (w: usize)
    requires
        pow2(level as nat) <= usize::MAX,
    ensures
        w == pow2(level as nat),
{
    let mut w: usize = 1;
    let mut k: u32 = 0;
    proof {
        lemma2_to64();
    }
    while k < level
        invariant
            k <= level,
            w == pow2(k as nat),
            pow2(level as nat) <= usize::MAX,
        decreases level - k,
    {
        proof {
            if k + 1 < level {
                lemma_pow2_strictly_increases((k + 1) as nat, level as nat);
            }
            lemma_pow2_unfold((k + 1) as nat);
        }
        w = w * 2;
        k = k + 1;
    }
    w
}

/// The recursion level for operands of at most `n` digits: one less than
/// the base-two logarithm of `n` rounded up, and zero for one or two digits.
fn level_for(n: usize) -> (l: u32)
    requires
        n >= 1,
    ensures
        pow2(l as nat) <= usize::MAX,
        l == 0 ==> n <= 2,
        l > 0 ==> pow2(l as nat) < n <= 2 * pow2(l as nat),
{
    let mut w: usize = 1;
    let mut l: u32 = 0;
    proof {
        lemma2_to64();
    }
    while w < n - w
        invariant
            1 <= w <= n,
            w == pow2(l as nat),
            l < 64,
            l > 0 ==> w < n,
        decreases n - w,
    {
        proof {
            lemma_pow2_unfold((l + 1) as nat);
            lemma2_to64();
            if l + 1 == 64 {
                assert(pow2(64) > usize::MAX);
            }
        }
        w = w * 2;
        l = l + 1;
    }
    proof {
        lemma2_to64();
        if l > 0 {
            lemma_pow2_unfold(l as nat);
        }
    }
    l
}

/// The product of two canonical numbers of at most two digits each,
/// assembled from three one-digit products and renormalized.
fn base_mul(a: &Vec<u8>, b: &Vec<u8>) -> (r: Vec<u8>)
    requires
        canonical(a@),
        canonical(b@),
        a.len() <= 2,
        b.len() <= 2,
    ensures
        canonical(r@),
        digits_value(r@) == digits_value(a@) * digits_value(b@),
{
    let a0: u8 = a[0];
    let a1: u8 = if a.len() > 1 {
        a[1]
    } else {
        0
    };
    let b0: u8 = b[0];
    let b1: u8 = if b.len() > 1 {
        b[1]
    } else {
        0
    };
    proof {
        assert(a@[0] < 10 && b@[0] < 10);
        if a.len() > 1 {
            assert(a@[1] < 10);
        }
        if b.len() > 1 {
            assert(b@[1] < 10);
        }
        assert(a0 * b0 <= 81 && a1 * b1 <= 81) by (nonlinear_arith)
            requires
                a0 < 10,
                b0 < 10,
                a1 < 10,
                b1 < 10,
        ;
        assert((a0 + a1) * (b0 + b1) == a0 * b0 + a1 * b1 + a0 * b1 + a1 * b0 && a0 * b1 + a1 * b0
            <= 162) by (nonlinear_arith)
            requires
                a0 < 10,
                b0 < 10,
                a1 < 10,
                b1 < 10,
        ;
    }
    let r1: u8 = a0 * b0;
    let r4: u8 = a1 * b1;
    let r23: u16 = (a0 as u16 + a1 as u16) * (b0 as u16 + b1 as u16) - r1 as u16 - r4 as u16;
    let mut messy: Vec<u8> = vec![
        r1 % 10,
        r1 / 10 + (r23 % 10) as u8,
        (r23 / 10) as u8 + r4 % 10,
        r4 / 10,
    ];
    proof {
        lemma_prefix_step(a@, 0);
        lemma_prefix_step(a@, 1);
        lemma_prefix_step(a@, 2);
        lemma_prefix_step(b@, 0);
        lemma_prefix_step(b@, 1);
        lemma_prefix_step(b@, 2);
        assert(pow10(1) == 10);
        assert(pow10(2) == 100);
        assert(pow10(3) == 1000);
        assert(digit_at(a@, 0) == a0 && digit_at(a@, 1) == a1);
        assert(digit_at(b@, 0) == b0 && digit_at(b@, 1) == b1);
        assert(pow10(0) == 1);
        assert(prefix_value(a@, 1) == a0);
        assert(prefix_value(a@, 2) == a0 + a1 * 10);
        assert(prefix_value(a@, 2) == digits_value(a@));
        assert(digits_value(a@) == a0 + 10 * a1);
        assert(prefix_value(b@, 1) == b0);
        assert(prefix_value(b@, 2) == b0 + b1 * 10);
        assert(prefix_value(b@, 2) == digits_value(b@));
        assert(digits_value(b@) == b0 + 10 * b1);
        let m = messy@;
        lemma_value_push(seq![], m[0]);
        lemma_value_push(seq![m[0]], m[1]);
        lemma_value_push(seq![m[0], m[1]], m[2]);
        lemma_value_push(seq![m[0], m[1], m[2]], m[3]);
        assert(seq![].push(m[0]) =~= seq![m[0]]);
        assert(seq![m[0]].push(m[1]) =~= seq![m[0], m[1]]);
        assert(seq![m[0], m[1]].push(m[2]) =~= seq![m[0], m[1], m[2]]);
        assert(seq![m[0], m[1], m[2]].push(m[3]) =~= m);
        assert(digits_value(seq![]) == 0);
        lemma_value_single(m[0]);
        assert(digits_value(seq![m[0], m[1]]) == m[0] + 10 * m[1]);
        assert(digits_value(seq![m[0], m[1], m[2]]) == m[0] + 10 * m[1] + 100 * m[2]);
        assert(digits_value(m) == m[0] + 10 * m[1] + 100 * m[2] + 1000 * m[3]);
        assert(m[0] + 10 * m[1] + 100 * m[2] + 1000 * m[3] == r1 + 10 * r23 + 100 * r4);
        assert((a0 + 10 * a1) * (b0 + 10 * b1) == r1 + 10 * r23 + 100 * r4) by (nonlinear_arith)
            requires
                r1 == a0 * b0,
                r4 == a1 * b1,
                r23 == (a0 + a1) * (b0 + b1) - r1 - r4,
        ;
    }
    normalize(&mut messy);
    messy
}

/// Splitting a canonical sequence at `min(w, len)` gives a low part and a
/// high part with `s == lo + 10^w * hi`; each part, and their sum, is no
/// larger than `s`, and strictly smaller when the high part is not empty.
proof fn lemma_halves(s: Seq<u8>, w: nat, wa: int, lo: Seq<u8>, hi: Seq<u8>)
    requires
        canonical(s),
        w >= 1,
        wa == if w < s.len() { w as int } else { s.len() as int },
        digits_value(lo) == digits_value(s.subrange(0, wa)),
        digits_value(hi) == digits_value(s.subrange(wa, s.len() as int)),
    ensures
        digits_value(s) == digits_value(lo) + pow10(w) * digits_value(hi),
        digits_value(lo) <= digits_value(s),
        digits_value(hi) <= digits_value(s),
        digits_value(lo) + digits_value(hi) <= digits_value(s),
        w < s.len() ==> digits_value(lo) < digits_value(s) && digits_value(hi) < digits_value(s)
            && digits_value(lo) + digits_value(hi) < digits_value(s),
{
    lemma_value_split(s, wa);
    assert(s.take(wa) =~= s.subrange(0, wa));
    assert(s.skip(wa) =~= s.subrange(wa, s.len() as int));
    lemma_pow10_pos(w);
    lemma_pow10_mono(1, w);
    assert(pow10(1) == 10) by {
        assert(pow10(0) == 1);
    }
    let p = pow10(w) as int;
    let v = digits_value(s) as int;
    let l = digits_value(lo) as int;
    let h = digits_value(hi) as int;
    if wa == s.len() {
        assert(s.subrange(wa, s.len() as int).len() == 0);
        assert(h == 0);
        assert(pow10(wa as nat) * 0 == 0);
        assert(p * h == 0);
    } else {
        let t = s.subrange(wa, s.len() as int);
        assert(t.last() == s.last());
        lemma_value_split(t, t.len() - 1);
        assert(t.skip(t.len() - 1) =~= seq![s.last()]);
        lemma_value_push(seq![], s.last());
        assert(seq![].push(s.last()) =~= seq![s.last()]);
        lemma_pow10_pos((t.len() - 1) as nat);
        let q = pow10((t.len() - 1) as nat) as int;
        let tv = digits_value(t.take(t.len() - 1)) as int;
        let d = s.last() as int;
        if s.len() > 1 {
            assert(d >= 1);
        } else {
            assert(false);
        }
        assert(tv + q * d >= 1) by (nonlinear_arith)
            requires
                q >= 1,
                d >= 1,
                tv >= 0,
        ;
        assert(h >= 1);
        assert(l < v && h < v && l + h < v) by (nonlinear_arith)
            requires
                v == l + p * h,
                p >= 10,
                l >= 0,
                h >= 1,
        ;
    }
    assert(l <= v && h <= v && l + h <= v) by (nonlinear_arith)
        requires
            v == l + p * h,
            p >= 1,
            l >= 0,
            h >= 0,
    ;
}

/// The recombination of the three partial products.
proof fn lemma_recombine(va: int, vb: int, al: int, ah: int, bl: int, bh: int, p: int)
    requires
        va == al + p * ah,
        vb == bl + p * bh,
    ensures
        va * vb == al * bl + p * ((al + ah) * (bl + bh) - al * bl - ah * bh) + p * (p * (ah * bh)),
        al >= 0 && ah >= 0 && bl >= 0 && bh >= 0 ==> al * bl + ah * bh <= (al + ah) * (bl + bh),
{
    let x = p * ah;
    let y = p * bh;
    assert((al + ah) * (bl + bh) == al * bl + al * bh + ah * bl + ah * bh) by (nonlinear_arith);
    assert((al + x) * (bl + y) == al * bl + al * y + x * bl + x * y) by (nonlinear_arith);
    assert(al * y == p * (al * bh)) by (nonlinear_arith)
        requires
            y == p * bh,
    ;
    assert(x * bl == p * (ah * bl)) by (nonlinear_arith)
        requires
            x == p * ah,
    ;
    assert(x * y == p * (p * (ah * bh))) by (nonlinear_arith)
        requires
            x == p * ah,
            y == p * bh,
    ;
    assert(p * (al * bh) + p * (ah * bl) == p * (al * bh + ah * bl)) by (nonlinear_arith);
    if al >= 0 && ah >= 0 && bl >= 0 && bh >= 0 {
        assert(al * bh + ah * bl >= 0) by (nonlinear_arith)
            requires
                al >= 0 && ah >= 0 && bl >= 0 && bh >= 0,
        ;
    }
}

/// The product of two canonical digit sequences, by recursive three-way
/// splitting: the low parts, the high parts and the sums of the parts
/// are multiplied, and the cross term is recovered by subtraction. A
/// level of zero chooses the level from the operands' digit count.
pub fn digits_mul(a: &Vec<u8>, b: &Vec<u8>, level: u32) -> (r: Vec<u8>)
    requires
        canonical(a@),
        canonical(b@),
        pow2(level as nat) <= usize::MAX,
    ensures
        canonical(r@),
        digits_value(r@) == digits_value(a@) * digits_value(b@),
    decreases digits_value(a@) + digits_value(b@), level,
{
    proof {
        lemma_canonical_zero(a@);
        lemma_canonical_zero(b@);
    }
    if (a.len() == 1 && a[0] == 0) || (b.len() == 1 && b[0] == 0) {
        proof {
            assert(digits_value(a@) == 0 || digits_value(b@) == 0);
            lemma_value_push(seq![], 0);
            assert(seq![0u8] =~= seq![].push(0u8));
        }
        let mut z: Vec<u8> = Vec::new();
        z.push(0);
        proof {
            assert(z@ =~= seq![0u8]);
            assert(digits_value(z@) == 0);
            if a.len() == 1 && a[0] == 0 {
                assert(a@ =~= seq![0u8]);
            } else {
                assert(b@ =~= seq![0u8]);
            }
            let va = digits_value(a@) as int;
            let vb = digits_value(b@) as int;
            assert(va * vb == 0) by (nonlinear_arith)
                requires
                    va == 0 || vb == 0,
            ;
        }
        return z;
    }
    let n: usize = if a.len() > b.len() {
        a.len()
    } else {
        b.len()
    };
    let lv: u32 = if level == 0 {
        level_for(n)
    } else {
        level
    };
    if lv == 0 {
        return base_mul(a, b);
    }
    let w: usize = group_width(lv);
    let wa: usize = if w < a.len() {
        w
    } else {
        a.len()
    };
    let wb: usize = if w < b.len() {
        w
    } else {
        b.len()
    };
    let a_lo = part(a, 0, wa);
    let a_hi = part(a, wa, a.len());
    let b_lo = part(b, 0, wb);
    let b_hi = part(b, wb, b.len());
    proof {
        lemma2_to64();
        lemma_pow2_strictly_increases(0, lv as nat);
        lemma_pow2_strictly_increases((lv - 1) as nat, lv as nat);
        lemma_halves(a@, w as nat, wa as int, a_lo@, a_hi@);
        lemma_halves(b@, w as nat, wb as int, b_lo@, b_hi@);
    }
    let r_lo = digits_mul(&a_lo, &b_lo, lv - 1);
    let r_hi = digits_mul(&a_hi, &b_hi, lv - 1);
    let a_sum = digits_add(&a_lo, &a_hi);
    let b_sum = digits_add(&b_lo, &b_hi);
    let r_sum = digits_mul(&a_sum, &b_sum, lv - 1);
    let r_outer = digits_add(&r_lo, &r_hi);
    let ghost p = pow10(w as nat) as int;
    proof {
        lemma_recombine(
            digits_value(a@) as int,
            digits_value(b@) as int,
            digits_value(a_lo@) as int,
            digits_value(a_hi@) as int,
            digits_value(b_lo@) as int,
            digits_value(b_hi@) as int,
            p,
        );
    }
    let r_cross = digits_sub(&r_sum, &r_outer);
    let cross_shifted = shifted(&r_cross, w);
    let hi_once = shifted(&r_hi, w);
    let hi_shifted = shifted(&hi_once, w);
    let low_and_cross = digits_add(&r_lo, &cross_shifted);
    let r = digits_add(&low_and_cross, &hi_shifted);
    proof {
        let al = digits_value(a_lo@) as int;
        let ah = digits_value(a_hi@) as int;
        let bl = digits_value(b_lo@) as int;
        let bh = digits_value(b_hi@) as int;
        assert(digits_value(r_lo@) == al * bl);
        assert(digits_value(r_hi@) == ah * bh);
        assert(digits_value(r_sum@) == (al + ah) * (bl + bh));
        assert(digits_value(r_cross@) == (al + ah) * (bl + bh) - al * bl - ah * bh);
        assert(digits_value(cross_shifted@) == p * digits_value(r_cross@));
        assert(digits_value(hi_shifted@) == p * (p * (ah * bh)));
        assert(digits_value(r@) == al * bl + p * ((al + ah) * (bl + bh) - al * bl - ah * bh) + p * (p
            * (ah * bh)));
        assert(digits_value(r@) == digits_value(a@) * digits_value(b@));
    }
    r
}

} // verus!
