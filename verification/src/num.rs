//! Arbitrary-precision unsigned integers.
//!
//! A [`Num`] holds little-endian limbs in base `BASE` (a power of ten, so a
//! limb never overflows a `u64` during schoolbook arithmetic), with no
//! trailing zero limb, so every value has exactly one representation.

use vstd::prelude::*;
use vstd::arithmetic::power::{pow, lemma_pow_positive, lemma_pow_adds, lemma_pow_strictly_increases};
use vstd::arithmetic::div_mod::{lemma_fundamental_div_mod, lemma_fundamental_div_mod_converse, lemma_small_mod, lemma_basic_div, lemma_div_denominator};

verus! {

/// The limb base: one billion, so a limb carries nine decimal digits.
pub const BASE: u64 = 1_000_000_000;

/// `BASE` to the power `e`.
pub open spec fn powb(e: nat) -> int {
    pow(BASE as int, e)
}

/// The value of the first `i` limbs of `s`, little-endian in base `BASE`.
pub open spec fn valp(s: Seq<u64>, i: int) -> int
    decreases i,
{
    if i <= 0 {
        0
    } else {
        valp(s, i - 1) + s[i - 1] * powb((i - 1) as nat)
    }
}

/// Every limb of `s` lies below the base.
pub open spec fn limbs_ok(s: Seq<u64>) -> bool {
    forall|j: int| 0 <= j < s.len() ==> s[j] < BASE
}

/// An arbitrary-precision unsigned integer.
pub struct Num {
    pub(crate) limbs: Vec<u64>,
}

impl Num {
    /// The number this `Num` holds.
    pub closed spec fn nval(&self) -> int {
        valp(self.limbs@, self.limbs@.len() as int)
    }

    /// Well-formed: limbs below the base and no trailing zero limb.
    pub closed spec fn wf(&self) -> bool {
        &&& limbs_ok(self.limbs@)
        &&& (self.limbs@.len() > 0 ==> self.limbs@.last() != 0)
    }

    /// The representation itself: the limbs held.
    pub closed spec fn repr(&self) -> Seq<u64> {
        self.limbs@
    }
}

/// A power of the base is positive.
pub proof fn lemma_powb_pos(e: nat)
    ensures
        powb(e) >= 1,
{
    lemma_pow_positive(BASE as int, e);
}

/// `powb(0)` is one.
pub proof fn lemma_powb_zero()
    ensures
        powb(0) == 1,
{
    vstd::arithmetic::power::lemma_pow0(BASE as int);
}

/// One more limb multiplies the weight by the base.
pub proof fn lemma_powb_unfold(e: nat)
    requires
        e >= 1,
    ensures
        powb(e) == BASE * powb((e - 1) as nat),
{
    vstd::arithmetic::power::lemma_pow1(BASE as int);
    lemma_pow_adds(BASE as int, 1, (e - 1) as nat);
}

/// `powb` grows strictly with the exponent.
pub proof fn lemma_powb_increases(e1: nat, e2: nat)
    requires
        e1 <= e2,
    ensures
        powb(e1) <= powb(e2),
{
    if e1 < e2 {
        lemma_pow_strictly_increases(BASE as nat, e1, e2);
    }
}

/// A prefix value is non-negative.
pub proof fn lemma_valp_nonneg(s: Seq<u64>, i: int)
    ensures
        valp(s, i) >= 0,
    decreases i,
{
    if i > 0 {
        lemma_valp_nonneg(s, i - 1);
        lemma_powb_pos((i - 1) as nat);
    }
}

/// A prefix of `i` limbs below the base is worth less than `powb(i)`.
pub proof fn lemma_valp_bound(s: Seq<u64>, i: int)
    requires
        0 <= i <= s.len(),
        limbs_ok(s),
    ensures
        valp(s, i) < powb(i as nat),
    decreases i,
{
    if i == 0 {
        lemma_powb_zero();
    } else {
        lemma_valp_bound(s, i - 1);
        lemma_powb_pos((i - 1) as nat);
        lemma_powb_unfold(i as nat);
        assert(s[i - 1] * powb((i - 1) as nat) <= (BASE - 1) * powb((i - 1) as nat))
            by (nonlinear_arith)
            requires s[i - 1] <= BASE - 1, powb((i - 1) as nat) >= 1;
        assert(valp(s, i - 1) + (BASE - 1) * powb((i - 1) as nat) < BASE * powb((i - 1) as nat))
            by (nonlinear_arith)
            requires valp(s, i - 1) < powb((i - 1) as nat), powb((i - 1) as nat) >= 1;
    }
}

/// A prefix whose top limb is nonzero is worth at least `powb(i - 1)`.
pub proof fn lemma_valp_lower(s: Seq<u64>, i: int)
    requires
        1 <= i,
        s[i - 1] >= 1,
    ensures
        valp(s, i) >= powb((i - 1) as nat),
{
    lemma_valp_nonneg(s, i - 1);
    lemma_powb_pos((i - 1) as nat);
    assert(s[i - 1] * powb((i - 1) as nat) >= powb((i - 1) as nat))
        by (nonlinear_arith)
        requires s[i - 1] >= 1, powb((i - 1) as nat) >= 1;
}

/// Prefix values only read the limbs below `i`.
pub proof fn lemma_valp_agree(s: Seq<u64>, t: Seq<u64>, i: int)
    requires
        forall|j: int| 0 <= j < i ==> s[j] == t[j],
    ensures
        valp(s, i) == valp(t, i),
    decreases i,
{
    if i > 0 {
        lemma_valp_agree(s, t, i - 1);
    }
}

/// Two prefixes that agree from limb `i` up to `n` differ by what their
/// first `i` limbs differ.
pub proof fn lemma_valp_tail_agree(s: Seq<u64>, t: Seq<u64>, i: int, n: int)
    requires
        0 <= i <= n,
        forall|j: int| i <= j < n ==> s[j] == t[j],
    ensures
        valp(s, n) - valp(s, i) == valp(t, n) - valp(t, i),
    decreases n - i,
{
    if n > i {
        lemma_valp_tail_agree(s, t, i, n - 1);
    }
}

/// The value of the first `i` limbs, or of all of them when there are
/// fewer than `i`.
pub open spec fn valcap(s: Seq<u64>, i: int) -> int {
    if i <= s.len() {
        valp(s, i)
    } else {
        valp(s, s.len() as int)
    }
}

/// A prefix strictly below the top of a common tail decides the order.
proof fn lemma_valp_top_lt(a: Seq<u64>, b: Seq<u64>, i: int, n: int)
    requires
        0 < i <= n,
        n <= a.len(),
        n <= b.len(),
        limbs_ok(a),
        limbs_ok(b),
        a[i - 1] < b[i - 1],
        forall|j: int| i <= j < n ==> a[j] == b[j],
    ensures
        valp(a, n) < valp(b, n),
{
    lemma_valp_tail_agree(a, b, i, n);
    lemma_valp_bound(a, i - 1);
    lemma_valp_nonneg(b, i - 1);
    lemma_powb_pos((i - 1) as nat);
    let p = powb((i - 1) as nat);
    assert((a[i - 1] + 1) * p <= b[i - 1] * p) by (nonlinear_arith)
        requires a[i - 1] + 1 <= b[i - 1], p >= 1;
    assert((a[i - 1] + 1) * p == a[i - 1] * p + p) by (nonlinear_arith);
}

/// Drops trailing zero limbs, leaving the value as it was.
pub(crate) fn num_trim(v: Vec<u64>) -> (r: Num)
    requires
        limbs_ok(v@),
    ensures
        r.wf(),
        r.nval() == valp(v@, v@.len() as int),
{
    let mut v = v;
    let ghost orig = valp(v@, v@.len() as int);
    while v.len() > 0 && v[v.len() - 1] == 0
        invariant
            limbs_ok(v@),
            valp(v@, v@.len() as int) == orig,
        decreases v@.len(),
    {
        let ghost pre = v@;
        v.pop();
        proof {
            lemma_valp_agree(pre, v@, v@.len() as int);
        }
    }
    Num { limbs: v }
}

/// The number zero.
pub(crate) fn num_zero() -> (r: Num)
    ensures
        r.wf(),
        r.nval() == 0,
{
    Num { limbs: Vec::new() }
}

/// A `Num` holding a machine word.
pub(crate) fn num_from_u64(x: u64) -> (r: Num)
    ensures
        r.wf(),
        r.nval() == x,
{
    let mut v: Vec<u64> = Vec::new();
    let mut rest: u64 = x;
    proof {
        lemma_powb_zero();
    }
    while rest > 0
        invariant
            limbs_ok(v@),
            valp(v@, v@.len() as int) + rest * powb(v@.len() as nat) == x,
            v@.len() > 0 ==> (v@.last() != 0 || rest > 0),
        decreases rest,
    {
        let ghost i = v@.len() as int;
        let ghost pre = v@;
        let limb = rest % BASE;
        let next = rest / BASE;
        v.push(limb);
        proof {
            lemma_valp_agree(pre, v@, i);
            lemma_powb_pos(i as nat);
            lemma_powb_unfold((i + 1) as nat);
            let p = powb(i as nat);
            assert(rest == limb + next * BASE);
            assert(rest * p == limb * p + next * (BASE * p)) by (nonlinear_arith)
                requires rest == limb + next * BASE;
            if next == 0 {
                assert(limb == rest);
            }
            assert(next < rest || next == 0) by {
                if rest > 0 && next > 0 {
                    vstd::arithmetic::div_mod::lemma_div_decreases(rest as int, BASE as int);
                }
            }
        }
        rest = next;
    }
    Num { limbs: v }
}

/// Whether the number is zero.
pub(crate) fn num_is_zero(a: &Num) -> (r: bool)
    requires
        a.wf(),
    ensures
        r <==> a.nval() == 0,
{
    if a.limbs.len() == 0 {
        true
    } else {
        proof {
            lemma_valp_lower(a.limbs@, a.limbs@.len() as int);
            lemma_powb_pos((a.limbs@.len() - 1) as nat);
        }
        false
    }
}

impl Clone for Num {
    /// An exact copy: same value, same well-formedness.
    fn clone(&self) -> (r: Self)
        ensures
            r.nval() == self.nval(),
            r.wf() == self.wf(),
    {
        let mut v: Vec<u64> = Vec::new();
        let mut i: usize = 0;
        while i < self.limbs.len()
            invariant
                i <= self.limbs@.len(),
                v@.len() == i,
                forall|j: int| 0 <= j < i ==> v@[j] == self.limbs@[j],
            decreases self.limbs@.len() - i,
        {
            v.push(self.limbs[i]);
            i += 1;
        }
        proof {
            assert(v@ =~= self.limbs@);
        }
        Num { limbs: v }
    }
}

/// Strict order on the values.
pub(crate) fn num_lt(a: &Num, b: &Num) -> (r: bool)
    requires
        a.wf(),
        b.wf(),
    ensures
        r <==> a.nval() < b.nval(),
{
    let n = a.limbs.len();
    let m = b.limbs.len();
    if n != m {
        proof {
            if n < m {
                lemma_valp_bound(a.limbs@, n as int);
                lemma_valp_lower(b.limbs@, m as int);
                lemma_powb_increases(n as nat, (m - 1) as nat);
                lemma_valp_nonneg(b.limbs@, m as int);
            } else {
                lemma_valp_bound(b.limbs@, m as int);
                lemma_valp_lower(a.limbs@, n as int);
                lemma_powb_increases(m as nat, (n - 1) as nat);
            }
        }
        return n < m;
    }
    let mut i: usize = n;
    while i > 0
        invariant
            i <= n,
            n == a.limbs@.len(),
            n == b.limbs@.len(),
            a.wf(),
            b.wf(),
            forall|j: int| i <= j < n ==> a.limbs@[j] == b.limbs@[j],
        decreases i,
    {
        let ai = a.limbs[i - 1];
        let bi = b.limbs[i - 1];
        if ai < bi {
            proof {
                lemma_valp_top_lt(a.limbs@, b.limbs@, i as int, n as int);
            }
            return true;
        }
        if ai > bi {
            proof {
                lemma_valp_top_lt(b.limbs@, a.limbs@, i as int, n as int);
            }
            return false;
        }
        i -= 1;
    }
    proof {
        lemma_valp_tail_agree(a.limbs@, b.limbs@, 0, n as int);
    }
    false
}

/// The sum of two numbers.
pub(crate) fn num_add(a: &Num, b: &Num) -> (r: Num)
    requires
        a.wf(),
        b.wf(),
    ensures
        r.wf(),
        r.nval() == a.nval() + b.nval(),
{
    let alen = a.limbs.len();
    let blen = b.limbs.len();
    let n = if alen < blen { blen } else { alen };
    let mut out: Vec<u64> = Vec::new();
    let mut carry: u64 = 0;
    let mut i: usize = 0;
    while i < n
        invariant
            i <= n,
            alen == a.limbs@.len(),
            blen == b.limbs@.len(),
            n == if alen < blen { blen } else { alen },
            a.wf(),
            b.wf(),
            out@.len() == i,
            limbs_ok(out@),
            carry <= 1,
            valp(out@, i as int) + carry * powb(i as nat)
                == valcap(a.limbs@, i as int) + valcap(b.limbs@, i as int),
        decreases n - i,
    {
        let av = if i < alen { a.limbs[i] } else { 0 };
        let bv = if i < blen { b.limbs[i] } else { 0 };
        let t = av + bv + carry;
        let (limb, carry2) = if t >= BASE { (t - BASE, 1u64) } else { (t, 0u64) };
        let ghost pre = out@;
        out.push(limb);
        proof {
            let gi = i as int;
            let p = powb(i as nat);
            lemma_valp_agree(pre, out@, gi);
            lemma_powb_pos(i as nat);
            lemma_powb_unfold((gi + 1) as nat);
            assert(av + bv + carry == limb + carry2 * BASE);
            assert((av + bv + carry) * p == av * p + bv * p + carry * p) by (nonlinear_arith);
            assert((limb + carry2 * BASE) * p == limb * p + carry2 * (BASE * p)) by (nonlinear_arith);
        }
        carry = carry2;
        i += 1;
    }
    if carry > 0 {
        let ghost pre = out@;
        out.push(carry);
        proof {
            lemma_valp_agree(pre, out@, n as int);
        }
    }
    proof {
        lemma_powb_pos(n as nat);
    }
    num_trim(out)
}

/// The difference of two numbers, the first at least as large.
pub(crate) fn num_sub(a: &Num, b: &Num) -> (r: Num)
    requires
        a.wf(),
        b.wf(),
        b.nval() <= a.nval(),
    ensures
        r.wf(),
        r.nval() == a.nval() - b.nval(),
{
    let alen = a.limbs.len();
    let blen = b.limbs.len();
    proof {
        if blen > alen {
            lemma_valp_bound(a.limbs@, alen as int);
            lemma_valp_lower(b.limbs@, blen as int);
            lemma_powb_increases(alen as nat, (blen - 1) as nat);
        }
    }
    let mut out: Vec<u64> = Vec::new();
    let mut borrow: u64 = 0;
    let mut i: usize = 0;
    while i < alen
        invariant
            i <= alen,
            alen == a.limbs@.len(),
            blen == b.limbs@.len(),
            blen <= alen,
            a.wf(),
            b.wf(),
            out@.len() == i,
            limbs_ok(out@),
            borrow <= 1,
            valp(out@, i as int)
                == valp(a.limbs@, i as int) - valcap(b.limbs@, i as int) + borrow * powb(i as nat),
        decreases alen - i,
    {
        let av = a.limbs[i];
        let bv = if i < blen { b.limbs[i] } else { 0 };
        let t = av + BASE - bv - borrow;
        let (limb, borrow2) = if t >= BASE { (t - BASE, 0u64) } else { (t, 1u64) };
        let ghost pre = out@;
        out.push(limb);
        proof {
            let gi = i as int;
            let p = powb(i as nat);
            lemma_valp_agree(pre, out@, gi);
            lemma_powb_pos(i as nat);
            lemma_powb_unfold((gi + 1) as nat);
            assert(limb == av - bv - borrow + borrow2 * BASE);
            assert((av - bv - borrow + borrow2 * BASE) * p
                == av * p - bv * p - borrow * p + borrow2 * (BASE * p)) by (nonlinear_arith);
        }
        borrow = borrow2;
        i += 1;
    }
    proof {
        if borrow == 1 {
            lemma_valp_bound(out@, alen as int);
            lemma_valp_nonneg(out@, alen as int);
        }
    }
    num_trim(out)
}

/// A number holds a non-negative value.
pub proof fn lemma_num_nonneg(a: &Num)
    ensures
        a.nval() >= 0,
{
    lemma_valp_nonneg(a.limbs@, a.limbs@.len() as int);
}

/// A quotient below a bound: `x < c * d` forces `x / d < c`.
proof fn lemma_div_below(x: int, d: int, c: int)
    requires
        0 <= x,
        0 < d,
        x < c * d,
    ensures
        x / d < c,
{
    lemma_fundamental_div_mod(x, d);
    if x / d >= c {
        assert(d * (x / d) >= d * c) by (nonlinear_arith)
            requires x / d >= c, d > 0;
        assert(c * d == d * c) by (nonlinear_arith);
    }
}

/// The value of the limbs from `i` on, read in base `BASE` from limb `i`.
pub open spec fn vsuffix(s: Seq<u64>, i: int) -> int
    decreases s.len() - i,
{
    if i < 0 || i >= s.len() {
        0
    } else {
        s[i] + BASE * vsuffix(s, i + 1)
    }
}

/// The suffix value weighs the full value above the prefix.
proof fn lemma_vsuffix_valp(s: Seq<u64>, i: int)
    requires
        0 <= i <= s.len(),
    ensures
        valp(s, s.len() as int) - valp(s, i) == powb(i as nat) * vsuffix(s, i),
    decreases s.len() - i,
{
    let n = s.len() as int;
    if i == n {
        lemma_powb_pos(i as nat);
        assert(powb(i as nat) * 0 == 0) by (nonlinear_arith);
    } else {
        lemma_vsuffix_valp(s, i + 1);
        lemma_powb_unfold((i + 1) as nat);
        let p = powb(i as nat);
        let v = vsuffix(s, i + 1);
        assert((BASE * p) * v + s[i] * p == p * (s[i] + BASE * v)) by (nonlinear_arith);
    }
}

/// A new lowest zero limb multiplies the value by the base.
proof fn lemma_valp_shift1(s: Seq<u64>, t: Seq<u64>, n: int)
    requires
        0 <= n,
        n + 1 <= t.len(),
        t[0] == 0,
        forall|j: int| 1 <= j < n + 1 ==> t[j] == s[j - 1],
    ensures
        valp(t, n + 1) == BASE * valp(s, n),
    decreases n,
{
    if n == 0 {
        lemma_powb_zero();
        assert(valp(t, 1) == valp(t, 0) + t[0] * powb(0));
        assert(valp(t, 1) == 0);
        assert(BASE * valp(s, 0) == 0);
    } else {
        lemma_valp_shift1(s, t, n - 1);
        lemma_powb_unfold(n as nat);
        let p = powb((n - 1) as nat);
        assert(valp(t, n + 1) == valp(t, n) + t[n] * powb(n as nat));
        assert(t[n] == s[n - 1]);
        assert(valp(s, n) == valp(s, n - 1) + s[n - 1] * p);
        assert(t[n] * powb(n as nat) == BASE * (s[n - 1] * p)) by (nonlinear_arith)
            requires t[n] == s[n - 1], powb(n as nat) == BASE * p;
        assert(BASE * valp(s, n - 1) + BASE * (s[n - 1] * p)
            == BASE * (valp(s, n - 1) + s[n - 1] * p)) by (nonlinear_arith);
        assert(BASE * (valp(s, n - 1) + s[n - 1] * p) == BASE * valp(s, n));
        assert(valp(t, n + 1) == BASE * valp(s, n));
    }
}

/// The value multiplied by the base: limbs moved up one place.
pub(crate) fn num_shift1(a: &Num) -> (r: Num)
    requires
        a.wf(),
    ensures
        r.wf(),
        r.nval() == BASE * a.nval(),
{
    if a.limbs.len() == 0 {
        let r = num_zero();
        proof {
            assert(BASE * 0 == 0) by (nonlinear_arith);
        }
        return r;
    }
    let mut v: Vec<u64> = Vec::new();
    v.push(0);
    let mut i: usize = 0;
    while i < a.limbs.len()
        invariant
            i <= a.limbs@.len(),
            a.wf(),
            v@.len() == i + 1,
            v@[0] == 0,
            forall|j: int| 1 <= j < i + 1 ==> v@[j] == a.limbs@[j - 1],
        decreases a.limbs@.len() - i,
    {
        v.push(a.limbs[i]);
        i += 1;
    }
    proof {
        lemma_valp_shift1(a.limbs@, v@, a.limbs@.len() as int);
    }
    Num { limbs: v }
}

/// The product with a single limb.
pub(crate) fn num_mul_small(a: &Num, u: u64) -> (r: Num)
    requires
        a.wf(),
        u < BASE,
    ensures
        r.wf(),
        r.nval() == a.nval() * u,
{
    let alen = a.limbs.len();
    let mut out: Vec<u64> = Vec::new();
    let mut carry: u64 = 0;
    let mut i: usize = 0;
    proof {
        lemma_powb_zero();
        assert(valp(a.limbs@, 0) * u == 0) by (nonlinear_arith);
    }
    while i < alen
        invariant
            i <= alen,
            alen == a.limbs@.len(),
            a.wf(),
            u < BASE,
            out@.len() == i,
            limbs_ok(out@),
            carry < BASE,
            valp(out@, i as int) + carry * powb(i as nat) == valp(a.limbs@, i as int) * u,
        decreases alen - i,
    {
        let av = a.limbs[i];
        proof {
            assert(av * u <= (BASE - 1) * (BASE - 1)) by (nonlinear_arith)
                requires av <= BASE - 1, u <= BASE - 1;
        }
        let t = av * u + carry;
        let limb = t % BASE;
        let carry2 = t / BASE;
        let ghost pre = out@;
        out.push(limb);
        proof {
            let gi = i as int;
            let p = powb(i as nat);
            lemma_valp_agree(pre, out@, gi);
            lemma_powb_pos(i as nat);
            lemma_powb_unfold((gi + 1) as nat);
            lemma_fundamental_div_mod(t as int, BASE as int);
            lemma_div_below(t as int, BASE as int, BASE as int);
            assert((valp(a.limbs@, gi) + av * p) * u
                == valp(a.limbs@, gi) * u + (av * u) * p) by (nonlinear_arith);
            assert((av * u + carry) * p == (av * u) * p + carry * p) by (nonlinear_arith);
            assert((limb + carry2 * BASE) * p == limb * p + carry2 * (BASE * p)) by (nonlinear_arith);
            assert((av * u + carry) * p == (limb + carry2 * BASE) * p) by (nonlinear_arith)
                requires av * u + carry == limb + carry2 * BASE;
        }
        carry = carry2;
        i += 1;
    }
    let ghost pre = out@;
    out.push(carry);
    proof {
        lemma_valp_agree(pre, out@, alen as int);
    }
    num_trim(out)
}

/// The product of two numbers, by Horner's rule over the second's limbs.
pub(crate) fn num_mul(a: &Num, b: &Num) -> (r: Num)
    requires
        a.wf(),
        b.wf(),
    ensures
        r.wf(),
        r.nval() == a.nval() * b.nval(),
{
    let mut acc = num_zero();
    let mut i: usize = b.limbs.len();
    proof {
        assert(a.nval() * vsuffix(b.limbs@, i as int) == 0) by (nonlinear_arith)
            requires vsuffix(b.limbs@, i as int) == 0;
    }
    while i > 0
        invariant
            i <= b.limbs@.len(),
            a.wf(),
            b.wf(),
            acc.wf(),
            acc.nval() == a.nval() * vsuffix(b.limbs@, i as int),
        decreases i,
    {
        i -= 1;
        let shifted = num_shift1(&acc);
        let part = num_mul_small(a, b.limbs[i]);
        let next = num_add(&shifted, &part);
        proof {
            let av = a.nval();
            let bv = b.limbs@[i as int] as int;
            let vs = vsuffix(b.limbs@, i as int + 1);
            assert(BASE * (av * vs) + av * bv == av * (bv + BASE * vs)) by (nonlinear_arith);
        }
        acc = next;
    }
    proof {
        lemma_vsuffix_valp(b.limbs@, 0);
        lemma_powb_zero();
    }
    acc
}

/// Quotient and remainder by a single nonzero limb, in one pass from the top.
pub(crate) fn num_divmod_small(a: &Num, u: u64) -> (r: (Num, u64))
    requires
        a.wf(),
        0 < u < BASE,
    ensures
        r.0.wf(),
        r.0.nval() == a.nval() / (u as int),
        r.1 == a.nval() % (u as int),
{
    let alen = a.limbs.len();
    let mut out: Vec<u64> = Vec::new();
    let mut k: usize = 0;
    while k < alen
        invariant
            k <= alen,
            out@.len() == k,
            forall|j: int| 0 <= j < k ==> out@[j] == 0,
        decreases alen - k,
    {
        out.push(0);
        k += 1;
    }
    let mut carry: u64 = 0;
    let mut i: usize = alen;
    while i > 0
        invariant
            i <= alen,
            alen == a.limbs@.len(),
            a.wf(),
            0 < u < BASE,
            out@.len() == alen,
            limbs_ok(out@),
            carry < u,
            valp(a.limbs@, alen as int) - valp(a.limbs@, i as int)
                == u * (valp(out@, alen as int) - valp(out@, i as int)) + carry * powb(i as nat),
        decreases i,
    {
        let av = a.limbs[i - 1];
        proof {
            assert(carry * BASE <= (u - 1) * BASE) by (nonlinear_arith)
                requires carry <= u - 1, BASE >= 1;
            assert((u - 1) * BASE + BASE == u * BASE) by (nonlinear_arith);
            assert(u * BASE <= BASE * BASE) by (nonlinear_arith)
                requires u <= BASE;
        }
        let cur = carry * BASE + av;
        let q = cur / u;
        let c2 = cur % u;
        proof {
            lemma_div_below(cur as int, u as int, BASE as int);
        }
        let ghost pre = out@;
        let gi = i - 1;
        out.set(gi, q);
        proof {
            let ii = i as int;
            let p = powb((ii - 1) as nat);
            lemma_powb_unfold(ii as nat);
            lemma_valp_agree(pre, out@, ii - 1);
            lemma_valp_tail_agree(pre, out@, ii, alen as int);
            lemma_fundamental_div_mod(cur as int, u as int);
            assert(valp(out@, ii) == valp(out@, ii - 1) + q * p);
            let oa = valp(out@, alen as int);
            let ob = valp(out@, ii);
            let oc = valp(out@, ii - 1);
            assert(u * (oa - oc) == u * (oa - ob) + u * (q * p)) by (nonlinear_arith)
                requires ob == oc + q * p;
            assert(carry * (BASE * p) + av * p == (carry * BASE + av) * p) by (nonlinear_arith);
            assert((u * q + c2) * p == u * (q * p) + c2 * p) by (nonlinear_arith);
        }
        carry = c2;
        i -= 1;
    }
    proof {
        lemma_powb_zero();
        lemma_valp_nonneg(out@, alen as int);
        let oa = valp(out@, alen as int);
        assert(u * oa == oa * u) by (nonlinear_arith);
        lemma_fundamental_div_mod_converse(
            valp(a.limbs@, alen as int),
            u as int,
            valp(out@, alen as int),
            carry as int,
        );
    }
    let qn = num_trim(out);
    (qn, carry)
}

/// Euclidean division, by doubling the divisor: only comparison, addition
/// and subtraction of the magnitudes are needed.
pub(crate) fn num_divmod(a: &Num, b: &Num) -> (r: (Num, Num))
    requires
        a.wf(),
        b.wf(),
        b.nval() > 0,
    ensures
        r.0.wf(),
        r.1.wf(),
        r.0.nval() == a.nval() / b.nval(),
        r.1.nval() == a.nval() % b.nval(),
    decreases a.nval() / b.nval(),
{
    let ghost av = a.nval();
    let ghost bv = b.nval();
    proof {
        lemma_valp_nonneg(a.limbs@, a.limbs@.len() as int);
        vstd::arithmetic::div_mod::lemma_div_pos_is_pos(av, bv);
    }
    if num_lt(a, b) {
        proof {
            lemma_small_mod(av as nat, bv as nat);
            lemma_basic_div(av, bv);
        }
        (num_zero(), a.clone())
    } else {
        let b2 = num_add(b, b);
        proof {
            lemma_div_denominator(av, bv, 2);
            vstd::arithmetic::div_mod::lemma_div_is_ordered(bv, av, bv);
            vstd::arithmetic::div_mod::lemma_div_by_self(bv);
            vstd::arithmetic::div_mod::lemma_div_decreases(av / bv, 2);
            assert(bv * 2 == 2 * bv) by (nonlinear_arith);
        }
        let (q1, r1) = num_divmod(a, &b2);
        let ghost q1v = q1.nval();
        let ghost r1v = r1.nval();
        proof {
            lemma_fundamental_div_mod(av, 2 * bv);
            vstd::arithmetic::div_mod::lemma_mod_division_less_than_divisor(av, 2 * bv);
            assert((2 * bv) * q1v == bv * (2 * q1v)) by (nonlinear_arith);
        }
        let q2 = num_add(&q1, &q1);
        if num_lt(&r1, b) {
            proof {
                lemma_fundamental_div_mod_converse(av, bv, 2 * q1v, r1v);
            }
            (q2, r1)
        } else {
            let one = num_from_u64(1);
            let q3 = num_add(&q2, &one);
            let r2 = num_sub(&r1, b);
            proof {
                assert(bv * (2 * q1v + 1) == bv * (2 * q1v) + bv) by (nonlinear_arith);
                lemma_fundamental_div_mod_converse(av, bv, 2 * q1v + 1, r1v - bv);
            }
            (q3, r2)
        }
    }
}

/// The character for one decimal digit value.
fn digit_to_char(d: u64) -> (r: char)
    requires
        d < 10,
    ensures
        r == digit_char(d as int),
{
    if d == 0 { '0' }
    else if d == 1 { '1' }
    else if d == 2 { '2' }
    else if d == 3 { '3' }
    else if d == 4 { '4' }
    else if d == 5 { '5' }
    else if d == 6 { '6' }
    else if d == 7 { '7' }
    else if d == 8 { '8' }
    else { '9' }
}

/// The character for one decimal digit.
pub open spec fn digit_char(d: int) -> char {
    if d == 0 { '0' }
    else if d == 1 { '1' }
    else if d == 2 { '2' }
    else if d == 3 { '3' }
    else if d == 4 { '4' }
    else if d == 5 { '5' }
    else if d == 6 { '6' }
    else if d == 7 { '7' }
    else if d == 8 { '8' }
    else { '9' }
}

/// The decimal digits of a non-negative integer, most significant first,
/// with no leading zeros (and `"0"` for zero itself).
pub open spec fn dec_digits(u: int) -> Seq<char>
    decreases u,
{
    if u < 10 {
        seq![digit_char(u)]
    } else {
        dec_digits(u / 10).push(digit_char(u % 10))
    }
}

/// A suffix value is non-negative.
proof fn lemma_vsuffix_nonneg(s: Seq<u64>, i: int)
    ensures
        vsuffix(s, i) >= 0,
    decreases s.len() - i,
{
    if 0 <= i < s.len() {
        lemma_vsuffix_nonneg(s, i + 1);
        assert(BASE * vsuffix(s, i + 1) >= 0) by (nonlinear_arith)
            requires vsuffix(s, i + 1) >= 0;
    }
}

/// Equal suffix values of equally long limb runs force equal limbs.
proof fn lemma_vsuffix_unique(s: Seq<u64>, t: Seq<u64>, i: int)
    requires
        0 <= i <= s.len(),
        s.len() == t.len(),
        limbs_ok(s),
        limbs_ok(t),
        vsuffix(s, i) == vsuffix(t, i),
    ensures
        forall|j: int| i <= j < s.len() ==> s[j] == t[j],
    decreases s.len() - i,
{
    if i < s.len() {
        lemma_vsuffix_nonneg(s, i + 1);
        lemma_vsuffix_nonneg(t, i + 1);
        assert(vsuffix(s, i) == vsuffix(s, i + 1) * BASE + s[i]) by (nonlinear_arith)
            requires vsuffix(s, i) == s[i] + BASE * vsuffix(s, i + 1);
        assert(vsuffix(t, i) == vsuffix(t, i + 1) * BASE + t[i]) by (nonlinear_arith)
            requires vsuffix(t, i) == t[i] + BASE * vsuffix(t, i + 1);
        lemma_fundamental_div_mod_converse(vsuffix(s, i), BASE as int, vsuffix(s, i + 1), s[i] as int);
        lemma_fundamental_div_mod_converse(vsuffix(t, i), BASE as int, vsuffix(t, i + 1), t[i] as int);
        lemma_vsuffix_unique(s, t, i + 1);
    }
}

/// The canonical form is unique: two well-formed numbers that hold one
/// value have the very same limbs.
pub proof fn lemma_num_unique(a: &Num, b: &Num)
    requires
        a.wf(),
        b.wf(),
        a.nval() == b.nval(),
    ensures
        a.repr() == b.repr(),
{
    let s = a.limbs@;
    let t = b.limbs@;
    let n = s.len() as int;
    let m = t.len() as int;
    if n < m {
        lemma_valp_bound(s, n);
        lemma_valp_lower(t, m);
        lemma_powb_increases(n as nat, (m - 1) as nat);
        assert(false);
    }
    if m < n {
        lemma_valp_bound(t, m);
        lemma_valp_lower(s, n);
        lemma_powb_increases(m as nat, (n - 1) as nat);
        assert(false);
    }
    lemma_vsuffix_valp(s, 0);
    lemma_vsuffix_valp(t, 0);
    lemma_powb_zero();
    lemma_vsuffix_unique(s, t, 0);
    assert(s =~= t);
}

/// The decimal digits of the number, most significant first.
pub(crate) fn num_to_dec(a: &Num) -> (r: Vec<char>)
    requires
        a.wf(),
    ensures
        r@ == dec_digits(a.nval()),
    decreases a.nval(),
{
    let ghost av = a.nval();
    proof {
        lemma_valp_nonneg(a.limbs@, a.limbs@.len() as int);
    }
    let (q, d) = num_divmod_small(a, 10);
    let c = digit_to_char(d);
    if num_is_zero(&q) {
        proof {
            vstd::arithmetic::div_mod::lemma_small_div_converse(av, 10);
            lemma_small_mod(av as nat, 10);
        }
        let mut v: Vec<char> = Vec::new();
        v.push(c);
        proof {
            assert(v@ =~= dec_digits(av));
        }
        v
    } else {
        proof {
            lemma_fundamental_div_mod(av, 10);
            lemma_valp_nonneg(q.limbs@, q.limbs@.len() as int);
            vstd::arithmetic::div_mod::lemma_div_decreases(av, 10);
            assert(av >= 10) by {
                if av < 10 {
                    lemma_basic_div(av, 10);
                }
            }
        }
        let mut r = num_to_dec(&q);
        r.push(c);
        proof {
            assert(r@ =~= dec_digits(av));
        }
        r
    }
}

} // verus!
