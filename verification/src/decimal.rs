//! Fixed-point decimal numbers of static precision.
//!
//! A `Decimal<N>` stands for the rational number `S / 10^N`, where the
//! stored integer `S` is an arbitrary-precision signed [`BigInt`].  The
//! precision `N` is part of the type, so values of different precision can
//! never meet in one operation.  Addition and subtraction are exact;
//! multiplication and division rescale with one truncating division, so
//! each is accurate to within one unit in the last digit.

use vstd::prelude::*;
use vstd::arithmetic::power::{pow, lemma_pow_positive, lemma_pow_adds, lemma_pow0, lemma_pow1};
use vstd::arithmetic::div_mod::{lemma_fundamental_div_mod, lemma_div_multiples_vanish, lemma_div_is_ordered, lemma_mod_division_less_than_divisor, lemma_div_pos_is_pos};
use crate::engine::{BigInt, abs_of, tdiv, int_add, int_sub, int_mul, int_div_trunc, int_from_mag, int_abs_mag, lemma_tdiv_nonneg, lemma_tdiv_exact, chars_to_string};
use crate::num::{num_from_u64, num_mul_small, num_divmod, num_to_dec, dec_digits, digit_char};

verus! {

/// `10^e`.
pub open spec fn pow10(e: nat) -> int {
    pow(10, e)
}

/// A power of ten is positive.
pub proof fn lemma_pow10_pos(e: nat)
    ensures
        pow10(e) >= 1,
{
    lemma_pow_positive(10, e);
}

/// One more digit multiplies the scale by ten.
pub proof fn lemma_pow10_unfold(e: nat)
    requires
        e >= 1,
    ensures
        pow10(e) == 10 * pow10((e - 1) as nat),
{
    lemma_pow1(10);
    lemma_pow_adds(10, 1, (e - 1) as nat);
}

/// A fixed-point decimal with `N` digits after the point: the stored
/// integer is the represented value times `10^N`.
pub struct Decimal<const N: usize>(pub(crate) BigInt);

impl<const N: usize> Decimal<N> {
    /// The scale of this precision: `10^N`.
    pub open spec fn scale() -> int {
        pow10(N as nat)
    }

    /// The stored integer: the represented value times the scale.
    pub closed spec fn store(&self) -> int {
        self.0.ival()
    }

    /// Well-formed storage.
    pub closed spec fn wf(&self) -> bool {
        self.0.wf()
    }

    /// The representation itself: the sign and the limbs of the stored
    /// integer.
    pub closed spec fn repr(&self) -> (bool, Seq<u64>) {
        self.0.repr()
    }

    /// The scale `10^N` as a big integer, built by `N` multiplications by
    /// ten starting from one — a pure function of `N`.
    pub fn order() -> (r: BigInt)
        ensures
            r.wf(),
            r.ival() == Self::scale(),
    {
        let mut m = num_from_u64(1);
        let mut i: usize = 0;
        proof {
            lemma_pow0(10);
        }
        while i < N
            invariant
                i <= N,
                m.wf(),
                m.nval() == pow10(i as nat),
            decreases N - i,
        {
            let m2 = num_mul_small(&m, 10);
            proof {
                lemma_pow10_unfold((i + 1) as nat);
            }
            m = m2;
            i += 1;
        }
        int_from_mag(m)
    }

    /// A decimal from an unscaled integer: the stored integer becomes
    /// `x * 10^N`.
    pub fn new(x: &BigInt) -> (r: Self)
        requires
            x.wf(),
        ensures
            r.wf(),
            r.store() == x.ival() * Self::scale(),
    {
        let ord = Self::order();
        Decimal(int_mul(x, &ord))
    }

    /// A decimal from a small unsigned integer.
    pub fn from_unit(u: u64) -> (r: Self)
        ensures
            r.wf(),
            r.store() == u * Self::scale(),
    {
        let b = BigInt::from_u64(u);
        Self::new(&b)
    }

    /// The sum: stored integers add, exactly.
    pub fn add(&self, rhs: &Self) -> (r: Self)
        requires
            self.wf(),
            rhs.wf(),
        ensures
            r.wf(),
            r.store() == self.store() + rhs.store(),
    {
        Decimal(int_add(&self.0, &rhs.0))
    }

    /// The difference: stored integers subtract, exactly; the result may
    /// be negative.
    pub fn sub(&self, rhs: &Self) -> (r: Self)
        requires
            self.wf(),
            rhs.wf(),
        ensures
            r.wf(),
            r.store() == self.store() - rhs.store(),
    {
        Decimal(int_sub(&self.0, &rhs.0))
    }

    /// The product: the raw product of the stored integers carries the
    /// scale twice, so it is divided once by the scale, truncating toward
    /// zero — the sole precision loss, at most one unit in the last digit.
    pub fn mul(&self, rhs: &Self) -> (r: Self)
        requires
            self.wf(),
            rhs.wf(),
        ensures
            r.wf(),
            r.store() == tdiv(self.store() * rhs.store(), Self::scale()),
    {
        let p = int_mul(&self.0, &rhs.0);
        let ord = Self::order();
        proof {
            lemma_pow10_pos(N as nat);
        }
        Decimal(int_div_trunc(&p, &ord))
    }

    /// The quotient: the dividend is scaled up once more so the single
    /// truncating division keeps `N` fractional digits.  The divisor's
    /// stored integer must not be zero.
    pub fn div(&self, rhs: &Self) -> (r: Self)
        requires
            self.wf(),
            rhs.wf(),
            rhs.store() != 0,
        ensures
            r.wf(),
            r.store() == tdiv(self.store() * Self::scale(), rhs.store()),
    {
        let ord = Self::order();
        let p = int_mul(&self.0, &ord);
        Decimal(int_div_trunc(&p, &rhs.0))
    }
}

impl<const N: usize> Clone for Decimal<N> {
    /// An exact copy: same stored integer.
    fn clone(&self) -> (r: Self)
        ensures
            r.store() == self.store(),
            r.wf() == self.wf(),
    {
        Decimal(self.0.clone())
    }
}

/// A run of `n` zeros in front of fewer than `n` digits.
pub open spec fn zero_pad(s: Seq<char>, n: nat) -> Seq<char> {
    if s.len() >= n {
        s
    } else {
        Seq::new((n - s.len()) as nat, |k: int| '0') + s
    }
}

/// The canonical rendering of a non-negative stored integer `u` at
/// precision `n`: the integer part, a point, and exactly the fractional
/// digits, zero-padded on the left so none of the `n` places is dropped.
pub open spec fn render_nonneg(u: int, n: nat) -> Seq<char> {
    dec_digits(u / pow10(n)) + seq!['.'] + zero_pad(dec_digits(u % pow10(n)), n)
}

/// The canonical rendering of a stored integer: a leading minus sign for a
/// negative value, around the rendering of its magnitude.
pub open spec fn render_spec(s: int, n: nat) -> Seq<char> {
    if s < 0 {
        seq!['-'] + render_nonneg(-s, n)
    } else {
        render_nonneg(s, n)
    }
}

impl<const N: usize> Decimal<N> {
    /// The canonical text of the value: integer part, point, exactly `N`
    /// fractional digits, with a leading minus sign when the stored
    /// integer is negative.  Never changes the value.
    pub fn to_string(&self) -> (r: String)
        requires
            self.wf(),
        ensures
            r@ == render_spec(self.store(), N as nat),
    {
        proof {
            lemma_pow10_pos(N as nat);
        }
        let ord = Self::order();
        let ord_mag = int_abs_mag(&ord);
        let mag = int_abs_mag(&self.0);
        let neg = self.0.is_negative();
        let (q, rem) = num_divmod(&mag, &ord_mag);
        let mut qd = num_to_dec(&q);
        let mut rd = num_to_dec(&rem);
        let ghost a = abs_of(self.store());
        let ghost qd0 = qd@;
        let ghost rd0 = rd@;
        let mut out: Vec<char> = Vec::new();
        if neg {
            out.push('-');
        }
        out.append(&mut qd);
        out.push('.');
        let ghost base = out@;
        let rdlen = rd.len();
        let mut i: usize = rdlen;
        proof {
            assert(out@ =~= base + Seq::new(0, |k: int| '0'));
        }
        while i < N
            invariant
                rdlen <= i,
                i <= N || i == rdlen,
                out@ == base + Seq::new((i - rdlen) as nat, |k: int| '0'),
            decreases N - i,
        {
            out.push('0');
            i += 1;
            proof {
                assert(Seq::new((i - rdlen) as nat, |k: int| '0')
                    =~= Seq::new((i - 1 - rdlen) as nat, |k: int| '0').push('0'));
            }
        }
        out.append(&mut rd);
        let s = chars_to_string(&out);
        proof {
            if neg {
                assert(out@ =~= seq!['-'] + (qd0 + seq!['.'] + zero_pad(rd0, N as nat)));
                assert(out@ =~= seq!['-'] + render_nonneg(a, N as nat));
            } else {
                assert(out@ =~= qd0 + seq!['.'] + zero_pad(rd0, N as nat));
                assert(out@ =~= render_nonneg(a, N as nat));
            }
        }
        s
    }
}

/// A decimal built from a non-negative integer renders as that integer's
/// digits, a point, and exactly `N` zeros, at every positive precision.
/// (At precision zero the fractional part is the single digit zero.)
pub proof fn lemma_render_from_integer(u: int, n: nat)
    requires
        u >= 0,
        n >= 1,
    ensures
        render_spec(u * pow10(n), n) == dec_digits(u) + seq!['.'] + Seq::new(n, |k: int| '0'),
{
    lemma_pow10_pos(n);
    assert(u * pow10(n) >= 0) by (nonlinear_arith)
        requires u >= 0, pow10(n) >= 1;
    lemma_div_multiples_vanish(u, pow10(n));
    assert(pow10(n) * u == u * pow10(n)) by (nonlinear_arith);
    assert((u * pow10(n)) / pow10(n) == u);
    vstd::arithmetic::div_mod::lemma_mod_multiples_basic(u, pow10(n));
    assert((u * pow10(n)) % pow10(n) == 0);
    assert(dec_digits(0) == seq!['0']);
    assert(zero_pad(seq!['0'], n) =~= Seq::new(n, |k: int| '0'));
    assert(render_spec(u * pow10(n), n)
        =~= dec_digits(u) + seq!['.'] + Seq::new(n, |k: int| '0'));
}

/// One stored integer, one representation: two well-formed decimals of a
/// precision whose stored integers are equal are the same value down to
/// the last limb — so the identity and round-trip laws below, stated over
/// the stored integer, hold of the representation bit for bit.
pub proof fn lemma_store_determines_repr<const N: usize>(x: &Decimal<N>, y: &Decimal<N>)
    requires
        x.wf(),
        y.wf(),
        x.store() == y.store(),
    ensures
        x.repr() == y.repr(),
{
    crate::engine::lemma_int_unique(&x.0, &y.0);
}

/// Additive identity: adding a decimal that stores zero (such as
/// `from_unit(0)`) gives back exactly the stored integer of `x`, for
/// every `x` — nothing of the value is lost or changed.
pub proof fn lemma_add_identity<const N: usize>(x: &Decimal<N>, zero: &Decimal<N>)
    requires
        x.wf(),
        zero.wf(),
        zero.store() == 0,
    ensures
        x.store() + zero.store() == x.store(),
{
}

/// Additive inverse round trip: subtracting `y` from the sum of `x` and
/// `y` recovers exactly the store of `x`, for any two decimals of one
/// precision — addition and subtraction are exact.
pub proof fn lemma_sub_add_cancel<const N: usize>(x: &Decimal<N>, y: &Decimal<N>)
    requires
        x.wf(),
        y.wf(),
    ensures
        (x.store() + y.store()) - y.store() == x.store(),
{
}

/// Multiplicative identity: multiplying by the decimal one (which stores
/// the scale itself, as `from_unit(1)` does) loses nothing to truncation —
/// the product's store equals `x`'s store exactly, for every `x`.
pub proof fn lemma_mul_identity<const N: usize>(x: &Decimal<N>, one: &Decimal<N>)
    requires
        x.wf(),
        one.wf(),
        one.store() == Decimal::<N>::scale(),
    ensures
        tdiv(x.store() * one.store(), Decimal::<N>::scale()) == x.store(),
{
    lemma_pow10_pos(N as nat);
    lemma_tdiv_exact(x.store(), Decimal::<N>::scale());
}

/// Dividing and multiplying back inverts to within one unit in the last
/// digit, for a non-negative `x` and a `y` whose value is positive and at
/// most one (its store at most the scale).  For larger divisors the
/// truncation in `div` can cost more than one unit: at precision 4,
/// dividing 0.0005 by 1000 and multiplying back loses five units.
pub proof fn lemma_div_mul_inverse<const N: usize>(x: &Decimal<N>, y: &Decimal<N>)
    requires
        x.wf(),
        y.wf(),
        x.store() >= 0,
        0 < y.store() <= Decimal::<N>::scale(),
    ensures
        x.store() - 1
            <= tdiv(tdiv(x.store() * Decimal::<N>::scale(), y.store()) * y.store(), Decimal::<N>::scale()),
        tdiv(tdiv(x.store() * Decimal::<N>::scale(), y.store()) * y.store(), Decimal::<N>::scale())
            <= x.store(),
{
    let sx = x.store();
    let sy = y.store();
    let ord = Decimal::<N>::scale();
    lemma_pow10_pos(N as nat);
    assert(sx * ord >= 0) by (nonlinear_arith)
        requires sx >= 0, ord >= 1;
    lemma_tdiv_nonneg(sx * ord, sy);
    let d = (sx * ord) / sy;
    lemma_div_pos_is_pos(sx * ord, sy);
    assert(d * sy >= 0) by (nonlinear_arith)
        requires d >= 0, sy > 0;
    lemma_tdiv_nonneg(d * sy, ord);
    lemma_fundamental_div_mod(sx * ord, sy);
    lemma_mod_division_less_than_divisor(sx * ord, sy);
    let r = (sx * ord) % sy;
    assert(d * sy == sx * ord - r) by (nonlinear_arith)
        requires sx * ord == sy * d + r;
    lemma_div_is_ordered(d * sy, sx * ord, ord);
    lemma_div_multiples_vanish(sx, ord);
    assert(ord * sx == sx * ord) by (nonlinear_arith);
    assert(d * sy >= (sx - 1) * ord) by (nonlinear_arith)
        requires d * sy == sx * ord - r, r < sy, sy <= ord;
    lemma_div_is_ordered((sx - 1) * ord, d * sy, ord);
    lemma_div_multiples_vanish(sx - 1, ord);
    assert(ord * (sx - 1) == (sx - 1) * ord) by (nonlinear_arith);
}

/// The value of one decimal digit character (and zero for any other).
pub open spec fn digit_val(c: char) -> int {
    if c == '0' { 0 }
    else if c == '1' { 1 }
    else if c == '2' { 2 }
    else if c == '3' { 3 }
    else if c == '4' { 4 }
    else if c == '5' { 5 }
    else if c == '6' { 6 }
    else if c == '7' { 7 }
    else if c == '8' { 8 }
    else if c == '9' { 9 }
    else { 0 }
}

/// The integer a run of decimal digit characters denotes.
pub open spec fn parse_digits(s: Seq<char>) -> int
    decreases s.len(),
{
    if s.len() == 0 {
        0
    } else {
        parse_digits(s.drop_last()) * 10 + digit_val(s.last())
    }
}

/// Parsing inverts rendering: the digits of a non-negative integer denote
/// that integer again.
pub proof fn lemma_parse_digits_inverse(u: int)
    requires
        u >= 0,
    ensures
        parse_digits(dec_digits(u)) == u,
    decreases u,
{
    if u < 10 {
        let s = dec_digits(u);
        assert(s == seq![digit_char(u)]);
        assert(s.drop_last() =~= Seq::<char>::empty());
        assert(parse_digits(s) == parse_digits(s.drop_last()) * 10 + digit_val(s.last()));
        assert(parse_digits(s.drop_last()) == 0);
        assert(s.last() == digit_char(u));
        assert(digit_val(digit_char(u)) == u);
    } else {
        lemma_fundamental_div_mod(u, 10);
        vstd::arithmetic::div_mod::lemma_div_decreases(u, 10);
        lemma_div_pos_is_pos(u, 10);
        lemma_parse_digits_inverse(u / 10);
        let c = digit_char(u % 10);
        let s = dec_digits(u);
        assert(s == dec_digits(u / 10).push(c));
        assert(s.drop_last() =~= dec_digits(u / 10));
        assert(s.last() == c);
        assert(parse_digits(s) == parse_digits(s.drop_last()) * 10 + digit_val(s.last()));
        assert(parse_digits(s.drop_last()) == parse_digits(dec_digits(u / 10)));
        assert(digit_val(c) == u % 10);
    }
}

/// Rendering round-trips: a decimal built from a non-negative integer
/// renders with exactly that integer's digits as its integer part, and
/// parsing those digits back recovers the integer, at every precision.
pub proof fn lemma_render_round_trip(x: int, n: nat)
    requires
        x >= 0,
    ensures
        render_spec(x * pow10(n), n).take(dec_digits(x).len() as int) == dec_digits(x),
        parse_digits(dec_digits(x)) == x,
{
    lemma_pow10_pos(n);
    assert(x * pow10(n) >= 0) by (nonlinear_arith)
        requires x >= 0, pow10(n) >= 1;
    lemma_div_multiples_vanish(x, pow10(n));
    assert(pow10(n) * x == x * pow10(n)) by (nonlinear_arith);
    assert((x * pow10(n)) / pow10(n) == x);
    let a = dec_digits(x);
    let rest = seq!['.'] + zero_pad(dec_digits((x * pow10(n)) % pow10(n)), n);
    assert(render_spec(x * pow10(n), n) == a + seq!['.']
        + zero_pad(dec_digits((x * pow10(n)) % pow10(n)), n));
    assert((a + seq!['.'] + zero_pad(dec_digits((x * pow10(n)) % pow10(n)), n))
        .take(a.len() as int) =~= a);
    lemma_parse_digits_inverse(x);
}

/// Every character of a decimal digit run is a plain digit: the rendering
/// of a magnitude introduces no sign of its own.
pub proof fn lemma_dec_digits_no_sign(u: int)
    ensures
        forall|k: int| 0 <= k < dec_digits(u).len() ==> dec_digits(u)[k] != '-',
    decreases u,
{
    if u < 10 {
    } else {
        lemma_dec_digits_no_sign(u / 10);
        assert forall|k: int| 0 <= k < dec_digits(u).len() implies dec_digits(u)[k] != '-' by {
            if k < dec_digits(u / 10).len() {
                assert(dec_digits(u)[k] == dec_digits(u / 10)[k]);
            }
        }
    }
}

/// Sign handling of the rendering: a negative store renders as a leading
/// minus sign on the integer part, followed by the rendering of the
/// magnitude, which itself holds no sign anywhere — neither in the
/// integer part nor in the fractional remainder.
pub proof fn lemma_render_negative(s: int, n: nat)
    requires
        s < 0,
    ensures
        render_spec(s, n) == seq!['-'] + render_nonneg(-s, n),
        render_spec(s, n)[0] == '-',
        forall|k: int| 0 <= k < render_nonneg(-s, n).len() ==> #[trigger] render_nonneg(-s, n)[k] != '-',
{
    let a = dec_digits((-s) / pow10(n));
    let b = dec_digits((-s) % pow10(n));
    let p = zero_pad(b, n);
    lemma_dec_digits_no_sign((-s) / pow10(n));
    lemma_dec_digits_no_sign((-s) % pow10(n));
    assert forall|k: int| 0 <= k < render_nonneg(-s, n).len()
        implies #[trigger] render_nonneg(-s, n)[k] != '-' by {
        let rn = render_nonneg(-s, n);
        assert(rn == (a + seq!['.']) + p);
        if k < a.len() {
            assert(rn[k] == a[k]);
        } else if k == a.len() {
            assert(rn[k] == '.');
        } else {
            let j = k - a.len() - 1;
            assert(rn[k] == p[j]);
            if b.len() >= n {
                assert(p[j] == b[j]);
            } else {
                let z = Seq::new((n - b.len()) as nat, |i: int| '0');
                assert(p == z + b);
                if j < z.len() {
                    assert(p[j] == '0');
                } else {
                    assert(p[j] == b[j - z.len()]);
                }
            }
        }
    }
}

} // verus!
