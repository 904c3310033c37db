//! The big-integer engine: arbitrary-precision signed integers.
//!
//! A [`BigInt`] is a sign and a magnitude ([`Num`]); zero is never negative,
//! so every integer has exactly one representation.  The operations are the
//! capability surface the fixed-point layer consumes: construction from a
//! machine word, signed add, subtract and multiply, truncating division,
//! and decimal rendering of the magnitude.

use vstd::prelude::*;
use crate::num::{Num, lemma_num_unique, num_from_u64, num_is_zero, num_lt, num_add, num_sub, num_mul, num_divmod, num_to_dec, dec_digits, lemma_num_nonneg};

verus! {

/// The absolute value.
pub open spec fn abs_of(x: int) -> int {
    if x < 0 {
        -x
    } else {
        x
    }
}

/// Truncating division: the quotient of the absolute values, with the sign
/// of the exact quotient — integer division that rounds toward zero.
pub open spec fn tdiv(x: int, y: int) -> int {
    if (x < 0) != (y < 0) {
        -(abs_of(x) / abs_of(y))
    } else {
        abs_of(x) / abs_of(y)
    }
}

/// On non-negative operands, truncating division is plain Euclidean
/// division.
pub proof fn lemma_tdiv_nonneg(x: int, y: int)
    requires
        0 <= x,
        0 < y,
    ensures
        tdiv(x, y) == x / y,
{
}

/// An exact multiple divides back without loss, whatever its sign.
pub proof fn lemma_tdiv_exact(x: int, y: int)
    requires
        0 < y,
    ensures
        tdiv(x * y, y) == x,
{
    if x >= 0 {
        assert(x * y >= 0) by (nonlinear_arith)
            requires x >= 0, y > 0;
        vstd::arithmetic::div_mod::lemma_div_multiples_vanish(x, y);
        assert(x * y == y * x) by (nonlinear_arith);
    } else {
        assert(x * y < 0) by (nonlinear_arith)
            requires x < 0, y > 0;
        assert(-(x * y) == (-x) * y) by (nonlinear_arith);
        vstd::arithmetic::div_mod::lemma_div_multiples_vanish(-x, y);
        assert((-x) * y == y * (-x)) by (nonlinear_arith);
    }
}

/// An arbitrary-precision signed integer.
pub struct BigInt {
    pub(crate) neg: bool,
    pub(crate) mag: Num,
}

impl BigInt {
    /// The integer this value holds.
    pub closed spec fn ival(&self) -> int {
        if self.neg {
            -self.mag.nval()
        } else {
            self.mag.nval()
        }
    }

    /// Well-formed: canonical magnitude, and zero is not negative.
    pub closed spec fn wf(&self) -> bool {
        &&& self.mag.wf()
        &&& (self.neg ==> self.mag.nval() > 0)
    }

    /// The representation itself: the sign and the limbs of the magnitude.
    pub closed spec fn repr(&self) -> (bool, Seq<u64>) {
        (self.neg, self.mag.repr())
    }

    /// The integer `x`.
    pub fn from_u64(x: u64) -> (r: BigInt)
        ensures
            r.wf(),
            r.ival() == x,
    {
        BigInt { neg: false, mag: num_from_u64(x) }
    }

    /// Whether the integer is negative.
    pub fn is_negative(&self) -> (r: bool)
        requires
            self.wf(),
        ensures
            r <==> self.ival() < 0,
    {
        proof {
            lemma_num_nonneg(&self.mag);
        }
        self.neg
    }

    /// The same integer with the opposite sign.
    pub fn negated(&self) -> (r: BigInt)
        requires
            self.wf(),
        ensures
            r.wf(),
            r.ival() == -self.ival(),
    {
        int_neg(self)
    }

    /// The decimal text of the integer: a minus sign for a negative value,
    /// then the digits of the magnitude.
    pub fn to_decimal(&self) -> (r: String)
        requires
            self.wf(),
        ensures
            r@ == if self.ival() < 0 {
                seq!['-'] + dec_digits(-self.ival())
            } else {
                dec_digits(self.ival())
            },
    {
        proof {
            lemma_num_nonneg(&self.mag);
        }
        let mut d = num_to_dec(&self.mag);
        let mut out: Vec<char> = Vec::new();
        if self.is_negative() {
            out.push('-');
        }
        out.append(&mut d);
        let s = chars_to_string(&out);
        proof {
            if self.ival() < 0 {
                assert(out@ =~= seq!['-'] + dec_digits(-self.ival()));
            } else {
                assert(out@ =~= dec_digits(self.ival()));
            }
        }
        s
    }
}

/// Relies on `String`'s `FromIterator` over `char`: the collected string
/// holds exactly the characters of the vector, in order.
#[verifier::external_body]
pub(crate) fn chars_to_string(v: &Vec<char>) -> (r: String)
    ensures
        r@ == v@,
{
    v.iter().collect()
}

/// One integer, one representation: two well-formed values that hold the
/// same integer agree in sign and in every limb.
pub proof fn lemma_int_unique(a: &BigInt, b: &BigInt)
    requires
        a.wf(),
        b.wf(),
        a.ival() == b.ival(),
    ensures
        a.repr() == b.repr(),
{
    lemma_num_nonneg(&a.mag);
    lemma_num_nonneg(&b.mag);
    lemma_num_unique(&a.mag, &b.mag);
}

impl Clone for BigInt {
    /// An exact copy: same integer, same well-formedness.
    fn clone(&self) -> (r: Self)
        ensures
            r.ival() == self.ival(),
            r.wf() == self.wf(),
    {
        BigInt { neg: self.neg, mag: self.mag.clone() }
    }
}

/// A non-negative integer from its magnitude.
pub(crate) fn int_from_mag(m: Num) -> (r: BigInt)
    requires
        m.wf(),
    ensures
        r.wf(),
        r.ival() == m.nval(),
{
    BigInt { neg: false, mag: m }
}

/// The magnitude of an integer, as a number.
pub(crate) fn int_abs_mag(a: &BigInt) -> (r: Num)
    requires
        a.wf(),
    ensures
        r.wf(),
        r.nval() == abs_of(a.ival()),
{
    proof {
        lemma_num_nonneg(&a.mag);
    }
    a.mag.clone()
}

/// The difference of two magnitudes, as a signed integer.
fn mag_diff(x: &Num, y: &Num) -> (r: BigInt)
    requires
        x.wf(),
        y.wf(),
    ensures
        r.wf(),
        r.ival() == x.nval() - y.nval(),
{
    if num_lt(x, y) {
        let m = num_sub(y, x);
        BigInt { neg: true, mag: m }
    } else {
        let m = num_sub(x, y);
        BigInt { neg: false, mag: m }
    }
}

/// The sum of two signed integers.
pub(crate) fn int_add(a: &BigInt, b: &BigInt) -> (r: BigInt)
    requires
        a.wf(),
        b.wf(),
    ensures
        r.wf(),
        r.ival() == a.ival() + b.ival(),
{
    proof {
        lemma_num_nonneg(&a.mag);
        lemma_num_nonneg(&b.mag);
    }
    if !a.neg && !b.neg {
        BigInt { neg: false, mag: num_add(&a.mag, &b.mag) }
    } else if a.neg && b.neg {
        BigInt { neg: true, mag: num_add(&a.mag, &b.mag) }
    } else if a.neg {
        mag_diff(&b.mag, &a.mag)
    } else {
        mag_diff(&a.mag, &b.mag)
    }
}

/// The same integer with the opposite sign.
pub(crate) fn int_neg(a: &BigInt) -> (r: BigInt)
    requires
        a.wf(),
    ensures
        r.wf(),
        r.ival() == -a.ival(),
{
    proof {
        lemma_num_nonneg(&a.mag);
    }
    if num_is_zero(&a.mag) {
        a.clone()
    } else {
        BigInt { neg: !a.neg, mag: a.mag.clone() }
    }
}

/// The difference of two signed integers.
pub(crate) fn int_sub(a: &BigInt, b: &BigInt) -> (r: BigInt)
    requires
        a.wf(),
        b.wf(),
    ensures
        r.wf(),
        r.ival() == a.ival() - b.ival(),
{
    let nb = int_neg(b);
    int_add(a, &nb)
}

/// The product of two signed integers.
pub(crate) fn int_mul(a: &BigInt, b: &BigInt) -> (r: BigInt)
    requires
        a.wf(),
        b.wf(),
    ensures
        r.wf(),
        r.ival() == a.ival() * b.ival(),
{
    proof {
        lemma_num_nonneg(&a.mag);
        lemma_num_nonneg(&b.mag);
    }
    let m = num_mul(&a.mag, &b.mag);
    let z = num_is_zero(&m);
    proof {
        let x = a.mag.nval();
        let y = b.mag.nval();
        assert((-x) * y == -(x * y)) by (nonlinear_arith);
        assert(x * (-y) == -(x * y)) by (nonlinear_arith);
        assert((-x) * (-y) == x * y) by (nonlinear_arith);
    }
    if z {
        BigInt { neg: false, mag: m }
    } else {
        BigInt { neg: a.neg != b.neg, mag: m }
    }
}

/// The quotient of two signed integers, truncated toward zero.
pub(crate) fn int_div_trunc(a: &BigInt, b: &BigInt) -> (r: BigInt)
    requires
        a.wf(),
        b.wf(),
        b.ival() != 0,
    ensures
        r.wf(),
        r.ival() == tdiv(a.ival(), b.ival()),
{
    proof {
        lemma_num_nonneg(&a.mag);
        lemma_num_nonneg(&b.mag);
    }
    let (q, _rem) = num_divmod(&a.mag, &b.mag);
    let z = num_is_zero(&q);
    if z {
        BigInt { neg: false, mag: q }
    } else {
        BigInt { neg: a.neg != b.neg, mag: q }
    }
}

} // verus!
