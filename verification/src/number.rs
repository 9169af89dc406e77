//! The signed big integer: a sign flag and a canonical magnitude.

use std::cmp::Ordering;
use vstd::prelude::*;
use vstd::arithmetic::div_mod::{lemma_fundamental_div_mod, lemma_mod_bound};
use vstd::string::{StringExecFns, is_ascii_spec_bytes};
use crate::decimal::{
    all_digits_from, append_limbs, bytes_match, decimal_text, digit_part, digits_to_limbs,
    has_sign, is_decimal_text, lemma_decimal_text_is_ascii, nat_digits, text_value,
};
use crate::limbs::{
    BASE, base_pow, is_canonical, limbs_in_range, limbs_value, to_limbs, trimmed, lemma_base_pow,
    lemma_canonical_is_to_limbs, lemma_canonical_zero, lemma_trimmed, lemma_value_push,
    lemma_value_single,
};
use crate::magnitude::{limbs_equal, mag_add, mag_divmod, mag_less, mag_mul, mag_sub, trim};

verus! {

/// An integer of any size: a sign flag and the limbs of its absolute value
/// in base 1,000,000,000, least significant limb first.
#[derive(Debug)]
pub struct BigInt {
    neg: bool,
    digits: Vec<u32>,
}

/// The text handed to [`BigInt::from_decimal_text`] is not a decimal
/// numeral.
#[derive(Debug, Clone, Copy, PartialEq, Eq)]
pub struct ParseError;

/// The divisor handed to [`BigInt::divmod`] is zero.
#[derive(Debug, Clone, Copy, PartialEq, Eq)]
pub struct DivisionByZero;

/// The integer with absolute value `magnitude`, negative if `neg`.
pub open spec fn signed(neg: bool, magnitude: nat) -> int {
    if neg {
        -(magnitude as int)
    } else {
        magnitude as int
    }
}

/// The absolute value of `n`.
pub open spec fn abs(n: int) -> nat {
    if n < 0 {
        (-n) as nat
    } else {
        n as nat
    }
}

/// The quotient of `a` by `b`, rounded toward zero.
pub open spec fn trunc_div(a: int, b: int) -> int {
    if (a < 0) != (b < 0) {
        -((abs(a) / abs(b)) as int)
    } else {
        (abs(a) / abs(b)) as int
    }
}

/// The remainder that goes with [`trunc_div`]: it has the sign of `a`, or
/// is zero.
pub open spec fn trunc_rem(a: int, b: int) -> int {
    if a < 0 {
        -((abs(a) % abs(b)) as int)
    } else {
        (abs(a) % abs(b)) as int
    }
}

/// Truncating division is the division whose quotient and remainder add up
/// to the dividend, with a remainder smaller than the divisor in absolute
/// value that is zero or has the sign of the dividend.
pub proof fn lemma_trunc_division(a: int, b: int)
    requires
        b != 0,
    ensures
        a == b * trunc_div(a, b) + trunc_rem(a, b),
        abs(trunc_rem(a, b)) < abs(b),
        trunc_rem(a, b) == 0 || (trunc_rem(a, b) < 0 <==> a < 0),
        abs(trunc_div(a, b)) == abs(a) / abs(b),
{
    let x: int = abs(a) as int;
    let y: int = abs(b) as int;
    let q: int = x / y;
    let r: int = x % y;
    lemma_fundamental_div_mod(x, y);
    assert(0 <= r < y);
    assert(q >= 0) by (nonlinear_arith)
        requires
            x == y * q + r,
            0 <= r < y,
            x >= 0,
    ;
    assert(y * (-q) == -(y * q)) by (nonlinear_arith);
    assert((-y) * q == -(y * q)) by (nonlinear_arith);
    assert((-y) * (-q) == y * q) by (nonlinear_arith);
}

impl View for BigInt {
    type V = int;

    /// The integer that this value stands for.
    open spec fn view(&self) -> int {
        signed(self.negative(), self.magnitude())
    }
}

/// The absolute value of `v`, which fits in a `u64` for every `v`.
fn unsigned_abs(v: i64) -> (r: u64)
    ensures
        r == abs(v as int),
{
    if v >= 0 {
        v as u64
    } else {
        (-(v + 1)) as u64 + 1
    }
}

impl BigInt {
    /// The limbs of the magnitude, least significant first.
    pub closed spec fn limbs(&self) -> Seq<u32> {
        self.digits@
    }

    /// The sign flag.
    pub closed spec fn negative(&self) -> bool {
        self.neg
    }

    /// The absolute value.
    pub open spec fn magnitude(&self) -> nat {
        limbs_value(self.limbs())
    }

    /// The value is in canonical form: every limb is below the radix, the
    /// most significant limb is not zero, and zero is not negative.
    pub open spec fn wf(&self) -> bool {
        &&& is_canonical(self.limbs())
        &&& self.limbs().len() == 0 ==> !self.negative()
    }

    /// In canonical form the sign flag agrees with the sign of the value,
    /// and only the empty magnitude stands for zero.
    pub proof fn lemma_sign(&self)
        requires
            self.wf(),
        ensures
            self.negative() <==> self@ < 0,
            self@ == 0 <==> self.limbs().len() == 0,
            abs(self@) == self.magnitude(),
    {
        lemma_canonical_zero(self.limbs());
    }

    /// In canonical form the limbs are the canonical limbs of the absolute
    /// value.
    pub proof fn lemma_limbs(&self)
        requires
            self.wf(),
        ensures
            self.limbs() == to_limbs(abs(self@)),
    {
        self.lemma_sign();
        lemma_canonical_is_to_limbs(self.limbs());
    }

    /// The number zero.
    pub fn zero() -> (z: Self)
        ensures
            z.wf(),
            z@ == 0,
            z.limbs() == Seq::<u32>::empty(),
            !z.negative(),
    {
        Self { neg: false, digits: Vec::new() }
    }

    /// The number one.
    pub fn one() -> (o: Self)
        ensures
            o.wf(),
            o@ == 1,
            o.limbs() == seq![1u32],
            !o.negative(),
    {
        let mut digits: Vec<u32> = Vec::new();
        digits.push(1);
        proof {
            assert(digits@ =~= seq![1u32]);
            lemma_value_single(1);
        }
        Self { neg: false, digits }
    }

    /// The big integer with the value of `v`.
    pub fn from_i64(v: i64) -> (n: Self)
        ensures
            n.wf(),
            n@ == v,
            n.negative() == (v < 0),
            n.limbs() == to_limbs(abs(v as int)),
    {
        if v == 0 {
            return Self::zero();
        }
        let mut x: u64 = unsigned_abs(v);
        let mut digits: Vec<u32> = Vec::new();
        let ghost mut weight: int = 1;
        proof {
            lemma_base_pow(0);
        }
        while x > 0
            invariant
                limbs_in_range(digits@),
                weight == base_pow(digits.len() as nat),
                limbs_value(digits@) + weight * x == abs(v as int),
            decreases x,
        {
            let limb: u32 = (x % BASE as u64) as u32;
            proof {
                lemma_value_push(digits@, limb);
                lemma_base_pow(digits.len() as nat);
                assert(weight * x == weight * limb + (BASE * weight) * (x / (BASE as u64)))
                    by (nonlinear_arith)
                    requires
                        x == limb + BASE * (x / (BASE as u64)),
                ;
                weight = BASE * weight;
            }
            digits.push(limb);
            x = x / BASE as u64;
        }
        assert(weight * 0 == 0);
        let n: Self = Self { neg: v < 0, digits }.normalize();
        proof {
            n.lemma_limbs();
        }
        n
    }

    /// Brings a value into canonical form: strips the trailing zero limbs
    /// and clears the sign flag of zero.
    pub fn normalize(self) -> (n: Self)
        requires
            limbs_in_range(self.limbs()),
        ensures
            n.wf(),
            n@ == self@,
            n.limbs() == trimmed(self.limbs()),
            n.negative() == (self.negative() && trimmed(self.limbs()).len() > 0),
            self.wf() ==> n.limbs() == self.limbs() && n.negative() == self.negative(),
    {
        proof {
            lemma_trimmed(self.digits@);
            lemma_canonical_zero(trimmed(self.digits@));
        }
        let mut n: Self = self;
        n.digits = trim(n.digits);
        if n.digits.len() == 0 {
            n.neg = false;
        }
        n
    }

    /// The limbs of the magnitude, least significant first.
    pub fn digits(&self) -> (d: &Vec<u32>)
        ensures
            d@ == self.limbs(),
    {
        &self.digits
    }

    /// Whether the sign flag is set.
    pub fn is_negative(&self) -> (b: bool)
        ensures
            b == self.negative(),
    {
        self.neg
    }

    /// Whether the value is zero.
    pub fn is_zero(&self) -> (b: bool)
        requires
            self.wf(),
        ensures
            b == (self@ == 0),
    {
        proof {
            self.lemma_sign();
        }
        self.digits.len() == 0
    }

    /// Reads a decimal numeral: an optional `-` or `+`, then one or more
    /// decimal digits. Anything else is refused.
    pub fn from_decimal_text(s: &str) -> (r: Result<Self, ParseError>)
        ensures
            r is Ok <==> is_decimal_text(s@),
            r matches Ok(n) ==> n.wf() && n@ == text_value(s@),
    {
        if !s.is_ascii() {
            proof {
                if is_decimal_text(s@) {
                    lemma_decimal_text_is_ascii(s@);
                }
            }
            return Err(ParseError);
        }
        let bytes: &[u8] = s.as_bytes();
        proof {
            is_ascii_spec_bytes(s);
            assert(bytes_match(bytes@, s@));
        }
        let n: usize = bytes.len();
        let signed_text: bool = n > 0 && (bytes[0] == 45 || bytes[0] == 43);
        let start: usize = if signed_text { 1 } else { 0 };
        assert(signed_text == has_sign(s@));
        assert(digit_part(s@) == s@.skip(start as int));
        if start == n {
            return Err(ParseError);
        }
        if !all_digits_from(bytes, start, Ghost(s@)) {
            return Err(ParseError);
        }
        let digits: Vec<u32> = digits_to_limbs(bytes, start, Ghost(s@));
        let neg: bool = signed_text && bytes[0] == 45;
        Ok(Self { neg, digits }.normalize())
    }

    /// Writes the value as a decimal numeral: `-` for a negative value,
    /// then the digits without leading zeros; zero is `0`.
    pub fn to_decimal_text(&self) -> (text: String)
        requires
            self.wf(),
        ensures
            text@ == decimal_text(self@),
    {
        proof {
            self.lemma_sign();
        }
        let mut text: String = String::new();
        if self.digits.len() == 0 {
            proof {
                reveal_strlit("0");
                assert(Seq::<char>::empty() + "0"@ =~= decimal_text(0));
            }
            text.append("0");
            return text;
        }
        if self.neg {
            proof {
                reveal_strlit("-");
                assert(Seq::<char>::empty() + "-"@ =~= seq!['-']);
            }
            text.append("-");
        }
        append_limbs(&mut text, &self.digits);
        proof {
            assert(Seq::<char>::empty() + nat_digits(self.magnitude())
                =~= nat_digits(self.magnitude()));
        }
        text
    }
    /// Orders two values by their absolute values: first by the number of
    /// limbs, then limb by limb from the most significant one down.
    pub fn compare_magnitude(&self, other: &Self) -> (o: Ordering)
        requires
            self.wf(),
            other.wf(),
        ensures
            match o {
                Ordering::Less => self.magnitude() < other.magnitude(),
                Ordering::Equal => self.magnitude() == other.magnitude(),
                Ordering::Greater => self.magnitude() > other.magnitude(),
            },
    {
        if mag_less(&self.digits, &other.digits) {
            Ordering::Less
        } else if mag_less(&other.digits, &self.digits) {
            Ordering::Greater
        } else {
            Ordering::Equal
        }
    }

    /// Orders two values as integers: a negative value is below a
    /// nonnegative one, and two negative values order against their
    /// magnitudes.
    pub fn compare(&self, other: &Self) -> (o: Ordering)
        requires
            self.wf(),
            other.wf(),
        ensures
            match o {
                Ordering::Less => self@ < other@,
                Ordering::Equal => self@ == other@,
                Ordering::Greater => self@ > other@,
            },
    {
        proof {
            self.lemma_sign();
            other.lemma_sign();
        }
        if self.neg != other.neg {
            if self.neg {
                Ordering::Less
            } else {
                Ordering::Greater
            }
        } else {
            let by_magnitude: Ordering = self.compare_magnitude(other);
            if self.neg {
                match by_magnitude {
                    Ordering::Less => Ordering::Greater,
                    Ordering::Equal => Ordering::Equal,
                    Ordering::Greater => Ordering::Less,
                }
            } else {
                by_magnitude
            }
        }
    }

    /// Whether the two values are the same integer.
    pub fn equals(&self, other: &Self) -> (b: bool)
        requires
            self.wf(),
            other.wf(),
        ensures
            b == (self@ == other@),
    {
        match self.compare(other) {
            Ordering::Equal => true,
            _ => false,
        }
    }

    /// Whether this value is below `other`.
    pub fn less_than(&self, other: &Self) -> (b: bool)
        requires
            self.wf(),
            other.wf(),
        ensures
            b == (self@ < other@),
    {
        match self.compare(other) {
            Ordering::Less => true,
            _ => false,
        }
    }

    /// Whether this value is below `other` or the same.
    pub fn less_equal(&self, other: &Self) -> (b: bool)
        requires
            self.wf(),
            other.wf(),
        ensures
            b == (self@ <= other@),
    {
        match self.compare(other) {
            Ordering::Greater => false,
            _ => true,
        }
    }

    /// Whether this value is above `other`.
    pub fn greater_than(&self, other: &Self) -> (b: bool)
        requires
            self.wf(),
            other.wf(),
        ensures
            b == (self@ > other@),
    {
        match self.compare(other) {
            Ordering::Greater => true,
            _ => false,
        }
    }

    /// Whether this value is above `other` or the same.
    pub fn greater_equal(&self, other: &Self) -> (b: bool)
        requires
            self.wf(),
            other.wf(),
        ensures
            b == (self@ >= other@),
    {
        match self.compare(other) {
            Ordering::Less => false,
            _ => true,
        }
    }

    /// The sum of two signed magnitudes: with the same sign the magnitudes
    /// add, with different signs the smaller is taken from the larger and
    /// the result has the sign of the larger.
    fn signed_sum(a_neg: bool, a: &Vec<u32>, b_neg: bool, b: &Vec<u32>) -> (n: Self)
        requires
            is_canonical(a@),
            is_canonical(b@),
        ensures
            n.wf(),
            n@ == signed(a_neg, limbs_value(a@)) + signed(b_neg, limbs_value(b@)),
    {
        if a_neg == b_neg {
            Self { neg: a_neg, digits: mag_add(a, b) }.normalize()
        } else if mag_less(a, b) {
            Self { neg: b_neg, digits: mag_sub(b, a) }.normalize()
        } else {
            Self { neg: a_neg, digits: mag_sub(a, b) }.normalize()
        }
    }

    /// The sum of the two values.
    pub fn add(&self, other: &Self) -> (sum: Self)
        requires
            self.wf(),
            other.wf(),
        ensures
            sum.wf(),
            sum@ == self@ + other@,
    {
        Self::signed_sum(self.neg, &self.digits, other.neg, &other.digits)
    }

    /// The difference of the two values: this value minus `other`.
    pub fn sub(&self, other: &Self) -> (difference: Self)
        requires
            self.wf(),
            other.wf(),
        ensures
            difference.wf(),
            difference@ == self@ - other@,
    {
        Self::signed_sum(self.neg, &self.digits, !other.neg, &other.digits)
    }

    /// The product of the two values.
    pub fn mul(&self, other: &Self) -> (product: Self)
        requires
            self.wf(),
            other.wf(),
        ensures
            product.wf(),
            product@ == self@ * other@,
    {
        let digits: Vec<u32> = mag_mul(&self.digits, &other.digits);
        proof {
            let x: int = self.magnitude() as int;
            let y: int = other.magnitude() as int;
            assert((-x) * y == -(x * y)) by (nonlinear_arith);
            assert(x * (-y) == -(x * y)) by (nonlinear_arith);
            assert((-x) * (-y) == x * y) by (nonlinear_arith);
        }
        Self { neg: self.neg != other.neg, digits }.normalize()
    }

    /// Divides this value by `other`, rounding the quotient toward zero,
    /// and returns the quotient and the remainder. The remainder has the
    /// sign of this value, or is zero. A zero divisor is refused.
    pub fn divmod(&self, other: &Self) -> (r: Result<(Self, Self), DivisionByZero>)
        requires
            self.wf(),
            other.wf(),
        ensures
            r is Err <==> other@ == 0,
            r matches Ok(qr) ==> {
                &&& qr.0.wf()
                &&& qr.1.wf()
                &&& qr.0@ == trunc_div(self@, other@)
                &&& qr.1@ == trunc_rem(self@, other@)
                &&& self@ == other@ * qr.0@ + qr.1@
                &&& qr.1.magnitude() < other.magnitude()
            },
    {
        proof {
            self.lemma_sign();
            other.lemma_sign();
        }
        if other.digits.len() == 0 {
            return Err(DivisionByZero);
        }
        let (q, r): (Vec<u32>, Vec<u32>) = mag_divmod(&self.digits, &other.digits);
        let quotient: Self = Self { neg: self.neg != other.neg, digits: q }.normalize();
        let remainder: Self = Self { neg: self.neg, digits: r }.normalize();
        proof {
            lemma_trunc_division(self@, other@);
            remainder.lemma_sign();
            lemma_mod_bound(
                self.magnitude() as int,
                other.magnitude() as int,
            );
        }
        Ok((quotient, remainder))
    }
}

impl Clone for BigInt {
    /// A copy with the same sign flag and limbs.
    fn clone(&self) -> (c: Self)
        ensures
            c.limbs() == self.limbs(),
            c.negative() == self.negative(),
    {
        let digits: Vec<u32> = self.digits.clone();
        assert(digits@ =~= self.digits@);
        Self { neg: self.neg, digits }
    }
}

impl PartialEq for BigInt {
    /// Two values are equal when their sign flags and limbs are.
    fn eq(&self, other: &Self) -> (b: bool) {
        self.neg == other.neg && limbs_equal(&self.digits, &other.digits)
    }
}

impl vstd::std_specs::cmp::PartialEqSpecImpl for BigInt {
    open spec fn obeys_eq_spec() -> bool {
        true
    }

    open spec fn eq_spec(&self, other: &Self) -> bool {
        self.negative() == other.negative() && self.limbs() == other.limbs()
    }
}

impl Eq for BigInt {

}

} // verus!
