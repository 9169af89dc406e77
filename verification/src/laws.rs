//! Laws of the arithmetic, stated once for all values and proved.
//!
//! Where a law speaks of the result of an operation, the result is a
//! parameter of the law, tied to the operands by what the operation
//! ensures: `sum@ == a@ + b@` for `a.add(&b)`, and so on.

use vstd::prelude::*;
use crate::decimal::{
    decimal_text, digit_part, has_sign, is_decimal_text, is_digit, nat_digits, text_value,
    lemma_nat_digits,
};
use crate::limbs::{limbs_in_range, trimmed, lemma_canonical_unique, lemma_trimmed};
use crate::number::{BigInt, lemma_trunc_division, trunc_div, trunc_rem};

verus! {

/// A value in canonical form is determined by the integer it stands for:
/// two such values of the same integer have the same sign flag and the
/// same limbs.
pub proof fn lemma_representation_unique(a: BigInt, b: BigInt)
    requires
        a.wf(),
        b.wf(),
        a@ == b@,
    ensures
        a.negative() == b.negative(),
        a.limbs() == b.limbs(),
{
    a.lemma_sign();
    b.lemma_sign();
    lemma_canonical_unique(a.limbs(), b.limbs());
}

/// Stripping trailing zero limbs a second time changes nothing.
pub proof fn lemma_trimmed_idempotent(s: Seq<u32>)
    requires
        limbs_in_range(s),
    ensures
        trimmed(trimmed(s)) == trimmed(s),
{
    lemma_trimmed(s);
    lemma_trimmed(trimmed(s));
}

/// Zero has one representation: no limbs, and the sign flag clear.
pub proof fn lemma_zero_canonical(n: BigInt)
    requires
        n.wf(),
        n@ == 0,
    ensures
        n.limbs() == Seq::<u32>::empty(),
        !n.negative(),
{
    n.lemma_sign();
    assert(n.limbs() =~= Seq::<u32>::empty());
}

/// The decimal numeral of an integer is well formed and denotes that
/// integer.
pub proof fn lemma_decimal_round_trip(n: int)
    ensures
        is_decimal_text(decimal_text(n)),
        text_value(decimal_text(n)) == n,
{
    if n < 0 {
        let digits: Seq<char> = nat_digits((-n) as nat);
        lemma_nat_digits((-n) as nat);
        let text: Seq<char> = seq!['-'] + digits;
        assert(text[0] == '-');
        assert(has_sign(text));
        assert(text.skip(1) =~= digits);
    } else {
        let digits: Seq<char> = nat_digits(n as nat);
        lemma_nat_digits(n as nat);
        assert(is_digit(digits[0]));
        assert(!has_sign(digits));
        assert(digit_part(digits) == digits);
    }
}

/// Writing a value as text and reading the text back gives the value
/// again: the text is accepted, and `back`, the value read, is `a` in
/// every limb.
pub proof fn lemma_text_round_trip(a: BigInt, back: BigInt)
    requires
        a.wf(),
        back.wf(),
        back@ == text_value(decimal_text(a@)),
    ensures
        is_decimal_text(decimal_text(a@)),
        back@ == a@,
        back.negative() == a.negative(),
        back.limbs() == a.limbs(),
{
    lemma_decimal_round_trip(a@);
    lemma_representation_unique(a, back);
}

/// Addition does not depend on the order of its operands: `ab`, the sum of
/// `a` and `b`, and `ba`, the sum of `b` and `a`, are the same value in
/// every limb.
pub proof fn lemma_add_commutative(a: BigInt, b: BigInt, ab: BigInt, ba: BigInt)
    requires
        ab.wf(),
        ba.wf(),
        ab@ == a@ + b@,
        ba@ == b@ + a@,
    ensures
        ab@ == ba@,
        ab.negative() == ba.negative(),
        ab.limbs() == ba.limbs(),
{
    lemma_representation_unique(ab, ba);
}

/// Multiplication does not depend on the order of its operands: `ab`, the
/// product of `a` and `b`, and `ba`, the product of `b` and `a`, are the
/// same value in every limb.
pub proof fn lemma_mul_commutative(a: BigInt, b: BigInt, ab: BigInt, ba: BigInt)
    requires
        ab.wf(),
        ba.wf(),
        ab@ == a@ * b@,
        ba@ == b@ * a@,
    ensures
        ab@ == ba@,
        ab.negative() == ba.negative(),
        ab.limbs() == ba.limbs(),
{
    assert(a@ * b@ == b@ * a@) by (nonlinear_arith);
    lemma_representation_unique(ab, ba);
}

/// A value and its negation add up to zero: with `zero` the number zero,
/// `negated` the difference of `zero` and `a`, and `sum` the sum of `a` and
/// `negated`, `sum` is `zero` in every limb.
pub proof fn lemma_additive_inverse(a: BigInt, zero: BigInt, negated: BigInt, sum: BigInt)
    requires
        zero.wf(),
        sum.wf(),
        zero@ == 0,
        negated@ == zero@ - a@,
        sum@ == a@ + negated@,
    ensures
        sum@ == 0,
        sum.negative() == zero.negative(),
        sum.limbs() == zero.limbs(),
{
    lemma_representation_unique(sum, zero);
}

/// Division can be undone: with `q` and `r` the quotient and remainder of
/// `a` by a nonzero `b`, `product` the product of `b` and `q`, and `sum` the
/// sum of `product` and `r`, `sum` is `a` in every limb, and the magnitude
/// of `r` is below that of `b`.
pub proof fn lemma_division_identity(
    a: BigInt,
    b: BigInt,
    q: BigInt,
    r: BigInt,
    product: BigInt,
    sum: BigInt,
)
    requires
        a.wf(),
        b.wf(),
        r.wf(),
        sum.wf(),
        b@ != 0,
        q@ == trunc_div(a@, b@),
        r@ == trunc_rem(a@, b@),
        product@ == b@ * q@,
        sum@ == product@ + r@,
    ensures
        sum@ == a@,
        sum.negative() == a.negative(),
        sum.limbs() == a.limbs(),
        r.magnitude() < b.magnitude(),
{
    lemma_trunc_division(a@, b@);
    lemma_representation_unique(sum, a);
    r.lemma_sign();
    b.lemma_sign();
}

/// The order of two values is the sign of their difference: with
/// `difference` the difference of `a` and `b`, `a` is below `b` exactly
/// when `difference` is negative, and they are equal exactly when it is
/// zero.
pub proof fn lemma_order_is_sign_of_difference(a: BigInt, b: BigInt, difference: BigInt)
    requires
        difference.wf(),
        difference@ == a@ - b@,
    ensures
        a@ < b@ <==> difference.negative(),
        a@ == b@ <==> difference.limbs().len() == 0,
        a@ > b@ <==> !difference.negative() && difference.limbs().len() > 0,
{
    difference.lemma_sign();
}

} // verus!
