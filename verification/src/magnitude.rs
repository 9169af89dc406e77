//! Arithmetic on magnitudes: vectors of limbs in base 1,000,000,000, least
//! significant limb first.

use vstd::prelude::*;
use vstd::arithmetic::div_mod::lemma_fundamental_div_mod_converse;
use vstd::arithmetic::power::lemma_pow_adds;
use crate::limbs::{
    BASE, base_pow, is_canonical, limbs_in_range, limbs_value, prefix_value, trimmed,
    lemma_base_pow, lemma_canonical_zero, lemma_less_at_limb, lemma_prefix_value_step,
    lemma_shorter_is_less, lemma_trimmed, lemma_value_insert_front, lemma_value_push,
    lemma_value_update, lemma_value_upper_bound,
};

verus! {

/// The larger of two lengths.
pub open spec fn longer(a: nat, b: nat) -> nat {
    if a >= b {
        a
    } else {
        b
    }
}

/// One step of a carry chain at weight `p`: storing `limb` and carrying
/// `carry_out` accounts for exactly `total`.
proof fn lemma_carry_step(p: int, limb: int, carry_out: int, total: int)
    requires
        limb + carry_out * BASE == total,
    ensures
        p * limb + carry_out * (BASE * p) == p * total,
{
    assert(p * limb + carry_out * (BASE * p) == p * (limb + carry_out * BASE))
        by (nonlinear_arith);
}

/// Removes the trailing zero limbs of `v`.
pub fn trim(v: Vec<u32>) -> (r: Vec<u32>)
    ensures
        r@ == trimmed(v@),
{
    let mut r: Vec<u32> = v;
    while r.len() > 0 && r[r.len() - 1] == 0
        invariant
            trimmed(r@) == trimmed(v@),
        decreases r.len(),
    {
        r.pop();
    }
    r
}

/// Tells whether `x` and `y` hold the same limbs.
pub fn limbs_equal(x: &Vec<u32>, y: &Vec<u32>) -> (same: bool)
    ensures
        same == (x@ == y@),
{
    if x.len() != y.len() {
        return false;
    }
    let mut i: usize = 0;
    while i < x.len()
        invariant
            i <= x.len(),
            x.len() == y.len(),
            forall|j: int| 0 <= j < i ==> x@[j] == y@[j],
        decreases x.len() - i,
    {
        if x[i] != y[i] {
            return false;
        }
        i = i + 1;
    }
    assert(x@ =~= y@);
    true
}

/// Tells whether the magnitude `x` is smaller than the magnitude `y`: the
/// shorter one is, and of two of the same length the one with the smaller
/// limb at the most significant position where they differ.
pub fn mag_less(x: &Vec<u32>, y: &Vec<u32>) -> (less: bool)
    requires
        is_canonical(x@),
        is_canonical(y@),
    ensures
        less == (limbs_value(x@) < limbs_value(y@)),
{
    if x.len() != y.len() {
        proof {
            if x.len() < y.len() {
                lemma_shorter_is_less(x@, y@);
            } else {
                lemma_shorter_is_less(y@, x@);
            }
        }
        return x.len() < y.len();
    }
    let mut i: usize = x.len();
    while i > 0
        invariant
            i <= x.len(),
            x.len() == y.len(),
            limbs_in_range(x@),
            limbs_in_range(y@),
            forall|j: int| i <= j < x.len() ==> x@[j] == y@[j],
        decreases i,
    {
        i = i - 1;
        if x[i] != y[i] {
            proof {
                assert(x@.skip(i + 1) =~= y@.skip(i + 1));
                if x[i as int] < y[i as int] {
                    lemma_less_at_limb(x@, y@, i as int);
                } else {
                    lemma_less_at_limb(y@, x@, i as int);
                }
            }
            return x[i] < y[i];
        }
    }
    assert(x@ =~= y@);
    false
}

/// Adds two magnitudes limb by limb, carrying into the next limb. The sum
/// is as long as the longer operand, and one limb longer when a carry is
/// left at the end.
pub fn mag_add(x: &Vec<u32>, y: &Vec<u32>) -> (sum: Vec<u32>)
    requires
        limbs_in_range(x@),
        limbs_in_range(y@),
    ensures
        limbs_in_range(sum@),
        limbs_value(sum@) == limbs_value(x@) + limbs_value(y@),
        sum.len() == longer(x@.len(), y@.len()) + if limbs_value(x@) + limbs_value(y@) >= base_pow(
            longer(x@.len(), y@.len()),
        ) {
            1nat
        } else {
            0nat
        },
{
    let n: usize = if x.len() >= y.len() { x.len() } else { y.len() };
    let mut sum: Vec<u32> = Vec::new();
    let mut carry: u32 = 0;
    let mut i: usize = 0;
    while i < n
        invariant
            i <= n,
            n >= x.len(),
            n >= y.len(),
            sum.len() == i,
            carry <= 1,
            limbs_in_range(x@),
            limbs_in_range(y@),
            limbs_in_range(sum@),
            limbs_value(sum@) + carry * base_pow(i as nat) == prefix_value(x@, i as int)
                + prefix_value(y@, i as int),
        decreases n - i,
    {
        let a: u32 = if i < x.len() { x[i] } else { 0 };
        let b: u32 = if i < y.len() { y[i] } else { 0 };
        let total: u32 = a + b + carry;
        let ghost before: Seq<u32> = sum@;
        let ghost carry_in: int = carry as int;
        let limb: u32 = if total >= BASE { total - BASE } else { total };
        carry = if total >= BASE { 1 } else { 0 };
        sum.push(limb);
        proof {
            let p: int = base_pow(i as nat);
            lemma_prefix_value_step(x@, i as int);
            lemma_prefix_value_step(y@, i as int);
            lemma_value_push(before, limb);
            lemma_base_pow(i as nat);
            lemma_carry_step(p, limb as int, carry as int, total as int);
            assert(p * total == p * a + p * b + carry_in * p) by (nonlinear_arith)
                requires
                    total == a + b + carry_in,
            ;
        }
        i = i + 1;
    }
    proof {
        lemma_prefix_value_step(x@, n as int);
        lemma_prefix_value_step(y@, n as int);
        lemma_value_upper_bound(sum@);
        assert(carry * base_pow(n as nat) == if carry == 1 {
            base_pow(n as nat)
        } else {
            0
        }) by (nonlinear_arith)
            requires
                carry == 0 || carry == 1,
        ;
    }
    if carry > 0 {
        proof {
            lemma_value_push(sum@, carry);
        }
        sum.push(carry);
    }
    sum
}

/// Subtracts the magnitude `y` from the magnitude `x`, which must not be
/// the smaller one, limb by limb with a borrow, and drops the trailing zero
/// limbs of the difference.
pub fn mag_sub(x: &Vec<u32>, y: &Vec<u32>) -> (diff: Vec<u32>)
    requires
        limbs_in_range(x@),
        limbs_in_range(y@),
        limbs_value(x@) >= limbs_value(y@),
    ensures
        is_canonical(diff@),
        limbs_value(diff@) == limbs_value(x@) - limbs_value(y@),
{
    let n: usize = if x.len() >= y.len() { x.len() } else { y.len() };
    let mut diff: Vec<u32> = Vec::new();
    let mut borrow: u32 = 0;
    let mut i: usize = 0;
    while i < n
        invariant
            i <= n,
            n >= x.len(),
            n >= y.len(),
            diff.len() == i,
            borrow <= 1,
            limbs_in_range(x@),
            limbs_in_range(y@),
            limbs_in_range(diff@),
            limbs_value(diff@) - borrow * base_pow(i as nat) == prefix_value(x@, i as int)
                - prefix_value(y@, i as int),
        decreases n - i,
    {
        let a: u32 = if i < x.len() { x[i] } else { 0 };
        let b: u32 = if i < y.len() { y[i] } else { 0 };
        let taken: u32 = b + borrow;
        let ghost before: Seq<u32> = diff@;
        let ghost borrow_in: int = borrow as int;
        let limb: u32 = if a >= taken { a - taken } else { a + BASE - taken };
        borrow = if a >= taken { 0 } else { 1 };
        diff.push(limb);
        proof {
            let p: int = base_pow(i as nat);
            lemma_prefix_value_step(x@, i as int);
            lemma_prefix_value_step(y@, i as int);
            lemma_value_push(before, limb);
            lemma_base_pow(i as nat);
            lemma_carry_step(p, limb as int, -(borrow as int), a - b - borrow_in);
            assert(p * (a - b - borrow_in) == p * a - p * b - borrow_in * p) by (nonlinear_arith);
        }
        i = i + 1;
    }
    proof {
        lemma_prefix_value_step(x@, n as int);
        lemma_prefix_value_step(y@, n as int);
        lemma_value_upper_bound(diff@);
        assert(borrow == 0) by {
            if borrow == 1 {
                assert(1 * base_pow(n as nat) == base_pow(n as nat));
            }
        }
        assert(0 * base_pow(n as nat) == 0);
        lemma_trimmed(diff@);
    }
    trim(diff)
}

/// Multiplies the magnitude `x` by the single limb `m`. The product is as
/// long as `x`, and one limb longer when a carry is left at the end.
pub fn mag_mul_small(x: &Vec<u32>, m: u32) -> (product: Vec<u32>)
    requires
        limbs_in_range(x@),
        m < BASE,
    ensures
        limbs_in_range(product@),
        limbs_value(product@) == limbs_value(x@) * m,
        product.len() == x.len() + if limbs_value(x@) * m >= base_pow(x@.len()) {
            1nat
        } else {
            0nat
        },
{
    let mut product: Vec<u32> = Vec::new();
    let mut carry: u64 = 0;
    let mut i: usize = 0;
    proof {
        lemma_prefix_value_step(x@, 0);
        assert(0 * base_pow(0) == 0);
        assert(0 * m == 0);
    }
    while i < x.len()
        invariant
            i <= x.len(),
            product.len() == i,
            carry < BASE,
            m < BASE,
            limbs_in_range(x@),
            limbs_in_range(product@),
            limbs_value(product@) + carry * base_pow(i as nat) == prefix_value(x@, i as int) * m,
        decreases x.len() - i,
    {
        let a: u64 = x[i] as u64;
        assert(a * m <= (BASE - 1) * (BASE - 1)) by (nonlinear_arith)
            requires
                0 <= a <= BASE - 1,
                0 <= m <= BASE - 1,
        ;
        let total: u64 = a * (m as u64) + carry;
        let ghost before: Seq<u32> = product@;
        let ghost carry_in: int = carry as int;
        let limb: u32 = (total % (BASE as u64)) as u32;
        carry = total / (BASE as u64);
        product.push(limb);
        proof {
            let p: int = base_pow(i as nat);
            lemma_prefix_value_step(x@, i as int);
            lemma_value_push(before, limb);
            lemma_base_pow(i as nat);
            lemma_carry_step(p, limb as int, carry as int, total as int);
            assert(p * total + prefix_value(x@, i as int) * m == (prefix_value(x@, i as int) + p
                * a) * m + carry_in * p) by (nonlinear_arith)
                requires
                    total == a * m + carry_in,
            ;
        }
        i = i + 1;
    }
    proof {
        lemma_prefix_value_step(x@, x.len() as int);
        lemma_value_upper_bound(product@);
        lemma_base_pow(i as nat);
        let p: int = base_pow(i as nat);
        assert(carry * p == p * carry) by (nonlinear_arith);
        assert(carry == 0 ==> carry * p == 0) by (nonlinear_arith);
        assert(carry >= 1 ==> carry * p >= p) by (nonlinear_arith)
            requires
                p > 0,
        ;
    }
    if carry > 0 {
        proof {
            lemma_value_push(product@, carry as u32);
        }
        product.push(carry as u32);
    }
    product
}

/// One step of the inner loop of the schoolbook product, as an identity
/// between the weighted sums before and after it.
proof fn lemma_mul_inner_step(
    v: int,
    v2: int,
    p: int,
    pi: int,
    pj: int,
    o: int,
    limb: int,
    c: int,
    c2: int,
    a: int,
    yj: int,
    x: int,
    py: int,
)
    requires
        p == pi * pj,
        v2 == v + p * (limb - o),
        limb + c2 * BASE == o + a * yj + c,
        v + c * p == x + a * pi * py,
    ensures
        v2 + c2 * (BASE * p) == x + a * pi * (py + pj * yj),
{
    lemma_carry_step(p, limb, c2, o + a * yj + c);
    assert(p * (limb - o) == p * limb - p * o) by (nonlinear_arith);
    assert(p * (o + a * yj + c) == p * o + p * (a * yj) + c * p) by (nonlinear_arith);
    assert(a * pi * (py + pj * yj) == a * pi * py + p * (a * yj)) by (nonlinear_arith)
        requires
            p == pi * pj,
    ;
}

/// Multiplies two magnitudes by the schoolbook method: the product of limb
/// `i` of `x` and limb `j` of `y` is accumulated at position `i + j`, and
/// each carry moves on to the next position at once.
pub fn mag_mul(x: &Vec<u32>, y: &Vec<u32>) -> (product: Vec<u32>)
    requires
        limbs_in_range(x@),
        limbs_in_range(y@),
    ensures
        limbs_in_range(product@),
        limbs_value(product@) == limbs_value(x@) * limbs_value(y@),
        product.len() == x.len() + y.len(),
{
    let mut acc: Vec<u32> = Vec::new();
    let mut k: usize = 0;
    while k < x.len()
        invariant
            k <= x.len(),
            acc.len() == k,
            limbs_value(acc@) == 0,
            forall|t: int| 0 <= t < acc.len() ==> acc@[t] == 0,
        decreases x.len() - k,
    {
        proof {
            lemma_value_push(acc@, 0);
        }
        acc.push(0);
        k = k + 1;
    }
    k = 0;
    while k < y.len()
        invariant
            k <= y.len(),
            acc.len() == x.len() + k,
            limbs_value(acc@) == 0,
            forall|t: int| 0 <= t < acc.len() ==> acc@[t] == 0,
        decreases y.len() - k,
    {
        proof {
            lemma_value_push(acc@, 0);
        }
        acc.push(0);
        k = k + 1;
    }
    let mut i: usize = 0;
    proof {
        lemma_prefix_value_step(x@, 0);
        assert(0 * limbs_value(y@) == 0);
    }
    while i < x.len()
        invariant
            i <= x.len(),
            acc.len() == x.len() + y.len(),
            limbs_in_range(x@),
            limbs_in_range(y@),
            limbs_in_range(acc@),
            forall|t: int| i + y.len() <= t < acc.len() ==> acc@[t] == 0,
            limbs_value(acc@) == prefix_value(x@, i as int) * limbs_value(y@),
        decreases x.len() - i,
    {
        let a: u64 = x[i] as u64;
        let mut carry: u64 = 0;
        let mut j: usize = 0;
        proof {
            lemma_prefix_value_step(y@, 0);
            assert(0 * base_pow((i + 0) as nat) == 0);
            assert(a * base_pow(i as nat) * 0 == 0);
        }
        while j < y.len()
            invariant
                i < x.len(),
                j <= y.len(),
                a == x@[i as int],
                acc.len() == x.len() + y.len(),
                carry < BASE,
                limbs_in_range(x@),
                limbs_in_range(y@),
                limbs_in_range(acc@),
                forall|t: int| i + y.len() <= t < acc.len() ==> acc@[t] == 0,
                limbs_value(acc@) + carry * base_pow((i + j) as nat) == prefix_value(x@, i as int)
                    * limbs_value(y@) + a * base_pow(i as nat) * prefix_value(y@, j as int),
            decreases y.len() - j,
        {
            let b: u64 = y[j] as u64;
            assert(a * b <= (BASE - 1) * (BASE - 1)) by (nonlinear_arith)
                requires
                    0 <= a <= BASE - 1,
                    0 <= b <= BASE - 1,
            ;
            let total: u64 = acc[i + j] as u64 + a * b + carry;
            let ghost before: Seq<u32> = acc@;
            let ghost carry_in: int = carry as int;
            let limb: u32 = (total % (BASE as u64)) as u32;
            carry = total / (BASE as u64);
            acc.set(i + j, limb);
            proof {
                lemma_value_update(before, (i + j) as int, limb);
                lemma_prefix_value_step(y@, j as int);
                lemma_base_pow((i + j) as nat);
                lemma_pow_adds(BASE as int, i as nat, j as nat);
                lemma_mul_inner_step(
                    limbs_value(before) as int,
                    limbs_value(acc@) as int,
                    base_pow((i + j) as nat),
                    base_pow(i as nat),
                    base_pow(j as nat),
                    before[(i + j) as int] as int,
                    limb as int,
                    carry_in,
                    carry as int,
                    a as int,
                    b as int,
                    (prefix_value(x@, i as int) * limbs_value(y@)) as int,
                    prefix_value(y@, j as int) as int,
                );
            }
            j = j + 1;
        }
        let ghost before: Seq<u32> = acc@;
        acc.set(i + y.len(), carry as u32);
        proof {
            let p: int = base_pow((i + y.len()) as nat);
            let pi: int = base_pow(i as nat);
            let vy: int = limbs_value(y@) as int;
            let px: int = prefix_value(x@, i as int) as int;
            lemma_value_update(before, (i + y.len()) as int, carry as u32);
            lemma_prefix_value_step(y@, y.len() as int);
            lemma_prefix_value_step(x@, i as int);
            assert(p * (carry - 0) == carry * p) by (nonlinear_arith);
            assert((px + pi * a) * vy == px * vy + a * pi * vy) by (nonlinear_arith);
        }
        i = i + 1;
    }
    proof {
        lemma_prefix_value_step(x@, x.len() as int);
    }
    acc
}

/// Finds the quotient digit of one long-division step by bisection: the
/// largest `q` below the radix with `q * d <= rem`.
fn quotient_digit(rem: &Vec<u32>, d: &Vec<u32>) -> (q: u32)
    requires
        is_canonical(rem@),
        is_canonical(d@),
        limbs_value(rem@) < limbs_value(d@) * BASE,
    ensures
        q < BASE,
        q * limbs_value(d@) <= limbs_value(rem@) < (q + 1) * limbs_value(d@),
{
    let mut lo: u32 = 0;
    let mut hi: u32 = BASE;
    proof {
        assert(0 * limbs_value(d@) == 0);
        assert(BASE * limbs_value(d@) == limbs_value(d@) * BASE) by (nonlinear_arith);
    }
    while hi - lo > 1
        invariant
            lo < hi <= BASE,
            is_canonical(rem@),
            is_canonical(d@),
            lo * limbs_value(d@) <= limbs_value(rem@) < hi * limbs_value(d@),
        decreases hi - lo,
    {
        let mid: u32 = lo + (hi - lo) / 2;
        let raw: Vec<u32> = mag_mul_small(d, mid);
        proof {
            lemma_trimmed(raw@);
            assert(limbs_value(d@) * mid == mid * limbs_value(d@)) by (nonlinear_arith);
        }
        let multiple: Vec<u32> = trim(raw);
        if mag_less(rem, &multiple) {
            hi = mid;
        } else {
            lo = mid;
        }
    }
    lo
}

/// Divides the magnitude `a` by the nonzero magnitude `d` by long division,
/// one quotient limb at a time from the most significant one down.
pub fn mag_divmod(a: &Vec<u32>, d: &Vec<u32>) -> (qr: (Vec<u32>, Vec<u32>))
    requires
        limbs_in_range(a@),
        is_canonical(d@),
        d.len() > 0,
    ensures
        is_canonical(qr.0@),
        is_canonical(qr.1@),
        limbs_value(qr.0@) == limbs_value(a@) / limbs_value(d@),
        limbs_value(qr.1@) == limbs_value(a@) % limbs_value(d@),
{
    let mut q: Vec<u32> = Vec::new();
    let mut rem: Vec<u32> = Vec::new();
    let mut i: usize = a.len();
    proof {
        assert(a@.skip(a.len() as int) =~= Seq::<u32>::empty());
        assert(0 * limbs_value(d@) == 0);
        lemma_canonical_zero(d@);
    }
    while i > 0
        invariant
            i <= a.len(),
            limbs_in_range(a@),
            is_canonical(d@),
            limbs_in_range(q@),
            is_canonical(rem@),
            limbs_value(rem@) < limbs_value(d@),
            limbs_value(a@.skip(i as int)) == limbs_value(q@) * limbs_value(d@) + limbs_value(
                rem@,
            ),
        decreases i,
    {
        i = i - 1;
        let ghost q_before: Seq<u32> = q@;
        let ghost rem_before: Seq<u32> = rem@;
        rem.insert(0, a[i]);
        proof {
            lemma_value_insert_front(rem_before, a@[i as int]);
            lemma_trimmed(rem@);
        }
        rem = trim(rem);
        let ghost running: int = limbs_value(rem@) as int;
        let digit: u32 = quotient_digit(&rem, d);
        let used: Vec<u32> = mag_mul_small(d, digit);
        proof {
            assert(limbs_value(d@) * digit == digit * limbs_value(d@)) by (nonlinear_arith);
        }
        rem = mag_sub(&rem, &used);
        q.insert(0, digit);
        proof {
            let vd: int = limbs_value(d@) as int;
            let vq: int = limbs_value(q_before) as int;
            lemma_value_insert_front(q_before, digit);
            assert(a@.skip(i as int) =~= a@.skip(i + 1).insert(0, a@[i as int]));
            lemma_value_insert_front(a@.skip(i + 1), a@[i as int]);
            assert((digit + 1) * vd == digit * vd + vd) by (nonlinear_arith);
            assert((digit + BASE * vq) * vd == digit * vd + BASE * (vq * vd)) by (nonlinear_arith);
        }
    }
    proof {
        assert(a@.skip(0) =~= a@);
        lemma_trimmed(q@);
        lemma_fundamental_div_mod_converse(
            limbs_value(a@) as int,
            limbs_value(d@) as int,
            limbs_value(q@) as int,
            limbs_value(rem@) as int,
        );
    }
    (trim(q), rem)
}


} // verus!
