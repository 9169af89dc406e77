//! The mathematical model of a magnitude: a sequence of limbs in base
//! 1,000,000,000, least significant limb first, and the facts about it that
//! the arithmetic rests on.

use vstd::prelude::*;
use vstd::arithmetic::power::*;
use vstd::arithmetic::mul::*;
use vstd::arithmetic::div_mod::*;

verus! {

/// The radix: every limb lies in `[0, BASE)`.
pub const BASE: u32 = 1_000_000_000;

/// Every limb of `s` is below the radix.
pub open spec fn limbs_in_range(s: Seq<u32>) -> bool {
    forall|i: int| 0 <= i < s.len() ==> s[i] < BASE
}

/// `s` is the unique representation of its value: every limb is below the
/// radix and the most significant limb, if there is one, is not zero.
pub open spec fn is_canonical(s: Seq<u32>) -> bool {
    limbs_in_range(s) && (s.len() > 0 ==> s.last() != 0)
}

/// The number that the limbs `s` stand for: the sum of `s[i] * BASE^i`.
pub open spec fn limbs_value(s: Seq<u32>) -> nat
    decreases s.len(),
{
    if s.len() == 0 {
        0
    } else {
        s[0] as nat + (BASE as nat) * limbs_value(s.skip(1))
    }
}

/// `BASE` to the power `e`.
pub open spec fn base_pow(e: nat) -> int {
    pow(BASE as int, e)
}

/// `s` without its trailing zero limbs.
pub open spec fn trimmed(s: Seq<u32>) -> Seq<u32>
    decreases s.len(),
{
    if s.len() > 0 && s.last() == 0 {
        trimmed(s.drop_last())
    } else {
        s
    }
}

/// The canonical limbs of `n`: its digits in base `BASE`, least significant
/// first; zero has none.
pub open spec fn to_limbs(n: nat) -> Seq<u32>
    decreases n,
{
    if n == 0 {
        Seq::<u32>::empty()
    } else {
        to_limbs(n / (BASE as nat)).insert(0, (n % (BASE as nat)) as u32)
    }
}

/// The limb of `s` at position `i`, reading positions past the end as zero.
pub open spec fn limb_at(s: Seq<u32>, i: int) -> u32 {
    if 0 <= i < s.len() {
        s[i]
    } else {
        0
    }
}

/// The value of the `i` least significant limbs of `s` (of all of `s` when
/// it has fewer).
pub open spec fn prefix_value(s: Seq<u32>, i: int) -> nat {
    if 0 <= i <= s.len() {
        limbs_value(s.take(i))
    } else {
        limbs_value(s)
    }
}

/// How the powers of the radix unfold.
pub proof fn lemma_base_pow(e: nat)
    ensures
        base_pow(0) == 1,
        base_pow(e) > 0,
        base_pow(e + 1) == BASE * base_pow(e),
{
    reveal(pow);
    lemma_pow_positive(BASE as int, e);
    lemma_pow0(BASE as int);
}

/// A larger exponent gives a power of the radix that is not smaller.
pub proof fn lemma_base_pow_monotonic(e1: nat, e2: nat)
    requires
        e1 <= e2,
    ensures
        base_pow(e1) <= base_pow(e2),
{
    lemma_pow_increases(BASE as nat, e1, e2);
}

/// The value of a concatenation: the limbs of `b` weigh `BASE^len(a)` more.
pub proof fn lemma_value_concat(a: Seq<u32>, b: Seq<u32>)
    ensures
        limbs_value(a + b) == limbs_value(a) + base_pow(a.len()) * limbs_value(b),
    decreases a.len(),
{
    if a.len() == 0 {
        assert(a + b =~= b);
        lemma_base_pow(0);
        assert(base_pow(0) * limbs_value(b) == limbs_value(b)) by (nonlinear_arith)
            requires
                base_pow(0) == 1,
        ;
    } else {
        let rest: Seq<u32> = a.skip(1);
        assert((a + b).skip(1) =~= rest + b);
        lemma_value_concat(rest, b);
        lemma_base_pow(rest.len());
        let p: int = base_pow(rest.len());
        let v: int = limbs_value(b) as int;
        assert(BASE * (p * v) == (BASE * p) * v) by {
            lemma_mul_is_associative(BASE as int, p, v);
        }
        assert(base_pow(a.len()) == BASE * p);
        assert((a + b)[0] == a[0]);
        assert(limbs_value(a + b) == a[0] + BASE * limbs_value(rest + b));
        assert(limbs_value(a) == a[0] + BASE * limbs_value(rest));
        assert(BASE * (limbs_value(rest) + p * v) == BASE * limbs_value(rest) + BASE * (p * v));
        assert(base_pow(a.len()) * v == (BASE * p) * v);
    }
}

/// A single limb stands for itself.
pub proof fn lemma_value_single(d: u32)
    ensures
        limbs_value(seq![d]) == d,
{
    assert(seq![d].skip(1) =~= Seq::<u32>::empty());
    reveal_with_fuel(limbs_value, 2);
}

/// Putting `d` in front multiplies the rest by the radix.
pub proof fn lemma_value_insert_front(s: Seq<u32>, d: u32)
    ensures
        limbs_value(s.insert(0, d)) == d + BASE * limbs_value(s),
{
    assert(s.insert(0, d).skip(1) =~= s);
}

/// Appending `d` as the new most significant limb adds `d * BASE^len(s)`.
pub proof fn lemma_value_push(s: Seq<u32>, d: u32)
    ensures
        limbs_value(s.push(d)) == limbs_value(s) + base_pow(s.len()) * d,
{
    assert(s.push(d) =~= s + seq![d]);
    lemma_value_concat(s, seq![d]);
    lemma_value_single(d);
}

/// A value splits at any position `k` into a low and a high part.
pub proof fn lemma_value_split(s: Seq<u32>, k: int)
    requires
        0 <= k <= s.len(),
    ensures
        limbs_value(s) == limbs_value(s.take(k)) + base_pow(k as nat) * limbs_value(s.skip(k)),
{
    assert(s =~= s.take(k) + s.skip(k));
    lemma_value_concat(s.take(k), s.skip(k));
}

/// Replacing the limb at position `k` changes the value by the difference
/// of the two limbs, weighted by `BASE^k`.
pub proof fn lemma_value_update(s: Seq<u32>, k: int, d: u32)
    requires
        0 <= k < s.len(),
    ensures
        limbs_value(s.update(k, d)) == limbs_value(s) + base_pow(k as nat) * (d - s[k]),
{
    let low: Seq<u32> = s.take(k);
    let high: Seq<u32> = s.skip(k + 1);
    assert(s =~= low + high.insert(0, s[k]));
    assert(s.update(k, d) =~= low + high.insert(0, d));
    lemma_value_concat(low, high.insert(0, s[k]));
    lemma_value_concat(low, high.insert(0, d));
    lemma_value_insert_front(high, s[k]);
    lemma_value_insert_front(high, d);
    let p: int = base_pow(k as nat);
    let h: int = BASE * limbs_value(high);
    assert(p * (d + h) == p * (s[k] + h) + p * (d - s[k])) by (nonlinear_arith);
}

/// `n` limbs below the radix stand for a number below `BASE^n`.
pub proof fn lemma_value_upper_bound(s: Seq<u32>)
    requires
        limbs_in_range(s),
    ensures
        limbs_value(s) < base_pow(s.len()),
    decreases s.len(),
{
    if s.len() == 0 {
        lemma_base_pow(0);
    } else {
        lemma_value_upper_bound(s.skip(1));
        lemma_base_pow(s.skip(1).len());
    }
}

/// A canonical sequence of `n > 0` limbs stands for a number of at least
/// `BASE^(n-1)`.
pub proof fn lemma_value_lower_bound(s: Seq<u32>)
    requires
        is_canonical(s),
        s.len() > 0,
    ensures
        limbs_value(s) >= base_pow((s.len() - 1) as nat),
{
    let k: int = s.len() - 1;
    lemma_value_split(s, k);
    assert(s.skip(k) =~= seq![s.last()]);
    lemma_value_single(s.last());
    lemma_base_pow(k as nat);
    let p: int = base_pow(k as nat);
    let top: int = s.last() as int;
    assert(p * top >= p) by (nonlinear_arith)
        requires
            p > 0,
            top >= 1,
    ;
}

/// Only the empty sequence is a canonical representation of zero.
pub proof fn lemma_canonical_zero(s: Seq<u32>)
    requires
        is_canonical(s),
    ensures
        limbs_value(s) == 0 <==> s.len() == 0,
{
    if s.len() > 0 {
        lemma_value_lower_bound(s);
        lemma_base_pow((s.len() - 1) as nat);
    }
}

/// Two canonical sequences with the same value are the same sequence.
pub proof fn lemma_canonical_unique(a: Seq<u32>, b: Seq<u32>)
    requires
        is_canonical(a),
        is_canonical(b),
        limbs_value(a) == limbs_value(b),
    ensures
        a == b,
    decreases a.len(),
{
    lemma_canonical_zero(a);
    lemma_canonical_zero(b);
    if a.len() > 0 {
        let ra: Seq<u32> = a.skip(1);
        let rb: Seq<u32> = b.skip(1);
        let va: int = limbs_value(ra) as int;
        let vb: int = limbs_value(rb) as int;
        assert(a[0] == b[0] && va == vb) by {
            lemma_fundamental_div_mod_converse(limbs_value(a) as int, BASE as int, va, a[0] as int);
            lemma_fundamental_div_mod_converse(limbs_value(b) as int, BASE as int, vb, b[0] as int);
        }
        assert(is_canonical(ra)) by {
            if ra.len() > 0 {
                assert(ra.last() == a.last());
            }
        }
        assert(is_canonical(rb)) by {
            if rb.len() > 0 {
                assert(rb.last() == b.last());
            }
        }
        lemma_canonical_unique(ra, rb);
        assert(a =~= b) by {
            assert(a.len() == b.len());
            assert forall|i: int| 0 <= i < a.len() implies a[i] == b[i] by {
                if i > 0 {
                    assert(a[i] == ra[i - 1]);
                    assert(b[i] == rb[i - 1]);
                }
            }
        }
    }
}

/// The canonical limbs of a number are canonical and stand for it.
pub proof fn lemma_to_limbs(n: nat)
    ensures
        is_canonical(to_limbs(n)),
        limbs_value(to_limbs(n)) == n,
    decreases n,
{
    if n > 0 {
        let rest: Seq<u32> = to_limbs(n / (BASE as nat));
        let low: u32 = (n % (BASE as nat)) as u32;
        let s: Seq<u32> = rest.insert(0, low);
        lemma_to_limbs(n / (BASE as nat));
        lemma_value_insert_front(rest, low);
        lemma_canonical_zero(rest);
        assert forall|i: int| 0 <= i < s.len() implies s[i] < BASE by {
            if i > 0 {
                assert(s[i] == rest[i - 1]);
            }
        }
        if rest.len() > 0 {
            assert(s.last() == rest.last());
        }
    }
}

/// A canonical sequence is the canonical limbs of its value.
pub proof fn lemma_canonical_is_to_limbs(s: Seq<u32>)
    requires
        is_canonical(s),
    ensures
        s == to_limbs(limbs_value(s)),
{
    lemma_to_limbs(limbs_value(s));
    lemma_canonical_unique(s, to_limbs(limbs_value(s)));
}

/// Trimming keeps the value and yields the canonical representation.
pub proof fn lemma_trimmed(s: Seq<u32>)
    requires
        limbs_in_range(s),
    ensures
        is_canonical(trimmed(s)),
        limbs_value(trimmed(s)) == limbs_value(s),
        trimmed(s).len() <= s.len(),
        is_canonical(s) ==> trimmed(s) == s,
    decreases s.len(),
{
    if s.len() > 0 && s.last() == 0 {
        let rest: Seq<u32> = s.drop_last();
        lemma_trimmed(rest);
        assert(s =~= rest.push(0));
        lemma_value_push(rest, 0);
    }
}

/// Of two canonical sequences the shorter one stands for the smaller number.
pub proof fn lemma_shorter_is_less(a: Seq<u32>, b: Seq<u32>)
    requires
        limbs_in_range(a),
        is_canonical(b),
        a.len() < b.len(),
    ensures
        limbs_value(a) < limbs_value(b),
{
    lemma_value_upper_bound(a);
    lemma_value_lower_bound(b);
    lemma_base_pow_monotonic(a.len(), (b.len() - 1) as nat);
}

/// Two sequences of the same length that agree above position `k` compare
/// as their limbs at position `k` do.
pub proof fn lemma_less_at_limb(a: Seq<u32>, b: Seq<u32>, k: int)
    requires
        limbs_in_range(a),
        limbs_in_range(b),
        a.len() == b.len(),
        0 <= k < a.len(),
        a.skip(k + 1) == b.skip(k + 1),
        a[k] < b[k],
    ensures
        limbs_value(a) < limbs_value(b),
{
    lemma_value_split(a, k);
    lemma_value_split(b, k);
    lemma_value_upper_bound(a.take(k));
    assert(a.skip(k).skip(1) =~= a.skip(k + 1));
    assert(b.skip(k).skip(1) =~= b.skip(k + 1));
    lemma_base_pow(k as nat);
    let p: int = base_pow(k as nat);
    let ha: int = limbs_value(a.skip(k)) as int;
    let hb: int = limbs_value(b.skip(k)) as int;
    assert(ha + 1 <= hb);
    assert(p * (ha + 1) <= p * hb) by (nonlinear_arith)
        requires
            p > 0,
            ha + 1 <= hb,
    ;
    assert(p * (ha + 1) == p * ha + p) by (nonlinear_arith);
}

/// Taking one more limb into a prefix adds that limb with its weight.
pub proof fn lemma_prefix_value_step(s: Seq<u32>, i: int)
    requires
        0 <= i,
    ensures
        prefix_value(s, i + 1) == prefix_value(s, i) + base_pow(i as nat) * limb_at(s, i),
        prefix_value(s, 0) == 0,
        i >= s.len() ==> prefix_value(s, i) == limbs_value(s),
{
    assert(s.take(s.len() as int) =~= s);
    if i < s.len() {
        assert(s.take(i + 1) =~= s.take(i).push(s[i]));
        lemma_value_push(s.take(i), s[i]);
    } else {
        assert(base_pow(i as nat) * 0 == 0);
    }
}

} // verus!
