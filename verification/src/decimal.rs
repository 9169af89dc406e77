//! Decimal text: what a well-formed decimal numeral is, the number it
//! denotes, the numeral of a number, and the conversions between digits and
//! limbs.

use vstd::prelude::*;
use vstd::arithmetic::power::{
    pow, lemma_pow0, lemma_pow_adds, lemma_pow_increases, lemma_pow_multiplies, lemma_pow_positive,
};
use vstd::string::StringExecFns;
use crate::limbs::{
    BASE, base_pow, is_canonical, limbs_in_range, limbs_value, lemma_value_insert_front,
    lemma_value_push, lemma_value_single,
};

verus! {

/// `c` is one of the ten ASCII decimal digits.
pub open spec fn is_digit(c: char) -> bool {
    '0' <= c <= '9'
}

/// The number that the digit `c` stands for.
pub open spec fn digit_value(c: char) -> nat {
    (c as int - 48) as nat
}

/// The digit that stands for `d`, for `d` below ten.
pub open spec fn digit_char(d: nat) -> char {
    (d + 48) as char
}

/// Every character of `s` is a decimal digit.
pub open spec fn all_digits(s: Seq<char>) -> bool {
    forall|i: int| 0 <= i < s.len() ==> is_digit(#[trigger] s[i])
}

/// The number that the digit string `s` denotes, most significant digit
/// first; leading zeros do not count.
pub open spec fn digits_value(s: Seq<char>) -> nat
    decreases s.len(),
{
    if s.len() == 0 {
        0
    } else {
        10 * digits_value(s.drop_last()) + digit_value(s.last())
    }
}

/// `s` starts with a sign character.
pub open spec fn has_sign(s: Seq<char>) -> bool {
    s.len() > 0 && (s[0] == '-' || s[0] == '+')
}

/// `s` without its sign character, if it has one.
pub open spec fn digit_part(s: Seq<char>) -> Seq<char> {
    if has_sign(s) {
        s.skip(1)
    } else {
        s
    }
}

/// `s` is a decimal numeral: an optional `-` or `+`, then one or more
/// decimal digits, and nothing else.
pub open spec fn is_decimal_text(s: Seq<char>) -> bool {
    digit_part(s).len() > 0 && all_digits(digit_part(s))
}

/// The integer that the decimal numeral `s` denotes.
pub open spec fn text_value(s: Seq<char>) -> int {
    if has_sign(s) && s[0] == '-' {
        -(digits_value(digit_part(s)) as int)
    } else {
        digits_value(digit_part(s)) as int
    }
}

/// The decimal digits of `n` without leading zeros; zero is the single
/// digit `0`.
pub open spec fn nat_digits(n: nat) -> Seq<char>
    decreases n,
{
    if n < 10 {
        seq![digit_char(n)]
    } else {
        nat_digits(n / 10).push(digit_char(n % 10))
    }
}

/// The `width` least significant decimal digits of `n`, with leading zeros.
pub open spec fn padded_digits(n: nat, width: nat) -> Seq<char>
    decreases width,
{
    if width == 0 {
        Seq::<char>::empty()
    } else {
        padded_digits(n / 10, (width - 1) as nat).push(digit_char(n % 10))
    }
}

/// The decimal numeral of `n`: a `-` for a negative number, then the digits
/// of its absolute value.
pub open spec fn decimal_text(n: int) -> Seq<char> {
    if n < 0 {
        seq!['-'] + nat_digits((-n) as nat)
    } else {
        nat_digits(n as nat)
    }
}

/// The bytes `bytes` are the characters `chars`, one byte for each.
pub open spec fn bytes_match(bytes: Seq<u8>, chars: Seq<char>) -> bool {
    &&& bytes.len() == chars.len()
    &&& forall|i: int| 0 <= i < chars.len() ==> bytes[i] as int == #[trigger] chars[i] as int
}

/// How the powers of ten unfold.
pub proof fn lemma_pow10(e: nat)
    ensures
        pow(10, 0) == 1,
        pow(10, e) > 0,
        pow(10, e + 1) == 10 * pow(10, e),
{
    reveal(pow);
    lemma_pow_positive(10, e);
    lemma_pow0(10);
}

/// The radix is the ninth power of ten, so `k` limbs weigh as `9 * k`
/// digits.
pub proof fn lemma_base_pow_is_pow10(k: nat)
    ensures
        pow(10, 9) == BASE,
        base_pow(k) == pow(10, 9 * k),
{
    lemma_pow10(0);
    lemma_pow10(1);
    lemma_pow10(2);
    lemma_pow10(3);
    lemma_pow10(4);
    lemma_pow10(5);
    lemma_pow10(6);
    lemma_pow10(7);
    lemma_pow10(8);
    lemma_pow_multiplies(10, 9, k);
}

/// The digits of `b` written after those of `a` shift the value of `a` by
/// as many decimal places as `b` is long.
pub proof fn lemma_digits_value_concat(a: Seq<char>, b: Seq<char>)
    ensures
        digits_value(a + b) == digits_value(a) * pow(10, b.len()) + digits_value(b),
    decreases b.len(),
{
    if b.len() == 0 {
        assert(a + b =~= a);
        lemma_pow10(0);
        assert(digits_value(a) * pow(10, 0) == digits_value(a)) by (nonlinear_arith)
            requires
                pow(10, 0) == 1,
        ;
    } else {
        let front: Seq<char> = b.drop_last();
        assert((a + b).drop_last() =~= a + front);
        assert((a + b).last() == b.last());
        lemma_digits_value_concat(a, front);
        lemma_pow10(front.len());
        let p: int = pow(10, front.len());
        let va: int = digits_value(a) as int;
        assert(pow(10, b.len()) == 10 * p);
        assert(va * (10 * p) == 10 * (va * p)) by (nonlinear_arith);
    }
}

/// The digits of a number are digits, there is at least one, and they
/// denote that number.
pub proof fn lemma_nat_digits(n: nat)
    ensures
        nat_digits(n).len() >= 1,
        all_digits(nat_digits(n)),
        digits_value(nat_digits(n)) == n,
    decreases n,
{
    if n < 10 {
        let s: Seq<char> = seq![digit_char(n)];
        assert(s.drop_last() =~= Seq::<char>::empty());
        assert(digits_value(s.drop_last()) == 0);
        assert(s.last() == digit_char(n));
        assert(digit_value(digit_char(n)) == n);
        assert(is_digit(digit_char(n)));
    } else {
        lemma_nat_digits(n / 10);
        let front: Seq<char> = nat_digits(n / 10);
        let last: char = digit_char(n % 10);
        let s: Seq<char> = front.push(last);
        assert(s.drop_last() =~= front);
        assert(s.last() == last);
        assert(digit_value(last) == n % 10);
        assert(is_digit(last));
        assert forall|i: int| 0 <= i < s.len() implies is_digit(#[trigger] s[i]) by {
            if i < front.len() {
                assert(s[i] == front[i]);
            }
        }
    }
}

/// A number written as `hi * 10^width + lo` with `hi` positive and `lo`
/// below `10^width` has the digits of `hi` followed by the `width` padded
/// digits of `lo`.
pub proof fn lemma_nat_digits_split(hi: nat, lo: nat, width: nat)
    requires
        hi > 0,
        lo < pow(10, width),
    ensures
        nat_digits((hi * pow(10, width) + lo) as nat) == nat_digits(hi) + padded_digits(lo, width),
    decreases width,
{
    if width == 0 {
        lemma_pow10(0);
        assert(hi * pow(10, 0) == hi) by (nonlinear_arith)
            requires
                pow(10, 0) == 1,
        ;
        assert(nat_digits(hi) + Seq::<char>::empty() =~= nat_digits(hi));
    } else {
        let w: nat = (width - 1) as nat;
        lemma_pow10(w);
        let p: int = pow(10, w);
        let n: int = hi * pow(10, width) + lo;
        assert(hi * (10 * p) == 10 * (hi * p)) by (nonlinear_arith);
        assert(hi * p >= 1) by (nonlinear_arith)
            requires
                hi >= 1,
                p >= 1,
        ;
        assert(n == 10 * (hi * p + lo / 10) + lo % 10);
        assert(n / 10 == hi * p + lo / 10);
        assert(n % 10 == lo % 10);
        lemma_nat_digits_split(hi, lo / 10, w);
        let front: Seq<char> = padded_digits(lo / 10, w);
        let last: char = digit_char(lo % 10);
        assert(nat_digits(hi) + padded_digits(lo, width) =~= (nat_digits(hi) + front).push(last));
    }
}

/// The text of the decimal digit `d`.
fn digit_text(d: u32) -> (t: &'static str)
    requires
        d < 10,
    ensures
        t@ == seq![digit_char(d as nat)],
{
    proof {
        reveal_strlit("0");
        reveal_strlit("1");
        reveal_strlit("2");
        reveal_strlit("3");
        reveal_strlit("4");
        reveal_strlit("5");
        reveal_strlit("6");
        reveal_strlit("7");
        reveal_strlit("8");
        reveal_strlit("9");
    }
    let t: &'static str = match d {
        0 => "0",
        1 => "1",
        2 => "2",
        3 => "3",
        4 => "4",
        5 => "5",
        6 => "6",
        7 => "7",
        8 => "8",
        _ => "9",
    };
    assert(t@ =~= seq![digit_char(d as nat)]);
    t
}

/// Appends the decimal digits of `n`, without leading zeros, to `out`.
pub fn append_number(out: &mut String, n: u32)
    ensures
        final(out)@ == old(out)@ + nat_digits(n as nat),
    decreases n,
{
    if n >= 10 {
        append_number(out, n / 10);
    }
    out.append(digit_text(n % 10));
    proof {
        let front: Seq<char> = nat_digits((n / 10) as nat);
        let last: char = digit_char((n % 10) as nat);
        if n >= 10 {
            assert(old(out)@ + front + seq![last] =~= old(out)@ + front.push(last));
        }
    }
}

/// Appends the `width` least significant decimal digits of `n`, with
/// leading zeros, to `out`.
pub fn append_padded(out: &mut String, n: u32, width: u32)
    ensures
        final(out)@ == old(out)@ + padded_digits(n as nat, width as nat),
    decreases width,
{
    if width > 0 {
        append_padded(out, n / 10, width - 1);
        out.append(digit_text(n % 10));
        proof {
            let front: Seq<char> = padded_digits((n / 10) as nat, (width - 1) as nat);
            let last: char = digit_char((n % 10) as nat);
            assert(old(out)@ + front + seq![last] =~= old(out)@ + front.push(last));
        }
    } else {
        assert(old(out)@ + Seq::<char>::empty() =~= old(out)@);
    }
}

/// Tells whether every byte from position `start` on is a decimal digit.
pub(crate) fn all_digits_from(
    bytes: &[u8],
    start: usize,
    Ghost(chars): Ghost<Seq<char>>,
) -> (ok: bool)
    requires
        bytes_match(bytes@, chars),
        start <= bytes.len(),
    ensures
        ok == all_digits(chars.skip(start as int)),
{
    let mut i: usize = start;
    while i < bytes.len()
        invariant
            start <= i <= bytes.len(),
            bytes_match(bytes@, chars),
            forall|j: int| start <= j < i ==> is_digit(#[trigger] chars[j]),
        decreases bytes.len() - i,
    {
        if bytes[i] < 48 || bytes[i] > 57 {
            proof {
                let tail: Seq<char> = chars.skip(start as int);
                assert(tail[i - start] == chars[i as int]);
                assert(!is_digit(tail[i - start]));
            }
            return false;
        }
        assert(is_digit(chars[i as int]));
        i = i + 1;
    }
    proof {
        let tail: Seq<char> = chars.skip(start as int);
        assert forall|j: int| 0 <= j < tail.len() implies is_digit(#[trigger] tail[j]) by {
            assert(tail[j] == chars[j + start]);
        }
    }
    true
}

/// Groups the digits from position `start` on into limbs of nine digits,
/// from the least significant end.
pub(crate) fn digits_to_limbs(
    bytes: &[u8],
    start: usize,
    Ghost(chars): Ghost<Seq<char>>,
) -> (limbs: Vec<u32>)
    requires
        bytes_match(bytes@, chars),
        start <= bytes.len(),
        all_digits(chars.skip(start as int)),
    ensures
        limbs_in_range(limbs@),
        limbs_value(limbs@) == digits_value(chars.skip(start as int)),
        limbs.len() == (bytes.len() - start + 8) / 9,
{
    let ghost digits: Seq<char> = chars.skip(start as int);
    let n: usize = bytes.len();
    let mut limbs: Vec<u32> = Vec::new();
    let mut end: usize = n;
    proof {
        assert(digits.take(n - start) =~= digits);
        lemma_pow10(0);
        assert(digits_value(digits) * pow(10, 0) == digits_value(digits)) by (nonlinear_arith)
            requires
                pow(10, 0) == 1,
        ;
    }
    while end > start
        invariant
            start <= end <= n,
            n == bytes.len(),
            digits == chars.skip(start as int),
            bytes_match(bytes@, chars),
            all_digits(digits),
            limbs_in_range(limbs@),
            end > start ==> n - end == 9 * limbs.len(),
            end == start ==> limbs.len() == (n - start + 8) / 9,
            digits_value(digits) == digits_value(digits.take(end - start)) * pow(
                10,
                (n - end) as nat,
            ) + limbs_value(limbs@),
        decreases end,
    {
        let lo: usize = if end - start >= 9 { end - 9 } else { start };
        let ghost chunk: Seq<char> = digits.subrange(lo - start, end - start);
        let mut v: u32 = 0;
        let mut t: usize = lo;
        proof {
            assert(digits.subrange(lo - start, lo - start) =~= Seq::<char>::empty());
            lemma_pow10(0);
        }
        while t < end
            invariant
                lo <= t <= end,
                start <= lo,
                end <= n,
                end - lo <= 9,
                n == bytes.len(),
                digits == chars.skip(start as int),
                bytes_match(bytes@, chars),
                all_digits(digits),
                v == digits_value(digits.subrange(lo - start, t - start)),
                v < pow(10, (t - lo) as nat),
            decreases end - t,
        {
            let ghost part: Seq<char> = digits.subrange(lo - start, t - start);
            let ghost next: Seq<char> = digits.subrange(lo - start, t + 1 - start);
            proof {
                assert(next.drop_last() =~= part);
                assert(next.last() == digits[t - start]);
                assert(digits[t - start] == chars[t as int]);
                assert(is_digit(digits[t - start]));
                lemma_pow10((t - lo) as nat);
                lemma_base_pow_is_pow10(0);
                lemma_pow_increases(10, (t + 1 - lo) as nat, 9);
            }
            v = v * 10 + (bytes[t] - 48) as u32;
            t = t + 1;
        }
        proof {
            let k: nat = limbs.len() as nat;
            let front: Seq<char> = digits.take(lo - start);
            let shift: int = pow(10, (n - end) as nat);
            let width: int = pow(10, chunk.len());
            assert(digits.take(end - start) =~= front + chunk);
            lemma_digits_value_concat(front, chunk);
            lemma_value_push(limbs@, v);
            lemma_base_pow_is_pow10(k);
            assert(9 * k == n - end);
            lemma_pow_adds(10, chunk.len(), (n - end) as nat);
            assert((digits_value(front) * width + v) * shift == digits_value(front) * (width
                * shift) + shift * v) by (nonlinear_arith);
            lemma_pow_increases(10, chunk.len(), 9);
        }
        limbs.push(v);
        end = lo;
    }
    proof {
        assert(digits.take(0) =~= Seq::<char>::empty());
        assert(0 * pow(10, (n - end) as nat) == 0);
    }
    limbs
}

/// Appends the decimal digits of the nonzero magnitude `limbs` to `out`: the
/// most significant limb without leading zeros, then every other limb as
/// exactly nine digits.
pub fn append_limbs(out: &mut String, limbs: &Vec<u32>)
    requires
        is_canonical(limbs@),
        limbs.len() > 0,
    ensures
        final(out)@ == old(out)@ + nat_digits(limbs_value(limbs@)),
{
    let mut j: usize = limbs.len() - 1;
    append_number(out, limbs[j]);
    proof {
        assert(limbs@.skip(j as int) =~= seq![limbs@[j as int]]);
        lemma_value_single(limbs@[j as int]);
    }
    while j > 0
        invariant
            j < limbs.len(),
            is_canonical(limbs@),
            limbs_value(limbs@.skip(j as int)) > 0,
            out@ == old(out)@ + nat_digits(limbs_value(limbs@.skip(j as int))),
        decreases j,
    {
        let ghost high: nat = limbs_value(limbs@.skip(j as int));
        let ghost before: Seq<char> = out@;
        j = j - 1;
        append_padded(out, limbs[j], 9);
        proof {
            let low: u32 = limbs@[j as int];
            assert(limbs@.skip(j as int) =~= limbs@.skip(j + 1).insert(0, low));
            lemma_value_insert_front(limbs@.skip(j + 1), low);
            lemma_base_pow_is_pow10(0);
            lemma_nat_digits_split(high, low as nat, 9);
            assert(high * pow(10, 9) + low == low + BASE * high) by (nonlinear_arith)
                requires
                    pow(10, 9) == BASE,
            ;
            let padded: Seq<char> = padded_digits(low as nat, 9);
            assert(old(out)@ + nat_digits(high) + padded =~= old(out)@ + (nat_digits(high)
                + padded));
        }
    }
    proof {
        assert(limbs@.skip(0) =~= limbs@);
    }
}

/// A decimal numeral holds ASCII characters only.
pub proof fn lemma_decimal_text_is_ascii(s: Seq<char>)
    requires
        is_decimal_text(s),
    ensures
        forall|i: int| 0 <= i < s.len() ==> '\0' <= #[trigger] s[i] <= '\u{7f}',
{
    assert forall|i: int| 0 <= i < s.len() implies '\0' <= #[trigger] s[i] <= '\u{7f}' by {
        if has_sign(s) {
            if i > 0 {
                assert(s[i] == digit_part(s)[i - 1]);
                assert(is_digit(digit_part(s)[i - 1]));
            }
        } else {
            assert(is_digit(digit_part(s)[i]));
        }
    }
}


} // verus!
