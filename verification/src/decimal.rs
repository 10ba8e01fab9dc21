//! Decimal numbers written as digit strings, and their exact product with a
//! unit.

use vstd::prelude::*;
use vstd::arithmetic::div_mod::{
    lemma_div_denominator,
    lemma_div_multiples_vanish_quotient,
    lemma_fundamental_div_mod,
    lemma_fundamental_div_mod_converse,
    lemma_hoist_over_denominator,
    lemma_mod_breakdown,
    lemma_mod_multiples_basic,
    lemma_mod_multiples_vanish,
};
use vstd::arithmetic::mul::lemma_mul_equality_converse;
use crate::text::{all_digits, is_digit};
use crate::unit::{lemma_pow10_adds, lemma_unit_split, pow10, Unit};

verus! {

/// The largest count that a parsed size can hold, plus one.
pub const LIMIT: u64 = 0x8000_0000_0000_0000;

/// A product of a decimal number and a unit.
#[derive(Clone, Copy, Debug, PartialEq, Eq)]
pub struct Product {
    /// The product rounded down, or `LIMIT` where that is smaller.
    pub floor: u64,
    /// Whether the product is a whole number.
    pub exact: bool,
}

/// The number that the digit `c` stands for.
pub open spec fn digit_value(c: char) -> nat {
    (c as int - '0' as int) as nat
}

/// The number that a string of digits stands for, most significant first.
/// The empty string stands for zero.
pub open spec fn digits_value(s: Seq<char>) -> nat
    decreases s.len(),
{
    if s.len() == 0 {
        0
    } else {
        10 * digits_value(s.drop_last()) + digit_value(s.last())
    }
}

/// The product of the decimal number `whole.frac` and `mult`, rounded down.
pub open spec fn scaled(whole: Seq<char>, frac: Seq<char>, mult: nat) -> nat {
    digits_value(whole + frac) * mult / pow10(frac.len())
}

/// The product of the decimal number `whole.frac` and `mult` is a whole
/// number.
pub open spec fn is_whole(whole: Seq<char>, frac: Seq<char>, mult: nat) -> bool {
    (digits_value(whole + frac) * mult) % pow10(frac.len()) == 0
}

/// The product of the decimal number `whole.frac` and `mult` is greater than
/// `bound`.
pub open spec fn exceeds(whole: Seq<char>, frac: Seq<char>, mult: nat, bound: nat) -> bool {
    digits_value(whole + frac) * mult > bound * pow10(frac.len())
}

/// The number read after `t` places behind the point: the digits of `frac` as
/// far as they go, zeros after them.
pub open spec fn shifted(whole: Seq<char>, frac: Seq<char>, t: nat) -> nat {
    if t <= frac.len() {
        digits_value(whole + frac.take(t as int))
    } else {
        digits_value(whole + frac) * pow10((t - frac.len()) as nat)
    }
}

/// One more digit at the end multiplies by ten and adds the digit.
pub proof fn lemma_digits_push(s: Seq<char>, c: char)
    ensures
        digits_value(s.push(c)) == 10 * digits_value(s) + digit_value(c),
{
    assert(s.push(c).drop_last() =~= s);
}

/// A string of digits stands for a number below ten to the power of its
/// length.
pub proof fn lemma_digits_bound(s: Seq<char>)
    requires
        all_digits(s),
    ensures
        digits_value(s) < pow10(s.len()),
    decreases s.len(),
{
    if s.len() > 0 {
        assert(is_digit(s.last()));
        assert(all_digits(s.drop_last())) by {
            assert forall|i: int| 0 <= i < s.drop_last().len() implies is_digit(
                #[trigger] s.drop_last()[i],
            ) by {
                assert(s.drop_last()[i] == s[i]);
            }
        }
        lemma_digits_bound(s.drop_last());
    }
}

/// Digits written behind a number shift it by their length and add what they
/// stand for.
pub proof fn lemma_digits_concat(a: Seq<char>, b: Seq<char>)
    ensures
        digits_value(a + b) == digits_value(a) * pow10(b.len()) + digits_value(b),
    decreases b.len(),
{
    if b.len() == 0 {
        assert(a + b =~= a);
        assert(digits_value(a) * 1 == digits_value(a));
    } else {
        let front = b.drop_last();
        lemma_digits_concat(a, front);
        assert((a + b).drop_last() =~= a + front);
        assert((a + b).last() == b.last());
        let x = digits_value(a);
        let p = pow10(front.len());
        assert(pow10(b.len()) == 10 * p);
        assert(10 * (x * p) == x * (10 * p)) by (nonlinear_arith);
    }
}

/// The quotient and the remainder of a number by a power of ten are what its
/// digits before and behind the cut stand for.
pub proof fn lemma_digits_cut(s: Seq<char>, n: int)
    requires
        0 <= n <= s.len(),
        all_digits(s),
    ensures
        digits_value(s.take(n)) == digits_value(s) / pow10((s.len() - n) as nat),
        digits_value(s.skip(n)) == digits_value(s) % pow10((s.len() - n) as nat),
{
    let z = (s.len() - n) as nat;
    assert(s.take(n) + s.skip(n) =~= s);
    lemma_digits_concat(s.take(n), s.skip(n));
    assert(all_digits(s.skip(n))) by {
        assert forall|i: int| 0 <= i < s.skip(n).len() implies is_digit(
            #[trigger] s.skip(n)[i],
        ) by {
            assert(s.skip(n)[i] == s[i + n]);
        }
    }
    lemma_digits_bound(s.skip(n));
    lemma_pow10_adds(z, 0);
    lemma_fundamental_div_mod_converse(
        digits_value(s) as int,
        pow10(z) as int,
        digits_value(s.take(n)) as int,
        digits_value(s.skip(n)) as int,
    );
}

/// One step of long division: the quotient and remainder of `10 * v + d` from
/// those of `v`.
pub proof fn lemma_division_step(v: nat, d: nat, c: nat)
    requires
        c > 0,
    ensures
        (10 * v + d) / c == 10 * (v / c) + (10 * (v % c) + d) / c,
        (10 * v + d) % c == (10 * (v % c) + d) % c,
{
    let q = (v / c) as int;
    let r = (v % c) as int;
    let ci = c as int;
    lemma_fundamental_div_mod(v as int, ci);
    assert(10 * v + d == (10 * r + d) + (10 * q) * ci) by (nonlinear_arith)
        requires
            v == ci * q + r,
    ;
    lemma_hoist_over_denominator(10 * r + d, 10 * q, c);
    assert((10 * q) * ci == ci * (10 * q)) by (nonlinear_arith);
    lemma_mod_multiples_vanish(10 * q, 10 * r + d, ci);
}

/// One more place behind the point multiplies by ten and adds the digit
/// there, or zero where the digits have run out.
pub proof fn lemma_shifted_step(whole: Seq<char>, frac: Seq<char>, t: nat)
    ensures
        shifted(whole, frac, t + 1) == 10 * shifted(whole, frac, t) + if t < frac.len() {
            digit_value(frac[t as int])
        } else {
            0
        },
{
    let n = digits_value(whole + frac);
    if t < frac.len() {
        let before = whole + frac.take(t as int);
        assert(whole + frac.take((t + 1) as int) =~= before.push(frac[t as int]));
        lemma_digits_push(before, frac[t as int]);
    } else if t == frac.len() {
        assert(frac.take(t as int) =~= frac);
        assert(pow10(1) == 10) by {
            reveal_with_fuel(pow10, 2);
        }
        assert((t + 1 - frac.len()) as nat == 1);
        assert(n * 10 == 10 * n);
    } else {
        let z = (t - frac.len()) as nat;
        let p = pow10(z);
        assert((t + 1 - frac.len()) as nat == z + 1);
        assert(pow10(z + 1) == 10 * p);
        assert(n * (10 * p) == 10 * (n * p)) by (nonlinear_arith);
    }
}

/// Of two numbers in the proportion `c` to `b`, one is a multiple of `c`
/// exactly where the other is a multiple of `b`.
pub proof fn lemma_cross_multiples(v: int, x: int, b: int, c: int)
    requires
        b > 0,
        c > 0,
        v >= 0,
        x >= 0,
        v * b == x * c,
    ensures
        v % c == 0 <==> x % b == 0,
{
    if v % c == 0 {
        let t = v / c;
        lemma_fundamental_div_mod(v, c);
        assert(c * x == c * (t * b)) by (nonlinear_arith)
            requires
                v == c * t,
                v * b == x * c,
        ;
        lemma_mul_equality_converse(c, x, t * b);
        lemma_mod_multiples_basic(t, b);
    }
    if x % b == 0 {
        let s = x / b;
        lemma_fundamental_div_mod(x, b);
        assert(b * v == b * (s * c)) by (nonlinear_arith)
            requires
                x == b * s,
                v * b == x * c,
        ;
        lemma_mul_equality_converse(b, v, s * c);
        lemma_mod_multiples_basic(s, c);
    }
}

/// After as many places as the unit shifts by, dividing by the unit's divisor
/// gives the product with the unit's multiplier, rounded down; and the
/// product is whole exactly where that division leaves nothing and the
/// digits beyond those places are zeros.
pub proof fn lemma_shifted_quotient(whole: Seq<char>, frac: Seq<char>, unit: Unit)
    requires
        all_digits(whole),
        all_digits(frac),
    ensures
        shifted(whole, frac, unit.shift()) / unit.divisor() == scaled(
            whole,
            frac,
            unit.multiplier(),
        ),
        is_whole(whole, frac, unit.multiplier()) <==> shifted(whole, frac, unit.shift())
            % unit.divisor() == 0 && (unit.shift() < frac.len() ==> digits_value(
            frac.skip(unit.shift() as int),
        ) == 0),
{
    lemma_unit_split(unit);
    let j = unit.shift();
    let k = frac.len();
    let c = unit.divisor() as int;
    let m = unit.multiplier() as int;
    let n = digits_value(whole + frac) as int;
    let v = shifted(whole, frac, j) as int;
    assert(0 <= n * m) by (nonlinear_arith)
        requires
            0 <= n,
            0 < m,
    ;
    if j >= k {
        let a = pow10((j - k) as nat) as int;
        let b = pow10(k) as int;
        lemma_pow10_adds((j - k) as nat, k);
        assert(a * b == m * c);
        if j == k {
            assert(frac.take(k as int) =~= frac);
            assert(a == 1);
            assert(n * a == n) by (nonlinear_arith)
                requires
                    a == 1,
            ;
        }
        assert(v == n * a);
        assert(0 <= n * a) by (nonlinear_arith)
            requires
                0 <= n,
                0 < a,
        ;
        // n * a / c == (b * (n * a)) / (b * c) == (c * (n * m)) / (c * b) == n * m / b
        lemma_div_multiples_vanish_quotient(b, n * a, c);
        lemma_div_multiples_vanish_quotient(c, n * m, b);
        assert(b * (n * a) == c * (n * m) && b * c == c * b && (n * a) * b == (n * m) * c)
            by (nonlinear_arith)
            requires
                a * b == m * c,
        ;
        lemma_cross_multiples(v, n * m, b, c);
    } else {
        let a = pow10((k - j) as nat) as int;
        lemma_pow10_adds((k - j) as nat, j);
        assert(pow10(k) == a * (m * c)) by (nonlinear_arith)
            requires
                pow10(k) == a * pow10(j),
                m * c == pow10(j),
        ;
        let all = whole + frac;
        let cut = (whole.len() + j) as int;
        assert(all.take(cut) =~= whole + frac.take(j as int));
        assert(all.skip(cut) =~= frac.skip(j as int));
        assert(all_digits(all));
        lemma_digits_cut(all, cut);
        assert(v == n / a);
        lemma_div_denominator(n, a, c);
        // n * m / (m * (a * c)) == n / (a * c)
        assert(0 < a * c) by (nonlinear_arith)
            requires
                0 < a,
                0 < c,
        ;
        lemma_div_multiples_vanish_quotient(m, n, a * c);
        assert(m * n == n * m && m * (a * c) == a * (m * c) && n * (a * (m * c)) == (n * m) * (a
            * c)) by (nonlinear_arith);
        lemma_cross_multiples(n, n * m, pow10(k) as int, a * c);
        lemma_mod_breakdown(n, a, c);
        assert(0 <= a * ((n / a) % c)) by (nonlinear_arith)
            requires
                0 < a,
                0 <= (n / a) % c,
        ;
        if (n / a) % c != 0 {
            assert(0 < a * ((n / a) % c)) by (nonlinear_arith)
                requires
                    0 < a,
                    0 < (n / a) % c,
            ;
        } else {
            assert(a * ((n / a) % c) == 0) by (nonlinear_arith)
                requires
                    (n / a) % c == 0,
            ;
        }
    }
}

/// A product is greater than a whole number where its whole part is, or
/// where its whole part is that number and the product is not whole.
pub proof fn lemma_exceeds(whole: Seq<char>, frac: Seq<char>, mult: nat, bound: nat)
    ensures
        exceeds(whole, frac, mult, bound) <==> scaled(whole, frac, mult) > bound || (scaled(
            whole,
            frac,
            mult,
        ) == bound && !is_whole(whole, frac, mult)),
{
    let x = (digits_value(whole + frac) * mult) as int;
    let d = pow10(frac.len()) as int;
    lemma_pow10_adds(frac.len(), 0);
    lemma_fundamental_div_mod(x, d);
    let q = x / d;
    let r = x % d;
    let b = bound as int;
    assert(q > b ==> d * q >= d * b + d) by (nonlinear_arith)
        requires
            d > 0,
    ;
    assert(q < b ==> d * q + d <= d * b) by (nonlinear_arith)
        requires
            d > 0,
    ;
    assert(b * d == d * b) by (nonlinear_arith);
}

/// The number that the digit `c` stands for.
pub(crate) fn digit_of(c: char) -> (d: u8)
    requires
        is_digit(c),
    ensures
        d == digit_value(c),
        d < 10,
{
    (c as u8) - 48
}

/// One step of long division by `c`, on a quotient that is held at `LIMIT`
/// once it has passed it.
fn divide_step(q: u128, rem: u128, d: u8, c: u128, Ghost(v): Ghost<nat>) -> (r: (u128, u128))
    requires
        0 < c <= 9_094_947_017_729_282_379_150_390_625,
        d < 10,
        rem == v % (c as nat),
        q == if v / (c as nat) < LIMIT {
            v / (c as nat)
        } else {
            LIMIT as nat
        },
    ensures
        r.1 == (10 * v + d) % (c as int),
        r.0 == if (10 * v + d) / (c as int) < LIMIT {
            (10 * v + d) / (c as int)
        } else {
            LIMIT as int
        },
{
    proof {
        lemma_division_step(v, d as nat, c as nat);
    }
    let cur: u128 = rem * 10 + d as u128;
    let digit: u128 = cur / c;
    let next: u128 = q * 10 + digit;
    if next > LIMIT as u128 {
        (LIMIT as u128, cur % c)
    } else {
        (next, cur % c)
    }
}

/// The product of the decimal number whose whole part is
/// `v[whole_from..whole_to]` and whose fraction is `v[frac_from..frac_to]`
/// with the unit.
pub(crate) fn scale(
    v: &Vec<char>,
    whole_from: usize,
    whole_to: usize,
    frac_from: usize,
    frac_to: usize,
    unit: Unit,
) -> (r: Product)
    requires
        whole_from <= whole_to <= v.len(),
        frac_from <= frac_to <= v.len(),
        all_digits(v@.subrange(whole_from as int, whole_to as int)),
        all_digits(v@.subrange(frac_from as int, frac_to as int)),
    ensures
        r.floor == if scaled(
            v@.subrange(whole_from as int, whole_to as int),
            v@.subrange(frac_from as int, frac_to as int),
            unit.multiplier(),
        ) < LIMIT {
            scaled(
                v@.subrange(whole_from as int, whole_to as int),
                v@.subrange(frac_from as int, frac_to as int),
                unit.multiplier(),
            )
        } else {
            LIMIT as nat
        },
        r.exact == is_whole(
            v@.subrange(whole_from as int, whole_to as int),
            v@.subrange(frac_from as int, frac_to as int),
            unit.multiplier(),
        ),
{
    let ghost whole = v@.subrange(whole_from as int, whole_to as int);
    let ghost frac = v@.subrange(frac_from as int, frac_to as int);
    let c = unit.reducer();
    let places = unit.places();
    proof {
        lemma_unit_split(unit);
    }
    let mut q: u128 = 0;
    let mut rem: u128 = 0;
    let ghost mut val: nat = 0;
    let mut i: usize = whole_from;
    while i < whole_to
        invariant
            whole_from <= i <= whole_to <= v.len(),
            whole == v@.subrange(whole_from as int, whole_to as int),
            all_digits(whole),
            0 < c <= 9_094_947_017_729_282_379_150_390_625,
            val == digits_value(whole.take(i - whole_from)),
            rem == val % (c as nat),
            q == if val / (c as nat) < LIMIT {
                val / (c as nat)
            } else {
                LIMIT as nat
            },
        decreases whole_to - i,
    {
        let ch = v[i];
        proof {
            assert(ch == whole[i - whole_from]);
            assert(whole.take(i - whole_from + 1) =~= whole.take(i - whole_from).push(ch));
            lemma_digits_push(whole.take(i - whole_from), ch);
        }
        let d = digit_of(ch);
        let (nq, nr) = divide_step(q, rem, d, c, Ghost(val));
        q = nq;
        rem = nr;
        proof {
            val = 10 * val + d as nat;
        }
        i += 1;
    }
    proof {
        assert(whole.take(whole.len() as int) =~= whole);
        assert(frac.take(0) =~= Seq::<char>::empty());
        assert(whole + frac.take(0) =~= whole);
    }
    let width: usize = frac_to - frac_from;
    let mut t: usize = 0;
    while t < places
        invariant
            t <= places,
            places == unit.shift(),
            frac_from <= frac_to <= v.len(),
            width == frac_to - frac_from,
            frac == v@.subrange(frac_from as int, frac_to as int),
            all_digits(frac),
            0 < c <= 9_094_947_017_729_282_379_150_390_625,
            val == shifted(whole, frac, t as nat),
            rem == val % (c as nat),
            q == if val / (c as nat) < LIMIT {
                val / (c as nat)
            } else {
                LIMIT as nat
            },
        decreases places - t,
    {
        let mut d: u8 = 0;
        if t < width {
            let ch = v[frac_from + t];
            assert(ch == frac[t as int]);
            d = digit_of(ch);
        }
        proof {
            lemma_shifted_step(whole, frac, t as nat);
        }
        let (nq, nr) = divide_step(q, rem, d, c, Ghost(val));
        q = nq;
        rem = nr;
        proof {
            val = 10 * val + d as nat;
        }
        t += 1;
    }
    let mut exact = rem == 0;
    if places < width {
        let ghost beyond = frac.skip(places as int);
        let mut at: usize = frac_from + places;
        assert(beyond.take(0) =~= Seq::<char>::empty());
        while at < frac_to
            invariant
                frac_from + places <= at <= frac_to <= v.len(),
                frac == v@.subrange(frac_from as int, frac_to as int),
                beyond == frac.skip(places as int),
                all_digits(frac),
                exact == (rem == 0 && digits_value(beyond.take(at - frac_from - places)) == 0),
            decreases frac_to - at,
        {
            let ch = v[at];
            proof {
                let seen = beyond.take(at - frac_from - places);
                assert(ch == frac[at - frac_from]);
                assert(beyond.take(at - frac_from - places + 1) =~= seen.push(ch));
                lemma_digits_push(seen, ch);
            }
            if digit_of(ch) != 0 {
                exact = false;
            }
            at += 1;
        }
        assert(beyond.take(beyond.len() as int) =~= beyond);
    }
    proof {
        lemma_shifted_quotient(whole, frac, unit);
    }
    Product { floor: q as u64, exact }
}

} // verus!
