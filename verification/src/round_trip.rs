//! What the text shown for a size stands for when it is read again.

use vstd::prelude::*;
use vstd::arithmetic::div_mod::{lemma_fundamental_div_mod, lemma_mod_multiples_basic};
use crate::byte_size::ParseError;
use crate::display::{
    decimal_text,
    digit_char,
    fraction_text,
    magnitude,
    rounded,
    shown,
    shown_hundredths,
    shown_unit,
    unit_label,
};
use crate::grammar::{frac_part, is_decimal, mantissa, parsed, suffix, whole_part};
use crate::decimal::{digit_value, digits_value, exceeds, lemma_digits_push, scaled};
use crate::text::{all_digits, fold, is_digit, is_space, lemma_run_len_is, run_len, trim, CharClass};
use crate::unit::{lemma_unit_names, pow10, Unit};

verus! {

/// What the text shown for a count of `n` bytes stands for, in hundredths of
/// a byte: the count itself below 1024, and from there on the hundredths of
/// the unit that are shown.
pub open spec fn shown_value(n: nat) -> nat {
    if n < 1024 {
        100 * n
    } else {
        shown_hundredths(n) * shown_unit(n).multiplier()
    }
}


/// The count that the text shown for a count of `n` bytes stands for: what
/// is shown, in bytes, rounded down.
pub open spec fn reread(n: nat) -> nat {
    shown_value(n) / 100
}


/// A size from zero up to 5368709 below the largest, shown and read again,
/// is a size once more: the same size below 1024 and wherever the size is a
/// multiple of the unit it is shown in, and everywhere a size that differs
/// from it by no more than half a hundredth of that unit, and by less than
/// one byte more where it is below.
pub proof fn lemma_round_trip(n: int)
    requires
        0 <= n,
        n + 5_368_709 <= i64::MAX,
    ensures
        parsed(shown(n)) == Ok::<int, ParseError>(reread(n as nat) as int),
        n < 1024 ==> reread(n as nat) == n,
        n % (shown_unit(n as nat).multiplier() as int) == 0 ==> reread(n as nat) == n,
        200 * (reread(n as nat) - n) <= shown_unit(n as nat).multiplier(),
        200 * (n - reread(n as nat)) < shown_unit(n as nat).multiplier() + 200,
{
    lemma_shown_parses(n);
    lemma_shown_fits(n as nat);
    lemma_reread_close(n as nat);
}

/// A count from 0 to 1023 is shown as its decimal digits and `B`.
pub proof fn lemma_shown_in_bytes(n: int)
    requires
        0 <= n < 1024,
    ensures
        shown(n) == decimal_text(n as nat) + "B"@,
{
}


/// What the text shown for a size stands for when it is read: no size where
/// it is shown with a minus sign or stands for more than the largest count,
/// and else the count that `reread` gives for the magnitude.
pub proof fn lemma_shown_parses(n: int)
    ensures
        parsed(shown(n)) == if n <= -1024 {
            Err::<int, ParseError>(ParseError::NegativeNotAllowed)
        } else if shown_value(magnitude(n)) > i64::MAX * 100 {
            Err(ParseError::ValueTooLarge)
        } else {
            Ok(reread(magnitude(n)) as int)
        },
{
    lemma_labels();
    let size = magnitude(n);
    if size < 1024 {
        let label = seq!['B'];
        assert(fraction_text(0) =~= Seq::<char>::empty());
        assert(decimal_text(size) + fraction_text(0) + label =~= shown(n));
        assert(label.last() == 'B');
        lemma_parsed_hundredths(size, 0, label, Unit::Byte);
        assert((100 * size + 0) * 1 == 100 * size);
    } else {
        let unit = shown_unit(size);
        let h = shown_hundredths(size);
        let label = unit_label(unit);
        let body = decimal_text(h / 100) + fraction_text(h % 100) + label;
        lemma_decimal_text(h / 100);
        if n < 0 {
            assert(shown(n) =~= seq!['-'] + body);
            assert(shown(n)[0] == '-');
        } else {
            assert(shown(n) =~= body);
            assert(label.last() == 'B');
            lemma_parsed_hundredths(h / 100, h % 100, label, unit);
            assert(100 * (h / 100) + h % 100 == h);
        }
    }
}


/// The sizes from zero up whose shown text stands for a size again are
/// those up to 5368709 below the largest: above them the text is rounded up
/// to 2^63 bytes.
pub proof fn lemma_shown_fits(n: nat)
    requires
        n <= i64::MAX,
    ensures
        shown_value(n) <= i64::MAX * 100 <==> n + 5_368_709 <= i64::MAX,
{
    if n >= 1024 {
        lemma_rounded_close(n, shown_unit(n).multiplier());
        if shown_unit(n) == Unit::Gibi {
            let h = rounded(n * 100, 1_073_741_824);
            let q = (n * 100) / 1_073_741_824;
            assert(h == q || h == q + 1);
            assert(shown_value(n) == h * 1_073_741_824);
        }
    }
}


/// The count that a shown size stands for is the size itself below 1024 and
/// wherever the size is a multiple of its unit. Everywhere else it differs
/// from the size by no more than half a hundredth of the unit, and by less
/// than one byte more where it is below.
pub proof fn lemma_reread_close(n: nat)
    ensures
        n < 1024 ==> reread(n) == n,
        n % shown_unit(n).multiplier() == 0 ==> reread(n) == n,
        200 * (reread(n) - n) <= shown_unit(n).multiplier(),
        200 * (n - reread(n)) < shown_unit(n).multiplier() + 200,
{
    if n >= 1024 {
        lemma_rounded_close(n, shown_unit(n).multiplier());
    } else if n % shown_unit(n).multiplier() == 0 {
        assert(n % 1024 == 0);
    }
}

/// The digits behind the point in the text of `f` hundredths.
spec fn fraction_digits(f: nat) -> Seq<char> {
    if f == 0 {
        Seq::empty()
    } else {
        fraction_text(f).skip(1)
    }
}


/// The character of a digit is a digit and stands for it.
proof fn lemma_digit_char(d: nat)
    requires
        d < 10,
    ensures
        is_digit(digit_char(d)),
        digit_value(digit_char(d)) == d,
        digit_char(d) != '.',
        !is_space(digit_char(d)),
{
}


/// The decimal digits of a number are digits, and stand for the number.
proof fn lemma_decimal_text(v: nat)
    ensures
        decimal_text(v).len() > 0,
        all_digits(decimal_text(v)),
        digits_value(decimal_text(v)) == v,
    decreases v,
{
    if v < 10 {
        lemma_digit_char(v);
        let t = decimal_text(v);
        assert(t.drop_last() =~= Seq::<char>::empty());
        assert(digits_value(t.drop_last()) == 0);
    } else {
        lemma_decimal_text(v / 10);
        lemma_digit_char(v % 10);
        lemma_digits_push(decimal_text(v / 10), digit_char(v % 10));
    }
}


/// The whole number `w` with the digits of `f` hundredths behind the point,
/// times `mult`, is `100 * w + f` hundredths of `mult`.
proof fn lemma_hundredths_scaled(w: nat, f: nat, mult: nat, bound: nat)
    requires
        f < 100,
    ensures
        all_digits(fraction_digits(f)),
        scaled(decimal_text(w), fraction_digits(f), mult) == (100 * w + f) * mult / 100,
        exceeds(decimal_text(w), fraction_digits(f), mult, bound) <==> (100 * w + f) * mult > bound
            * 100,
{
    lemma_decimal_text(w);
    let whole = decimal_text(w);
    let frac = fraction_digits(f);
    lemma_digit_char(f / 10);
    lemma_digit_char(f % 10);
    assert(pow10(0) == 1);
    assert(pow10(1) == 10 && pow10(2) == 100) by {
        reveal_with_fuel(pow10, 3);
    }
    if f == 0 {
        assert(whole + frac =~= whole);
        assert((100 * w) * mult == 100 * (w * mult)) by (nonlinear_arith);
        assert(bound * 1 == bound);
    } else if f % 10 == 0 {
        let d = digit_char(f / 10);
        assert(frac =~= seq![d]);
        assert(whole + frac =~= whole.push(d));
        lemma_digits_push(whole, d);
        let v = 10 * w + f / 10;
        assert((100 * w + f) * mult == 10 * (v * mult)) by (nonlinear_arith)
            requires
                100 * w + f == 10 * v,
        ;
        assert((10 * (v * mult)) / 100 == (v * mult) / 10);
        assert(bound * 100 == 10 * (bound * 10));
    } else {
        let d1 = digit_char(f / 10);
        let d2 = digit_char(f % 10);
        assert(frac =~= seq![d1, d2]);
        assert(whole + frac =~= whole.push(d1).push(d2));
        lemma_digits_push(whole, d1);
        lemma_digits_push(whole.push(d1), d2);
    }
}


/// The labels of the units in which sizes are shown, and the label of bytes,
/// name their units.
proof fn lemma_labels()
    ensures
        "B"@ == seq!['B'],
        "-"@ == seq!['-'],
        ""@ == Seq::<char>::empty(),
        Unit::named(fold("B"@)) == Some(Unit::Byte),
        unit_label(Unit::Kibi) == seq!['K', 'i', 'B'],
        unit_label(Unit::Mebi) == seq!['M', 'i', 'B'],
        unit_label(Unit::Gibi) == seq!['G', 'i', 'B'],
        Unit::named(fold(unit_label(Unit::Kibi))) == Some(Unit::Kibi),
        Unit::named(fold(unit_label(Unit::Mebi))) == Some(Unit::Mebi),
        Unit::named(fold(unit_label(Unit::Gibi))) == Some(Unit::Gibi),
{
    lemma_unit_names();
    reveal_strlit("B");
    reveal_strlit("-");
    reveal_strlit("");
    reveal_strlit("KiB");
    reveal_strlit("MiB");
    reveal_strlit("GiB");
    assert("B"@ =~= seq!['B']);
    assert("-"@ =~= seq!['-']);
    assert(""@ =~= Seq::<char>::empty());
    assert("KiB"@ =~= seq!['K', 'i', 'B']);
    assert("MiB"@ =~= seq!['M', 'i', 'B']);
    assert("GiB"@ =~= seq!['G', 'i', 'B']);
    assert(fold(seq!['B']) =~= seq!['b']);
    assert(fold(seq!['K', 'i', 'B']) =~= seq!['k', 'i', 'b']);
    assert(fold(seq!['M', 'i', 'B']) =~= seq!['m', 'i', 'b']);
    assert(fold(seq!['G', 'i', 'B']) =~= seq!['g', 'i', 'b']);
    assert(seq!['b'][0] == 'b');
    assert(seq!['k', 'i', 'b'][0] == 'k' && seq!['k', 'i', 'b'].len() == 3);
    assert(seq!['m', 'i', 'b'][0] == 'm' && seq!['m', 'i', 'b'].len() == 3);
    assert(seq!['g', 'i', 'b'][0] == 'g' && seq!['g', 'i', 'b'].len() == 3);
}


/// A whole number, the decimal places of some hundredths and a unit's label
/// read as that many hundredths of the unit, rounded down.
proof fn lemma_parsed_hundredths(w: nat, f: nat, label: Seq<char>, unit: Unit)
    requires
        f < 100,
        label.len() > 0,
        !CharClass::Numeric.holds(label[0]),
        !is_space(label[0]),
        !is_space(label.last()),
        !is_digit(label.last()),
        Unit::named(fold(label)) == Some(unit),
    ensures
        parsed(decimal_text(w) + fraction_text(f) + label) == if (100 * w + f) * unit.multiplier()
            > i64::MAX * 100 {
            Err::<int, ParseError>(ParseError::ValueTooLarge)
        } else {
            Ok(((100 * w + f) * unit.multiplier() / 100) as int)
        },
{
    lemma_decimal_text(w);
    lemma_hundredths_scaled(w, f, unit.multiplier(), i64::MAX as nat);
    lemma_digit_char(f / 10);
    lemma_digit_char(f % 10);
    let whole = decimal_text(w);
    let point = fraction_text(f);
    let number = whole + point;
    let text = number + label;
    assert(text =~= decimal_text(w) + fraction_text(f) + label);
    assert(text[0] == whole[0]);
    assert(!all_digits(text)) by {
        assert(text[text.len() - 1] == label.last());
    }
    assert forall|i: int| 0 <= i < number.len() implies CharClass::Numeric.holds(
        #[trigger] text[i],
    ) by {
        if i < whole.len() {
            assert(text[i] == whole[i]);
        } else {
            assert(text[i] == point[i - whole.len()]);
        }
    }
    assert(text[number.len() as int] == label[0]);
    lemma_run_len_is(text, CharClass::Numeric, true, number.len() as int);
    assert(mantissa(text) =~= number);
    assert(suffix(text) =~= label);
    assert forall|i: int| 0 <= i < whole.len() implies !CharClass::Dot.holds(
        #[trigger] number[i],
    ) by {
        assert(number[i] == whole[i]);
    }
    if point.len() > 0 {
        assert(number[whole.len() as int] == point[0]);
    }
    lemma_run_len_is(number, CharClass::Dot, false, whole.len() as int);
    assert(whole_part(number) =~= whole);
    assert(frac_part(number) =~= fraction_digits(f));
    assert(is_decimal(number));
    assert(run_len(label, CharClass::Space, true) == 0);
    assert(label.skip(0) =~= label);
    assert(label.reverse()[0] == label.last());
    assert(run_len(label.reverse(), CharClass::Space, true) == 0);
    assert(trim(label) =~= label);
}


/// A hundredth count rounded to the nearest, turned back into bytes, is the
/// count itself where it is a multiple of the unit, and lies within half a
/// hundredth of the unit of it everywhere.
proof fn lemma_rounded_close(n: nat, unit: nat)
    requires
        unit > 0,
    ensures
        n % unit == 0 ==> rounded(n * 100, unit) * unit == n * 100,
        2 * (rounded(n * 100, unit) * unit - n * 100) <= unit,
        2 * (n * 100 - rounded(n * 100, unit) * unit) <= unit,
        n % unit == 0 ==> rounded(n * 100, unit) * unit / 100 == n,
        200 * (rounded(n * 100, unit) * unit / 100 - n) <= unit,
        200 * (n - rounded(n * 100, unit) * unit / 100) < unit + 200,
{
    let x = (n * 100) as int;
    let u = unit as int;
    let q = x / u;
    let r = x % u;
    let h = rounded(n * 100, unit) as int;
    lemma_fundamental_div_mod(x, u);
    assert(h == q || h == q + 1);
    assert((q + 1) * u == u * q + u) by (nonlinear_arith);
    assert(q * u == u * q) by (nonlinear_arith);
    let back = h * u;
    assert(2 * (back - x) <= u && 2 * (x - back) <= u);
    assert(back >= 0) by (nonlinear_arith)
        requires
            h >= 0,
            u > 0,
            back == h * u,
    ;
    lemma_fundamental_div_mod(back, 100);
    if n % unit == 0 {
        let k = (n / unit) as int;
        lemma_fundamental_div_mod(n as int, u);
        assert(x == (100 * k) * u) by (nonlinear_arith)
            requires
                n == u * k,
                x == n * 100,
        ;
        lemma_mod_multiples_basic(100 * k, u);
        assert(r == 0);
        assert(back == x);
    }
}


} // verus!
