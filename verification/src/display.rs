//! The text that shows a byte count.

use vstd::prelude::*;
use vstd::string::StringExecFns;
use crate::unit::Unit;

verus! {

/// The character that stands for the digit `d`.
pub open spec fn digit_char(d: nat) -> char {
    ('0' as int + d) as char
}

/// `v` in decimal digits, without leading zeros.
pub open spec fn decimal_text(v: nat) -> Seq<char>
    decreases v,
{
    if v < 10 {
        seq![digit_char(v)]
    } else {
        decimal_text(v / 10).push(digit_char(v % 10))
    }
}

/// `a / b` rounded to the nearest whole number, and to the even one of the
/// two where it lies halfway between them.
pub open spec fn rounded(a: nat, b: nat) -> nat {
    let q = a / b;
    let r = a % b;
    if 2 * r > b || (2 * r == b && q % 2 == 1) {
        q + 1
    } else {
        q
    }
}

/// The unit in which a magnitude of 1024 or more is shown: the largest of
/// GiB, MiB and KiB that is not above it.
pub open spec fn shown_unit(magnitude: nat) -> Unit {
    if magnitude >= Unit::Gibi.multiplier() {
        Unit::Gibi
    } else if magnitude >= Unit::Mebi.multiplier() {
        Unit::Mebi
    } else {
        Unit::Kibi
    }
}

/// The label of a unit in which sizes are shown.
pub open spec fn unit_label(unit: Unit) -> Seq<char> {
    match unit {
        Unit::Gibi => "GiB"@,
        Unit::Mebi => "MiB"@,
        _ => "KiB"@,
    }
}

/// The number of hundredths of its unit that a magnitude of 1024 or more is
/// shown as.
pub open spec fn shown_hundredths(magnitude: nat) -> nat {
    rounded(magnitude * 100, shown_unit(magnitude).multiplier())
}

/// The point and the decimal places of `f` hundredths, without zeros at the
/// end: nothing for a whole number.
pub open spec fn fraction_text(f: nat) -> Seq<char> {
    if f == 0 {
        Seq::empty()
    } else if f % 10 == 0 {
        seq!['.', digit_char(f / 10)]
    } else {
        seq!['.', digit_char(f / 10), digit_char(f % 10)]
    }
}

/// The size of `n`, without its sign.
pub open spec fn magnitude(n: int) -> nat {
    if n < 0 {
        (-n) as nat
    } else {
        n as nat
    }
}

/// The text that shows a count of `n` bytes: below 1024 the magnitude and
/// `B`; from there on the count in its unit, with its sign, rounded to two
/// decimal places.
pub open spec fn shown(n: int) -> Seq<char> {
    let size = magnitude(n);
    if size < 1024 {
        decimal_text(size) + "B"@
    } else {
        let h = shown_hundredths(size);
        let sign = if n < 0 {
            "-"@
        } else {
            ""@
        };
        sign + decimal_text(h / 100) + fraction_text(h % 100) + unit_label(shown_unit(size))
    }
}

/// The text of one digit.
fn digit_text(d: u64) -> (t: &'static str)
    requires
        d < 10,
    ensures
        t@ == seq![digit_char(d as nat)],
{
    proof {
        reveal_strlit("0");
        reveal_strlit("1");
        reveal_strlit("2");
        reveal_strlit("3");
        reveal_strlit("4");
        reveal_strlit("5");
        reveal_strlit("6");
        reveal_strlit("7");
        reveal_strlit("8");
        reveal_strlit("9");
    }
    let t = if d == 0 {
        "0"
    } else if d == 1 {
        "1"
    } else if d == 2 {
        "2"
    } else if d == 3 {
        "3"
    } else if d == 4 {
        "4"
    } else if d == 5 {
        "5"
    } else if d == 6 {
        "6"
    } else if d == 7 {
        "7"
    } else if d == 8 {
        "8"
    } else {
        "9"
    };
    assert(t@ =~= seq![digit_char(d as nat)]);
    t
}

/// Writes `v` in decimal digits at the end of `out`.
pub(crate) fn push_decimal(out: &mut String, v: u64)
    ensures
        final(out)@ == old(out)@ + decimal_text(v as nat),
    decreases v,
{
    if v >= 10 {
        push_decimal(out, v / 10);
    }
    out.append(digit_text(v % 10));
    proof {
        let last = seq![digit_char((v % 10) as nat)];
        if v >= 10 {
            assert(old(out)@ + decimal_text((v / 10) as nat) + last =~= old(out)@ + decimal_text(
                (v / 10) as nat,
            ).push(digit_char((v % 10) as nat)));
        }
    }
}

/// Writes the decimal places of `f` hundredths at the end of `out`.
pub(crate) fn push_fraction(out: &mut String, f: u64)
    requires
        f < 100,
    ensures
        final(out)@ == old(out)@ + fraction_text(f as nat),
{
    if f != 0 {
        proof {
            reveal_strlit(".");
        }
        out.append(".");
        out.append(digit_text(f / 10));
        if f % 10 != 0 {
            out.append(digit_text(f % 10));
        }
        assert(out@ =~= old(out)@ + fraction_text(f as nat));
    } else {
        assert(out@ =~= old(out)@ + fraction_text(f as nat));
    }
}

/// `a / b` rounded to the nearest whole number, halves to the even one.
pub(crate) fn round_div(a: u128, b: u128) -> (q: u128)
    requires
        0 < b <= 0x4000_0000,
        a <= 0x8000_0000_0000_0000 * 100,
    ensures
        q == rounded(a as nat, b as nat),
{
    let q = a / b;
    let r = a % b;
    if 2 * r > b || (2 * r == b && q % 2 == 1) {
        q + 1
    } else {
        q
    }
}

} // verus!
