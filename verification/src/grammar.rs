//! What a text must look like to stand for a byte count, and what count it
//! stands for.

use vstd::prelude::*;
use crate::byte_size::ParseError;
use crate::decimal::{digits_value, exceeds, scaled, LIMIT};
use crate::text::{
    all_digits,
    fold,
    fold_char,
    is_digit,
    lemma_run_len,
    lemma_run_len_is,
    run_len,
    scan,
    scan_back,
    trim,
    CharClass,
};
use crate::unit::{lemma_unit_names, pow10, Unit};

verus! {

/// The number at the start of `s`: its longest prefix of digits and points.
pub open spec fn mantissa(s: Seq<char>) -> Seq<char> {
    s.take(run_len(s, CharClass::Numeric, true) as int)
}

/// What follows the number at the start of `s`.
pub open spec fn suffix(s: Seq<char>) -> Seq<char> {
    s.skip(run_len(s, CharClass::Numeric, true) as int)
}

/// The digits of `m` before its first point.
pub open spec fn whole_part(m: Seq<char>) -> Seq<char> {
    m.take(run_len(m, CharClass::Dot, false) as int)
}

/// What follows the first point of `m`; empty where it has none.
pub open spec fn frac_part(m: Seq<char>) -> Seq<char> {
    let dot = run_len(m, CharClass::Dot, false);
    if dot < m.len() {
        m.skip(dot as int + 1)
    } else {
        Seq::empty()
    }
}

/// `m` is a decimal number: digits with at most one point among them, and at
/// least one digit.
pub open spec fn is_decimal(m: Seq<char>) -> bool {
    &&& all_digits(whole_part(m))
    &&& all_digits(frac_part(m))
    &&& whole_part(m).len() + frac_part(m).len() > 0
}

/// The product of the decimal number `m` and `mult`, rounded down.
pub open spec fn product(m: Seq<char>, mult: nat) -> nat {
    scaled(whole_part(m), frac_part(m), mult)
}

/// The product of the decimal number `m` and `mult` is greater than the
/// largest count.
pub open spec fn too_large(m: Seq<char>, mult: nat) -> bool {
    exceeds(whole_part(m), frac_part(m), mult, i64::MAX as nat)
}

/// `n`, or the largest count where `n` is beyond it.
pub open spec fn saturated(n: nat) -> int {
    if n < LIMIT {
        n as int
    } else {
        i64::MAX as int
    }
}

/// The byte count that the text `s` stands for, or why it stands for none.
pub open spec fn parsed(s: Seq<char>) -> Result<int, ParseError> {
    if s.len() == 0 {
        Err(ParseError::InvalidFormat)
    } else if s[0] == '-' {
        Err(ParseError::NegativeNotAllowed)
    } else if !CharClass::Numeric.holds(s[0]) {
        Err(ParseError::InvalidFormat)
    } else if all_digits(s) {
        Ok(saturated(digits_value(s)))
    } else if !is_decimal(mantissa(s)) {
        Err(ParseError::InvalidFormat)
    } else if suffix(s).len() == 0 {
        Ok(saturated(product(mantissa(s), 1)))
    } else {
        match Unit::named(fold(trim(suffix(s)))) {
            None => Err(ParseError::UnrecognizedUnit),
            Some(unit) => if too_large(mantissa(s), unit.multiplier()) {
                Err(ParseError::ValueTooLarge)
            } else {
                Ok(product(mantissa(s), unit.multiplier()) as int)
            },
        }
    }
}

/// Where the parts of a text lie: the number ends at `end`, its whole part at
/// `dot`, and its fraction runs from `frac_from` to `end`.
pub open spec fn parts_at(s: Seq<char>, end: int, dot: int, frac_from: int) -> bool {
    &&& 0 <= dot <= frac_from <= end <= s.len()
    &&& mantissa(s) == s.subrange(0, end)
    &&& suffix(s) == s.subrange(end, s.len() as int)
    &&& whole_part(mantissa(s)) == s.subrange(0, dot)
    &&& frac_part(mantissa(s)) == s.subrange(frac_from, end)
    &&& all_digits(whole_part(mantissa(s)))
    &&& all_digits(s) <==> end == s.len() && dot == end
}

/// The ends of the runs of a text are where its parts lie.
pub proof fn lemma_parts(s: Seq<char>, end: int, dot: int)
    requires
        0 <= dot <= end <= s.len(),
        end == run_len(s, CharClass::Numeric, true),
        dot == run_len(s.subrange(0, end), CharClass::Dot, false),
    ensures
        parts_at(s, end, dot, if dot < end { dot + 1 } else { end }),
{
    let m = s.subrange(0, end);
    assert(mantissa(s) =~= m);
    assert(suffix(s) =~= s.subrange(end, s.len() as int));
    lemma_run_len(s, CharClass::Numeric, true);
    lemma_run_len(m, CharClass::Dot, false);
    assert(whole_part(m) =~= s.subrange(0, dot));
    if dot < end {
        assert(frac_part(m) =~= s.subrange(dot + 1, end));
    } else {
        assert(frac_part(m) =~= s.subrange(end, end));
    }
    assert forall|i: int| 0 <= i < dot implies is_digit(#[trigger] s.subrange(0, dot)[i]) by {
        assert(m[i] == s[i]);
        assert(CharClass::Numeric.holds(s[i]));
        assert(!CharClass::Dot.holds(m[i]));
    }
    if all_digits(s) {
        assert forall|i: int| 0 <= i < s.len() implies CharClass::Numeric.holds(
            #[trigger] s[i],
        ) by {
            assert(is_digit(s[i]));
        }
        lemma_run_len_is(s, CharClass::Numeric, true, s.len() as int);
        assert(m =~= s);
        assert forall|i: int| 0 <= i < m.len() implies !CharClass::Dot.holds(#[trigger] m[i]) by {
            assert(is_digit(s[i]));
        }
        lemma_run_len_is(m, CharClass::Dot, false, m.len() as int);
    }
    if end == s.len() && dot == end {
        assert(s.subrange(0, dot) =~= s);
    }
}

/// A name of more than three letters is no unit's.
pub proof fn lemma_unit_name_len(name: Seq<char>)
    requires
        name.len() > 3,
    ensures
        Unit::named(name) is None,
{
    lemma_unit_names();
}

/// A text of digits alone is a decimal number without a fraction.
pub proof fn lemma_whole_number(s: Seq<char>, end: int, dot: int, frac_from: int)
    requires
        s.len() > 0,
        all_digits(s),
        parts_at(s, end, dot, frac_from),
    ensures
        is_decimal(mantissa(s)),
        product(mantissa(s), 1) == digits_value(s),
{
    let m = mantissa(s);
    assert(whole_part(m) =~= s);
    assert(frac_part(m) =~= Seq::<char>::empty());
    assert(whole_part(m) + frac_part(m) =~= s);
    assert(pow10(0) == 1);
}

/// Finds the number at the start of the text: where it ends, where its whole
/// part ends, where its fraction starts, and whether it is a decimal number.
pub(crate) fn number_parts(v: &Vec<char>) -> (r: (usize, usize, usize, bool))
    ensures
        parts_at(v@, r.0 as int, r.1 as int, r.2 as int),
        r.3 == is_decimal(mantissa(v@)),
{
    let len = v.len();
    assert(v@.subrange(0, len as int) =~= v@);
    let end = scan(v, 0, len, CharClass::Numeric, true);
    let dot = scan(v, 0, end, CharClass::Dot, false);
    let frac_from = if dot < end {
        dot + 1
    } else {
        end
    };
    let frac_end = scan(v, frac_from, end, CharClass::Digit, true);
    proof {
        lemma_parts(v@, end as int, dot as int);
        let frac = v@.subrange(frac_from as int, end as int);
        lemma_run_len(frac, CharClass::Digit, true);
        if all_digits(frac) {
            lemma_run_len_is(frac, CharClass::Digit, true, frac.len() as int);
        }
    }
    (end, dot, frac_from, frac_end == end && (dot > 0 || frac_from < end))
}

/// The unit named by what follows the number, which ends at `end`.
pub(crate) fn unit_after(v: &Vec<char>, end: usize) -> (r: Option<Unit>)
    requires
        end <= v.len(),
    ensures
        r == Unit::named(fold(trim(v@.subrange(end as int, v.len() as int)))),
{
    let len = v.len();
    let from = scan(v, end, len, CharClass::Space, true);
    let to = scan_back(v, from, len, CharClass::Space, true);
    proof {
        let rest = v@.subrange(end as int, len as int);
        assert(rest.skip(from - end) =~= v@.subrange(from as int, len as int));
        assert(trim(rest) =~= v@.subrange(from as int, to as int));
    }
    if to - from > 3 {
        proof {
            lemma_unit_name_len(fold(v@.subrange(from as int, to as int)));
        }
        return None;
    }
    let mut name: Vec<char> = Vec::new();
    let mut i = from;
    while i < to
        invariant
            from <= i <= to <= v.len(),
            name@ == fold(v@.subrange(from as int, i as int)),
        decreases to - i,
    {
        name.push(fold_char(v[i]));
        i += 1;
        assert(name@ =~= fold(v@.subrange(from as int, i as int)));
    }
    Unit::from_name(&name)
}

} // verus!
