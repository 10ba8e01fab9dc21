//! A count of bytes that is read from and written as text with a unit.

use vstd::prelude::*;
use vstd::string::StringExecFns;
use crate::decimal::{lemma_exceeds, scale, LIMIT};
use crate::display::{magnitude, push_decimal, push_fraction, round_div, shown};
use crate::grammar::{lemma_whole_number, number_parts, parsed, unit_after};
use crate::text::{all_digits, chars_of, CharClass};
use crate::unit::Unit;

verus! {

/// A count of bytes. Text never yields a negative count; one built directly
/// may hold any value.
#[derive(Copy, Clone, Debug, Eq, PartialEq, Ord, PartialOrd, Structural)]
pub struct ByteSize(pub i64);

/// Why a text is not a byte count.
#[derive(Copy, Clone, Debug, Eq, PartialEq, Structural)]
pub enum ParseError {
    /// The text is empty, does not start with a number, or its number is not
    /// a decimal number.
    InvalidFormat,
    /// The text starts with a minus sign.
    NegativeNotAllowed,
    /// What follows the number is not the name of a unit.
    UnrecognizedUnit,
    /// The number with its unit is greater than the largest count.
    ValueTooLarge,
}

impl ByteSize {
    /// Reads a byte count: a decimal number, then the name of a unit or
    /// nothing. White space around the name and the case of its letters do
    /// not count. A fraction of a byte is dropped. A number without a unit
    /// that is beyond the largest count stands for the largest count.
    pub fn from_str(s: &str) -> (r: Result<ByteSize, ParseError>)
        ensures
            parsed(s@) == match r {
                Ok(size) => Ok::<int, ParseError>(size.0 as int),
                Err(e) => Err(e),
            },
            r matches Ok(size) ==> size.0 >= 0,
    {
        let v = chars_of(s);
        let len = v.len();
        if len == 0 {
            return Err(ParseError::InvalidFormat);
        }
        let first = v[0];
        if first == '-' {
            return Err(ParseError::NegativeNotAllowed);
        }
        if !CharClass::Numeric.test(first) {
            return Err(ParseError::InvalidFormat);
        }
        let (end, dot, frac_from, decimal) = number_parts(&v);
        proof {
            if all_digits(v@) {
                lemma_whole_number(v@, end as int, dot as int, frac_from as int);
            }
        }
        if !decimal {
            return Err(ParseError::InvalidFormat);
        }
        if end == len {
            let count = scale(&v, 0, dot, frac_from, end, Unit::Byte).floor;
            if count < LIMIT {
                Ok(ByteSize(count as i64))
            } else {
                Ok(ByteSize(i64::MAX))
            }
        } else {
            match unit_after(&v, end) {
                None => Err(ParseError::UnrecognizedUnit),
                Some(unit) => {
                    let product = scale(&v, 0, dot, frac_from, end, unit);
                    proof {
                        lemma_exceeds(
                            v@.subrange(0, dot as int),
                            v@.subrange(frac_from as int, end as int),
                            unit.multiplier(),
                            i64::MAX as nat,
                        );
                    }
                    if product.floor >= LIMIT || (product.floor == LIMIT - 1 && !product.exact) {
                        Err(ParseError::ValueTooLarge)
                    } else {
                        Ok(ByteSize(product.floor as i64))
                    }
                },
            }
        }
    }

    /// The size that holds the 64 bits of the count `n`: the count itself
    /// below 2^63, and `n - 2^64` from there on.
    pub open spec fn counted(n: u64) -> ByteSize {
        if n < LIMIT {
            ByteSize(n as i64)
        } else {
            ByteSize((n - 0x1_0000_0000_0000_0000) as i64)
        }
    }

    /// The size that holds the 64 bits of the count `n`.
    pub fn of_count(n: u64) -> (size: ByteSize)
        ensures
            size == ByteSize::counted(n),
    {
        if n < LIMIT {
            ByteSize(n as i64)
        } else {
            ByteSize((n - LIMIT) as i64 + i64::MIN)
        }
    }

    /// The most bytes that a run may read under this size: no limit for a
    /// size of zero, the size itself where it is positive, and the number
    /// that its 64 bits hold without a sign where it is negative.
    pub open spec fn limit_spec(self) -> nat {
        if self.0 == 0 {
            u64::MAX as nat
        } else if self.0 > 0 {
            self.0 as nat
        } else {
            (self.0 + 0x1_0000_0000_0000_0000) as nat
        }
    }

    /// The most bytes that a run may read under this size.
    pub fn limit(self) -> (l: u64)
        ensures
            l == self.limit_spec(),
            self.0 == 0 ==> l == u64::MAX,
    {
        if self.0 == 0 {
            u64::MAX
        } else if self.0 > 0 {
            self.0 as u64
        } else {
            u64::MAX - ((-(self.0 + 1)) as u64)
        }
    }

    /// The size without its sign.
    pub fn magnitude(self) -> (m: u64)
        ensures
            m == magnitude(self.0 as int),
    {
        if self.0 >= 0 {
            self.0 as u64
        } else if self.0 == i64::MIN {
            LIMIT
        } else {
            (-self.0) as u64
        }
    }

    /// Shows the count in the largest of GiB, MiB and KiB that is not above
    /// its magnitude, with at most two decimal places, or in bytes where the
    /// magnitude is below 1024. A count in bytes is shown without its sign.
    pub fn to_string(&self) -> (text: String)
        ensures
            text@ == shown(self.0 as int),
    {
        let size = self.magnitude();
        let mut out = String::new();
        proof {
            reveal_strlit("B");
            reveal_strlit("-");
            reveal_strlit("");
            reveal_strlit("GiB");
            reveal_strlit("MiB");
            reveal_strlit("KiB");
        }
        if size < 1024 {
            push_decimal(&mut out, size);
            out.append("B");
            assert(out@ =~= shown(self.0 as int));
            return out;
        }
        let unit = if size >= Unit::Gibi.factor() {
            Unit::Gibi
        } else if size >= Unit::Mebi.factor() {
            Unit::Mebi
        } else {
            Unit::Kibi
        };
        let h = round_div(size as u128 * 100, unit.factor() as u128) as u64;
        if self.0 < 0 {
            out.append("-");
        }
        push_decimal(&mut out, h / 100);
        push_fraction(&mut out, h % 100);
        out.append(
            match unit {
                Unit::Gibi => "GiB",
                Unit::Mebi => "MiB",
                _ => "KiB",
            },
        );
        assert(out@ =~= shown(self.0 as int));
        out
    }
}

} // verus!
