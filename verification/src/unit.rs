//! The units in which a byte count may be written.

use vstd::prelude::*;

verus! {

/// A unit of a byte count: a power of 1000 or of 1024.
#[derive(Clone, Copy, Debug, PartialEq, Eq)]
pub enum Unit {
    /// One byte.
    Byte,
    /// 10^3 bytes.
    Kilo,
    /// 2^10 bytes.
    Kibi,
    /// 10^6 bytes.
    Mega,
    /// 2^20 bytes.
    Mebi,
    /// 10^9 bytes.
    Giga,
    /// 2^30 bytes.
    Gibi,
    /// 10^12 bytes.
    Tera,
    /// 2^40 bytes.
    Tebi,
}

/// Ten to the power `k`.
pub open spec fn pow10(k: nat) -> nat
    decreases k,
{
    if k == 0 {
        1
    } else {
        10 * pow10((k - 1) as nat)
    }
}

impl Unit {
    /// The number of bytes in one unit.
    pub open spec fn multiplier(self) -> nat {
        match self {
            Unit::Byte => 1,
            Unit::Kilo => 1_000,
            Unit::Kibi => 1_024,
            Unit::Mega => 1_000_000,
            Unit::Mebi => 1_048_576,
            Unit::Giga => 1_000_000_000,
            Unit::Gibi => 1_073_741_824,
            Unit::Tera => 1_000_000_000_000,
            Unit::Tebi => 1_099_511_627_776,
        }
    }

    /// The unit that a name stands for. Names are in small letters; the empty
    /// name stands for bytes.
    pub open spec fn named(name: Seq<char>) -> Option<Unit> {
        if name == ""@ || name == "b"@ {
            Some(Unit::Byte)
        } else if name == "k"@ || name == "kb"@ {
            Some(Unit::Kilo)
        } else if name == "ki"@ || name == "kib"@ {
            Some(Unit::Kibi)
        } else if name == "m"@ || name == "mb"@ {
            Some(Unit::Mega)
        } else if name == "mi"@ || name == "mib"@ {
            Some(Unit::Mebi)
        } else if name == "g"@ || name == "gb"@ {
            Some(Unit::Giga)
        } else if name == "gi"@ || name == "gib"@ {
            Some(Unit::Gibi)
        } else if name == "t"@ || name == "tb"@ {
            Some(Unit::Tera)
        } else if name == "ti"@ || name == "tib"@ {
            Some(Unit::Tebi)
        } else {
            None
        }
    }

    /// The number of decimal places by which a value is shifted before it is
    /// divided by `divisor`, so that both together multiply by `multiplier`.
    pub open spec fn shift(self) -> nat {
        match self {
            Unit::Byte => 0,
            Unit::Kilo => 3,
            Unit::Kibi => 10,
            Unit::Mega => 6,
            Unit::Mebi => 20,
            Unit::Giga => 9,
            Unit::Gibi => 30,
            Unit::Tera => 12,
            Unit::Tebi => 40,
        }
    }

    /// Ten to the power `shift`, divided by `multiplier`: 1 for a power of
    /// 1000, a power of 5 for a power of 1024.
    pub open spec fn divisor(self) -> nat {
        match self {
            Unit::Kibi => 9_765_625,
            Unit::Mebi => 95_367_431_640_625,
            Unit::Gibi => 931_322_574_615_478_515_625,
            Unit::Tebi => 9_094_947_017_729_282_379_150_390_625,
            _ => 1,
        }
    }

    /// The number of bytes in one unit.
    pub fn factor(self) -> (m: u64)
        ensures
            m == self.multiplier(),
    {
        match self {
            Unit::Byte => 1,
            Unit::Kilo => 1_000,
            Unit::Kibi => 1_024,
            Unit::Mega => 1_000_000,
            Unit::Mebi => 1_048_576,
            Unit::Giga => 1_000_000_000,
            Unit::Gibi => 1_073_741_824,
            Unit::Tera => 1_000_000_000_000,
            Unit::Tebi => 1_099_511_627_776,
        }
    }

    /// The decimal places of `shift`.
    pub fn places(self) -> (j: usize)
        ensures
            j == self.shift(),
    {
        match self {
            Unit::Byte => 0,
            Unit::Kilo => 3,
            Unit::Kibi => 10,
            Unit::Mega => 6,
            Unit::Mebi => 20,
            Unit::Giga => 9,
            Unit::Gibi => 30,
            Unit::Tera => 12,
            Unit::Tebi => 40,
        }
    }

    /// The divisor that goes with `places`.
    pub fn reducer(self) -> (c: u128)
        ensures
            c == self.divisor(),
    {
        match self {
            Unit::Kibi => 9_765_625,
            Unit::Mebi => 95_367_431_640_625,
            Unit::Gibi => 931_322_574_615_478_515_625,
            Unit::Tebi => 9_094_947_017_729_282_379_150_390_625,
            _ => 1,
        }
    }

    /// The power of 1000 whose name begins with `letter`.
    fn decimal(letter: char) -> (r: Option<Unit>)
        ensures
            r == match letter {
                'k' => Some(Unit::Kilo),
                'm' => Some(Unit::Mega),
                'g' => Some(Unit::Giga),
                't' => Some(Unit::Tera),
                _ => None,
            },
    {
        if letter == 'k' {
            Some(Unit::Kilo)
        } else if letter == 'm' {
            Some(Unit::Mega)
        } else if letter == 'g' {
            Some(Unit::Giga)
        } else if letter == 't' {
            Some(Unit::Tera)
        } else {
            None
        }
    }

    /// The power of 1024 whose name begins with `letter`.
    fn binary(letter: char) -> (r: Option<Unit>)
        ensures
            r == match letter {
                'k' => Some(Unit::Kibi),
                'm' => Some(Unit::Mebi),
                'g' => Some(Unit::Gibi),
                't' => Some(Unit::Tebi),
                _ => None,
            },
    {
        if letter == 'k' {
            Some(Unit::Kibi)
        } else if letter == 'm' {
            Some(Unit::Mebi)
        } else if letter == 'g' {
            Some(Unit::Gibi)
        } else if letter == 't' {
            Some(Unit::Tebi)
        } else {
            None
        }
    }

    /// The unit that `name` stands for, if it is the name of one.
    pub fn from_name(name: &Vec<char>) -> (r: Option<Unit>)
        ensures
            r == Unit::named(name@),
    {
        proof {
            lemma_unit_names();
        }
        let n = name.len();
        if n == 0 {
            assert(name@ =~= ""@);
            Some(Unit::Byte)
        } else if n == 1 {
            let c0 = name[0];
            assert(name@ =~= seq![c0]);
            if c0 == 'b' {
                Some(Unit::Byte)
            } else {
                Unit::decimal(c0)
            }
        } else if n == 2 {
            let c0 = name[0];
            let c1 = name[1];
            assert(name@ =~= seq![c0, c1]);
            if c1 == 'b' {
                Unit::decimal(c0)
            } else if c1 == 'i' {
                Unit::binary(c0)
            } else {
                None
            }
        } else if n == 3 {
            let c0 = name[0];
            let c1 = name[1];
            let c2 = name[2];
            assert(name@ =~= seq![c0, c1, c2]);
            if c1 == 'i' && c2 == 'b' {
                Unit::binary(c0)
            } else {
                None
            }
        } else {
            None
        }
    }
}

/// The names of the units, letter by letter.
pub proof fn lemma_unit_names()
    ensures
        ""@ == Seq::<char>::empty(),
        "b"@ == seq!['b'],
        "k"@ == seq!['k'],
        "kb"@ == seq!['k', 'b'],
        "ki"@ == seq!['k', 'i'],
        "kib"@ == seq!['k', 'i', 'b'],
        "m"@ == seq!['m'],
        "mb"@ == seq!['m', 'b'],
        "mi"@ == seq!['m', 'i'],
        "mib"@ == seq!['m', 'i', 'b'],
        "g"@ == seq!['g'],
        "gb"@ == seq!['g', 'b'],
        "gi"@ == seq!['g', 'i'],
        "gib"@ == seq!['g', 'i', 'b'],
        "t"@ == seq!['t'],
        "tb"@ == seq!['t', 'b'],
        "ti"@ == seq!['t', 'i'],
        "tib"@ == seq!['t', 'i', 'b'],
{
    reveal_strlit("");
    reveal_strlit("b");
    reveal_strlit("k");
    reveal_strlit("kb");
    reveal_strlit("ki");
    reveal_strlit("kib");
    reveal_strlit("m");
    reveal_strlit("mb");
    reveal_strlit("mi");
    reveal_strlit("mib");
    reveal_strlit("g");
    reveal_strlit("gb");
    reveal_strlit("gi");
    reveal_strlit("gib");
    reveal_strlit("t");
    reveal_strlit("tb");
    reveal_strlit("ti");
    reveal_strlit("tib");
    assert(""@ =~= Seq::<char>::empty());
    assert("b"@ =~= seq!['b']);
    assert("k"@ =~= seq!['k']);
    assert("kb"@ =~= seq!['k', 'b']);
    assert("ki"@ =~= seq!['k', 'i']);
    assert("kib"@ =~= seq!['k', 'i', 'b']);
    assert("m"@ =~= seq!['m']);
    assert("mb"@ =~= seq!['m', 'b']);
    assert("mi"@ =~= seq!['m', 'i']);
    assert("mib"@ =~= seq!['m', 'i', 'b']);
    assert("g"@ =~= seq!['g']);
    assert("gb"@ =~= seq!['g', 'b']);
    assert("gi"@ =~= seq!['g', 'i']);
    assert("gib"@ =~= seq!['g', 'i', 'b']);
    assert("t"@ =~= seq!['t']);
    assert("tb"@ =~= seq!['t', 'b']);
    assert("ti"@ =~= seq!['t', 'i']);
    assert("tib"@ =~= seq!['t', 'i', 'b']);
}

/// Powers of ten multiply as their exponents add.
pub proof fn lemma_pow10_adds(a: nat, b: nat)
    ensures
        pow10(a + b) == pow10(a) * pow10(b),
        pow10(a) > 0,
    decreases a,
{
    if a == 0 {
        assert(pow10(a) == 1);
        assert(a + b == b);
        assert(1 * pow10(b) == pow10(b));
    } else {
        lemma_pow10_adds((a - 1) as nat, b);
        let x = pow10((a - 1) as nat);
        let y = pow10(b);
        assert((a + b - 1) as nat == (a - 1) as nat + b);
        assert(pow10(a + b) == 10 * (x * y));
        assert(10 * (x * y) == (10 * x) * y) by (nonlinear_arith);
    }
}

/// Shifting by a unit's decimal places and dividing by its divisor
/// multiplies by its multiplier.
pub proof fn lemma_unit_split(unit: Unit)
    ensures
        unit.multiplier() * unit.divisor() == pow10(unit.shift()),
        0 < unit.divisor() <= 9_094_947_017_729_282_379_150_390_625,
        0 < unit.multiplier(),
{
    assert(pow10(0) == 1);
    assert(pow10(3) == 1_000) by {
        reveal_with_fuel(pow10, 4);
    }
    assert(pow10(10) == 10_000_000_000) by {
        reveal_with_fuel(pow10, 11);
    }
    lemma_pow10_adds(3, 3);
    assert(pow10(6) == 1_000_000);
    lemma_pow10_adds(6, 3);
    assert(pow10(9) == 1_000_000_000);
    lemma_pow10_adds(9, 3);
    assert(pow10(12) == 1_000_000_000_000);
    lemma_pow10_adds(10, 10);
    assert(pow10(20) == 100_000_000_000_000_000_000);
    lemma_pow10_adds(20, 10);
    assert(pow10(30) == 1_000_000_000_000_000_000_000_000_000_000);
    lemma_pow10_adds(30, 10);
    assert(pow10(40) == 10_000_000_000_000_000_000_000_000_000_000_000_000_000);
    let m = unit.multiplier();
    let c = unit.divisor();
    match unit {
        Unit::Byte => {
            assert(m * c == 1) by (nonlinear_arith)
                requires
                    m == 1,
                    c == 1,
            ;
        },
        Unit::Kilo | Unit::Mega | Unit::Giga | Unit::Tera => {
            assert(m * c == m) by (nonlinear_arith)
                requires
                    c == 1,
            ;
        },
        Unit::Kibi => {
            assert(m * c == 10_000_000_000) by (nonlinear_arith)
                requires
                    m == 1_024,
                    c == 9_765_625,
            ;
        },
        Unit::Mebi => {
            assert(m * c == 100_000_000_000_000_000_000) by (nonlinear_arith)
                requires
                    m == 1_048_576,
                    c == 95_367_431_640_625,
            ;
        },
        Unit::Gibi => {
            assert(m * c == 1_000_000_000_000_000_000_000_000_000_000) by (nonlinear_arith)
                requires
                    m == 1_073_741_824,
                    c == 931_322_574_615_478_515_625,
            ;
        },
        Unit::Tebi => {
            assert(m * c == 10_000_000_000_000_000_000_000_000_000_000_000_000_000)
                by (nonlinear_arith)
                requires
                    m == 1_099_511_627_776,
                    c == 9_094_947_017_729_282_379_150_390_625,
            ;
        },
    }
}

} // verus!
