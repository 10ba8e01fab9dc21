//! Character classes and scanning over sequences of characters.

use vstd::prelude::*;

verus! {

/// The classes of characters that the scanners tell apart.
#[derive(Clone, Copy, Debug, PartialEq, Eq)]
pub enum CharClass {
    /// An ASCII decimal digit.
    Digit,
    /// The decimal point.
    Dot,
    /// A digit or the decimal point.
    Numeric,
    /// A Unicode white-space character.
    Space,
}

/// `c` is one of the ten ASCII decimal digits.
pub open spec fn is_digit(c: char) -> bool {
    '0' <= c && c <= '9'
}

/// `c` has the Unicode property White_Space.
pub open spec fn is_space(c: char) -> bool {
    ||| ('\u{9}' <= c && c <= '\u{d}')
    ||| c == ' '
    ||| c == '\u{85}'
    ||| c == '\u{a0}'
    ||| c == '\u{1680}'
    ||| ('\u{2000}' <= c && c <= '\u{200a}')
    ||| c == '\u{2028}'
    ||| c == '\u{2029}'
    ||| c == '\u{202f}'
    ||| c == '\u{205f}'
    ||| c == '\u{3000}'
}

/// The letter that `c` counts as when unit names are compared: an ASCII
/// capital counts as its small letter, and the Kelvin sign as `k`, which is
/// its lower case. Every other character counts as itself.
pub open spec fn fold_case(c: char) -> char {
    if 'A' <= c && c <= 'Z' {
        ((c as u8) + 32) as char
    } else if c == '\u{212a}' {
        'k'
    } else {
        c
    }
}

impl CharClass {
    /// Whether `c` belongs to the class.
    pub open spec fn holds(self, c: char) -> bool {
        match self {
            CharClass::Digit => is_digit(c),
            CharClass::Dot => c == '.',
            CharClass::Numeric => is_digit(c) || c == '.',
            CharClass::Space => is_space(c),
        }
    }

    /// Whether `c` belongs to the class.
    pub fn test(self, c: char) -> (b: bool)
        ensures
            b == self.holds(c),
    {
        match self {
            CharClass::Digit => '0' <= c && c <= '9',
            CharClass::Dot => c == '.',
            CharClass::Numeric => ('0' <= c && c <= '9') || c == '.',
            CharClass::Space => {
                ('\u{9}' <= c && c <= '\u{d}') || c == ' ' || c == '\u{85}' || c == '\u{a0}'
                    || c == '\u{1680}' || ('\u{2000}' <= c && c <= '\u{200a}') || c == '\u{2028}'
                    || c == '\u{2029}' || c == '\u{202f}' || c == '\u{205f}' || c == '\u{3000}'
            },
        }
    }
}

/// Every character of `s` is a decimal digit.
pub open spec fn all_digits(s: Seq<char>) -> bool {
    forall|i: int| 0 <= i < s.len() ==> is_digit(#[trigger] s[i])
}

/// The length of the longest prefix of `s` in which every character `c` has
/// `class.holds(c) == want`.
pub open spec fn run_len(s: Seq<char>, class: CharClass, want: bool) -> nat
    decreases s.len(),
{
    if s.len() == 0 || class.holds(s[0]) != want {
        0
    } else {
        1 + run_len(s.skip(1), class, want)
    }
}

/// `s` without the white space at its two ends.
pub open spec fn trim(s: Seq<char>) -> Seq<char> {
    let t = s.skip(run_len(s, CharClass::Space, true) as int);
    t.take(t.len() - run_len(t.reverse(), CharClass::Space, true))
}

/// `s` with every character replaced by the letter it counts as.
pub open spec fn fold(s: Seq<char>) -> Seq<char> {
    s.map_values(|c: char| fold_case(c))
}

/// A run ends inside the sequence, holds only characters of the wanted kind,
/// and is followed by a character of the other kind unless it reaches the end.
pub proof fn lemma_run_len(s: Seq<char>, class: CharClass, want: bool)
    ensures
        run_len(s, class, want) <= s.len(),
        forall|i: int| 0 <= i < run_len(s, class, want) ==> class.holds(#[trigger] s[i]) == want,
        run_len(s, class, want) < s.len() ==> class.holds(s[run_len(s, class, want) as int])
            != want,
    decreases s.len(),
{
    if s.len() == 0 || class.holds(s[0]) != want {
    } else {
        let t = s.skip(1);
        lemma_run_len(t, class, want);
        assert forall|i: int| 0 <= i < run_len(s, class, want) implies class.holds(
            #[trigger] s[i],
        ) == want by {
            if i > 0 {
                assert(s[i] == t[i - 1]);
            }
        }
        if run_len(s, class, want) < s.len() {
            assert(s[run_len(s, class, want) as int] == t[run_len(t, class, want) as int]);
        }
    }
}

/// The three properties of `lemma_run_len` hold of one length only.
pub proof fn lemma_run_len_is(s: Seq<char>, class: CharClass, want: bool, k: int)
    requires
        0 <= k <= s.len(),
        forall|i: int| 0 <= i < k ==> class.holds(#[trigger] s[i]) == want,
        k < s.len() ==> class.holds(s[k]) != want,
    ensures
        run_len(s, class, want) == k,
    decreases s.len(),
{
    if s.len() == 0 || class.holds(s[0]) != want {
        if k > 0 {
            assert(class.holds(s[0]) == want);
        }
    } else {
        let t = s.skip(1);
        assert(k > 0);
        assert forall|i: int| 0 <= i < k - 1 implies class.holds(#[trigger] t[i]) == want by {
            assert(t[i] == s[i + 1]);
        }
        lemma_run_len_is(t, class, want, k - 1);
    }
}

/// The end of the run that starts at `from` and does not pass `to`.
pub fn scan(v: &Vec<char>, from: usize, to: usize, class: CharClass, want: bool) -> (end: usize)
    requires
        from <= to <= v.len(),
    ensures
        from <= end <= to,
        end - from == run_len(v@.subrange(from as int, to as int), class, want),
{
    let mut end: usize = from;
    while end < to && class.test(v[end]) == want
        invariant
            from <= end <= to <= v.len(),
            forall|i: int| from <= i < end ==> class.holds(#[trigger] v@[i]) == want,
        decreases to - end,
    {
        end += 1;
    }
    proof {
        let s = v@.subrange(from as int, to as int);
        assert forall|i: int| 0 <= i < end - from implies class.holds(#[trigger] s[i])
            == want by {
            assert(s[i] == v@[from + i]);
        }
        lemma_run_len_is(s, class, want, end - from);
    }
    end
}

/// The start of the run that ends at `to`, read backwards, and does not pass
/// `from`.
pub fn scan_back(v: &Vec<char>, from: usize, to: usize, class: CharClass, want: bool) -> (start:
    usize)
    requires
        from <= to <= v.len(),
    ensures
        from <= start <= to,
        to - start == run_len(v@.subrange(from as int, to as int).reverse(), class, want),
{
    let mut start: usize = to;
    while start > from && class.test(v[start - 1]) == want
        invariant
            from <= start <= to <= v.len(),
            forall|i: int| start <= i < to ==> class.holds(#[trigger] v@[i]) == want,
        decreases start - from,
    {
        start -= 1;
    }
    proof {
        let s = v@.subrange(from as int, to as int).reverse();
        assert forall|i: int| 0 <= i < to - start implies class.holds(#[trigger] s[i])
            == want by {
            assert(s[i] == v@[to - 1 - i]);
        }
        if to - start < s.len() {
            assert(s[to - start] == v@[start - 1]);
        }
        lemma_run_len_is(s, class, want, to - start);
    }
    start
}

/// The letter that `c` counts as when unit names are compared.
pub fn fold_char(c: char) -> (r: char)
    ensures
        r == fold_case(c),
{
    if 'A' <= c && c <= 'Z' {
        ((c as u8) + 32) as char
    } else if c == '\u{212a}' {
        'k'
    } else {
        c
    }
}

/// The characters of `s`, in order.
pub fn chars_of(s: &str) -> (v: Vec<char>)
    ensures
        v@ == s@,
{
    let mut v: Vec<char> = Vec::new();
    for c in it: s.chars()
        invariant
            it.seq() == s@,
            v@ == s@.take(it.index()),
    {
        assert(s@.take(it.index() + 1) =~= s@.take(it.index()).push(c));
        v.push(c);
    }
    assert(s@.take(s@.len() as int) =~= s@);
    v
}

} // verus!
