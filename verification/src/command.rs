//! A command line split into the program and its arguments.

use vstd::prelude::*;
use vstd::string::StrSliceExecFns;
use crate::text::{chars_of, is_space, lemma_run_len, run_len, scan, CharClass};

verus! {

/// A program and the arguments it is started with.
#[derive(Clone, Debug, PartialEq, Eq)]
pub struct CommandSpec {
    /// The name of the program.
    pub program: String,
    /// Its arguments, in order.
    pub args: Vec<String>,
}

/// The words of `s`: its longest runs of characters that are not white
/// space, in order. Nothing is quoted or escaped.
pub open spec fn tokens(s: Seq<char>) -> Seq<Seq<char>>
    decreases s.len(),
    via tokens_decreases
{
    if s.len() == 0 {
        Seq::empty()
    } else if is_space(s[0]) {
        tokens(s.skip(1))
    } else {
        let n = run_len(s, CharClass::Space, false);
        seq![s.take(n as int)] + tokens(s.skip(n as int))
    }
}

#[via_fn]
proof fn tokens_decreases(s: Seq<char>) {
    if s.len() > 0 && !is_space(s[0]) {
        lemma_run_len(s, CharClass::Space, false);
    }
}

/// White space before the first word does not count.
pub proof fn lemma_tokens_skip_space(s: Seq<char>)
    ensures
        tokens(s) == tokens(s.skip(run_len(s, CharClass::Space, true) as int)),
    decreases s.len(),
{
    if s.len() == 0 || !is_space(s[0]) {
        assert(s.skip(0) =~= s);
    } else {
        let t = s.skip(1);
        lemma_tokens_skip_space(t);
        lemma_run_len(t, CharClass::Space, true);
        assert(t.skip(run_len(t, CharClass::Space, true) as int) =~= s.skip(
            run_len(s, CharClass::Space, true) as int,
        ));
    }
}

impl CommandSpec {
    /// The words of the command, as the texts they are.
    pub open spec fn words(self) -> Seq<Seq<char>> {
        seq![self.program@] + self.args@.map_values(|a: String| a@)
    }

    /// Splits a command line at white space: the first word is the program,
    /// the others are its arguments. A line without a word names no program.
    pub fn parse(line: &str) -> (r: Option<CommandSpec>)
        ensures
            match r {
                Some(command) => command.words() == tokens(line@),
                None => tokens(line@).len() == 0,
            },
    {
        let v = chars_of(line);
        let len = v.len();
        let mut words: Vec<String> = Vec::new();
        let mut at = scan(&v, 0, len, CharClass::Space, true);
        proof {
            assert(v@.subrange(0, len as int) =~= v@);
            lemma_tokens_skip_space(v@);
            lemma_run_len(v@, CharClass::Space, true);
            assert(words@.map_values(|a: String| a@) + tokens(v@.skip(at as int)) =~= tokens(
                v@.skip(at as int),
            ));
        }
        while at < len
            invariant
                at <= len == v.len(),
                v@ == line@,
                at < len ==> !is_space(v@[at as int]),
                words@.map_values(|a: String| a@) + tokens(v@.skip(at as int)) == tokens(v@),
            decreases len - at,
        {
            let ghost tail = v@.skip(at as int);
            let to = scan(&v, at, len, CharClass::Space, false);
            let word = line.substring_char(at, to).to_owned();
            let next = scan(&v, to, len, CharClass::Space, true);
            proof {
                let rest = v@.skip(to as int);
                assert(v@.subrange(at as int, len as int) =~= tail);
                assert(v@.subrange(to as int, len as int) =~= rest);
                lemma_run_len(tail, CharClass::Space, false);
                assert(to > at);
                assert(tail.take(to - at) =~= word@);
                assert(tail.skip(to - at) =~= rest);
                lemma_tokens_skip_space(rest);
                lemma_run_len(rest, CharClass::Space, true);
                assert(rest.skip(next - to) =~= v@.skip(next as int));
                if next < len {
                    assert(v@[next as int] == rest[next - to]);
                }
                let before = words@.map_values(|a: String| a@);
                assert(words@.push(word).map_values(|a: String| a@) =~= before.push(word@));
                assert(before.push(word@) + tokens(v@.skip(next as int)) =~= before + tokens(
                    tail,
                ));
            }
            words.push(word);
            at = next;
        }
        assert(tokens(v@.skip(at as int)) =~= Seq::<Seq<char>>::empty());
        if words.len() == 0 {
            assert(words@.map_values(|a: String| a@) =~= Seq::<Seq<char>>::empty());
            return None;
        }
        let ghost all = words@;
        let program = words.remove(0);
        assert(seq![program@] + words@.map_values(|a: String| a@) =~= all.map_values(
            |a: String| a@,
        ));
        Some(CommandSpec { program, args: words })
    }
}

} // verus!
