//! The bookkeeping of one benchmark run: how many bytes go into the
//! compressor, how many come out of it, and what the run amounts to once the
//! compressor has ended.

use vstd::prelude::*;

verus! {

/// The exit code reported for a process that ended without one.
pub const UNKNOWN_EXIT_CODE: i32 = -1;

/// The number of bytes asked of the compressor's output at a time.
pub const DRAIN_BUFFER: usize = 4096;

/// How the compressor ended.
#[derive(Clone, Copy, Debug, PartialEq, Eq)]
pub struct Exit {
    /// Whether it reported success.
    pub success: bool,
    /// Its exit code, where it has one: a process ended by a signal has none.
    pub code: Option<i32>,
}

/// Why a run gave no result. `E` is the error of the step that failed.
#[derive(Clone, Debug, PartialEq, Eq)]
pub enum RunError<E> {
    /// The source could not be set back to its start.
    SeekError(E),
    /// The compressor could not be started.
    SpawnError(E),
    /// Feeding the compressor failed.
    WriteError(E),
    /// Reading the compressor's output failed.
    ReadError(E),
    /// The compressor did not end with success.
    ProcessFailed {
        /// Its exit code, or `UNKNOWN_EXIT_CODE`.
        exit_code: i32,
    },
}

/// The share `part / whole`, read as a percentage: `part / whole * 100`.
/// With a `whole` of zero it stands for no number.
#[derive(Clone, Copy, Debug, PartialEq, Eq)]
pub struct Ratio {
    /// The number of bytes that came out.
    pub part: u64,
    /// The number of bytes that went in.
    pub whole: u64,
}

/// What one run amounts to.
#[derive(Clone, Copy, Debug, PartialEq, Eq)]
pub struct BenchmarkStats {
    /// The time the run took, in nanoseconds.
    pub time: u128,
    /// The number of bytes that the compressor put out.
    pub after: u64,
    /// The output's share of the input.
    pub ratio: Ratio,
}

/// The result of a run whose compressor ended as `exit` says, after `written`
/// bytes were fed to it and `drained` bytes were read from it in `time`
/// nanoseconds. A compressor that failed outweighs a failed feed, and that a
/// failed read.
pub open spec fn outcome<E>(
    exit: Exit,
    written: Result<u64, E>,
    drained: Result<u64, E>,
    time: u128,
) -> Result<BenchmarkStats, RunError<E>> {
    if !exit.success {
        Err(
            RunError::ProcessFailed {
                exit_code: match exit.code {
                    Some(code) => code,
                    None => UNKNOWN_EXIT_CODE,
                },
            },
        )
    } else {
        match (written, drained) {
            (Err(e), _) => Err(RunError::WriteError(e)),
            (Ok(_), Err(e)) => Err(RunError::ReadError(e)),
            (Ok(before), Ok(after)) => Ok(
                BenchmarkStats { time, after, ratio: Ratio { part: after, whole: before } },
            ),
        }
    }
}

/// Decides what a run amounts to, once the compressor has ended and both
/// transfers are over.
pub fn conclude<E>(exit: Exit, written: Result<u64, E>, drained: Result<u64, E>, time: u128) -> (r:
    Result<BenchmarkStats, RunError<E>>)
    ensures
        r == outcome(exit, written, drained, time),
        !exit.success ==> r matches Err(RunError::ProcessFailed { .. }),
        r is Ok <==> exit.success && written is Ok && drained is Ok,
{
    if !exit.success {
        let exit_code = match exit.code {
            Some(code) => code,
            None => UNKNOWN_EXIT_CODE,
        };
        return Err(RunError::ProcessFailed { exit_code });
    }
    let before = match written {
        Ok(n) => n,
        Err(e) => {
            return Err(RunError::WriteError(e));
        },
    };
    let after = match drained {
        Ok(n) => n,
        Err(e) => {
            return Err(RunError::ReadError(e));
        },
    };
    Ok(BenchmarkStats { time, after, ratio: Ratio { part: after, whole: before } })
}

/// The smaller of two numbers.
pub open spec fn least(a: nat, b: nat) -> nat {
    if a <= b {
        a
    } else {
        b
    }
}

/// The count of the bytes fed to the compressor, which never passes the limit
/// it was made with.
pub struct Feed {
    limit: u64,
    copied: u64,
}

impl Feed {
    #[verifier::type_invariant]
    spec fn within_limit(self) -> bool {
        self.copied <= self.limit
    }

    /// The most bytes that may be fed.
    pub closed spec fn limit(self) -> nat {
        self.limit as nat
    }

    /// The number of bytes fed so far.
    pub closed spec fn fed(self) -> nat {
        self.copied as nat
    }

    /// A feed of at most `limit` bytes, none of them fed yet.
    pub fn new(limit: u64) -> (feed: Feed)
        ensures
            feed.limit() == limit,
            feed.fed() == 0,
    {
        Feed { limit, copied: 0 }
    }

    /// The number of bytes to ask of the source next, with room for `room`
    /// bytes: zero once the limit is reached.
    pub fn request(&self, room: usize) -> (n: usize)
        ensures
            self.fed() <= self.limit(),
            n == least(room as nat, (self.limit() - self.fed()) as nat),
    {
        proof {
            use_type_invariant(self);
        }
        let left = self.limit - self.copied;
        if left < room as u64 {
            left as usize
        } else {
            room
        }
    }

    /// Counts `n` bytes that the source gave and the compressor took.
    pub fn record(&mut self, n: usize)
        requires
            old(self).fed() + n <= old(self).limit(),
        ensures
            final(self).limit() == old(self).limit(),
            final(self).fed() == old(self).fed() + n,
    {
        self.copied = self.copied + n as u64;
    }

    /// The number of bytes fed so far, which is not above the limit.
    pub fn copied(&self) -> (n: u64)
        ensures
            n == self.fed(),
            n <= self.limit(),
    {
        proof {
            use_type_invariant(self);
        }
        self.copied
    }
}

/// The sum of the numbers of `reads`.
pub open spec fn total(reads: Seq<nat>) -> nat
    decreases reads.len(),
{
    if reads.len() == 0 {
        0
    } else {
        reads[0] + total(reads.skip(1))
    }
}

/// `reads` may be the reads by which a feed takes bytes from a source: the
/// feed has a limit of `limit` and has fed `fed` bytes, the source has `left`
/// bytes left, and the buffer holds `room` bytes. Each read gives at least one
/// byte, and no more than was asked for or is left.
pub open spec fn feeds(limit: nat, fed: nat, left: nat, room: nat, reads: Seq<nat>) -> bool
    decreases reads.len(),
{
    reads.len() == 0 || {
        &&& 0 < reads[0] <= least(room, (limit - fed) as nat)
        &&& reads[0] <= left
        &&& feeds(limit, fed + reads[0], (left - reads[0]) as nat, room, reads.skip(1))
    }
}

/// No course of reads feeds more than the limit allows or the source holds.
pub proof fn lemma_feed_bounded(limit: nat, fed: nat, left: nat, room: nat, reads: Seq<nat>)
    requires
        fed <= limit,
        feeds(limit, fed, left, room, reads),
    ensures
        fed + total(reads) <= limit,
        total(reads) <= left,
    decreases reads.len(),
{
    if reads.len() > 0 {
        lemma_feed_bounded(limit, fed + reads[0], (left - reads[0]) as nat, room, reads.skip(1));
    }
}

/// A course of reads after which nothing more is asked for, or nothing is
/// left, has fed the limit or the whole source, whichever is less: with a
/// limit below the source's length exactly the limit, with any other limit
/// the whole source.
pub proof fn lemma_feed_complete(limit: nat, fed: nat, left: nat, room: nat, reads: Seq<nat>)
    requires
        fed <= limit,
        room > 0,
        feeds(limit, fed, left, room, reads),
        least(room, (limit - fed - total(reads)) as nat) == 0 || total(reads) == left,
    ensures
        fed + total(reads) == least(limit, fed + left),
{
    lemma_feed_bounded(limit, fed, left, room, reads);
}

/// The count of the bytes read from the compressor's output.
pub struct Drain {
    total: u64,
}

impl Drain {
    /// The number of bytes read so far.
    pub closed spec fn drained(self) -> nat {
        self.total as nat
    }

    /// A count of no bytes.
    pub fn new() -> (drain: Drain)
        ensures
            drain.drained() == 0,
    {
        Drain { total: 0 }
    }

    /// Counts a read that gave `n` bytes, and says whether to read on: a read
    /// that gives nothing is the end of the output.
    pub fn record(&mut self, n: usize) -> (more: bool)
        requires
            old(self).drained() + n <= u64::MAX,
        ensures
            final(self).drained() == old(self).drained() + n,
            more == (n != 0),
    {
        self.total = self.total + n as u64;
        n != 0
    }

    /// The number of bytes read so far.
    pub fn count(&self) -> (n: u64)
        ensures
            n == self.drained(),
    {
        self.total
    }
}

} // verus!
