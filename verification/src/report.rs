//! The line that reports one run.

use vstd::prelude::*;
use vstd::string::StringExecFns;
use crate::byte_size::ByteSize;
use crate::display::shown;
use crate::runner::BenchmarkStats;

verus! {

/// The text in which `dur` shows a duration of `nanos` nanoseconds.
pub uninterp spec fn elapsed_text(nanos: u128) -> Seq<char>;

/// `dur::Duration::from_nanos`, and the `Display` of the duration it gives,
/// through `to_string`. That the text depends on the number of nanoseconds
/// alone, and that the formatting does not fail, is believed, not proved.
/// What the text is for a given number is not stated.
#[verifier::external_body]
fn format_elapsed(nanos: u128) -> (text: String)
    ensures
        text@ == elapsed_text(nanos),
{
    dur::Duration::from_nanos(nanos).to_string()
}

/// The line that announces the run of `command`.
pub open spec fn progress_text(command: Seq<char>) -> Seq<char> {
    "measuring "@ + command
}

/// The line that announces the run of `command`, or nothing where the
/// announcements are turned off.
pub fn progress(command: &str, quiet: bool) -> (line: Option<String>)
    ensures
        line is None <==> quiet,
        line matches Some(text) ==> text@ == progress_text(command@),
{
    if quiet {
        None
    } else {
        let mut text = String::from_str("measuring ");
        text.append(command);
        Some(text)
    }
}

/// The report of a run: the command, then on a line of its own the
/// percentage, the size of the output and the time.
pub open spec fn entry_text(
    command: Seq<char>,
    percent: Seq<char>,
    size: Seq<char>,
    elapsed: Seq<char>,
) -> Seq<char> {
    command + "\n"@ + percent + "% = "@ + size + "; "@ + elapsed + "\n"@
}

/// Puts the report of a run together from its parts.
pub fn entry_of(command: &str, percent: &str, size: &str, elapsed: &str) -> (line: String)
    ensures
        line@ == entry_text(command@, percent@, size@, elapsed@),
{
    let mut line = String::from_str(command);
    line.append("\n");
    line.append(percent);
    line.append("% = ");
    line.append(size);
    line.append("; ");
    line.append(elapsed);
    line.append("\n");
    line
}

/// The report of the run of `command` that gave `stats`, with the ratio
/// written as `percent`.
pub fn entry(command: &str, percent: &str, stats: &BenchmarkStats) -> (line: String)
    ensures
        line@ == entry_text(
            command@,
            percent@,
            shown(ByteSize::counted(stats.after).0 as int),
            elapsed_text(stats.time),
        ),
{
    let size = ByteSize::of_count(stats.after).to_string();
    let elapsed = format_elapsed(stats.time);
    entry_of(command, percent, size.as_str(), elapsed.as_str())
}

/// Run `a` is reported before run `b`: its output is larger, or as large
/// and it ran first.
pub open spec fn precedes(sizes: Seq<u64>, a: int, b: int) -> bool {
    sizes[a] > sizes[b] || (sizes[a] == sizes[b] && a < b)
}

/// `order` lists the runs with the output sizes `sizes` in the order in
/// which they are reported: each run once, the largest output first.
pub open spec fn is_report_order(sizes: Seq<u64>, order: Seq<usize>) -> bool {
    &&& order.len() == sizes.len()
    &&& forall|i: int| 0 <= i < order.len() ==> #[trigger] order[i] < sizes.len()
    &&& forall|i: int, j: int|
        0 <= i < j < order.len() ==> precedes(
            sizes,
            #[trigger] order[i] as int,
            #[trigger] order[j] as int,
        )
}

/// The order in which runs are reported, by the numbers they have in
/// `sizes`, the sizes of their outputs.
pub fn report_order(sizes: &Vec<u64>) -> (order: Vec<usize>)
    ensures
        is_report_order(sizes@, order@),
{
    let mut order: Vec<usize> = Vec::new();
    let mut next: usize = 0;
    while next < sizes.len()
        invariant
            next <= sizes.len(),
            order.len() == next,
            forall|i: int| 0 <= i < order.len() ==> #[trigger] order[i] < next,
            forall|i: int, j: int|
                0 <= i < j < order.len() ==> precedes(
                    sizes@,
                    #[trigger] order[i] as int,
                    #[trigger] order[j] as int,
                ),
        decreases sizes.len() - next,
    {
        let mut at: usize = 0;
        while at < order.len() && sizes[order[at]] >= sizes[next]
            invariant
                at <= order.len() == next < sizes.len(),
                forall|i: int| 0 <= i < order.len() ==> #[trigger] order[i] < next,
                forall|i: int|
                    0 <= i < at ==> sizes[#[trigger] order[i] as int] >= sizes[next as int],
            decreases order.len() - at,
        {
            at += 1;
        }
        let ghost before = order@;
        order.insert(at, next);
        proof {
            assert forall|i: int, j: int| 0 <= i < j < order.len() implies precedes(
                sizes@,
                #[trigger] order[i] as int,
                #[trigger] order[j] as int,
            ) by {
                if j < at {
                    assert(order[i] == before[i] && order[j] == before[j]);
                } else if j == at {
                    assert(order[i] == before[i]);
                } else if i < at {
                    assert(order[i] == before[i] && order[j] == before[j - 1]);
                } else if i == at {
                    assert(order[j] == before[j - 1]);
                    if j - 1 > at {
                        assert(precedes(sizes@, before[at as int] as int, before[j - 1] as int));
                    }
                } else {
                    assert(order[i] == before[i - 1] && order[j] == before[j - 1]);
                }
            }
            assert forall|i: int| 0 <= i < order.len() implies #[trigger] order[i] < next + 1 by {
                if i < at {
                    assert(order[i] == before[i]);
                } else if i > at {
                    assert(order[i] == before[i - 1]);
                }
            }
        }
        next += 1;
    }
    order
}

} // verus!
