use compress_bench::runner::{
    conclude,
    BenchmarkStats,
    Drain,
    Exit,
    Feed,
    Ratio,
    RunError,
    DRAIN_BUFFER,
    UNKNOWN_EXIT_CODE,
};

const OK: Exit = Exit { success: true, code: Some(0) };

#[test]
fn successful_run_gives_stats() {
    let r: Result<BenchmarkStats, RunError<String>> =
        conclude(OK, Ok(1000), Ok(250), 1_500_000_000);
    let ratio = Ratio { part: 250, whole: 1000 };
    assert_eq!(r, Ok(BenchmarkStats { time: 1_500_000_000, after: 250, ratio }));
}

#[test]
fn empty_input_is_no_error() {
    let r: Result<BenchmarkStats, RunError<String>> = conclude(OK, Ok(0), Ok(0), 7);
    assert_eq!(r, Ok(BenchmarkStats { time: 7, after: 0, ratio: Ratio { part: 0, whole: 0 } }));
    let r: Result<BenchmarkStats, RunError<String>> = conclude(OK, Ok(0), Ok(12), 7);
    assert_eq!(r, Ok(BenchmarkStats { time: 7, after: 12, ratio: Ratio { part: 12, whole: 0 } }));
}

#[test]
fn failed_process_gives_no_stats() {
    let exit = Exit { success: false, code: Some(3) };
    let r: Result<BenchmarkStats, RunError<String>> = conclude(exit, Ok(1000), Ok(250), 9);
    assert_eq!(r, Err(RunError::ProcessFailed { exit_code: 3 }));
}

#[test]
fn failed_process_without_code_reports_sentinel() {
    let exit = Exit { success: false, code: None };
    let r: Result<BenchmarkStats, RunError<String>> = conclude(exit, Ok(1000), Ok(250), 9);
    assert_eq!(r, Err(RunError::ProcessFailed { exit_code: -1 }));
    assert_eq!(UNKNOWN_EXIT_CODE, -1);
}

#[test]
fn failed_process_outweighs_transfer_errors() {
    let exit = Exit { success: false, code: Some(1) };
    let r: Result<BenchmarkStats, RunError<String>> =
        conclude(exit, Err("broken pipe".to_string()), Err("read".to_string()), 9);
    assert_eq!(r, Err(RunError::ProcessFailed { exit_code: 1 }));
}

#[test]
fn write_error_outweighs_read_error() {
    let r: Result<BenchmarkStats, RunError<String>> =
        conclude(OK, Err("broken pipe".to_string()), Err("read".to_string()), 9);
    assert_eq!(r, Err(RunError::WriteError("broken pipe".to_string())));
    let r: Result<BenchmarkStats, RunError<String>> = conclude(OK, Err("w".to_string()), Ok(5), 9);
    assert_eq!(r, Err(RunError::WriteError("w".to_string())));
}

#[test]
fn read_error_is_reported() {
    let r: Result<BenchmarkStats, RunError<String>> = conclude(OK, Ok(5), Err("r".to_string()), 9);
    assert_eq!(r, Err(RunError::ReadError("r".to_string())));
}

#[test]
fn success_flag_decides_not_the_code() {
    let exit = Exit { success: true, code: None };
    let r: Result<BenchmarkStats, RunError<String>> = conclude(exit, Ok(4), Ok(2), 1);
    assert!(r.is_ok());
    let exit = Exit { success: false, code: Some(0) };
    let r: Result<BenchmarkStats, RunError<String>> = conclude(exit, Ok(4), Ok(2), 1);
    assert_eq!(r, Err(RunError::ProcessFailed { exit_code: 0 }));
}

/// Feeds from a source of `source` bytes that gives at most `chunk` bytes a
/// read, and returns the number of bytes fed.
fn run_feed(limit: u64, source: u64, room: usize, chunk: usize) -> u64 {
    let mut feed = Feed::new(limit);
    let mut left = source;
    loop {
        let want = feed.request(room);
        if want == 0 {
            break;
        }
        let got = want.min(chunk).min(left.min(usize::MAX as u64) as usize);
        if got == 0 {
            break;
        }
        left -= got as u64;
        feed.record(got);
    }
    feed.copied()
}

#[test]
fn feed_stops_at_limit_below_source_length() {
    assert_eq!(run_feed(10, 100, 8, 8), 10);
    assert_eq!(run_feed(10, 100, 8, 3), 10);
    assert_eq!(run_feed(10, 11, 4096, 4096), 10);
    assert_eq!(run_feed(1, 100, 8, 8), 1);
    assert_eq!(run_feed(5 << 20, 6 << 20, 8192, 8192), 5 << 20);
}

#[test]
fn feed_takes_whole_source_under_larger_limit() {
    assert_eq!(run_feed(100, 10, 8, 8), 10);
    assert_eq!(run_feed(10, 10, 8, 8), 10);
    assert_eq!(run_feed(u64::MAX, 12_345, 4096, 1000), 12_345);
    assert_eq!(run_feed(u64::MAX, 0, 4096, 4096), 0);
}

#[test]
fn feed_requests_no_more_than_remains() {
    let mut feed = Feed::new(10);
    assert_eq!(feed.request(4), 4);
    assert_eq!(feed.request(64), 10);
    feed.record(7);
    assert_eq!(feed.copied(), 7);
    assert_eq!(feed.request(4), 3);
    assert_eq!(feed.request(0), 0);
    feed.record(3);
    assert_eq!(feed.request(4), 0);
    assert_eq!(feed.copied(), 10);
}

#[test]
fn feed_with_limit_zero_copies_nothing() {
    let feed = Feed::new(0);
    assert_eq!(feed.request(4096), 0);
    assert_eq!(feed.copied(), 0);
}

#[test]
fn drain_counts_until_empty_read() {
    let mut drain = Drain::new();
    assert_eq!(drain.count(), 0);
    assert!(drain.record(4096));
    assert!(drain.record(1));
    assert!(drain.record(4095));
    assert_eq!(drain.count(), 8192);
    assert!(!drain.record(0));
    assert_eq!(drain.count(), 8192);
    assert_eq!(DRAIN_BUFFER, 4096);
}
