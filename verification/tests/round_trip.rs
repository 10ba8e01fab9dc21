use compress_bench::byte_size::{ByteSize, ParseError};

fn unit_of(n: i64) -> i64 {
    if n >= 1 << 30 {
        1 << 30
    } else if n >= 1 << 20 {
        1 << 20
    } else {
        1 << 10
    }
}

#[test]
fn shown_multiples_of_the_unit_read_back_exactly() {
    for n in [5i64 << 20, 1 << 10, 1 << 20, 1 << 30, 7 << 10, 1000 << 20, 3 << 40, 1536, 1280] {
        let text = ByteSize(n).to_string();
        assert_eq!(ByteSize::from_str(&text), Ok(ByteSize(n)), "{text}");
    }
}

#[test]
fn shown_small_counts_read_back_exactly() {
    for n in 0..1024i64 {
        let text = ByteSize(n).to_string();
        assert_eq!(ByteSize::from_str(&text), Ok(ByteSize(n)), "{text}");
    }
}

#[test]
fn shown_counts_read_back_within_rounding() {
    let mut seed: u64 = 42;
    for round in 0..20_000u32 {
        seed = seed.wrapping_mul(6_364_136_223_846_793_005).wrapping_add(1_442_695_040_888_963_407);
        let bits = 11 + (round % 52);
        let n = ((seed >> 1) & ((1u64 << bits) - 1)) as i64;
        if n < 1024 {
            continue;
        }
        let text = ByteSize(n).to_string();
        let back = ByteSize::from_str(&text).unwrap().0;
        let unit = unit_of(n) as i128;
        assert!(200 * (back as i128 - n as i128) <= unit, "{n} {text} {back}");
        assert!(200 * (n as i128 - back as i128) < unit + 200, "{n} {text} {back}");
    }
}

#[test]
fn one_shown_count_reads_back_inexactly() {
    // 1234567 bytes are shown as 1.18MiB, which is 1237319 bytes and a bit.
    assert_eq!(ByteSize(1_234_567).to_string(), "1.18MiB");
    assert_eq!(ByteSize::from_str("1.18MiB"), Ok(ByteSize(1_237_319)));
}

#[test]
fn shown_negative_sizes_do_not_read_back() {
    let shown = ByteSize(-1024).to_string();
    assert_eq!(ByteSize::from_str(&shown), Err(ParseError::NegativeNotAllowed));
    let shown = ByteSize(i64::MIN).to_string();
    assert_eq!(ByteSize::from_str(&shown), Err(ParseError::NegativeNotAllowed));
    assert_eq!(ByteSize::from_str(&ByteSize(-5).to_string()), Ok(ByteSize(5)));
}

#[test]
fn largest_sizes_round_up_out_of_range() {
    assert_eq!(ByteSize(i64::MAX).to_string(), "8589934592GiB");
    assert_eq!(ByteSize::from_str("8589934592GiB"), Err(ParseError::ValueTooLarge));
    assert_eq!(ByteSize::from_str("8589934591.99GiB"), Ok(ByteSize(9_223_372_036_844_038_389)));
    // the last size whose text reads back, and the first whose text does not
    let last = i64::MAX - 5_368_709;
    assert_eq!(ByteSize(last).to_string(), "8589934591.99GiB");
    assert_eq!(ByteSize(last + 1).to_string(), "8589934592GiB");
    assert!(ByteSize::from_str(&ByteSize(last).to_string()).is_ok());
    assert_eq!(
        ByteSize::from_str(&ByteSize(last + 1).to_string()),
        Err(ParseError::ValueTooLarge)
    );
}
