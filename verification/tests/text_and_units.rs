use compress_bench::text::{chars_of, fold_char, scan, scan_back, CharClass};
use compress_bench::unit::Unit;

#[test]
fn space_class_is_unicode_white_space() {
    for code in 0..=0x10_ffffu32 {
        if let Some(c) = char::from_u32(code) {
            assert_eq!(CharClass::Space.test(c), c.is_whitespace(), "U+{code:04X}");
        }
    }
}

#[test]
fn digit_classes() {
    for code in 0..=0x10_ffffu32 {
        if let Some(c) = char::from_u32(code) {
            assert_eq!(CharClass::Digit.test(c), c.is_ascii_digit(), "U+{code:04X}");
            assert_eq!(CharClass::Dot.test(c), c == '.', "U+{code:04X}");
            assert_eq!(CharClass::Numeric.test(c), c.is_ascii_digit() || c == '.', "U+{code:04X}");
        }
    }
}

/// A character counts as a unit letter exactly where its lower case is one.
#[test]
fn fold_agrees_with_lower_case_on_unit_letters() {
    let letters = ['b', 'k', 'm', 'g', 't', 'i'];
    for code in 0..=0x10_ffffu32 {
        if let Some(c) = char::from_u32(code) {
            let lower: String = c.to_lowercase().collect();
            for letter in letters {
                assert_eq!(fold_char(c) == letter, lower == letter.to_string(), "U+{code:04X}");
            }
        }
    }
}

#[test]
fn fold_examples() {
    assert_eq!(fold_char('A'), 'a');
    assert_eq!(fold_char('Z'), 'z');
    assert_eq!(fold_char('k'), 'k');
    assert_eq!(fold_char('\u{212a}'), 'k');
    assert_eq!(fold_char('5'), '5');
    assert_eq!(fold_char('\u{c4}'), '\u{c4}');
}

#[test]
fn chars_of_text() {
    assert_eq!(chars_of(""), Vec::<char>::new());
    assert_eq!(chars_of("5Ki"), vec!['5', 'K', 'i']);
    assert_eq!(chars_of("5\u{212a}"), vec!['5', '\u{212a}']);
}

#[test]
fn scan_finds_end_of_run() {
    let v = chars_of("12.5  KiB ");
    assert_eq!(scan(&v, 0, v.len(), CharClass::Numeric, true), 4);
    assert_eq!(scan(&v, 0, v.len(), CharClass::Digit, true), 2);
    assert_eq!(scan(&v, 0, 4, CharClass::Dot, false), 2);
    assert_eq!(scan(&v, 4, v.len(), CharClass::Space, true), 6);
    assert_eq!(scan(&v, 6, v.len(), CharClass::Space, false), 9);
    assert_eq!(scan(&v, 0, 1, CharClass::Numeric, true), 1);
    assert_eq!(scan(&v, 3, 3, CharClass::Numeric, true), 3);
    assert_eq!(scan(&v, 4, v.len(), CharClass::Numeric, true), 4);
}

#[test]
fn scan_back_finds_start_of_run() {
    let v = chars_of("12.5  KiB \t");
    assert_eq!(scan_back(&v, 6, v.len(), CharClass::Space, true), 9);
    assert_eq!(scan_back(&v, 0, 9, CharClass::Space, false), 6);
    assert_eq!(scan_back(&v, 0, 4, CharClass::Digit, true), 3);
    assert_eq!(scan_back(&v, 10, v.len(), CharClass::Space, true), 10);
    assert_eq!(scan_back(&v, 5, 5, CharClass::Space, true), 5);
}

#[test]
fn unit_names() {
    let cases: [(&str, Option<Unit>); 24] = [
        ("", Some(Unit::Byte)),
        ("b", Some(Unit::Byte)),
        ("k", Some(Unit::Kilo)),
        ("kb", Some(Unit::Kilo)),
        ("ki", Some(Unit::Kibi)),
        ("kib", Some(Unit::Kibi)),
        ("m", Some(Unit::Mega)),
        ("mb", Some(Unit::Mega)),
        ("mi", Some(Unit::Mebi)),
        ("mib", Some(Unit::Mebi)),
        ("g", Some(Unit::Giga)),
        ("gb", Some(Unit::Giga)),
        ("gi", Some(Unit::Gibi)),
        ("gib", Some(Unit::Gibi)),
        ("t", Some(Unit::Tera)),
        ("tb", Some(Unit::Tera)),
        ("ti", Some(Unit::Tebi)),
        ("tib", Some(Unit::Tebi)),
        ("K", None),
        ("i", None),
        ("ib", None),
        ("bb", None),
        ("kibi", None),
        ("kbi", None),
    ];
    for (name, unit) in cases {
        assert_eq!(Unit::from_name(&chars_of(name)), unit, "{name}");
    }
}

#[test]
fn unit_factors() {
    assert_eq!(Unit::Byte.factor(), 1);
    assert_eq!(Unit::Kilo.factor(), 1_000);
    assert_eq!(Unit::Kibi.factor(), 1 << 10);
    assert_eq!(Unit::Mega.factor(), 1_000_000);
    assert_eq!(Unit::Mebi.factor(), 1 << 20);
    assert_eq!(Unit::Giga.factor(), 1_000_000_000);
    assert_eq!(Unit::Gibi.factor(), 1 << 30);
    assert_eq!(Unit::Tera.factor(), 1_000_000_000_000);
    assert_eq!(Unit::Tebi.factor(), 1 << 40);
}

#[test]
fn unit_factor_is_shift_over_divisor() {
    for unit in [Unit::Byte, Unit::Kilo, Unit::Mega, Unit::Giga, Unit::Tera] {
        assert_eq!(unit.reducer(), 1);
        assert_eq!(unit.factor() as u128, 10u128.pow(unit.places() as u32));
    }
    for unit in [Unit::Kibi, Unit::Mebi, Unit::Gibi, Unit::Tebi] {
        assert_eq!(unit.reducer(), 5u128.pow(unit.places() as u32));
        assert_eq!(unit.factor() as u128, 2u128.pow(unit.places() as u32));
    }
}
