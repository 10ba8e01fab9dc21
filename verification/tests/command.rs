use compress_bench::command::CommandSpec;

fn spec(program: &str, args: &[&str]) -> CommandSpec {
    CommandSpec {
        program: program.to_string(),
        args: args.iter().map(|a| a.to_string()).collect(),
    }
}

#[test]
fn command_without_arguments() {
    assert_eq!(CommandSpec::parse("zstd"), Some(spec("zstd", &[])));
    assert_eq!(CommandSpec::parse("xz"), Some(spec("xz", &[])));
}

#[test]
fn command_with_arguments() {
    assert_eq!(
        CommandSpec::parse("xz --lzma2=dict=1536Mi,nice=273 -q"),
        Some(spec("xz", &["--lzma2=dict=1536Mi,nice=273", "-q"]))
    );
    assert_eq!(CommandSpec::parse("gzip -9 -c"), Some(spec("gzip", &["-9", "-c"])));
}

#[test]
fn command_ignores_extra_white_space() {
    assert_eq!(CommandSpec::parse("  zstd  "), Some(spec("zstd", &[])));
    assert_eq!(CommandSpec::parse("\tzstd\n-19 \r\n -T0 "), Some(spec("zstd", &["-19", "-T0"])));
    assert_eq!(CommandSpec::parse("a\u{a0}b\u{3000}c"), Some(spec("a", &["b", "c"])));
}

#[test]
fn command_has_no_quoting() {
    assert_eq!(
        CommandSpec::parse("sh -c 'gzip -9'"),
        Some(spec("sh", &["-c", "'gzip", "-9'"]))
    );
    assert_eq!(CommandSpec::parse("a\\ b"), Some(spec("a\\", &["b"])));
    assert_eq!(CommandSpec::parse("\"a b\""), Some(spec("\"a", &["b\""])));
}

#[test]
fn command_keeps_other_characters() {
    assert_eq!(
        CommandSpec::parse("prog \u{e4}\u{f6} \u{1f600}x"),
        Some(spec("prog", &["\u{e4}\u{f6}", "\u{1f600}x"]))
    );
    assert_eq!(CommandSpec::parse("a\u{200b}b"), Some(spec("a\u{200b}b", &[])));
}

#[test]
fn empty_command_names_no_program() {
    assert_eq!(CommandSpec::parse(""), None);
    assert_eq!(CommandSpec::parse(" "), None);
    assert_eq!(CommandSpec::parse(" \t\n\u{2003} "), None);
}

#[test]
fn command_agrees_with_split_whitespace() {
    let lines = [
        "zstd",
        "xz --lzma2=dict=1536Mi,nice=273 -q",
        "  a  b\tc\n",
        "",
        "   ",
        "\u{85}x\u{1680}y\u{2028}z\u{205f}",
        "one",
        " one",
        "one ",
    ];
    for line in lines {
        let words: Vec<String> = line.split_whitespace().map(|w| w.to_string()).collect();
        let expected = if words.is_empty() {
            None
        } else {
            Some(CommandSpec { program: words[0].clone(), args: words[1..].to_vec() })
        };
        assert_eq!(CommandSpec::parse(line), expected, "{line:?}");
    }
}
