use git_multi_index::attributes::parse::{attr_valid, parse_line, skip_blanks, Error, Iter, Kind, Lines};
use git_multi_index::attributes::{Mode, State};

fn mode(negative: bool) -> Mode {
    Mode { no_sub_dir: false, ends_with: false, must_be_dir: false, negative }
}

/// A pattern parser for the tests: an empty pattern means nothing, `!` negates.
fn pattern(text: &[u8]) -> Option<(Vec<u8>, Mode)> {
    if text.is_empty() {
        None
    } else if text[0] == b'!' {
        Some((text[1..].to_vec(), mode(true)))
    } else {
        Some((text.to_vec(), mode(false)))
    }
}

fn attrs(iter: &mut Iter) -> Vec<Result<(String, String), String>> {
    let mut out = Vec::new();
    while let Some(item) = iter.next() {
        out.push(match item {
            Ok((name, state)) => Ok((
                String::from_utf8(name).expect("text"),
                match state {
                    State::IsSet => "set".to_string(),
                    State::Unset => "unset".to_string(),
                    State::Unspecified => "unspecified".to_string(),
                    State::Value(v) => format!("={}", String::from_utf8(v).expect("text")),
                },
            )),
            Err(Error::AttributeName { line_number, attribute }) => {
                Err(format!("{}:{}", line_number, String::from_utf8(attribute).expect("text")))
            }
            Err(_) => Err("other".to_string()),
        });
    }
    out
}

fn ok(name: &str, state: &str) -> Result<(String, String), String> {
    Ok((name.to_string(), state.to_string()))
}

#[test]
fn names_of_attributes() {
    assert!(attr_valid(b"text"));
    assert!(attr_valid(b"a-b.c_D9"));
    assert!(attr_valid(b""));
    assert!(!attr_valid(b"-text"));
    assert!(!attr_valid(b"te xt"));
    assert!(!attr_valid(b"a/b"));
    assert!(!attr_valid(b"a="));
    assert!(!attr_valid("ä".as_bytes()));
}

#[test]
fn blanks_before_a_line_are_skipped() {
    assert_eq!(skip_blanks(b" \t\r a b "), b"a b ");
    assert_eq!(skip_blanks(b"a"), b"a");
    assert_eq!(skip_blanks(b""), b"");
    assert_eq!(skip_blanks(b" \t"), b" \t");
    assert_eq!(skip_blanks(b"\na"), b"\na");
}

#[test]
fn attributes_of_a_line() {
    let mut iter = Iter::new(b" text -diff\t!eol eol=lf a=b=c -x=1 !y=2 =v -", 7);
    assert_eq!(
        attrs(&mut iter),
        vec![
            ok("text", "set"),
            ok("diff", "unset"),
            ok("eol", "unspecified"),
            ok("eol", "=lf"),
            ok("a", "=b=c"),
            ok("x", "unset"),
            ok("y", "unspecified"),
            ok("", "=v"),
            ok("", "unset"),
        ]
    );
    assert!(iter.next().is_none());
}

#[test]
fn bad_names_are_errors() {
    let mut iter = Iter::new(b"a/b --x ok !-y", 3);
    assert_eq!(
        attrs(&mut iter),
        vec![Err("3:a/b".to_string()), Err("3:-x".to_string()), ok("ok", "set"), Err("3:-y".to_string())]
    );
}

#[test]
fn white_space_of_every_kind_separates_fields() {
    let mut iter = Iter::new("a\u{2003}b \u{a0} c".as_bytes(), 1);
    assert_eq!(attrs(&mut iter), vec![ok("a", "set"), ok("b", "set"), ok("c", "set")]);
    let mut iter = Iter::new(b" \t ", 1);
    assert_eq!(attrs(&mut iter), vec![]);
}

#[test]
fn a_line_is_a_pattern_and_its_attributes() {
    match parse_line(b"*.txt text  eol=lf", 4, &pattern) {
        Some(Ok((Kind::Pattern(p), flags, mut iter))) => {
            assert_eq!(p, b"*.txt".to_vec());
            assert!(!flags.negative);
            assert_eq!(iter.line_no, 4);
            assert_eq!(attrs(&mut iter), vec![ok("text", "set"), ok("eol", "=lf")]);
        }
        _ => panic!("a pattern"),
    }
    match parse_line(b"pattern-only", 1, &pattern) {
        Some(Ok((Kind::Pattern(p), _, mut iter))) => {
            assert_eq!(p, b"pattern-only".to_vec());
            assert_eq!(attrs(&mut iter), vec![]);
        }
        _ => panic!("a pattern"),
    }
    assert!(parse_line(b"", 1, &pattern).is_none());
    assert!(parse_line(b" text", 1, &pattern).is_none());
}

#[test]
fn a_quoted_pattern_is_unquoted() {
    match parse_line(b"\"a b\\tc\\\"\\101\" text", 1, &pattern) {
        Some(Ok((Kind::Pattern(p), _, mut iter))) => {
            assert_eq!(p, b"a b\tc\"A".to_vec());
            assert_eq!(attrs(&mut iter), vec![ok("text", "set")]);
        }
        _ => panic!("a pattern"),
    }
    assert!(matches!(parse_line(b"\"a\\xb\" text", 1, &pattern), Some(Err(Error::Unquote(_)))));
    assert!(matches!(parse_line(b"\"", 1, &pattern), Some(Err(Error::Unquote(_)))));
}

#[test]
fn lines_of_a_file() {
    let mut lines = Lines::new(b"\xef\xbb\xbf# comment\n\n  *.a text\r\n \t\n*.b -text\n\"q q\" x=1");
    assert!(lines.is_readable());
    let mut seen = Vec::new();
    while let Some(item) = lines.next(&pattern) {
        match item {
            Ok((Kind::Pattern(p), _, mut iter, line_no)) => {
                seen.push((String::from_utf8(p).expect("text"), line_no, attrs(&mut iter)))
            }
            _ => panic!("a pattern"),
        }
    }
    assert_eq!(
        seen,
        vec![
            ("*.a".to_string(), 3, vec![ok("text", "set")]),
            ("*.b".to_string(), 5, vec![ok("text", "unset")]),
            ("q q".to_string(), 6, vec![ok("x", "=1")]),
        ]
    );
    assert!(lines.next(&pattern).is_none());
    assert_eq!(lines.line_no, 6);
}

#[test]
fn a_negated_pattern_is_an_error() {
    let mut lines = Lines::new(b"a x\n  !b y\nc z\n");
    assert!(matches!(lines.next(&pattern), Some(Ok((Kind::Pattern(_), _, _, 1)))));
    match lines.next(&pattern) {
        Some(Err(Error::PatternNegation { line_number, line })) => {
            assert_eq!(line_number, 2);
            assert_eq!(line, b"!b y".to_vec());
        }
        _ => panic!("a negated pattern"),
    }
    assert!(matches!(lines.next(&pattern), Some(Ok((Kind::Pattern(_), _, _, 3)))));
    assert!(lines.next(&pattern).is_none());
}

#[test]
fn a_bad_quote_is_an_error() {
    let mut lines = Lines::new(b"\"a\\q\" x\nb y");
    assert!(lines.is_readable());
    assert!(matches!(lines.next(&pattern), Some(Err(Error::Unquote(_)))));
    assert!(matches!(lines.next(&pattern), Some(Ok((Kind::Pattern(_), _, _, 2)))));
}

#[test]
fn a_quote_that_ends_in_a_backslash_is_not_readable() {
    let lines = Lines::new(b"a x\n \"b\\\nc");
    assert!(!lines.is_readable());
    let lines = Lines::new(b"a\\\nb\\");
    assert!(lines.is_readable());
}

#[test]
fn lines_without_a_mark_and_with_other_marks() {
    let lines = Lines::new(b"a\nb\r\n\nc");
    assert_eq!(lines.lines, vec![b"a".to_vec(), b"b".to_vec(), b"".to_vec(), b"c".to_vec()]);
    let lines = Lines::new(b"\xff\xfea\n");
    assert_eq!(lines.lines, vec![b"a".to_vec()]);
    let lines = Lines::new(b"");
    assert!(lines.lines.is_empty());
    let lines = Lines::new(b"a\r\r\n\rb\n");
    assert_eq!(lines.lines, vec![b"a\r".to_vec(), b"\rb".to_vec()]);
}

#[test]
fn marks_of_other_encodings_are_passed_over() {
    let with = |mark: &[u8]| {
        let mut buf = mark.to_vec();
        buf.extend_from_slice(b"a x\n");
        Lines::new(&buf).lines
    };
    let line = vec![b"a x".to_vec()];
    assert_eq!(with(&[0x00, 0x00, 0xfe, 0xff]), line);
    assert_eq!(with(&[0xff, 0xfe, 0x00, 0x00]), line);
    assert_eq!(with(&[0xfe, 0xff]), line);
    assert_eq!(with(&[0xff, 0xfe]), line);
    assert_eq!(with(&[0x0e, 0xfe, 0xff]), line);
    assert_eq!(with(&[0x2b, 0x2f, 0x76, 0x38]), line);
    assert_eq!(with(&[0x2b, 0x2f, 0x76, 0x2f]), line);
    assert_eq!(with(&[0x84, 0x31, 0x95, 0x33]), line);
    assert_eq!(with(&[0xdd, 0x73, 0x66, 0x73]), line);
    assert_eq!(with(&[0xf7, 0x64, 0x4c]), line);
    assert_eq!(with(&[0xfb, 0xee, 0x28]), line);
    assert_eq!(with(&[0xef, 0xbb, 0xbf]), line);
    // Not a mark: the fourth byte of the UTF-7 mark is none of the four.
    assert_eq!(with(&[0x2b, 0x2f, 0x76, 0x41]), vec![b"+/vAa x".to_vec()]);
    assert_eq!(Lines::new(&[0xef, 0xbb]).lines, vec![vec![0xef, 0xbb]]);
    assert!(Lines::new(&[0xef, 0xbb, 0xbf]).lines.is_empty());
}
