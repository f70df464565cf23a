use dotfile_templater::arguments::{is_hex_colour_exec, matches_keyword_or_string, matches_pattern};
use dotfile_templater::directive::{parse_directive, split_arguments};
use dotfile_templater::errors::{ArgumentKind, DotfilesError};
use dotfile_templater::scanner::scan_marked_lines;
use dotfile_templater::text::MatchedText;

fn span(start: usize, text: &str) -> MatchedText {
    MatchedText { range: start..start + text.len(), text: text.as_bytes().to_vec() }
}

#[test]
fn scanner_splits_each_marked_line() {
    let file = b"a = 1\nfoo=#112233 ###replace-col(accent)\nplain\nbar ### x\n";
    let lines = scan_marked_lines(file, b"###");
    assert_eq!(lines.len(), 2);
    let (content, directive) = &lines[0];
    assert_eq!(content.text, b"foo=#112233 ".to_vec());
    assert_eq!(content.range, 6..18);
    assert_eq!(directive.text, b"replace-col(accent)".to_vec());
    assert_eq!(directive.range, 21..40);
    assert_eq!(&file[directive.range.clone()], &directive.text[..]);
    let (content, directive) = &lines[1];
    assert_eq!(content.text, b"bar ".to_vec());
    assert_eq!(directive.text, b" x".to_vec());
}

#[test]
fn scanner_uses_first_marker_of_a_line() {
    let lines = scan_marked_lines(b"a ## b ## c", b"##");
    assert_eq!(lines.len(), 1);
    assert_eq!(lines[0].0.text, b"a ".to_vec());
    assert_eq!(lines[0].1.text, b" b ## c".to_vec());
}

#[test]
fn scanner_handles_empty_and_unmarked_files() {
    assert!(scan_marked_lines(b"", b"###").is_empty());
    assert!(scan_marked_lines(b"x\ny\n", b"###").is_empty());
    let lines = scan_marked_lines(b"###", b"###");
    assert_eq!(lines.len(), 1);
    assert!(lines[0].0.text.is_empty());
    assert!(lines[0].1.text.is_empty());
}

#[test]
fn scanner_keeps_carriage_return_in_directive() {
    let lines = scan_marked_lines(b"v ### f(a)\r\nw", b"###");
    assert_eq!(lines.len(), 1);
    assert_eq!(lines[0].1.text, b" f(a)\r".to_vec());
}

#[test]
fn directive_name_and_trimmed_arguments() {
    let d = parse_directive(&span(0, " @replace( '\\d+' ,  accent )  trailing")).unwrap();
    assert_eq!(d.name, b"replace".to_vec());
    assert_eq!(d.args, vec![b"'\\d+'".to_vec(), b"accent".to_vec()]);
}

#[test]
fn directive_needs_at_sign() {
    for text in ["replace-col('ff00ff')", " f(x)"] {
        match parse_directive(&span(0, text)) {
            Err(DotfilesError::DirectiveNotFound { hay }) => assert_eq!(hay, text.as_bytes().to_vec()),
            other => panic!("unexpected {other:?}"),
        }
    }
}

#[test]
fn directive_is_the_first_at_call() {
    let d = parse_directive(&span(0, "note(x) @ bad @replace-col(bg) @other(y)")).unwrap();
    assert_eq!(d.name, b"replace-col".to_vec());
    assert_eq!(d.args, vec![b"bg".to_vec()]);
}

#[test]
fn arguments_trim_unicode_white_space() {
    let d = parse_directive(&span(0, "@f(\u{a0}a\u{3000}, \u{2003}b\u{85} , \u{200b}c\t)")).unwrap();
    assert_eq!(
        d.args,
        vec![b"a".to_vec(), b"b".to_vec(), "\u{200b}c".as_bytes().to_vec()]
    );
}

#[test]
fn directive_escaped_paren_and_quoted_commas() {
    let d = parse_directive(&span(0, "@replace-pattern('rgb\\(\\d+,\\d+,\\d+\\)', 'primary', '\\d+')")).unwrap();
    assert_eq!(d.name, b"replace-pattern".to_vec());
    assert_eq!(
        d.args,
        vec![b"'rgb\\(\\d+,\\d+,\\d+\\)'".to_vec(), b"'primary'".to_vec(), b"'\\d+'".to_vec()]
    );
}

#[test]
fn directive_empty_argument_list() {
    let d = parse_directive(&span(0, "@f()")).unwrap();
    assert_eq!(d.name, b"f".to_vec());
    assert_eq!(d.args, vec![Vec::<u8>::new()]);
}

#[test]
fn directive_missing_is_an_error() {
    for text in ["no call here", "@f(unclosed", "@(x)", "@f(a\\)", "@ f(x)"] {
        match parse_directive(&span(0, text)) {
            Err(DotfilesError::DirectiveNotFound { hay }) => assert_eq!(hay, text.as_bytes().to_vec()),
            other => panic!("unexpected {other:?}"),
        }
    }
}

#[test]
fn arguments_split_outside_quotes_only() {
    assert_eq!(
        split_arguments(b"a, \"b,c\" , 'd\\'e,f', g\\,h"),
        vec![b"a".to_vec(), b"\"b,c\"".to_vec(), b"'d\\'e,f'".to_vec(), b"g\\,h".to_vec()]
    );
}

#[test]
fn pattern_shape() {
    assert!(matches_pattern(b"'\\d+'").is_ok());
    assert!(matches_pattern(b"'a\\'b'").is_ok());
    for bad in [&b"''"[..], b"'abc", b"abc", b"'a'b'", b"\"a\"", b"'abc\\'"] {
        match matches_pattern(bad) {
            Err(DotfilesError::ArgumentShapeError { kind, arg }) => {
                assert_eq!(kind, ArgumentKind::Pattern);
                assert_eq!(arg, bad.to_vec());
            }
            other => panic!("unexpected {other:?}"),
        }
    }
}

#[test]
fn keyword_or_string_shape() {
    for good in [&b"accent"[..], b"a-b_c9", b"'lit'", b"\"lit\""] {
        assert!(matches_keyword_or_string(good).is_ok());
    }
    for bad in [&b"9abc"[..], b"#ff00ff", b"", b"a b", b"'open"] {
        match matches_keyword_or_string(bad) {
            Err(DotfilesError::ArgumentShapeError { kind, .. }) => {
                assert_eq!(kind, ArgumentKind::KeywordOrString)
            }
            other => panic!("unexpected {other:?}"),
        }
    }
}

#[test]
fn hex_colour_grammar() {
    assert!(is_hex_colour_exec(b"#ff00ff"));
    assert!(is_hex_colour_exec(b"#ZZ0099"));
    assert!(!is_hex_colour_exec(b"ff00ff"));
    assert!(!is_hex_colour_exec(b"#ff00f"));
    assert!(!is_hex_colour_exec(b"#ff00ff0"));
    assert!(!is_hex_colour_exec(b"#ff_0ff"));
}
