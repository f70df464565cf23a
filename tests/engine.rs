use dotfile_templater::arguments::parse_argument;
use dotfile_templater::config::{get_default_marker_repetition_num, Config, FileConfig, ThemeTable};
use dotfile_templater::engine::{apply_writes, parse_and_run_function, process_file, FileRun};
use dotfile_templater::errors::DotfilesError;
use dotfile_templater::functions::{plan_replacement, replace_fn, run_function, Outcome};
use dotfile_templater::matching::{get_nth_match, get_single_match};
use dotfile_templater::text::{apply_edit, MatchedText};

fn s(text: &str) -> String {
    text.to_string()
}

fn config() -> Config {
    Config {
        theme: s("dark"),
        marker_repetition_num: 3,
        files: vec![],
        themes: vec![
            ThemeTable {
                name: s("light"),
                variables: vec![(s("name"), s("light")), (s("primary"), s("rgb(9,9,9)"))],
            },
            ThemeTable {
                name: s("dark"),
                variables: vec![
                    (s("name"), s("dark")),
                    (s("primary"), s("rgb(200,10,10)")),
                    (s("bg"), s("#101010")),
                    (s("word"), s("short")),
                ],
            },
        ],
    }
}

fn hash_file() -> FileConfig {
    FileConfig { file: s("example.conf"), marker_char: s("#") }
}

fn span(start: usize, text: &str) -> MatchedText {
    MatchedText { range: start..start + text.len(), text: text.as_bytes().to_vec() }
}

fn run_over(contents: &[u8]) -> (FileRun, Vec<u8>) {
    let run = process_file(&config(), &hash_file(), contents);
    let mut out = contents.to_vec();
    apply_writes(&mut out, &run);
    (run, out)
}

#[test]
fn default_marker_repetition() {
    assert_eq!(get_default_marker_repetition_num(), 3);
}

#[test]
fn theme_hashmap_pairs_names_with_variables() {
    let map = config().get_theme_hashmap();
    assert_eq!(map.len(), 2);
    assert_eq!(map[1].0, "dark");
    assert_eq!(map[1].1[3], (s("word"), s("short")));
}

#[test]
fn argument_from_active_theme() {
    assert_eq!(parse_argument(&config(), b"bg").unwrap(), b"#101010".to_vec());
    assert_eq!(parse_argument(&config(), b"primary").unwrap(), b"rgb(200,10,10)".to_vec());
}

#[test]
fn argument_literal_is_taken_verbatim() {
    assert_eq!(parse_argument(&config(), b"'bg'").unwrap(), b"bg".to_vec());
    assert_eq!(parse_argument(&config(), b"\"x y\"").unwrap(), b"x y".to_vec());
}

#[test]
fn argument_colour_code_bypasses_theme() {
    assert_eq!(parse_argument(&config(), b"#abcdef").unwrap(), b"#abcdef".to_vec());
}

#[test]
fn keyword_missing_from_theme() {
    match parse_argument(&config(), b"accent") {
        Err(DotfilesError::ArgNotFound { arg, theme_hashmap }) => {
            assert_eq!(arg, b"accent".to_vec());
            assert_eq!(theme_hashmap.len(), 4);
            assert_eq!(theme_hashmap[0], (s("name"), s("dark")));
        }
        other => panic!("unexpected {other:?}"),
    }
}

#[test]
fn theme_not_found_lists_known_themes() {
    let mut c = config();
    c.theme = s("solarized");
    match parse_argument(&c, b"bg") {
        Err(DotfilesError::ThemeNotFound { name, themes }) => {
            assert_eq!(name, "solarized");
            assert_eq!(themes, vec![s("light"), s("dark")]);
        }
        other => panic!("unexpected {other:?}"),
    }
}

#[test]
fn theme_defined_twice_is_an_error() {
    let mut c = config();
    c.themes.push(ThemeTable { name: s("dark"), variables: vec![] });
    match parse_argument(&c, b"bg") {
        Err(DotfilesError::ThemeDefinedTwice { name }) => assert_eq!(name, "dark"),
        other => panic!("unexpected {other:?}"),
    }
}

#[test]
fn nth_match_offsets_are_absolute() {
    let text = span(10, "a1 b22 c333");
    let m = get_nth_match(b"\\d+", &text, 1).unwrap();
    assert_eq!(m.range, 14..16);
    assert_eq!(m.text, b"22".to_vec());
    let first = get_single_match(b"\\d+", &text).unwrap();
    assert_eq!(first.range, 11..12);
    assert_eq!(first.text, b"1".to_vec());
}

#[test]
fn nth_match_errors() {
    let text = span(0, "a1 b22");
    match get_nth_match(b"\\d+", &text, 2) {
        Err(DotfilesError::RegexNthMatchError { capture_index, hay, .. }) => {
            assert_eq!(capture_index, 2);
            assert_eq!(hay, b"a1 b22".to_vec());
        }
        other => panic!("unexpected {other:?}"),
    }
    match get_single_match(b"x+", &text) {
        Err(DotfilesError::RegexMatchError { regex_str, .. }) => assert_eq!(regex_str, b"x+".to_vec()),
        other => panic!("unexpected {other:?}"),
    }
    match get_single_match(b"(unclosed", &text) {
        Err(DotfilesError::RegexFail { regex_str, .. }) => assert_eq!(regex_str, b"(unclosed".to_vec()),
        other => panic!("unexpected {other:?}"),
    }
}

#[test]
fn plan_replacement_decisions() {
    let w = plan_replacement(span(4, "12345"), b"short".to_vec()).unwrap().unwrap();
    assert_eq!(w.range, 4..9);
    assert_eq!(w.text, b"short".to_vec());
    assert!(plan_replacement(span(4, "short"), b"short".to_vec()).unwrap().is_none());
    assert!(matches!(
        plan_replacement(span(4, "12345"), b"short!".to_vec()),
        Err(DotfilesError::ReplaceTextDifferentLength { .. })
    ));
}

#[test]
fn equal_length_replacement() {
    let content = span(0, "id=12345 ");
    let w = replace_fn(&config(), b"\\d+", b"'short'", None, &content, 0).unwrap().unwrap();
    assert_eq!(w.range, 3..8);
    assert_eq!(w.text, b"short".to_vec());
    match replace_fn(&config(), b"\\d+", b"'short!'", None, &content, 0) {
        Err(DotfilesError::ReplaceTextDifferentLength { text_to_replace, replace_text }) => {
            assert_eq!(text_to_replace, b"12345".to_vec());
            assert_eq!(replace_text, b"short!".to_vec());
        }
        other => panic!("unexpected {other:?}"),
    }
}

#[test]
fn replace_picks_the_nth_match() {
    let content = span(0, "1 2 3 ");
    let w = replace_fn(&config(), b"\\d", b"'9'", None, &content, 2).unwrap().unwrap();
    assert_eq!(w.range, 4..5);
}

#[test]
fn replace_pattern_narrows_both_sides() {
    let d = span(30, "@replace-pattern('rgb\\(\\d+,\\d+,\\d+\\)', primary, '\\d+')");
    let content = span(0, "color = rgb(100,20,30) ");
    let step = parse_and_run_function(&config(), &d, &content).unwrap();
    match step.outcome {
        Outcome::Write(w) => {
            assert_eq!(w.range, 12..15);
            assert_eq!(w.text, b"200".to_vec());
        }
        other => panic!("unexpected {other:?}"),
    }
}

#[test]
fn replace_pattern_col_narrows_colour() {
    let args = vec![b"bg".to_vec(), b"'[0-9]+'".to_vec()];
    let content = span(0, "c=#123456 ");
    match run_function(&config(), b"replace-pattern-col", &args, &content, 0).unwrap() {
        Outcome::Write(w) => {
            assert_eq!(w.range, 3..9);
            assert_eq!(w.text, b"101010".to_vec());
        }
        other => panic!("unexpected {other:?}"),
    }
}

#[test]
fn run_function_checks_arity_then_shapes() {
    let content = span(0, "x=#000000");
    let args = vec![b"bg".to_vec(), b"extra".to_vec()];
    match run_function(&config(), b"replace-col", &args, &content, 0) {
        Err(DotfilesError::FuncArgumentError { name, needed, args: found }) => {
            assert_eq!(name, b"replace-col".to_vec());
            assert_eq!(needed, 1);
            assert_eq!(found, args);
        }
        other => panic!("unexpected {other:?}"),
    }
    let args = vec![b"bg".to_vec(), b"bg".to_vec()];
    assert!(matches!(
        run_function(&config(), b"replace", &args, &content, 0),
        Err(DotfilesError::ArgumentShapeError { .. })
    ));
    let args = vec![b"bg".to_vec()];
    match run_function(&config(), b"replace-colour", &args, &content, 0).unwrap() {
        Outcome::Write(w) => assert_eq!(w.text, b"#101010".to_vec()),
        other => panic!("unexpected {other:?}"),
    }
}

#[test]
fn unknown_function_is_skipped() {
    let contents = b"a=#000000 ###@unknown-fn(x)\nb=#000000 ###@replace-col(bg)\n";
    let (run, out) = run_over(contents);
    assert!(run.error.is_none());
    assert_eq!(run.steps.len(), 2);
    assert!(matches!(run.steps[0].outcome, Outcome::Skipped));
    assert_eq!(run.steps[0].directive.name, b"unknown-fn".to_vec());
    assert_eq!(out, b"a=#000000 ###@unknown-fn(x)\nb=#101010 ###@replace-col(bg)\n".to_vec());
}

#[test]
fn colour_literal_rewrites_content_half() {
    let contents = b"foo=#112233 ###@replace-col('#ff00ff')";
    let (run, out) = run_over(contents);
    assert!(run.error.is_none());
    assert_eq!(out, b"foo=#ff00ff ###@replace-col('#ff00ff')".to_vec());
}

#[test]
fn colour_literal_without_hash_finds_no_colour() {
    let contents = b"foo=0x112233 ###@replace-col('ff00ff')";
    let (run, out) = run_over(contents);
    assert!(run.steps.is_empty());
    assert!(matches!(run.error, Some(DotfilesError::RegexMatchError { .. })));
    assert_eq!(out, contents.to_vec());
}

#[test]
fn pass_stops_at_first_error_and_keeps_earlier_writes() {
    let contents = b"a=#000000 ###@replace-col(bg)\nb ### nothing\nc=#000000 ###@replace-col(bg)\n";
    let (run, out) = run_over(contents);
    assert_eq!(run.steps.len(), 1);
    assert!(matches!(run.error, Some(DotfilesError::DirectiveNotFound { .. })));
    assert_eq!(out, b"a=#101010 ###@replace-col(bg)\nb ### nothing\nc=#000000 ###@replace-col(bg)\n".to_vec());
}

#[test]
fn second_run_writes_nothing() {
    let contents = b"a=#000000 ###@replace-col(bg)\nw=xxxxx ###@replace('[a-z]{5}', word)\n";
    let (first, out) = run_over(contents);
    assert!(first.error.is_none());
    assert!(first.steps.iter().all(|s| matches!(s.outcome, Outcome::Write(_))));
    let (second, again) = run_over(&out);
    assert!(second.error.is_none());
    assert!(second.steps.iter().all(|s| matches!(s.outcome, Outcome::Unchanged)));
    assert_eq!(again, out);
}

#[test]
fn writes_applied_in_any_order_agree() {
    let contents = b"a=#000000 ###@replace-col(bg)\nb=#111111 ###@replace-col('#222222')\n";
    let (run, forward) = run_over(contents);
    let mut backward = contents.to_vec();
    for step in run.steps.iter().rev() {
        if let Outcome::Write(w) = &step.outcome {
            apply_edit(&mut backward, w);
        }
    }
    assert_eq!(forward, backward);
    assert_eq!(forward, b"a=#101010 ###@replace-col(bg)\nb=#222222 ###@replace-col('#222222')\n".to_vec());
}

#[test]
fn replacement_keeps_file_length() {
    let contents = b"p=rgb(100,2,3) ###@replace-pattern('rgb\\(\\d+,\\d+,\\d+\\)', primary, '\\d+')\n";
    let (run, out) = run_over(contents);
    assert!(run.error.is_none());
    assert_eq!(out.len(), contents.len());
    match &run.steps[0].outcome {
        Outcome::Write(w) => assert_eq!(w.range.len(), w.text.len()),
        other => panic!("unexpected {other:?}"),
    }
}

#[test]
fn apply_edit_splices_range() {
    let mut v = b"hello world".to_vec();
    apply_edit(&mut v, &span(6, "WORLD"));
    assert_eq!(v, b"hello WORLD".to_vec());
}

#[test]
fn keywords_must_be_unique_within_a_theme() {
    assert!(config().is_well_formed());
    let mut c = config();
    c.themes[0].variables.push((s("primary"), s("again")));
    assert!(!c.themes[0].has_unique_keywords());
    assert!(!c.is_well_formed());
}
