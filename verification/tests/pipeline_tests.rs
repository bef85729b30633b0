use tpipe::error::Error;
use tpipe::help::{help_line_count, help_text};
use tpipe::interactive::{compute_depth, parse_error_info, InteractiveMode, KeyAction, KeyInput};
use tpipe::operators::split::{Split, SplitMode};
use tpipe::interp::{compile, run, Context};
use tpipe::jsonout::render_json;
use tpipe::parser::parse_programme;
use tpipe::regex::Pattern;
use tpipe::render::render_value;
use tpipe::value::{Array, Level, Value};

fn text(s: &str) -> Value {
    Value::Text(s.to_string())
}

fn lines(items: &[&str]) -> Value {
    Value::Array(Array::new(
        items.iter().map(|s| text(s)).collect(),
        Level::Line,
    ))
}

fn run_programme(prog: &str, input: Value) -> Result<Value, Error> {
    let programme = parse_programme(prog)?;
    let ops = compile(programme)?;
    let mut ctx = Context::new(input);
    run(&ops, &mut ctx)?;
    Ok(ctx.into_value())
}

#[test]
fn word_frequency_counts_sorted_by_count() {
    // The words of "The quick the Brown fox the quick", lowercased and
    // deduped with counts: count descending, ties in first-seen order.
    let input = lines(&["The", "quick", "the", "Brown", "fox", "the", "quick"]);
    let result = run_programme("ld", input).unwrap();
    assert_eq!(render_value(&result), "3 the\n2 quick\n1 brown\n1 fox");
}

#[test]
fn split_join_lower_pipeline() {
    let input = lines(&["The quick the Brown fox the quick"]);
    let result = run_programme("sjl", input).unwrap();
    assert_eq!(
        result,
        lines(&["the quick the brown fox the quick"])
    );
}

#[test]
fn filter_keeps_rows_matching_pattern() {
    let input = lines(&["ok", "Error: x", "err", "OK"]);
    let result = run_programme("/err/", input).unwrap();
    assert_eq!(result, lines(&["err"]));
    let both = run_programme("/rr/", lines(&["ok", "Error: x", "err", "OK"])).unwrap();
    assert_eq!(both, lines(&["Error: x", "err"]));
}

#[test]
fn filter_drop_removes_matching_rows() {
    let input = lines(&["ok", "Error: x", "err", "OK"]);
    let result = run_programme("!/rr/", input).unwrap();
    assert_eq!(result, lines(&["ok", "OK"]));
}

#[test]
fn split_on_comma_sort_and_take_three() {
    // Over bare text, `S,` yields a word array; `O` sorts ascending and
    // `:3` takes the first three; words join with spaces.
    let input = text("a,b,c,d,e");
    let result = run_programme("S,O:3", input).unwrap();
    assert_eq!(render_value(&result), "a b c");
    // With `o` the sort is descending, so the tail survives instead.
    let desc = run_programme("S,o:3", text("a,b,c,d,e")).unwrap();
    assert_eq!(render_value(&desc), "e d c");
}

#[test]
fn columnate_pads_cells() {
    let input = Value::Array(Array::new(
        vec![
            Value::Array(Array::new(vec![text("name"), text("age")], Level::Word)),
            Value::Array(Array::new(vec![text("alice"), text("30")], Level::Word)),
            Value::Array(Array::new(vec![text("bob"), text("25")], Level::Word)),
        ],
        Level::Line,
    ));
    let result = run_programme("c", input).unwrap();
    assert_eq!(render_value(&result), "name  age\nalice 30\nbob   25");
}

#[test]
fn group_by_first_column() {
    let input = Value::Array(Array::new(
        vec![
            Value::Array(Array::new(vec![text("a"), Value::Number(1)], Level::Word)),
            Value::Array(Array::new(vec![text("b"), Value::Number(2)], Level::Word)),
            Value::Array(Array::new(vec![text("a"), Value::Number(3)], Level::Word)),
        ],
        Level::Line,
    ));
    let result = run_programme("g0", input).unwrap();
    assert_eq!(
        render_json(&result),
        r#"[["a",[["a",1],["a",3]]],["b",[["b",2]]]]"#
    );
}

#[test]
fn reverse_selection_reverses() {
    let input = Value::Array(Array::new(
        vec![Value::Number(1), Value::Number(2), Value::Number(3), Value::Number(4)],
        Level::Line,
    ));
    let result = run_programme("::-1", input).unwrap();
    assert_eq!(render_json(&result), "[4,3,2,1]");
}

#[test]
fn replace_rewrites_all_matches() {
    let input = lines(&["cat and cataract"]);
    let result = run_programme("r/cat/dog/", input).unwrap();
    assert_eq!(result, lines(&["dog and dogaract"]));
}

#[test]
fn matches_collects_per_row() {
    let input = lines(&["a1 b22 c", "no digits"]);
    let result = run_programme("m/[0-9]+/", input).unwrap();
    let expected = Value::Array(Array::new(
        vec![
            Value::Array(Array::new(vec![text("1"), text("22")], Level::Word)),
            Value::Array(Array::new(vec![], Level::Word)),
        ],
        Level::Line,
    ));
    assert_eq!(result, expected);
}

#[test]
fn partition_splits_rows_by_selection_hit() {
    let input = Value::Array(Array::new(
        vec![
            Value::Array(Array::new(vec![text("a"), text("b")], Level::Word)),
            text("scalar"),
            Value::Array(Array::new(vec![text("c")], Level::Word)),
        ],
        Level::Line,
    ));
    let result = run_programme("p1", input).unwrap();
    let expected = Value::Array(Array::new(
        vec![
            Value::Array(Array::new(
                vec![Value::Array(Array::new(vec![text("a"), text("b")], Level::Word))],
                Level::Line,
            )),
            Value::Array(Array::new(
                vec![
                    text("scalar"),
                    Value::Array(Array::new(vec![text("c")], Level::Word)),
                ],
                Level::Line,
            )),
        ],
        Level::Line,
    ));
    assert_eq!(result, expected);
}

#[test]
fn count_on_non_array_is_identity() {
    assert_eq!(run_programme("#", text("plain")).unwrap(), text("plain"));
    assert_eq!(
        run_programme("#", lines(&["a", "b"])).unwrap(),
        Value::Number(2)
    );
}

#[test]
fn empty_inputs_flow_through() {
    let empty = Value::Array(Array::new(vec![], Level::Line));
    assert_eq!(
        run_programme("sjludo", empty).unwrap(),
        Value::Array(Array::new(vec![], Level::Line))
    );
    let empty_text = lines(&[""]);
    let result = run_programme("s", empty_text).unwrap();
    assert_eq!(
        result,
        Value::Array(Array::new(
            vec![Value::Array(Array::new(vec![], Level::Word))],
            Level::Line,
        ))
    );
}

#[test]
fn zero_step_slice_is_a_compile_error() {
    let programme = parse_programme("::0").unwrap();
    match compile(programme) {
        Err(Error::Compile { .. }) => {}
        _ => panic!("expected a compile error"),
    }
}

#[test]
fn invalid_regex_is_a_parse_error_at_first_pattern_character() {
    match parse_programme("/[ab/") {
        Err(Error::Parse { offset, .. }) => assert_eq!(offset, 1),
        _ => panic!("expected a parse error"),
    }
    match parse_programme("s/*x/") {
        Err(Error::Parse { offset, .. }) => assert_eq!(offset, 2),
        _ => panic!("expected a parse error"),
    }
}

#[test]
fn parse_errors_carry_offsets() {
    match parse_programme("s?") {
        Err(Error::Parse { offset, .. }) => assert_eq!(offset, 1),
        _ => panic!("expected a parse error"),
    }
    match parse_programme("/abc") {
        Err(Error::Parse { offset, .. }) => assert_eq!(offset, 0),
        _ => panic!("expected a parse error"),
    }
    assert!(parse_programme("").unwrap().operators.is_empty());
}

#[test]
fn regex_engine_features() {
    let compile_pattern = |p: &str| {
        let cs: Vec<char> = p.chars().collect();
        Pattern::compile(&cs).unwrap()
    };
    let matches = |p: &str, t: &str| {
        let cs: Vec<char> = t.chars().collect();
        compile_pattern(p).is_match(&cs)
    };
    assert!(matches("b.g", "a big dog"));
    assert!(matches("^abc", "abcdef"));
    assert!(!matches("^bcd", "abcdef"));
    assert!(matches("def$", "abcdef"));
    assert!(!matches("abc$", "abcdef"));
    assert!(matches("[a-c]x", "the cx"));
    assert!(!matches("[^a-c]x", "the cx ax bx"));
    assert!(matches("ab*c", "ac abbc"));
    assert!(matches("ab+c", "abbbc"));
    assert!(!matches("ab+c", "ac"));
    assert!(matches("ab?c", "abc"));
    assert!(matches(r"a\.b", "x a.b"));
    assert!(!matches(r"a\.b", "x aXb"));

    let invalid: Vec<char> = "[abc".chars().collect();
    assert!(Pattern::compile(&invalid).is_none());
    let dangling: Vec<char> = "*a".chars().collect();
    assert!(Pattern::compile(&dangling).is_none());
    let trailing: Vec<char> = "ab\\".chars().collect();
    assert!(Pattern::compile(&trailing).is_none());
}

#[test]
fn json_rendering_escapes_text() {
    let v = Value::Array(Array::new(
        vec![text("say \"hi\""), Value::Number(-3)],
        Level::Line,
    ));
    assert_eq!(render_json(&v), r#"["say \"hi\"",-3]"#);
}

#[test]
fn csv_split_differs_from_plain_split() {
    // The CSV reader honours quotes, so this would fail if the field parser
    // handed the line back unchanged.
    let input = lines(&[r#"x,"a,b""#]);
    let result = Split::new(SplitMode::Csv).apply(input).unwrap();
    let expected = Value::Array(Array::new(
        vec![Value::Array(Array::new(
            vec![text("x"), text("a,b")],
            Level::Word,
        ))],
        Level::Line,
    ));
    assert_eq!(result, expected);
}

#[test]
fn separators_and_focus_operators_change_nothing() {
    let input = lines(&["a", "b"]);
    let result = run_programme(";@^", input).unwrap();
    assert_eq!(result, lines(&["a", "b"]));
}

#[test]
fn compute_depth_follows_descend_and_ascend() {
    assert_eq!(compute_depth(&parse_programme("@@^").unwrap()), 1);
    assert_eq!(compute_depth(&parse_programme("^^").unwrap()), 0);
    assert_eq!(compute_depth(&parse_programme("s@").unwrap()), 1);
}

#[test]
fn truncate_line_cuts_with_ellipsis() {
    assert_eq!(InteractiveMode::truncate_line("short", 10), "short");
    assert_eq!(InteractiveMode::truncate_line("a long line", 8), "a lon...");
    assert_eq!(InteractiveMode::truncate_line("abcdef", 2), "ab");
}

#[test]
fn editor_keys_edit_the_line() {
    let input = Array::new(vec![], Level::Line);
    let mut session = InteractiveMode::new(input, false, 0);
    assert_eq!(session.handle_key(KeyInput::Char('s')), KeyAction::Continue);
    assert_eq!(session.handle_key(KeyInput::Char('j')), KeyAction::Continue);
    assert_eq!(session.programme, "sj");
    assert_eq!(session.handle_key(KeyInput::Left), KeyAction::Continue);
    assert_eq!(session.handle_key(KeyInput::Backspace), KeyAction::Continue);
    assert_eq!(session.programme, "j");
    assert_eq!(session.handle_key(KeyInput::Ctrl('j')), KeyAction::Continue);
    assert!(session.json_output);
    assert_eq!(session.handle_key(KeyInput::Enter), KeyAction::Commit);
    assert_eq!(session.handle_key(KeyInput::Esc), KeyAction::Cancel);
}

#[test]
fn preview_reports_parse_error_and_runs_prefix() {
    let input = Array::new(vec![text("Hello"), text("World")], Level::Line);
    let mut session = InteractiveMode::new(input, false, 0);
    session.programme = "l?".to_string();
    let (value, depth, err) = session.try_execute(10);
    assert_eq!(depth, 0);
    assert!(err.is_some());
    // The longest parsing prefix `l` still ran.
    assert_eq!(value, Value::Array(Array::new(vec![text("hello"), text("world")], Level::Line)));
}

#[test]
fn error_rendering_points_at_the_offset() {
    let err = match parse_programme("s?") {
        Err(e) => e,
        Ok(_) => panic!("expected a parse error"),
    };
    let (offset, message) = parse_error_info(&err);
    assert_eq!(offset, 1);
    assert!(!message.is_empty());
    let rendered = err.render("s?");
    assert!(rendered.contains('^'));
    assert!(rendered.contains("s?"));
}

#[test]
fn help_text_lists_operators() {
    assert_eq!(help_line_count(), 19);
    let body = help_text();
    assert!(body.contains("Operators:"));
    assert!(body.contains("split on whitespace"));
    assert!(body.contains("columnate"));
}

#[test]
fn sum_and_count_pipeline() {
    let input = lines(&["10", "20", "12"]);
    assert_eq!(run_programme("+", input).unwrap(), Value::Number(42));
    assert_eq!(
        run_programme("#", lines(&["a", "b", "c"])).unwrap(),
        Value::Number(3)
    );
}

#[test]
fn dedupe_keyed_by_selection_pipeline() {
    let input = Value::Array(Array::new(
        vec![
            Value::Array(Array::new(vec![text("a"), Value::Number(1)], Level::Word)),
            Value::Array(Array::new(vec![text("b"), Value::Number(2)], Level::Word)),
            Value::Array(Array::new(vec![text("a"), Value::Number(3)], Level::Word)),
        ],
        Level::Line,
    ));
    let result = run_programme("D0", input).unwrap();
    assert_eq!(render_value(&result), "2 a\n1 b");
}
