use tpipe::error::Error;
use tpipe::history::History;
use tpipe::jsonout::count_json_preview_lines;
use tpipe::textui::format_text_with_depth;
use tpipe::interp::{compile, run, Context};
use tpipe::operators::caseops::{CaseKind, CaseOp};
use tpipe::operators::fold::Sum;
use tpipe::operators::split::{split_text, SplitMode};
use tpipe::parser::parse_programme;
use tpipe::render::render_value;
use tpipe::textui::count_output_lines;
use tpipe::value::{Array, Level, Value};

fn text(s: &str) -> Value {
    Value::Text(s.to_string())
}

fn lines(items: &[&str]) -> Value {
    Value::Array(Array::new(
        items.iter().map(|s| text(s)).collect(),
        Level::Line,
    ))
}

fn run_programme(prog: &str, input: Value) -> Result<Value, Error> {
    let programme = parse_programme(prog)?;
    let ops = compile(programme)?;
    let mut ctx = Context::new(input);
    run(&ops, &mut ctx)?;
    Ok(ctx.into_value())
}

#[test]
fn join_with_explicit_delimiter() {
    let input = lines(&["a b c"]);
    let result = run_programme("sJ-", input).unwrap();
    assert_eq!(result, lines(&["a-b-c"]));
}

#[test]
fn escaped_delimiter_in_programme() {
    // `\s` escapes the operator character, so the delimiter is a literal s.
    let input = lines(&["AsB"]);
    let result = run_programme("S\\s", input).unwrap();
    let expected = Value::Array(Array::new(
        vec![Value::Array(Array::new(
            vec![text("A"), text("B")],
            Level::Word,
        ))],
        Level::Line,
    ));
    assert_eq!(result, expected);
}

#[test]
fn history_add_trims_before_comparing() {
    let mut history = History::from_entries(vec!["first".to_string()]);
    history.add("  first  ");
    assert_eq!(history.entries.len(), 1);
    history.add(" second ");
    assert_eq!(history.entries, vec!["first".to_string(), "second".to_string()]);
}

#[test]
fn highlight_wraps_first_element_in_bold() {
    let v = Value::Array(Array::new(
        vec![Value::Array(Array::new(
            vec![text("one"), text("two")],
            Level::Word,
        ))],
        Level::Line,
    ));
    let plain = format_text_with_depth(&v, 0);
    assert_eq!(plain, vec!["one two".to_string()]);
    let deep = format_text_with_depth(&v, 1);
    assert_eq!(deep, vec!["\u{1b}[1mone\u{1b}[0m two".to_string()]);
}

#[test]
fn file_level_split_strips_carriage_returns() {
    let v = split_text("a\r\nb\nc\r\n", Level::File, &SplitMode::Whitespace);
    let expected = Value::Array(Array::new(
        vec![text("a"), text("b"), text("c")],
        Level::Line,
    ));
    assert_eq!(v, expected);
    // A bare trailing carriage return is kept, as str::lines keeps it.
    let tail = split_text("a\r", Level::File, &SplitMode::Whitespace);
    assert_eq!(
        tail,
        Value::Array(Array::new(vec![text("a\r")], Level::Line))
    );
}

#[test]
fn output_lines_counts_text_lines() {
    assert_eq!(count_output_lines(&text("a\nb\nc")), 3);
    assert_eq!(count_output_lines(&text("a\nb\n")), 2);
    assert_eq!(count_output_lines(&text("")), 1);
    assert_eq!(count_output_lines(&Value::Number(9)), 1);
    assert_eq!(count_output_lines(&lines(&["x", "y"])), 2);
}

#[test]
fn replace_at_selected_positions_only() {
    let input = Value::Array(Array::new(
        vec![Value::Array(Array::new(
            vec![text("aa"), text("aa")],
            Level::Word,
        ))],
        Level::Line,
    ));
    let result = run_programme("r0/a/b/", input).unwrap();
    let expected = Value::Array(Array::new(
        vec![Value::Array(Array::new(
            vec![text("bb"), text("aa")],
            Level::Word,
        ))],
        Level::Line,
    ));
    assert_eq!(result, expected);
}

#[test]
fn sum_saturates_at_the_integer_limits() {
    let input = Value::Array(Array::new(
        vec![Value::Number(i64::MAX), Value::Number(1), Value::Number(-1)],
        Level::Line,
    ));
    // The first addition clamps at the top; the final step comes back down.
    assert_eq!(Sum.apply(input).unwrap(), Value::Number(i64::MAX - 1));
}

#[test]
fn to_number_rejects_out_of_range_integers() {
    let op = CaseOp::new(CaseKind::ToNumber, None);
    assert_eq!(
        op.apply(text("9223372036854775807")).unwrap(),
        Value::Number(i64::MAX)
    );
    assert_eq!(
        op.apply(text("-9223372036854775808")).unwrap(),
        Value::Number(i64::MIN)
    );
    assert_eq!(
        op.apply(text("9223372036854775808")).unwrap(),
        text("9223372036854775808")
    );
}

#[test]
fn uppercase_selected_through_the_parser() {
    let input = Value::Array(Array::new(
        vec![Value::Array(Array::new(
            vec![text("one"), text("two")],
            Level::Word,
        ))],
        Level::Line,
    ));
    let result = run_programme("U1", input).unwrap();
    assert_eq!(render_value(&result), "one TWO");
}

#[test]
fn multiple_selection_items_concatenate() {
    let input = lines(&["a", "b", "c", "d"]);
    let result = run_programme("0,2:4", input).unwrap();
    assert_eq!(result, lines(&["a", "c", "d"]));
}

#[test]
fn json_preview_line_budget() {
    let v = lines(&["a", "b", "c"]);
    assert_eq!(count_json_preview_lines(&v, 10), 5);
    assert_eq!(count_json_preview_lines(&v, 4), 4);
    assert_eq!(count_json_preview_lines(&text("x"), 10), 1);
}

#[test]
fn sort_orders_arrays_lexicographically() {
    let input = Value::Array(Array::new(
        vec![
            Value::Array(Array::new(vec![Value::Number(2), text("b")], Level::Word)),
            Value::Array(Array::new(vec![Value::Number(1), text("z")], Level::Word)),
            Value::Array(Array::new(vec![Value::Number(1), text("a")], Level::Word)),
        ],
        Level::Line,
    ));
    let result = run_programme("O", input).unwrap();
    assert_eq!(render_value(&result), "1 a\n1 z\n2 b");
}
