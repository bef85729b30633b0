use tpipe::operators::columnate::Columnate;
use tpipe::value::{Array, Level, Value};

fn text(s: &str) -> Value {
    Value::Text(s.to_string())
}

fn row(cells: Vec<&str>) -> Value {
    Value::Array(Array::new(cells.into_iter().map(text).collect(), Level::Word))
}

#[test]
fn columnate_basic() {
    let input = Value::Array(Array::new(
        vec![
            Value::Array(Array::new(vec![text("name"), text("age")], Level::Word)),
            Value::Array(Array::new(vec![text("alice"), text("30")], Level::Word)),
            Value::Array(Array::new(vec![text("bob"), text("25")], Level::Word)),
        ],
        Level::Line,
    ));
    let result = Columnate.apply(input).unwrap();
    let expected = Value::Array(Array::new(
        vec![
            row(vec!["name ", "age"]),
            row(vec!["alice", "30"]),
            row(vec!["bob  ", "25"]),
        ],
        Level::Line,
    ));
    assert_eq!(result, expected);
}

#[test]
fn columnate_varying_widths() {
    let input = Value::Array(Array::new(
        vec![
            Value::Array(Array::new(
                vec![text("a"), text("bb"), text("ccc")],
                Level::Word,
            )),
            Value::Array(Array::new(
                vec![text("dddd"), text("e"), text("ff")],
                Level::Word,
            )),
        ],
        Level::Line,
    ));
    let result = Columnate.apply(input).unwrap();
    let expected = Value::Array(Array::new(
        vec![
            row(vec!["a   ", "bb", "ccc"]),
            row(vec!["dddd", "e ", "ff"]),
        ],
        Level::Line,
    ));
    assert_eq!(result, expected);
}

#[test]
fn columnate_single_row() {
    let input = Value::Array(Array::new(
        vec![Value::Array(Array::new(
            vec![text("one"), text("two"), text("three")],
            Level::Word,
        ))],
        Level::Line,
    ));
    let result = Columnate.apply(input).unwrap();
    let expected = Value::Array(Array::new(
        vec![row(vec!["one", "two", "three"])],
        Level::Line,
    ));
    assert_eq!(result, expected);
}

#[test]
fn columnate_single_column() {
    let input = Value::Array(Array::new(
        vec![
            Value::Array(Array::new(vec![text("first")], Level::Word)),
            Value::Array(Array::new(vec![text("second")], Level::Word)),
            Value::Array(Array::new(vec![text("third")], Level::Word)),
        ],
        Level::Line,
    ));
    let result = Columnate.apply(input).unwrap();
    let expected = Value::Array(Array::new(
        vec![row(vec!["first"]), row(vec!["second"]), row(vec!["third"])],
        Level::Line,
    ));
    assert_eq!(result, expected);
}

#[test]
fn columnate_empty_array() {
    let input = Value::Array(Array::new(vec![], Level::Line));
    let result = Columnate.apply(input).unwrap();
    let expected = Value::Array(Array::new(vec![], Level::Line));
    assert_eq!(result, expected);
}

#[test]
fn columnate_with_numbers() {
    let input = Value::Array(Array::new(
        vec![
            Value::Array(Array::new(
                vec![text("count"), text("value")],
                Level::Word,
            )),
            Value::Array(Array::new(
                vec![Value::Number(42), text("foo")],
                Level::Word,
            )),
            Value::Array(Array::new(
                vec![Value::Number(7), text("bar")],
                Level::Word,
            )),
        ],
        Level::Line,
    ));
    let result = Columnate.apply(input).unwrap();
    let expected = Value::Array(Array::new(
        vec![
            row(vec!["count", "value"]),
            row(vec!["42   ", "foo"]),
            row(vec!["7    ", "bar"]),
        ],
        Level::Line,
    ));
    assert_eq!(result, expected);
}

#[test]
fn columnate_uneven_rows() {
    let input = Value::Array(Array::new(
        vec![
            Value::Array(Array::new(
                vec![text("a"), text("b"), text("c")],
                Level::Word,
            )),
            Value::Array(Array::new(vec![text("d"), text("e")], Level::Word)),
            Value::Array(Array::new(vec![text("f")], Level::Word)),
        ],
        Level::Line,
    ));
    let result = Columnate.apply(input).unwrap();
    let expected = Value::Array(Array::new(
        vec![
            row(vec!["a", "b", "c"]),
            row(vec!["d", "e"]),
            row(vec!["f"]),
        ],
        Level::Line,
    ));
    assert_eq!(result, expected);
}

#[test]
fn columnate_non_array_rows() {
    let input = Value::Array(Array::new(
        vec![text("hello"), text("world")],
        Level::Line,
    ));
    let result = Columnate.apply(input).unwrap();
    let expected = Value::Array(Array::new(
        vec![row(vec!["hello"]), row(vec!["world"])],
        Level::Line,
    ));
    assert_eq!(result, expected);
}

#[test]
fn columnate_non_array_is_identity() {
    let input = text("hello");
    let result = Columnate.apply(input).unwrap();
    assert_eq!(result, text("hello"));
}
