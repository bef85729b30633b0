use tpipe::ast::{SelectItem, Selection};
use tpipe::operators::dedupe::{DedupeSelectionWithCounts, DedupeWithCounts};
use tpipe::value::{Array, Level, Value};

fn text(s: &str) -> Value {
    Value::Text(s.to_string())
}

#[test]
fn dedupe_with_counts_basic() {
    let input = Value::Array(Array::new(
        vec![text("a"), text("b"), text("a"), text("a"), text("b")],
        Level::Line,
    ));
    let result = DedupeWithCounts.apply(input).unwrap();

    match result {
        Value::Array(arr) => {
            assert_eq!(arr.len(), 2);
            match &arr.elements[0] {
                Value::Array(inner) => {
                    assert_eq!(inner.len(), 2);
                    assert_eq!(inner.elements[0], Value::Number(3));
                    assert_eq!(inner.elements[1], text("a"));
                }
                _ => panic!("expected inner array"),
            }
            match &arr.elements[1] {
                Value::Array(inner) => {
                    assert_eq!(inner.len(), 2);
                    assert_eq!(inner.elements[0], Value::Number(2));
                    assert_eq!(inner.elements[1], text("b"));
                }
                _ => panic!("expected inner array"),
            }
        }
        _ => panic!("expected array"),
    }
}

#[test]
fn dedupe_with_counts_preserves_order_for_ties() {
    let input = Value::Array(Array::new(
        vec![text("x"), text("y"), text("z")],
        Level::Line,
    ));
    let result = DedupeWithCounts.apply(input).unwrap();

    match result {
        Value::Array(arr) => {
            assert_eq!(arr.len(), 3);
            match &arr.elements[0] {
                Value::Array(inner) => {
                    assert_eq!(inner.elements[1], text("x"));
                }
                _ => panic!("expected inner array"),
            }
            match &arr.elements[1] {
                Value::Array(inner) => {
                    assert_eq!(inner.elements[1], text("y"));
                }
                _ => panic!("expected inner array"),
            }
            match &arr.elements[2] {
                Value::Array(inner) => {
                    assert_eq!(inner.elements[1], text("z"));
                }
                _ => panic!("expected inner array"),
            }
        }
        _ => panic!("expected array"),
    }
}

#[test]
fn dedupe_with_counts_numbers() {
    let input = Value::Array(Array::new(
        vec![Value::Number(1), Value::Number(2), Value::Number(1)],
        Level::Line,
    ));
    let result = DedupeWithCounts.apply(input).unwrap();

    match result {
        Value::Array(arr) => {
            assert_eq!(arr.len(), 2);
            match &arr.elements[0] {
                Value::Array(inner) => {
                    assert_eq!(inner.elements[0], Value::Number(2));
                    assert_eq!(inner.elements[1], Value::Number(1));
                }
                _ => panic!("expected inner array"),
            }
        }
        _ => panic!("expected array"),
    }
}

#[test]
fn dedupe_with_counts_empty_array() {
    let input = Value::Array(Array::new(vec![], Level::Line));
    let result = DedupeWithCounts.apply(input).unwrap();

    match result {
        Value::Array(arr) => {
            assert!(arr.is_empty());
        }
        _ => panic!("expected array"),
    }
}

#[test]
fn dedupe_with_counts_non_array_is_identity() {
    let input = text("hello");
    let result = DedupeWithCounts.apply(input).unwrap();
    assert_eq!(result, text("hello"));
}

#[test]
fn dedupe_selection_with_counts_basic() {
    // Array of [key, value] pairs, dedupe by key (index 0)
    let input = Value::Array(Array::new(
        vec![
            Value::Array(Array::new(
                vec![text("a"), Value::Number(1)],
                Level::Word,
            )),
            Value::Array(Array::new(
                vec![text("b"), Value::Number(2)],
                Level::Word,
            )),
            Value::Array(Array::new(
                vec![text("a"), Value::Number(3)],
                Level::Word,
            )),
        ],
        Level::Line,
    ));
    let dedupe = DedupeSelectionWithCounts::new(Selection {
        items: vec![SelectItem::Index(0)],
    });
    let result = dedupe.apply(input).unwrap();

    match result {
        Value::Array(arr) => {
            assert_eq!(arr.len(), 2);
            // First result: count=2, key="a"
            match &arr.elements[0] {
                Value::Array(inner) => {
                    assert_eq!(inner.elements[0], Value::Number(2));
                    assert_eq!(inner.elements[1], text("a"));
                }
                _ => panic!("expected inner array"),
            }
            // Second result: count=1, key="b"
            match &arr.elements[1] {
                Value::Array(inner) => {
                    assert_eq!(inner.elements[0], Value::Number(1));
                    assert_eq!(inner.elements[1], text("b"));
                }
                _ => panic!("expected inner array"),
            }
        }
        _ => panic!("expected array"),
    }
}

#[test]
fn dedupe_selection_with_counts_preserves_order_for_ties() {
    let input = Value::Array(Array::new(
        vec![
            Value::Array(Array::new(vec![text("x"), text("1")], Level::Word)),
            Value::Array(Array::new(vec![text("y"), text("2")], Level::Word)),
            Value::Array(Array::new(vec![text("z"), text("3")], Level::Word)),
        ],
        Level::Line,
    ));
    let dedupe = DedupeSelectionWithCounts::new(Selection {
        items: vec![SelectItem::Index(0)],
    });
    let result = dedupe.apply(input).unwrap();

    match result {
        Value::Array(arr) => {
            assert_eq!(arr.len(), 3);
            // All have count 1, so order should be preserved
            match &arr.elements[0] {
                Value::Array(inner) => {
                    assert_eq!(inner.elements[1], text("x"));
                }
                _ => panic!("expected array"),
            }
            match &arr.elements[1] {
                Value::Array(inner) => {
                    assert_eq!(inner.elements[1], text("y"));
                }
                _ => panic!("expected array"),
            }
            match &arr.elements[2] {
                Value::Array(inner) => {
                    assert_eq!(inner.elements[1], text("z"));
                }
                _ => panic!("expected array"),
            }
        }
        _ => panic!("expected array"),
    }
}

#[test]
fn dedupe_selection_with_counts_empty_array() {
    let input = Value::Array(Array::new(vec![], Level::Line));
    let dedupe = DedupeSelectionWithCounts::new(Selection {
        items: vec![SelectItem::Index(0)],
    });
    let result = dedupe.apply(input).unwrap();

    match result {
        Value::Array(arr) => {
            assert!(arr.is_empty());
        }
        _ => panic!("expected array"),
    }
}

#[test]
fn dedupe_selection_with_counts_non_array_is_identity() {
    let input = text("hello");
    let dedupe = DedupeSelectionWithCounts::new(Selection {
        items: vec![SelectItem::Index(0)],
    });
    let result = dedupe.apply(input).unwrap();
    assert_eq!(result, text("hello"));
}
