use tpipe::ast::{SelectItem, Selection};
use tpipe::operators::caseops::{CaseKind, CaseOp};
use tpipe::operators::dedupe::{value_to_key, DedupeWithCounts};
use tpipe::operators::filter::DeleteEmpty;
use tpipe::operators::fold::{Count, Sum};
use tpipe::operators::join::Join;
use tpipe::operators::pick::Select;
use tpipe::operators::sort::Sort;
use tpipe::operators::split::SplitDelim;
use tpipe::render::{i64_to_string, render_value};
use tpipe::value::{Array, Level, Value};

fn text(s: &str) -> Value {
    Value::Text(s.to_string())
}

fn nested_sample() -> Value {
    Value::Array(Array::new(
        vec![
            text("alpha"),
            Value::Number(-42),
            Value::Array(Array::new(vec![text("x"), Value::Number(7)], Level::Word)),
        ],
        Level::Line,
    ))
}

#[test]
fn deep_copy_equals_original() {
    let original = nested_sample();
    let copy = original.deep_copy();
    assert_eq!(copy, original);
}

#[test]
fn deep_copy_mutation_leaves_original() {
    let original = nested_sample();
    let copy = original.deep_copy();
    if let Value::Array(mut arr) = copy {
        arr.elements.push(text("extra"));
        if let Value::Array(orig) = &original {
            assert_eq!(orig.elements.len(), 3);
            assert_eq!(arr.elements.len(), 4);
        } else {
            panic!("expected array");
        }
    } else {
        panic!("expected array");
    }
}

#[test]
fn truncated_copy_is_prefix() {
    let arr = Array::new(
        vec![text("a"), text("b"), text("c"), text("d")],
        Level::Line,
    );
    let t = arr.truncated_copy(2);
    assert_eq!(t.level, Level::Line);
    assert_eq!(t.elements, vec![text("a"), text("b")]);
    let all = arr.truncated_copy(10);
    assert_eq!(all.elements.len(), 4);
}

#[test]
fn join_inverts_split_on_default_delimiter() {
    // A word-level split on " " joined back with the word delimiter
    // gives back the original rows.
    let input = Value::Array(Array::new(
        vec![text("one two three"), text("four"), text("")],
        Level::Line,
    ));
    let split = SplitDelim::new(" ".to_string()).apply(input).unwrap();
    let joined = Join::new(None).apply(split).unwrap();
    let expected = Value::Array(Array::new(
        vec![text("one two three"), text("four"), text("")],
        Level::Line,
    ));
    assert_eq!(joined, expected);
}

#[test]
fn lowercase_and_uppercase_are_idempotent() {
    let input = || {
        Value::Array(Array::new(
            vec![text("MiXeD"), text("Case Words"), Value::Number(5)],
            Level::Line,
        ))
    };
    let lower = CaseOp::new(CaseKind::Lower, None);
    let once = lower.apply(input()).unwrap();
    let twice = lower.apply(lower.apply(input()).unwrap()).unwrap();
    assert_eq!(once, twice);
    assert_eq!(
        once,
        Value::Array(Array::new(
            vec![text("mixed"), text("case words"), Value::Number(5)],
            Level::Line,
        ))
    );

    let upper = CaseOp::new(CaseKind::Upper, None);
    let up_once = upper.apply(input()).unwrap();
    let up_twice = upper.apply(upper.apply(input()).unwrap()).unwrap();
    assert_eq!(up_once, up_twice);
}

#[test]
fn trim_is_idempotent() {
    let input = || text("  padded text \t ");
    let trim = CaseOp::new(CaseKind::Trim, None);
    let once = trim.apply(input()).unwrap();
    let twice = trim.apply(trim.apply(input()).unwrap()).unwrap();
    assert_eq!(once, text("padded text"));
    assert_eq!(once, twice);
}

#[test]
fn sort_ascending_is_a_sorted_permutation() {
    let input = Value::Array(Array::new(
        vec![text("pear"), Value::Number(3), text("apple"), Value::Number(-1)],
        Level::Line,
    ));
    let sorted = Sort::new(true).apply(input).unwrap();
    // Numbers come before text; both kinds in order.
    let expected = Value::Array(Array::new(
        vec![Value::Number(-1), Value::Number(3), text("apple"), text("pear")],
        Level::Line,
    ));
    assert_eq!(sorted, expected);
}

#[test]
fn sort_ascending_after_descending_equals_ascending() {
    let input = || {
        Value::Array(Array::new(
            vec![Value::Number(2), Value::Number(9), Value::Number(2), Value::Number(-4)],
            Level::Line,
        ))
    };
    let asc = Sort::new(true);
    let desc = Sort::new(false);
    let via_desc = asc.apply(desc.apply(input()).unwrap()).unwrap();
    let direct = asc.apply(input()).unwrap();
    assert_eq!(via_desc, direct);
}

#[test]
fn dedupe_counts_sum_to_length_and_one_row_per_distinct() {
    let input = Value::Array(Array::new(
        vec![text("a"), text("b"), text("a"), text("c"), text("b"), text("a")],
        Level::Line,
    ));
    let result = DedupeWithCounts.apply(input).unwrap();
    match result {
        Value::Array(arr) => {
            assert_eq!(arr.len(), 3); // distinct values
            let mut sum = 0;
            for row in &arr.elements {
                match row {
                    Value::Array(inner) => match inner.elements[0] {
                        Value::Number(n) => sum += n,
                        _ => panic!("expected count"),
                    },
                    _ => panic!("expected inner array"),
                }
            }
            assert_eq!(sum, 6); // original length
        }
        _ => panic!("expected array"),
    }
}

#[test]
fn count_equals_length_and_scalar_unchanged() {
    let input = Value::Array(Array::new(
        vec![text("a"), text("b"), text("c")],
        Level::Line,
    ));
    assert_eq!(Count.apply(input).unwrap(), Value::Number(3));
    assert_eq!(Count.apply(text("hello")).unwrap(), text("hello"));
    assert_eq!(Count.apply(Value::Number(9)).unwrap(), Value::Number(9));
}

#[test]
fn sum_of_empty_is_zero_and_text_coerces() {
    let empty = Value::Array(Array::new(vec![], Level::Line));
    assert_eq!(Sum.apply(empty).unwrap(), Value::Number(0));

    let mixed = Value::Array(Array::new(
        vec![text("30"), text("25"), text("oops"), Value::Number(5), text("-10")],
        Level::Line,
    ));
    assert_eq!(Sum.apply(mixed).unwrap(), Value::Number(50));
}

#[test]
fn select_reverse_and_identity_slices() {
    let input = || {
        Value::Array(Array::new(
            vec![Value::Number(1), Value::Number(2), Value::Number(3), Value::Number(4)],
            Level::Line,
        ))
    };
    let rev = Select::new(Selection {
        items: vec![SelectItem::Slice { start: None, end: None, step: Some(-1) }],
    });
    let reversed = rev.apply(input()).unwrap();
    assert_eq!(
        reversed,
        Value::Array(Array::new(
            vec![Value::Number(4), Value::Number(3), Value::Number(2), Value::Number(1)],
            Level::Line,
        ))
    );

    let ident = Select::new(Selection {
        items: vec![SelectItem::Slice { start: None, end: None, step: Some(1) }],
    });
    assert_eq!(ident.apply(input()).unwrap(), input());
}

#[test]
fn selection_boundaries_skip_and_clamp() {
    let input = || {
        Value::Array(Array::new(
            vec![text("a"), text("b"), text("c")],
            Level::Line,
        ))
    };
    // Out-of-range index is skipped silently.
    let none = Select::new(Selection { items: vec![SelectItem::Index(99)] });
    assert_eq!(
        none.apply(input()).unwrap(),
        Value::Array(Array::new(vec![], Level::Line))
    );
    // Negative index counts from the end.
    let last = Select::new(Selection { items: vec![SelectItem::Index(-1)] });
    assert_eq!(
        last.apply(input()).unwrap(),
        Value::Array(Array::new(vec![text("c")], Level::Line))
    );
    // Slice bounds clamp.
    let wide = Select::new(Selection {
        items: vec![SelectItem::Slice { start: Some(1), end: Some(100), step: None }],
    });
    assert_eq!(
        wide.apply(input()).unwrap(),
        Value::Array(Array::new(vec![text("b"), text("c")], Level::Line))
    );
}

#[test]
fn delete_empty_drops_empty_text_and_arrays() {
    let input = Value::Array(Array::new(
        vec![
            text(""),
            text("keep"),
            Value::Array(Array::new(vec![], Level::Word)),
            Value::Number(0),
        ],
        Level::Line,
    ));
    let result = DeleteEmpty.apply(input).unwrap();
    assert_eq!(
        result,
        Value::Array(Array::new(vec![text("keep"), Value::Number(0)], Level::Line))
    );
}

#[test]
fn number_rendering_is_canonical_decimal() {
    assert_eq!(i64_to_string(0), "0");
    assert_eq!(i64_to_string(42), "42");
    assert_eq!(i64_to_string(-42), "-42");
    assert_eq!(i64_to_string(i64::MAX), "9223372036854775807");
    assert_eq!(i64_to_string(i64::MIN), "-9223372036854775808");
}

#[test]
fn to_number_parses_integers_and_keeps_other_text() {
    let op = CaseOp::new(CaseKind::ToNumber, None);
    assert_eq!(op.apply(text("42")).unwrap(), Value::Number(42));
    assert_eq!(op.apply(text("-7")).unwrap(), Value::Number(-7));
    assert_eq!(op.apply(text("4x2")).unwrap(), text("4x2"));
    assert_eq!(op.apply(text("")).unwrap(), text(""));
}

#[test]
fn render_joins_by_level_delimiters() {
    let v = Value::Array(Array::new(
        vec![
            Value::Array(Array::new(vec![text("a"), text("b")], Level::Word)),
            Value::Array(Array::new(vec![text("c"), Value::Number(7)], Level::Word)),
        ],
        Level::Line,
    ));
    assert_eq!(render_value(&v), "a b\nc 7");
}

#[test]
fn value_keys_distinguish_kinds() {
    assert_eq!(value_to_key(&text("5")), "T:5");
    assert_eq!(value_to_key(&Value::Number(5)), "N:5");
    let arr = Value::Array(Array::new(vec![text("a"), Value::Number(1)], Level::Word));
    assert_eq!(value_to_key(&arr), "A:[T:a,N:1]");
}

#[test]
fn selected_case_applies_only_at_positions() {
    let row = Value::Array(Array::new(
        vec![text("One"), text("Two"), text("Three")],
        Level::Word,
    ));
    let input = Value::Array(Array::new(vec![row], Level::Line));
    let op = CaseOp::new(
        CaseKind::Upper,
        Some(Selection { items: vec![SelectItem::Index(1)] }),
    );
    let result = op.apply(input).unwrap();
    let expected = Value::Array(Array::new(
        vec![Value::Array(Array::new(
            vec![text("One"), text("TWO"), text("Three")],
            Level::Word,
        ))],
        Level::Line,
    ));
    assert_eq!(result, expected);
}
