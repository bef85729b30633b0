use tpipe::operators::split::{Split, SplitDelim, SplitMode};
use tpipe::value::{Array, Level, Value};

fn text(s: &str) -> Value {
    Value::Text(s.to_string())
}

fn line_array(lines: &[&str]) -> Value {
    Value::Array(Array::new(
        lines.iter().map(|s| text(s)).collect(),
        Level::Line,
    ))
}

#[test]
fn split_bare_text_into_chars() {
    // Bare text is treated as a word and split into chars
    let result = Split::default().apply(text("hello")).unwrap();
    match result {
        Value::Array(arr) => {
            assert_eq!(arr.level, Level::Char);
            assert_eq!(arr.len(), 5);
            assert_eq!(arr.elements[0], text("h"));
            assert_eq!(arr.elements[4], text("o"));
        }
        _ => panic!("expected array"),
    }
}

#[test]
fn split_line_into_words() {
    // Text inside a line array is split into words
    let input = line_array(&["hello world"]);
    let result = Split::default().apply(input).unwrap();
    match result {
        Value::Array(arr) => {
            assert_eq!(arr.level, Level::Line);
            assert_eq!(arr.len(), 1);
            match &arr.elements[0] {
                Value::Array(inner) => {
                    assert_eq!(inner.level, Level::Word);
                    assert_eq!(inner.len(), 2);
                    assert_eq!(inner.elements[0], text("hello"));
                    assert_eq!(inner.elements[1], text("world"));
                }
                _ => panic!("expected inner array"),
            }
        }
        _ => panic!("expected array"),
    }
}

#[test]
fn split_array_of_lines() {
    let input = line_array(&["hello world", "foo bar baz"]);
    let result = Split::default().apply(input).unwrap();

    match result {
        Value::Array(arr) => {
            assert_eq!(arr.len(), 2);
            match &arr.elements[0] {
                Value::Array(inner) => {
                    assert_eq!(inner.len(), 2);
                    assert_eq!(inner.elements[0], text("hello"));
                }
                _ => panic!("expected inner array"),
            }
            match &arr.elements[1] {
                Value::Array(inner) => {
                    assert_eq!(inner.len(), 3);
                }
                _ => panic!("expected inner array"),
            }
        }
        _ => panic!("expected array"),
    }
}

#[test]
fn split_with_delimiter() {
    let input = line_array(&["a,b,c"]);
    let result = Split::new(SplitMode::Delimiter(",".to_string()))
        .apply(input)
        .unwrap();
    match result {
        Value::Array(arr) => {
            assert_eq!(arr.len(), 1);
            match &arr.elements[0] {
                Value::Array(inner) => {
                    assert_eq!(inner.len(), 3);
                    assert_eq!(inner.elements[0], text("a"));
                    assert_eq!(inner.elements[1], text("b"));
                    assert_eq!(inner.elements[2], text("c"));
                }
                _ => panic!("expected inner array"),
            }
        }
        _ => panic!("expected array"),
    }
}

#[test]
fn split_csv_simple() {
    let input = line_array(&["a,b,c"]);
    let result = Split::new(SplitMode::Csv).apply(input).unwrap();
    match result {
        Value::Array(arr) => {
            assert_eq!(arr.len(), 1);
            match &arr.elements[0] {
                Value::Array(inner) => {
                    assert_eq!(inner.len(), 3);
                    assert_eq!(inner.elements[0], text("a"));
                    assert_eq!(inner.elements[1], text("b"));
                    assert_eq!(inner.elements[2], text("c"));
                }
                _ => panic!("expected inner array"),
            }
        }
        _ => panic!("expected array"),
    }
}

#[test]
fn split_csv_quoted_fields() {
    let input = line_array(&[r#"a,"b,c",d"#]);
    let result = Split::new(SplitMode::Csv).apply(input).unwrap();
    match result {
        Value::Array(arr) => {
            assert_eq!(arr.len(), 1);
            match &arr.elements[0] {
                Value::Array(inner) => {
                    assert_eq!(inner.len(), 3);
                    assert_eq!(inner.elements[0], text("a"));
                    assert_eq!(inner.elements[1], text("b,c"));
                    assert_eq!(inner.elements[2], text("d"));
                }
                _ => panic!("expected inner array"),
            }
        }
        _ => panic!("expected array"),
    }
}

#[test]
fn split_csv_quoted_with_quotes() {
    let input = line_array(&[r#"a,"b""c",d"#]);
    let result = Split::new(SplitMode::Csv).apply(input).unwrap();
    match result {
        Value::Array(arr) => {
            assert_eq!(arr.len(), 1);
            match &arr.elements[0] {
                Value::Array(inner) => {
                    assert_eq!(inner.len(), 3);
                    assert_eq!(inner.elements[0], text("a"));
                    assert_eq!(inner.elements[1], text(r#"b"c"#));
                    assert_eq!(inner.elements[2], text("d"));
                }
                _ => panic!("expected inner array"),
            }
        }
        _ => panic!("expected array"),
    }
}

#[test]
fn split_csv_empty() {
    let input = line_array(&[""]);
    let result = Split::new(SplitMode::Csv).apply(input).unwrap();
    match result {
        Value::Array(arr) => {
            assert_eq!(arr.len(), 1);
            match &arr.elements[0] {
                Value::Array(inner) => {
                    assert_eq!(inner.len(), 0);
                }
                _ => panic!("expected inner array"),
            }
        }
        _ => panic!("expected array"),
    }
}

#[test]
fn split_delim_comma() {
    let input = text("a,b,c");
    let result = SplitDelim::new(",".to_string()).apply(input).unwrap();
    match result {
        Value::Array(arr) => {
            assert_eq!(arr.len(), 3);
            assert_eq!(arr.elements[0], text("a"));
            assert_eq!(arr.elements[1], text("b"));
            assert_eq!(arr.elements[2], text("c"));
        }
        _ => panic!("expected array"),
    }
}

#[test]
fn split_delim_multi_char() {
    let input = text("a::b::c");
    let result = SplitDelim::new("::".to_string()).apply(input).unwrap();
    match result {
        Value::Array(arr) => {
            assert_eq!(arr.len(), 3);
            assert_eq!(arr.elements[0], text("a"));
            assert_eq!(arr.elements[1], text("b"));
            assert_eq!(arr.elements[2], text("c"));
        }
        _ => panic!("expected array"),
    }
}

#[test]
fn split_delim_no_match() {
    let input = text("hello world");
    let result = SplitDelim::new(",".to_string()).apply(input).unwrap();
    match result {
        Value::Array(arr) => {
            assert_eq!(arr.len(), 1);
            assert_eq!(arr.elements[0], text("hello world"));
        }
        _ => panic!("expected array"),
    }
}

#[test]
fn split_delim_empty_parts() {
    let input = text("a,,b");
    let result = SplitDelim::new(",".to_string()).apply(input).unwrap();
    match result {
        Value::Array(arr) => {
            assert_eq!(arr.len(), 3);
            assert_eq!(arr.elements[0], text("a"));
            assert_eq!(arr.elements[1], text(""));
            assert_eq!(arr.elements[2], text("b"));
        }
        _ => panic!("expected array"),
    }
}

#[test]
fn split_delim_array_of_strings() {
    let input = line_array(&["a,b", "c,d,e"]);
    let result = SplitDelim::new(",".to_string()).apply(input).unwrap();
    match result {
        Value::Array(arr) => {
            assert_eq!(arr.len(), 2);
            match &arr.elements[0] {
                Value::Array(inner) => {
                    assert_eq!(inner.len(), 2);
                    assert_eq!(inner.elements[0], text("a"));
                    assert_eq!(inner.elements[1], text("b"));
                }
                _ => panic!("expected inner array"),
            }
            match &arr.elements[1] {
                Value::Array(inner) => {
                    assert_eq!(inner.len(), 3);
                }
                _ => panic!("expected inner array"),
            }
        }
        _ => panic!("expected array"),
    }
}

#[test]
fn split_delim_preserves_numbers() {
    let input = Value::Number(42);
    let result = SplitDelim::new(",".to_string()).apply(input).unwrap();
    assert_eq!(result, Value::Number(42));
}
