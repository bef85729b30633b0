//! JSON rendering: text as a JSON string, a number as a JSON number, an
//! array as a JSON array; the level is dropped.

use vstd::prelude::*;
use crate::chars::push_char;
use crate::render::{int_to_dec, i64_to_string};
use crate::value::{Value, ValueSpec, view_seq, lemma_view_seq};


verus! {

/// The JSON string literal (quotes and escapes included) that stands for a
/// text; what the serializer emits depends on the characters alone.
pub uninterp spec fn json_text_of(s: Seq<char>) -> Seq<char>;

/// Relies on serde_json::to_string on a string slice: the JSON string
/// literal for the text; string serialization does not fail.
#[verifier::external_body]
fn json_escape(s: &str) -> (r: String)
    ensures
        r@ == json_text_of(s@),
{
    serde_json::to_string(s).unwrap_or_else(|_| String::new())
}

/// The JSON rendering of a value.
pub open spec fn json_spec(v: ValueSpec) -> Seq<char>
    decreases v, 0int,
{
    match v {
        ValueSpec::Text { chars } => json_text_of(chars),
        ValueSpec::Number { num } => int_to_dec(num),
        ValueSpec::Array { elems, level } => seq!['['] + json_elems(elems) + seq![']'],
    }
}

pub open spec fn json_elems(elems: Seq<ValueSpec>) -> Seq<char>
    decreases elems, 1int,
{
    if elems.len() == 0 {
        Seq::<char>::empty()
    } else if elems.len() == 1 {
        json_spec(elems.first())
    } else {
        json_spec(elems.first()) + seq![','] + json_elems(elems.drop_first())
    }
}

proof fn lemma_json_elems_snoc(elems: Seq<ValueSpec>)
    requires
        elems.len() >= 2,
    ensures
        json_elems(elems) == json_elems(elems.drop_last()) + seq![','] + json_spec(elems.last()),
    decreases elems.len(),
{
    if elems.len() == 2 {
        assert(elems.drop_first().len() == 1);
        assert(elems.drop_first().first() == elems.last());
        assert(elems.drop_last().len() == 1);
        assert(elems.drop_last().first() == elems.first());
        assert(json_elems(elems.drop_first()) == json_spec(elems.drop_first().first()));
        assert(json_elems(elems.drop_last()) == json_spec(elems.drop_last().first()));
        assert(json_elems(elems) =~= json_elems(elems.drop_last()) + seq![','] + json_spec(
            elems.last(),
        ));
    } else {
        lemma_json_elems_snoc(elems.drop_first());
        assert(elems.drop_first().drop_last() =~= elems.drop_last().drop_first());
        assert(elems.drop_first().last() == elems.last());
        assert(elems.drop_last().first() == elems.first());
        assert(json_elems(elems.drop_last()) == json_spec(elems.first()) + seq![','] + json_elems(
            elems.drop_last().drop_first(),
        ));
        assert(json_elems(elems) =~= json_elems(elems.drop_last()) + seq![','] + json_spec(
            elems.last(),
        ));
    }
}

/// Renders a value as compact JSON.
pub fn render_json(value: &Value) -> (r: String)
    ensures
        r@ == json_spec(value@),
    decreases value, 1int,
{
    match value {
        Value::Text(s) => json_escape(s.as_str()),
        Value::Number(n) => i64_to_string(*n),
        Value::Array(arr) => {
            proof {
                assert(value->Array_0 == *arr);
                assert(decreases_to!(*value => value->Array_0));
                assert(decreases_to!(*value => *arr));
                assert(decreases_to!(*arr => arr.elements));
            }
            let mut out = String::new();
            push_char(&mut out, '[');
            let inner = render_json_elements(&arr.elements);
            out.append(inner.as_str());
            push_char(&mut out, ']');
            proof {
                assert(out@ =~= json_spec(value@));
            }
            out
        },
    }
}

/// Renders the elements of an array, comma separated.
fn render_json_elements(elements: &Vec<Value>) -> (r: String)
    ensures
        r@ == json_elems(view_seq(elements@)),
    decreases elements, 0int,
{
    proof {
        lemma_view_seq(elements@);
    }
    let ghost ev = view_seq(elements@);
    let mut out = String::new();
    let n = elements.len();
    let mut i: usize = 0;
    while i < n
        invariant
            i <= n,
            n == elements@.len(),
            ev == view_seq(elements@),
            ev.len() == n as int,
            forall|j: int| 0 <= j < n as int ==> ev[j] == elements@[j]@,
            out@ == json_elems(ev.take(i as int)),
        decreases n - i,
    {
        proof {
            assert(decreases_to!(elements => elements@));
            assert(decreases_to!(elements@ => elements@[i as int]));
        }
        let piece = render_json(&elements[i]);
        if i > 0 {
            push_char(&mut out, ',');
        }
        out.append(piece.as_str());
        proof {
            let t1 = ev.take(i as int + 1);
            assert(t1.last() == ev[i as int]);
            assert(t1.drop_last() =~= ev.take(i as int));
            if i == 0 {
                assert(t1.len() == 1);
                assert(t1.first() == ev[0]);
                assert(out@ =~= json_elems(t1));
            } else {
                lemma_json_elems_snoc(t1);
                assert(out@ =~= json_elems(ev.take(i as int)) + seq![','] + json_spec(
                    ev[i as int],
                ));
            }
        }
        i = i + 1;
    }
    proof {
        assert(ev.take(n as int) =~= ev);
    }
    out
}

/// Compact JSON with terminal colours: strings green, numbers cyan,
/// punctuation white.
pub fn write_json_compact_highlighted(value: &Value) -> (r: String)
    decreases value, 1int,
{
    let mut out = String::new();
    match value {
        Value::Text(s) => {
            out.append("\u{1b}[32m");
            out.append(json_escape(s.as_str()).as_str());
            out.append("\u{1b}[39m");
        },
        Value::Number(n) => {
            out.append("\u{1b}[36m");
            out.append(i64_to_string(*n).as_str());
            out.append("\u{1b}[39m");
        },
        Value::Array(arr) => {
            proof {
                assert(value->Array_0 == *arr);
                assert(decreases_to!(*value => value->Array_0));
                assert(decreases_to!(*value => *arr));
                assert(decreases_to!(*arr => arr.elements));
                assert(decreases_to!(arr.elements => arr.elements@));
            }
            out.append(json_punct("["). as_str());
            let n = arr.elements.len();
            let mut i: usize = 0;
            while i < n
                invariant
                    i <= n,
                    n == arr.elements@.len(),
                    value == Value::Array(*arr),
                decreases n - i,
            {
                proof {
                    assert(value->Array_0 == *arr);
                    assert(decreases_to!(*value => value->Array_0));
                    assert(decreases_to!(*value => *arr));
                    assert(decreases_to!(*arr => arr.elements));
                    assert(decreases_to!(arr.elements => arr.elements@));
                    assert(decreases_to!(arr.elements@ => arr.elements@[i as int]));
                }
                if i > 0 {
                    out.append(json_punct(",").as_str());
                }
                let piece = write_json_compact_highlighted(&arr.elements[i]);
                out.append(piece.as_str());
                i = i + 1;
            }
            out.append(json_punct("]").as_str());
        },
    }
    out
}

/// JSON punctuation in white.
fn json_punct(s: &str) -> (r: String)
{
    let mut out = String::new();
    out.append("\u{1b}[37m");
    out.append(s);
    out.append("\u{1b}[39m");
    out
}

/// How many lines the JSON preview takes: an array gets its rows plus the
/// brackets, up to the budget; anything else one line.
pub fn count_json_preview_lines(value: &Value, max_lines: usize) -> (r: usize)
    ensures
        value@ matches ValueSpec::Array { elems, level } ==> r as int == (if elems.len() as int + 2
            <= max_lines as int {
            elems.len() as int + 2
        } else {
            max_lines as int
        }),
        !(value@ is Array) ==> r == 1,
{
    match value {
        Value::Array(arr) => {
            proof {
                lemma_view_seq(arr.elements@);
            }
            let n = arr.elements.len();
            if n <= usize::MAX - 2 && n + 2 <= max_lines {
                n + 2
            } else {
                max_lines
            }
        },
        _ => 1,
    }
}

/// The JSON preview with a focus-depth highlight: each array row on its
/// own line, the first bolded at depth zero, cut to the line budget.
pub fn write_json_preview(value: &Value, depth: usize, max_lines: usize) -> (r: String)
{
    let mut out = String::new();
    match value {
        Value::Array(arr) => {
            out.append(json_punct("[").as_str());
            let mut lines_written: usize = 1;
            let n = arr.elements.len();
            let mut i: usize = 0;
            while i < n && lines_written < max_lines
                invariant
                    i <= n,
                    n == arr.elements@.len(),
                decreases n - i,
            {
                out.append("\r\n  ");
                if i == 0 {
                    out.append(write_json_value(&arr.elements[0], depth == 0, depth).as_str());
                } else {
                    out.append(write_json_value(&arr.elements[i], false, 0).as_str());
                }
                if i + 1 < n {
                    out.append(json_punct(",").as_str());
                }
                if lines_written < usize::MAX {
                    lines_written = lines_written + 1;
                }
                i = i + 1;
            }
            if lines_written < max_lines {
                out.append("\r\n");
                out.append(json_punct("]").as_str());
            }
        },
        other => {
            out.append(write_json_value(other, depth == 0, 0).as_str());
        },
    }
    out
}

/// One JSON value with a highlight: bolded whole when `highlight`, else
/// descending `depth` levels to bold the first nested element.
pub fn write_json_value(value: &Value, highlight: bool, depth: usize) -> (r: String)
    decreases depth,
{
    let mut out = String::new();
    if highlight {
        out.append("\u{1b}[1m");
        out.append(write_json_compact_highlighted(value).as_str());
        out.append("\u{1b}[22m");
        return out;
    }
    if depth > 0 {
        match value {
            Value::Array(arr) => {
                if arr.elements.len() > 0 {
                    out.append(json_punct("[").as_str());
                    let n = arr.elements.len();
                    let mut i: usize = 0;
                    while i < n
                        invariant
                            i <= n,
                            n == arr.elements@.len(),
                            depth > 0,
                        decreases n - i,
                    {
                        if i > 0 {
                            out.append(json_punct(",").as_str());
                        }
                        if i == 0 {
                            out.append(
                                write_json_value(&arr.elements[0], depth == 1, depth - 1).as_str(),
                            );
                        } else {
                            out.append(write_json_compact_highlighted(&arr.elements[i]).as_str());
                        }
                        i = i + 1;
                    }
                    out.append(json_punct("]").as_str());
                    return out;
                }
                out.append(write_json_compact_highlighted(value).as_str());
            },
            other => {
                out.append(write_json_compact_highlighted(other).as_str());
            },
        }
        return out;
    }
    out.append(write_json_compact_highlighted(value).as_str());
    out
}

/// The rows of a block-form JSON array: each element indented on its own
/// line, a comma after every element but the last.
pub open spec fn json_rows(elems: Seq<ValueSpec>) -> Seq<char>
    decreases elems, 1int,
{
    if elems.len() == 0 {
        Seq::<char>::empty()
    } else if elems.len() == 1 {
        seq!['\n', ' ', ' '] + json_spec(elems.first())
    } else {
        seq!['\n', ' ', ' '] + json_spec(elems.first()) + seq![','] + json_rows(
            elems.drop_first(),
        )
    }
}

/// The block-form JSON of a value: an array one row per line inside its
/// brackets, anything else compact.
pub open spec fn json_block_spec(v: ValueSpec) -> Seq<char> {
    match v {
        ValueSpec::Array { elems, level } => seq!['['] + json_rows(elems) + seq!['\n', ']'],
        other => json_spec(other),
    }
}

proof fn lemma_json_rows_snoc(elems: Seq<ValueSpec>)
    requires
        elems.len() >= 2,
    ensures
        json_rows(elems) == json_rows(elems.drop_last()) + seq![','] + seq!['\n', ' ', ' ']
            + json_spec(elems.last()),
    decreases elems.len(),
{
    if elems.len() == 2 {
        assert(elems.drop_first().len() == 1);
        assert(elems.drop_first().first() == elems.last());
        assert(elems.drop_last().len() == 1);
        assert(elems.drop_last().first() == elems.first());
        assert(json_rows(elems.drop_first()) == seq!['\n', ' ', ' '] + json_spec(elems.last()));
        assert(json_rows(elems.drop_last()) == seq!['\n', ' ', ' '] + json_spec(elems.first()));
        assert(json_rows(elems) =~= json_rows(elems.drop_last()) + seq![','] + seq![
            '\n',
            ' ',
            ' ',
        ] + json_spec(elems.last()));
    } else {
        lemma_json_rows_snoc(elems.drop_first());
        assert(elems.drop_first().drop_last() =~= elems.drop_last().drop_first());
        assert(elems.drop_first().last() == elems.last());
        assert(elems.drop_last().first() == elems.first());
        assert(json_rows(elems.drop_last()) == seq!['\n', ' ', ' '] + json_spec(elems.first())
            + seq![','] + json_rows(elems.drop_last().drop_first()));
        assert(json_rows(elems) =~= json_rows(elems.drop_last()) + seq![','] + seq![
            '\n',
            ' ',
            ' ',
        ] + json_spec(elems.last()));
    }
}

/// Syntax-highlighted or plain JSON for non-interactive output: the outer
/// array one row per line; without colour, exactly the block-form JSON.
pub fn write_json_highlighted(value: &Value, use_color: bool) -> (r: String)
    ensures
        !use_color ==> r@ == json_block_spec(value@),
{
    let mut out = String::new();
    match value {
        Value::Array(arr) => {
            proof {
                lemma_view_seq(arr.elements@);
            }
            let ghost ev = view_seq(arr.elements@);
            push_char(&mut out, '[');
            let n = arr.elements.len();
            let mut i: usize = 0;
            while i < n
                invariant
                    i <= n,
                    n == arr.elements@.len(),
                    ev == view_seq(arr.elements@),
                    ev.len() == n as int,
                    forall|j: int| 0 <= j < n as int ==> ev[j] == arr.elements@[j]@,
                    !use_color ==> out@ =~= (if i == 0 {
                        seq!['[']
                    } else if i == n {
                        seq!['['] + json_rows(ev.take(i as int))
                    } else {
                        seq!['['] + json_rows(ev.take(i as int)) + seq![',']
                    }),
                decreases n - i,
            {
                out.append("\n  ");
                let piece = if use_color {
                    write_json_compact_highlighted(&arr.elements[i])
                } else {
                    render_json(&arr.elements[i])
                };
                out.append(piece.as_str());
                proof {
                    if !use_color {
                        reveal_strlit("\n  ");
                        let t1 = ev.take(i as int + 1);
                        assert(t1.last() == ev[i as int]);
                        assert(t1.drop_last() =~= ev.take(i as int));
                        if i == 0 {
                            assert(t1.len() == 1);
                            assert(t1.first() == ev[0]);
                            assert(out@ =~= seq!['['] + json_rows(t1));
                        } else {
                            lemma_json_rows_snoc(t1);
                            assert(out@ =~= seq!['['] + json_rows(t1));
                        }
                    }
                }
                if i + 1 < n {
                    push_char(&mut out, ',');
                }
                i = i + 1;
            }
            proof {
                if !use_color {
                    assert(ev.take(n as int) =~= ev);
                    if n == 0 {
                        assert(json_rows(ev) == Seq::<char>::empty());
                    }
                }
            }
            out.append("\n]");
            proof {
                if !use_color {
                    reveal_strlit("\n]");
                    assert(out@ =~= json_block_spec(value@));
                }
            }
        },
        other => {
            let piece = if use_color {
                write_json_compact_highlighted(other)
            } else {
                render_json(other)
            };
            out.append(piece.as_str());
            proof {
                if !use_color {
                    assert(out@ =~= json_block_spec(other@));
                }
            }
        },
    }
    out
}

} // verus!
