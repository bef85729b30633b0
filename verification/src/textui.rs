//! Text formatting for interactive output: per-line rendering with a
//! focus-depth highlight.

use vstd::prelude::*;
use crate::chars::{chars_to_string, str_to_chars};
use crate::operators::split::lines_of;
use crate::render::{int_to_dec, i64_to_string, render_spec, render_value};
use crate::textops::{join_with, split_delim_chars};
use crate::value::{Value, ValueSpec, view_seq, lemma_view_seq};

verus! {

/// How many display lines a value takes: one per array row, one per text
/// line (at least one), one for a number.
pub open spec fn output_lines_spec(v: ValueSpec) -> int {
    match v {
        ValueSpec::Array { elems, level } => elems.len() as int,
        ValueSpec::Text { chars } => if lines_of(chars).len() == 0 {
            1
        } else {
            lines_of(chars).len() as int
        },
        ValueSpec::Number { num } => 1,
    }
}

/// Counts the display lines of a value.
pub fn count_output_lines(value: &Value) -> (r: usize)
    ensures
        r as int == output_lines_spec(value@),
{
    match value {
        Value::Array(arr) => {
            proof {
                lemma_view_seq(arr.elements@);
            }
            arr.elements.len()
        },
        Value::Text(s) => {
            let ls = split_text_lines(s.as_str());
            if ls.len() == 0 {
                1
            } else {
                ls.len()
            }
        },
        Value::Number(_) => 1,
    }
}

/// The lines of a text, split as `lines_of` says.
pub fn split_text_lines(s: &str) -> (r: Vec<String>)
    ensures
        r.deep_view() == lines_of(s@),
{
    let mut body = str_to_chars(s);
    if body.len() == 0 {
        let r: Vec<String> = Vec::new();
        proof {
            assert(r.deep_view() =~~= lines_of(s@));
        }
        return r;
    }
    let mut ended_newline = false;
    if body[body.len() - 1] == '\n' {
        let _ = body.pop();
        ended_newline = true;
        proof {
            assert(body@ =~= s@.drop_last());
        }
    }
    let mut nl: Vec<char> = Vec::new();
    nl.push('\n');
    proof {
        assert(nl@ =~= seq!['\n']);
    }
    let pieces = crate::operators::split::strip_cr_pieces(
        split_delim_chars(&body, &nl),
        ended_newline,
    );
    proof {
        assert(pieces.deep_view() =~~= lines_of(s@));
    }
    let mut out: Vec<String> = Vec::new();
    let n = pieces.len();
    let ghost pv = pieces.deep_view();
    let mut rest = pieces;
    let mut i: usize = 0;
    while i < n
        invariant
            i <= n,
            n == pv.len(),
            rest@.len() == n - i as int,
            forall|j: int| 0 <= j < rest@.len() ==> (#[trigger] rest@[j])@ == pv[i + j],
            out@.len() == i as int,
            forall|j: int| 0 <= j < i as int ==> (#[trigger] out@[j])@ == pv[j],
        decreases n - i,
    {
        let piece = rest.remove(0);
        out.push(chars_to_string(&piece));
        i = i + 1;
    }
    proof {
        assert(out.deep_view() =~~= pv);
    }
    out
}

/// The rendering of one element with its first sub-element highlighted with
/// terminal bold, descending `rd` more levels first.
pub open spec fn highlight_spec(v: ValueSpec, rd: int) -> Seq<char>
    decreases rd + 1,
{
    match v {
        ValueSpec::Array { elems, level } => {
            if elems.len() == 0 {
                render_spec(v)
            } else {
                let d = level.spec_join_delimiter();
                let parts = Seq::new(
                    elems.len(),
                    |i: int|
                        if i == 0 {
                            if rd > 0 {
                                highlight_spec(elems[0], rd - 1)
                            } else {
                                bold_wrap(render_spec(elems[0]))
                            }
                        } else {
                            render_spec(elems[i])
                        },
                );
                join_with(parts, d)
            }
        },
        other => render_spec(other),
    }
}

/// A text wrapped in the terminal bold escape codes.
pub open spec fn bold_wrap(s: Seq<char>) -> Seq<char> {
    seq!['\u{1b}', '[', '1', 'm'] + s + seq!['\u{1b}', '[', '0', 'm']
}

/// What the display lines of a value are, at a focus depth: each array row
/// on its own line, the first highlighted below depth one.
pub open spec fn text_lines_spec(v: ValueSpec, depth: int) -> Seq<Seq<char>> {
    match v {
        ValueSpec::Array { elems, level } => Seq::new(
            elems.len(),
            |i: int|
                if depth > 0 && i == 0 {
                    highlight_spec(elems[0], depth - 1)
                } else {
                    render_spec(elems[i])
                },
        ),
        ValueSpec::Text { chars } => lines_of(chars),
        ValueSpec::Number { num } => seq![int_to_dec(num)],
    }
}

/// Formats one element as text.
pub fn format_text_element(value: &Value) -> (r: String)
    ensures
        r@ == render_spec(value@),
{
    render_value(value)
}

/// Formats an element with its first sub-element highlighted.
pub fn format_text_element_highlighted(value: &Value, remaining_depth: usize) -> (r: String)
    ensures
        r@ == highlight_spec(value@, remaining_depth as int),
    decreases remaining_depth,
{
    match value {
        Value::Array(arr) => {
            if arr.elements.len() == 0 {
                proof {
                    lemma_view_seq(arr.elements@);
                }
                render_value(value)
            } else {
                proof {
                    lemma_view_seq(arr.elements@);
                }
                let ghost ev = view_seq(arr.elements@);
                let d = arr.level.join_delimiter();
                let ghost dv = arr.level.spec_join_delimiter();
                let ghost parts = Seq::new(
                    ev.len(),
                    |i: int|
                        if i == 0 {
                            if remaining_depth as int > 0 {
                                highlight_spec(ev[0], remaining_depth - 1)
                            } else {
                                bold_wrap(render_spec(ev[0]))
                            }
                        } else {
                            render_spec(ev[i])
                        },
                );
                let n = arr.elements.len();
                let mut out = String::new();
                let first = if remaining_depth > 0 {
                    format_text_element_highlighted(&arr.elements[0], remaining_depth - 1)
                } else {
                    let mut b = String::new();
                    b.append("\u{1b}[1m");
                    b.append(render_value(&arr.elements[0]).as_str());
                    b.append("\u{1b}[0m");
                    proof {
                        reveal_strlit("\u{1b}[1m");
                        reveal_strlit("\u{1b}[0m");
                        assert(b@ =~= bold_wrap(render_spec(ev[0])));
                    }
                    b
                };
                out.append(first.as_str());
                let mut i: usize = 1;
                proof {
                    lemma_join_take(parts, dv, 1);
                    assert(parts.take(1).len() == 1);
                    assert(parts.take(1).first() == parts[0]);
                    assert(join_with(parts.take(1), dv) == parts[0]);
                }
                while i < n
                    invariant
                        1 <= i <= n,
                        n == arr.elements@.len(),
                        ev == view_seq(arr.elements@),
                        ev.len() == n as int,
                        forall|j: int| 0 <= j < n as int ==> ev[j] == arr.elements@[j]@,
                        d@ == dv,
                        parts.len() == n as int,
                        forall|j: int| 1 <= j < n as int ==> #[trigger] parts[j] == render_spec(
                            ev[j],
                        ),
                        out@ == join_with(parts.take(i as int), dv),
                    decreases n - i,
                {
                    out.append(d);
                    let piece = render_value(&arr.elements[i]);
                    out.append(piece.as_str());
                    proof {
                        lemma_join_snoc(parts, dv, i as int + 1);
                        assert(parts.take(i as int + 1).drop_last() =~= parts.take(i as int));
                        assert(parts.take(i as int + 1).last() == parts[i as int]);
                        assert(out@ =~= join_with(parts.take(i as int), dv) + dv + parts[i as int]);
                    }
                    i = i + 1;
                }
                proof {
                    assert(parts.take(n as int) =~= parts);
                }
                out
            }
        },
        other => render_value(other),
    }
}

/// Joining a one-piece prefix is that piece.
pub proof fn lemma_join_take(parts: Seq<Seq<char>>, d: Seq<char>, k: int)
    requires
        k == 1,
        parts.len() >= 1,
    ensures
        join_with(parts.take(1), d) == parts[0],
{
    assert(parts.take(1).len() == 1);
    assert(parts.take(1)[0] == parts[0]);
}

/// Extending a joined prefix appends a delimiter and the next piece.
pub proof fn lemma_join_snoc(parts: Seq<Seq<char>>, d: Seq<char>, k: int)
    requires
        2 <= k <= parts.len(),
    ensures
        join_with(parts.take(k), d) == join_with(parts.take(k - 1), d) + d + parts[k - 1],
    decreases k,
{
    let t = parts.take(k);
    if k == 2 {
        assert(t.len() == 2);
        assert(t.drop_first().len() == 1);
        assert(t.drop_first()[0] == parts[1]);
        assert(join_with(t, d) == t[0] + d + join_with(t.drop_first(), d));
        assert(parts.take(1).len() == 1);
        assert(parts.take(1)[0] == parts[0]);
        assert(join_with(parts.take(1), d) == parts[0]);
        assert(t[0] == parts[0]);
        assert(join_with(t.drop_first(), d) == parts[1]);
    } else {
        lemma_join_snoc(parts.drop_first(), d, k - 1);
        assert(t.drop_first() =~= parts.drop_first().take(k - 1));
        assert(parts.take(k - 1).drop_first() =~= parts.drop_first().take(k - 2));
        assert(join_with(t, d) == t[0] + d + join_with(parts.drop_first().take(k - 1), d));
        assert(join_with(parts.take(k - 1), d) == parts[0] + d + join_with(
            parts.drop_first().take(k - 2),
            d,
        ));
        assert(parts.drop_first()[k - 2] == parts[k - 1]);
        assert(t[0] == parts[0]);
        assert(join_with(parts.take(k), d) =~= join_with(parts.take(k - 1), d) + d + parts[k
            - 1]);
    }
}

/// Formats a value as display lines with a focus-depth highlight: at depth
/// zero nothing is wrapped; deeper, the first element of each level down
/// to the depth is wrapped in terminal bold.
pub fn format_text_with_depth(value: &Value, depth: usize) -> (r: Vec<String>)
    ensures
        r.deep_view() == text_lines_spec(value@, depth as int),
{
    match value {
        Value::Array(arr) => {
            proof {
                lemma_view_seq(arr.elements@);
            }
            let ghost ev = view_seq(arr.elements@);
            let n = arr.elements.len();
            let mut out: Vec<String> = Vec::new();
            let mut i: usize = 0;
            while i < n
                invariant
                    i <= n,
                    n == arr.elements@.len(),
                    ev == view_seq(arr.elements@),
                    ev.len() == n as int,
                    forall|j: int| 0 <= j < n as int ==> ev[j] == arr.elements@[j]@,
                    out@.len() == i as int,
                    forall|j: int|
                        0 <= j < i as int ==> (#[trigger] out@[j])@ == (if depth as int > 0 && j
                            == 0 {
                            highlight_spec(ev[0], depth as int - 1)
                        } else {
                            render_spec(ev[j])
                        }),
                decreases n - i,
            {
                let line = if depth > 0 && i == 0 {
                    format_text_element_highlighted(&arr.elements[0], depth - 1)
                } else {
                    render_value(&arr.elements[i])
                };
                out.push(line);
                i = i + 1;
            }
            proof {
                assert(out.deep_view() =~~= text_lines_spec(value@, depth as int));
            }
            out
        },
        Value::Text(s) => {
            let r = split_text_lines(s.as_str());
            proof {
                assert(r.deep_view() =~~= text_lines_spec(value@, depth as int));
            }
            r
        },
        Value::Number(n) => {
            let mut out: Vec<String> = Vec::new();
            out.push(i64_to_string(*n));
            proof {
                assert(out.deep_view() =~~= text_lines_spec(value@, depth as int));
            }
            out
        },
    }
}

} // verus!
