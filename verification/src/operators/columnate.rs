//! Columnate: pad cells with trailing spaces for aligned display.

use vstd::prelude::*;
use crate::chars::{push_char, str_to_chars, chars_to_string};
use crate::error::Error;
use crate::render::{render_spec, render_value};
use crate::value::{Array, Level, Value, ValueSpec, view_seq, lemma_view_seq};

verus! {

/// The cells of one row: the renderings of its elements, or the row's own
/// rendering when it is not an array.
pub open spec fn cells_of(row: ValueSpec) -> Seq<Seq<char>> {
    match row {
        ValueSpec::Array { elems, level } => Seq::new(elems.len(), |j: int| render_spec(elems[j])),
        other => seq![render_spec(other)],
    }
}

/// The width of column `c`: the longest cell in that column over all rows.
pub open spec fn col_width(rows: Seq<Seq<Seq<char>>>, c: int) -> int
    decreases rows.len(),
{
    if rows.len() == 0 {
        0
    } else {
        let w = col_width(rows.drop_last(), c);
        let r = rows.last();
        if 0 <= c < r.len() && r[c].len() > w {
            r[c].len() as int
        } else {
            w
        }
    }
}

pub proof fn lemma_col_width_nonneg(rows: Seq<Seq<Seq<char>>>, c: int)
    ensures
        col_width(rows, c) >= 0,
    decreases rows.len(),
{
    if rows.len() > 0 {
        lemma_col_width_nonneg(rows.drop_last(), c);
    }
}

/// A cell padded with trailing spaces to the width.
pub open spec fn pad_to(cell: Seq<char>, w: int) -> Seq<char> {
    if cell.len() >= w {
        cell
    } else {
        cell + Seq::new((w - cell.len()) as nat, |k: int| ' ')
    }
}

/// One padded output row: every cell but the last padded to its column's
/// width.
pub open spec fn padded_row(cells: Seq<Seq<char>>, rows: Seq<Seq<Seq<char>>>) -> ValueSpec {
    ValueSpec::Array {
        elems: Seq::new(
            cells.len(),
            |j: int|
                ValueSpec::Text {
                    chars: if j == cells.len() - 1 {
                        cells[j]
                    } else {
                        pad_to(cells[j], col_width(rows, j))
                    },
                },
        ),
        level: Level::Word,
    }
}

/// What columnate produces: each row's cells padded for aligned display;
/// an empty array and a non-array value are unchanged.
pub open spec fn columnate_apply_spec(v: ValueSpec) -> ValueSpec {
    match v {
        ValueSpec::Array { elems, level } => {
            if elems.len() == 0 {
                v
            } else {
                let rows = Seq::new(elems.len(), |i: int| cells_of(elems[i]));
                ValueSpec::Array {
                    elems: Seq::new(elems.len(), |i: int| padded_row(rows[i], rows)),
                    level,
                }
            }
        },
        other => other,
    }
}

/// Pads cells for aligned display: the width of a column is the longest
/// cell in it, and every cell but a row's last is padded with trailing
/// spaces to its column's width.
pub struct Columnate;

impl Columnate {
    pub fn apply(&self, value: Value) -> (r: Result<Value, Error>)
        ensures
            r matches Ok(v) && v@ == columnate_apply_spec(value@),
    {
        let ghost vv = value@;
        match value {
            Value::Array(arr) => {
                if arr.elements.len() == 0 {
                    proof {
                        lemma_view_seq(arr.elements@);
                    }
                    return Ok(Value::Array(arr));
                }
                let ghost ev = view_seq(arr.elements@);
                proof {
                    lemma_view_seq(arr.elements@);
                }
                let n = arr.elements.len();
                let ghost rowspec = Seq::new(ev.len(), |i: int| cells_of(ev[i]));
                let mut cells: Vec<Vec<String>> = Vec::new();
                let mut i: usize = 0;
                while i < n
                    invariant
                        i <= n,
                        n == arr.elements@.len(),
                        ev == view_seq(arr.elements@),
                        ev.len() == n as int,
                        forall|j: int| 0 <= j < n as int ==> ev[j] == arr.elements@[j]@,
                        rowspec == Seq::new(ev.len(), |t: int| cells_of(ev[t])),
                        cells@.len() == i as int,
                        forall|t: int|
                            0 <= t < i as int ==> (#[trigger] cells@[t]).deep_view() == rowspec[t],
                    decreases n - i,
                {
                    let row = row_cells(&arr.elements[i]);
                    cells.push(row);
                    i = i + 1;
                }
                let mut max_cols: usize = 0;
                let mut i2: usize = 0;
                while i2 < n
                    invariant
                        i2 <= n,
                        n == cells@.len(),
                        forall|t: int|
                            0 <= t < i2 as int ==> (#[trigger] cells@[t])@.len()
                                <= max_cols as int,
                    decreases n - i2,
                {
                    if cells[i2].len() > max_cols {
                        max_cols = cells[i2].len();
                    }
                    i2 = i2 + 1;
                }
                let mut widths: Vec<usize> = Vec::new();
                let mut c: usize = 0;
                while c < max_cols
                    invariant
                        c <= max_cols,
                        n == cells@.len(),
                        forall|t: int| 0 <= t < n as int ==> (#[trigger] cells@[t]).deep_view()
                            == rowspec[t],
                        rowspec.len() == n as int,
                        widths@.len() == c as int,
                        forall|q: int|
                            0 <= q < c as int ==> (#[trigger] widths@[q]) as int == col_width(
                                rowspec,
                                q,
                            ),
                    decreases max_cols - c,
                {
                    let w = column_width(&cells, c, Ghost(rowspec));
                    widths.push(w);
                    c = c + 1;
                }
                let mut out: Vec<Value> = Vec::new();
                let mut rest = cells;
                let mut i3: usize = 0;
                while i3 < n
                    invariant
                        i3 <= n,
                        n == rowspec.len(),
                        rest@.len() == n - i3 as int,
                        forall|t: int|
                            0 <= t < rest@.len() ==> (#[trigger] rest@[t]).deep_view() == rowspec[
                                i3 + t
                            ],
                        forall|t: int|
                            0 <= t < rest@.len() ==> (#[trigger] rest@[t])@.len()
                                <= max_cols as int,
                        widths@.len() == max_cols as int,
                        forall|q: int|
                            0 <= q < max_cols as int ==> (#[trigger] widths@[q]) as int
                                == col_width(rowspec, q),
                        out@.len() == i3 as int,
                        forall|t: int|
                            0 <= t < i3 as int ==> out@[t]@ == padded_row(rowspec[t], rowspec),
                    decreases n - i3,
                {
                    let row = rest.remove(0);
                    let padded = pad_row(row, &widths, Ghost(rowspec), Ghost(i3 as int));
                    out.push(padded);
                    i3 = i3 + 1;
                }
                let r = Value::Array(Array { elements: out, level: arr.level });
                proof {
                    lemma_view_seq(out@);
                    assert(vv == (ValueSpec::Array { elems: ev, level: arr.level }));
                    assert(r@ matches ValueSpec::Array { elems: re, level: rl } && re =~= Seq::new(
                        ev.len(),
                        |t: int| padded_row(rowspec[t], rowspec),
                    ));
                    assert(r@ == columnate_apply_spec(vv));
                }
                Ok(r)
            },
            other => Ok(other),
        }
    }

    pub fn requires_full_input(&self) -> (r: bool)
        ensures
            r == true,
    {
        true
    }
}

/// The cells of one row, rendered.
fn row_cells(row: &Value) -> (r: Vec<String>)
    ensures
        r.deep_view() == cells_of(row@),
{
    match row {
        Value::Array(inner) => {
            proof {
                lemma_view_seq(inner.elements@);
            }
            let ghost ev = view_seq(inner.elements@);
            let n = inner.elements.len();
            let mut out: Vec<String> = Vec::new();
            let mut j: usize = 0;
            while j < n
                invariant
                    j <= n,
                    n == inner.elements@.len(),
                    ev == view_seq(inner.elements@),
                    ev.len() == n as int,
                    forall|q: int| 0 <= q < n as int ==> ev[q] == inner.elements@[q]@,
                    out@.len() == j as int,
                    forall|q: int|
                        0 <= q < j as int ==> (#[trigger] out@[q])@ == render_spec(ev[q]),
                decreases n - j,
            {
                let cell = render_value(&inner.elements[j]);
                out.push(cell);
                j = j + 1;
            }
            proof {
                assert(out.deep_view() =~~= cells_of(row@));
            }
            out
        },
        other => {
            let mut out: Vec<String> = Vec::new();
            out.push(render_value(other));
            proof {
                assert(out.deep_view() =~~= cells_of(row@));
            }
            out
        },
    }
}

/// The width of one column over all rows.
fn column_width(cells: &Vec<Vec<String>>, c: usize, Ghost(rowspec): Ghost<Seq<Seq<Seq<char>>>>) -> (r:
    usize)
    requires
        cells@.len() == rowspec.len(),
        forall|t: int|
            0 <= t < cells@.len() ==> (#[trigger] cells@[t]).deep_view() == rowspec[t],
    ensures
        r as int == col_width(rowspec, c as int),
{
    let n = cells.len();
    let mut w: usize = 0;
    let mut t: usize = 0;
    proof {
        assert(rowspec.take(0) =~~= Seq::<Seq<Seq<char>>>::empty());
    }
    while t < n
        invariant
            t <= n,
            n == cells@.len(),
            cells@.len() == rowspec.len(),
            forall|q: int|
                0 <= q < cells@.len() ==> (#[trigger] cells@[q]).deep_view() == rowspec[q],
            w as int == col_width(rowspec.take(t as int), c as int),
        decreases n - t,
    {
        proof {
            let t1 = rowspec.take(t as int + 1);
            assert(t1.drop_last() =~~= rowspec.take(t as int));
            assert(t1.last() == rowspec[t as int]);
        }
        let row = &cells[t];
        if c < row.len() {
            let len = row[c].as_str().unicode_len();
            proof {
                assert(rowspec[t as int][c as int] == (cells@[t as int]@[c as int])@);
            }
            if len > w {
                w = len;
            }
        }
        t = t + 1;
    }
    proof {
        assert(rowspec.take(n as int) =~~= rowspec);
    }
    w
}

/// Pads every cell of one row but the last to its column's width.
fn pad_row(
    row: Vec<String>,
    widths: &Vec<usize>,
    Ghost(rowspec): Ghost<Seq<Seq<Seq<char>>>>,
    Ghost(t): Ghost<int>,
) -> (r: Value)
    requires
        0 <= t < rowspec.len(),
        row.deep_view() == rowspec[t],
        row@.len() <= widths@.len(),
        forall|q: int|
            0 <= q < widths@.len() ==> (#[trigger] widths@[q]) as int == col_width(rowspec, q),
    ensures
        r@ == padded_row(rowspec[t], rowspec),
{
    let n = row.len();
    let mut out: Vec<Value> = Vec::new();
    let mut rest = row;
    let mut j: usize = 0;
    while j < n
        invariant
            j <= n,
            n as int == rowspec[t].len(),
            0 <= t < rowspec.len(),
            rest@.len() == n - j as int,
            forall|q: int| 0 <= q < rest@.len() ==> (#[trigger] rest@[q])@ == rowspec[t][j + q],
            n <= widths@.len(),
            forall|q: int|
                0 <= q < widths@.len() ==> (#[trigger] widths@[q]) as int == col_width(rowspec, q),
            out@.len() == j as int,
            forall|q: int|
                0 <= q < j as int ==> out@[q]@ == (ValueSpec::Text {
                    chars: if q == rowspec[t].len() - 1 {
                        rowspec[t][q]
                    } else {
                        pad_to(rowspec[t][q], col_width(rowspec, q))
                    },
                }),
        decreases n - j,
    {
        let cell = rest.remove(0);
        let padded: Value = if j == n - 1 {
            Value::Text(cell)
        } else {
            let w = widths[j];
            let cl = cell.as_str().unicode_len();
            if cl >= w {
                Value::Text(cell)
            } else {
                let mut s = cell;
                let mut k: usize = 0;
                let need = w - cl;
                proof {
                    assert(s@ + Seq::new(0nat, |q: int| ' ') =~= s@);
                }
                let ghost base = s@;
                while k < need
                    invariant
                        k <= need,
                        s@ =~= base + Seq::new(k as nat, |q: int| ' '),
                    decreases need - k,
                {
                    push_char(&mut s, ' ');
                    proof {
                        assert(base + Seq::new(k as nat, |q: int| ' ') + seq![' '] =~= base
                            + Seq::new((k + 1) as nat, |q: int| ' '));
                        assert(s@ =~= base + Seq::new((k + 1) as nat, |q: int| ' '));
                    }
                    k = k + 1;
                }
                proof {
                    assert(s@ =~= pad_to(base, w as int));
                }
                Value::Text(s)
            }
        };
        out.push(padded);
        j = j + 1;
    }
    let r = Value::Array(Array { elements: out, level: Level::Word });
    proof {
        lemma_view_seq(out@);
        assert(r@ matches ValueSpec::Array { elems: re, level: rl } && re =~= padded_row(
            rowspec[t],
            rowspec,
        )->elems);
        assert(r@ == padded_row(rowspec[t], rowspec));
    }
    r
}

} // verus!
