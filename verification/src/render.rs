//! Text rendering: a number as canonical decimal, an array as its elements
//! joined by the level's default delimiter, applied recursively.

use vstd::prelude::*;
use crate::chars::push_char;
use crate::value::{Array, Value, ValueSpec, view_seq, lemma_view_seq};

verus! {

pub open spec fn digit_char_of(d: int) -> char {
    if d == 0 {
        '0'
    } else if d == 1 {
        '1'
    } else if d == 2 {
        '2'
    } else if d == 3 {
        '3'
    } else if d == 4 {
        '4'
    } else if d == 5 {
        '5'
    } else if d == 6 {
        '6'
    } else if d == 7 {
        '7'
    } else if d == 8 {
        '8'
    } else {
        '9'
    }
}

/// The decimal digits of a non-negative integer.
pub open spec fn dec_nat(m: int) -> Seq<char>
    decreases m,
{
    if m < 10 {
        seq![digit_char_of(m)]
    } else {
        dec_nat(m / 10).push(digit_char_of(m % 10))
    }
}

/// The canonical decimal rendering of an integer.
pub open spec fn int_to_dec(n: int) -> Seq<char> {
    if n < 0 {
        seq!['-'] + dec_nat(-n)
    } else {
        dec_nat(n)
    }
}

fn digit_exec(d: u64) -> (r: char)
    requires
        d < 10,
    ensures
        r == digit_char_of(d as int),
{
    if d == 0 {
        '0'
    } else if d == 1 {
        '1'
    } else if d == 2 {
        '2'
    } else if d == 3 {
        '3'
    } else if d == 4 {
        '4'
    } else if d == 5 {
        '5'
    } else if d == 6 {
        '6'
    } else if d == 7 {
        '7'
    } else if d == 8 {
        '8'
    } else {
        '9'
    }
}

/// Appends the decimal digits of `m`.
fn push_dec(out: &mut String, m: u64)
    ensures
        final(out)@ == old(out)@ + dec_nat(m as int),
    decreases m,
{
    if m < 10 {
        push_char(out, digit_exec(m));
    } else {
        push_dec(out, m / 10);
        push_char(out, digit_exec(m % 10));
    }
    proof {
        if m >= 10 {
            assert(old(out)@ + dec_nat(m as int / 10) + seq![digit_char_of(m as int % 10)]
                =~= old(out)@ + dec_nat(m as int));
        } else {
            assert(old(out)@.push(digit_char_of(m as int)) =~= old(out)@ + dec_nat(m as int));
        }
    }
}

/// The canonical decimal rendering of a 64-bit integer.
pub fn i64_to_string(n: i64) -> (r: String)
    ensures
        r@ == int_to_dec(n as int),
{
    let mut out = String::new();
    if n >= 0 {
        push_dec(&mut out, n as u64);
    } else {
        push_char(&mut out, '-');
        let mag = (-(n as i128)) as u64;
        push_dec(&mut out, mag);
        proof {
            assert(seq!['-'] + dec_nat(-(n as int)) =~= Seq::<char>::empty().push('-') + dec_nat(
                mag as int,
            ));
        }
    }
    out
}

/// The text rendering of a value: text stands for itself, a number renders
/// in decimal, an array joins its elements' renderings with the level's
/// default delimiter.
pub open spec fn render_spec(v: ValueSpec) -> Seq<char>
    decreases v, 0int,
{
    match v {
        ValueSpec::Text { chars } => chars,
        ValueSpec::Number { num } => int_to_dec(num),
        ValueSpec::Array { elems, level } => render_elems(elems, level.spec_join_delimiter()),
    }
}

pub open spec fn render_elems(elems: Seq<ValueSpec>, d: Seq<char>) -> Seq<char>
    decreases elems, 1int,
{
    if elems.len() == 0 {
        Seq::<char>::empty()
    } else if elems.len() == 1 {
        render_spec(elems.first())
    } else {
        render_spec(elems.first()) + d + render_elems(elems.drop_first(), d)
    }
}

/// Appending one element to a non-empty list appends a delimiter and its
/// rendering.
pub proof fn lemma_render_elems_snoc(elems: Seq<ValueSpec>, d: Seq<char>)
    requires
        elems.len() >= 2,
    ensures
        render_elems(elems, d) == render_elems(elems.drop_last(), d) + d + render_spec(
            elems.last(),
        ),
    decreases elems.len(),
{
    if elems.len() == 2 {
        assert(elems.drop_first().len() == 1);
        assert(elems.drop_first().first() == elems.last());
        assert(elems.drop_last().len() == 1);
        assert(elems.drop_last().first() == elems.first());
    } else {
        lemma_render_elems_snoc(elems.drop_first(), d);
        assert(elems.drop_first().drop_last() =~= elems.drop_last().drop_first());
        assert(elems.drop_first().last() == elems.last());
        assert(elems.drop_last().first() == elems.first());
        assert(render_elems(elems.drop_last(), d) == render_spec(elems.first()) + d
            + render_elems(elems.drop_last().drop_first(), d));
        assert(render_elems(elems, d) == render_spec(elems.first()) + d + render_elems(
            elems.drop_first(),
            d,
        ));
    }
}

/// The text rendering of a value.
pub fn render_value(v: &Value) -> (r: String)
    ensures
        r@ == render_spec(v@),
    decreases v, 1int,
{
    match v {
        Value::Text(s) => s.as_str().to_owned(),
        Value::Number(n) => i64_to_string(*n),
        Value::Array(arr) => {
            proof {
                assert(v->Array_0 == *arr);
                assert(decreases_to!(*v => v->Array_0));
                assert(decreases_to!(*v => *arr));
                assert(decreases_to!(*arr => arr.elements));
            }
            let d = arr.level.join_delimiter();
            let r = render_elements(&arr.elements, d);
            proof {
                assert(render_spec(v@) == render_elems(view_seq(arr.elements@), d@));
            }
            r
        },
    }
}

/// Renders the elements joined with an explicit delimiter.
pub fn render_elements(elements: &Vec<Value>, d: &str) -> (r: String)
    ensures
        r@ == render_elems(view_seq(elements@), d@),
    decreases elements, 0int,
{
    proof {
        lemma_view_seq(elements@);
    }
    let ghost dv = d@;
    let ghost ev = view_seq(elements@);
    let mut out = String::new();
    let n = elements.len();
    let mut i: usize = 0;
    while i < n
        invariant
            i <= n,
            n == elements@.len(),
            d@ == dv,
            ev == view_seq(elements@),
            ev.len() == n as int,
            forall|j: int| 0 <= j < n as int ==> ev[j] == elements@[j]@,
            out@ == render_elems(ev.take(i as int), dv),
        decreases n - i,
    {
        proof {
            assert(decreases_to!(elements => elements@));
            assert(decreases_to!(elements@ => elements@[i as int]));
        }
        let piece = render_value(&elements[i]);
        if i > 0 {
            out.append(d);
        }
        out.append(piece.as_str());
        proof {
            let t1 = ev.take(i as int + 1);
            assert(t1.last() == ev[i as int]);
            assert(t1.drop_last() =~= ev.take(i as int));
            if i == 0 {
                assert(t1.len() == 1);
                assert(t1.first() == ev[0]);
                assert(out@ =~= render_elems(t1, dv));
            } else {
                lemma_render_elems_snoc(t1, dv);
                assert(out@ =~= render_elems(ev.take(i as int), dv) + dv + render_spec(
                    ev[i as int],
                ));
            }
        }
        i = i + 1;
    }
    proof {
        assert(ev.take(n as int) =~= ev);
    }
    out
}

} // verus!
