//! Joining array rows back into text.

use vstd::prelude::*;
use crate::error::Error;
use crate::render::{render_elements, render_elems, render_spec};
use crate::textops::{join_with, lemma_join_split_str, split_str};
use crate::value::{Array, Level, Value, ValueSpec, view_seq, lemma_view_seq};
use crate::operators::split::{texts_of, split_delim_spec};

verus! {

/// How one row joins: an array row becomes the text of its elements joined
/// by the given delimiter (its own level's default when none is given);
/// any other row is unchanged.
pub open spec fn join_elem_spec(e: ValueSpec, d: Option<Seq<char>>) -> ValueSpec {
    match e {
        ValueSpec::Array { elems, level } => ValueSpec::Text {
            chars: render_elems(
                elems,
                match d {
                    Some(dd) => dd,
                    None => level.spec_join_delimiter(),
                },
            ),
        },
        other => other,
    }
}

/// What `Join` produces: each array row of the outer array joins to text;
/// the outer level is unchanged; a non-array value is unchanged.
pub open spec fn join_apply_spec(v: ValueSpec, d: Option<Seq<char>>) -> ValueSpec {
    match v {
        ValueSpec::Array { elems, level } => ValueSpec::Array {
            elems: Seq::new(elems.len(), |i: int| join_elem_spec(elems[i], d)),
            level,
        },
        other => other,
    }
}

/// Joins each array row using its own level's default delimiter, or an
/// explicit one.
pub struct Join {
    pub delimiter: Option<String>,
}

impl Join {
    pub fn new(delimiter: Option<String>) -> (r: Join)
        ensures
            r.delimiter == delimiter,
    {
        Join { delimiter }
    }

    pub open spec fn spec_delim(&self) -> Option<Seq<char>> {
        match self.delimiter {
            Some(d) => Some(d@),
            None => None,
        }
    }

    pub fn apply(&self, value: Value) -> (r: Result<Value, Error>)
        ensures
            r matches Ok(v) && v@ == join_apply_spec(value@, self.spec_delim()),
    {
        match value {
            Value::Array(arr) => {
                let mut out: Vec<Value> = Vec::new();
                let n = arr.elements.len();
                let ghost ev = view_seq(arr.elements@);
                proof {
                    lemma_view_seq(arr.elements@);
                }
                let mut i: usize = 0;
                while i < n
                    invariant
                        i <= n,
                        n == arr.elements@.len(),
                        ev == view_seq(arr.elements@),
                        ev.len() == n as int,
                        forall|j: int| 0 <= j < n as int ==> ev[j] == arr.elements@[j]@,
                        out@.len() == i as int,
                        forall|j: int|
                            0 <= j < i as int ==> out@[j]@ == join_elem_spec(
                                ev[j],
                                self.spec_delim(),
                            ),
                    decreases n - i,
                {
                    let e = match &arr.elements[i] {
                        Value::Array(inner) => {
                            let joined = match &self.delimiter {
                                Some(d) => render_elements(&inner.elements, d.as_str()),
                                None => render_elements(
                                    &inner.elements,
                                    inner.level.join_delimiter(),
                                ),
                            };
                            Value::Text(joined)
                        },
                        other => other.deep_copy(),
                    };
                    out.push(e);
                    i = i + 1;
                }
                let r = Value::Array(Array { elements: out, level: arr.level });
                proof {
                    lemma_view_seq(out@);
                    assert(r@ matches ValueSpec::Array { elems: re, level: rl } && re =~= Seq::new(
                        ev.len(),
                        |j: int| join_elem_spec(ev[j], self.spec_delim()),
                    ));
                }
                Ok(r)
            },
            other => Ok(other),
        }
    }

    pub fn requires_full_input(&self) -> (r: bool)
        ensures
            r == false,
    {
        false
    }
}

/// Rendering a list of text values joins their characters.
pub proof fn lemma_render_texts(parts: Seq<Seq<char>>, d: Seq<char>)
    ensures
        render_elems(texts_of(parts), d) == join_with(parts, d),
    decreases parts.len(),
{
    let ts = texts_of(parts);
    if parts.len() == 0 {
    } else if parts.len() == 1 {
        assert(ts.len() == 1);
        assert(ts.first() == (ValueSpec::Text { chars: parts[0] }));
        assert(render_elems(ts, d) == render_spec(ts.first()));
        assert(join_with(parts, d) == parts[0]);
    } else {
        lemma_render_texts(parts.drop_first(), d);
        assert(ts.drop_first() =~= texts_of(parts.drop_first()));
        assert(ts.first() == (ValueSpec::Text { chars: parts[0] }));
        assert(render_elems(ts, d) == render_spec(ts.first()) + d + render_elems(
            ts.drop_first(),
            d,
        ));
        assert(join_with(parts, d) == parts[0] + d + join_with(parts.drop_first(), d));
    }
}

/// Join inverts split: splitting every text element of an array on a
/// delimiter and joining each resulting row with that same delimiter gives
/// back the original array.
pub proof fn lemma_join_inverts_split(v: ValueSpec, d: Seq<char>)
    requires
        d.len() >= 1,
        v matches ValueSpec::Array { elems, level } && forall|i: int|
            0 <= i < elems.len() ==> (#[trigger] elems[i]) is Text,
    ensures
        join_apply_spec(split_delim_spec(v, d), Some(d)) == v,
{
    let elems = v->elems;
    let level = v->level;
    let selems = crate::operators::split::split_delim_seq(elems, d);
    crate::operators::split::lemma_split_delim_seq(elems, d);
    let split = split_delim_spec(v, d);
    assert(split == (ValueSpec::Array { elems: selems, level }));
    let joined = join_apply_spec(split, Some(d));
    assert(joined->elems.len() == elems.len());
    assert forall|i: int| 0 <= i < elems.len() implies joined->elems[i] == elems[i] by {
        let e = elems[i];
        let chars = e->chars;
        assert(selems[i] == split_delim_spec(e, d));
        assert(split_delim_spec(e, d) == (ValueSpec::Array {
            elems: texts_of(split_str(chars, d)),
            level: Level::Word,
        }));
        lemma_render_texts(split_str(chars, d), d);
        lemma_join_split_str(chars, d);
        assert(join_elem_spec(split_delim_spec(e, d), Some(d)) == (ValueSpec::Text {
            chars: join_with(split_str(chars, d), d),
        }));
        assert(joined->elems[i] == join_elem_spec(selems[i], Some(d)));
        assert(e == (ValueSpec::Text { chars }));
    }
    assert(joined->elems =~= elems);
    assert(joined->level == level);
    assert(joined == v);
}

} // verus!
