//! Partitioning rows into those a selection hits and the rest.

use vstd::prelude::*;
use crate::ast::Selection;
use crate::error::Error;
use crate::select::{selection_indices, selection_positions};
use crate::value::{Array, Value, ValueSpec, view_seq, lemma_view_seq};

verus! {

/// Whether the selection hits a row: the row is an array and the selection
/// resolves to at least one of its positions.
pub open spec fn row_hit(row: ValueSpec, items: Seq<crate::ast::SelectItem>) -> bool {
    row matches ValueSpec::Array { elems, level } && selection_positions(
        items,
        elems.len() as int,
    ).len() > 0
}

/// The rows the selection hits (or the rest), in input order.
pub open spec fn hit_rows(elems: Seq<ValueSpec>, items: Seq<crate::ast::SelectItem>, want: bool) -> Seq<
    ValueSpec,
>
    decreases elems.len(),
{
    if elems.len() == 0 {
        Seq::<ValueSpec>::empty()
    } else {
        let rest = hit_rows(elems.drop_last(), items, want);
        if row_hit(elems.last(), items) == want {
            rest.push(elems.last())
        } else {
            rest
        }
    }
}

/// What partitioning produces: a two-element array `[hits, misses]`, both
/// preserving input order; a non-array value is unchanged.
pub open spec fn partition_apply_spec(v: ValueSpec, items: Seq<crate::ast::SelectItem>) -> ValueSpec {
    match v {
        ValueSpec::Array { elems, level } => ValueSpec::Array {
            elems: seq![
                ValueSpec::Array { elems: hit_rows(elems, items, true), level },
                ValueSpec::Array { elems: hit_rows(elems, items, false), level },
            ],
            level,
        },
        other => other,
    }
}

/// Splits the rows two ways by whether the selection hits them.
pub struct Partition {
    pub selection: Selection,
}

impl Partition {
    pub fn new(selection: Selection) -> (r: Partition)
        ensures
            r.selection == selection,
    {
        Partition { selection }
    }

    pub fn apply(&self, value: Value) -> (r: Result<Value, Error>)
        ensures
            r matches Ok(v) && v@ == partition_apply_spec(value@, self.selection.items@),
    {
        let ghost vv = value@;
        match value {
            Value::Array(arr) => {
                let ghost ev = view_seq(arr.elements@);
                proof {
                    lemma_view_seq(arr.elements@);
                }
                let n = arr.elements.len();
                let mut hits: Vec<Value> = Vec::new();
                let mut misses: Vec<Value> = Vec::new();
                let mut i: usize = 0;
                while i < n
                    invariant
                        i <= n,
                        n == arr.elements@.len(),
                        ev == view_seq(arr.elements@),
                        ev.len() == n as int,
                        forall|j: int| 0 <= j < n as int ==> ev[j] == arr.elements@[j]@,
                        view_seq(hits@) =~= hit_rows(
                            ev.take(i as int),
                            self.selection.items@,
                            true,
                        ),
                        view_seq(misses@) =~= hit_rows(
                            ev.take(i as int),
                            self.selection.items@,
                            false,
                        ),
                    decreases n - i,
                {
                    let hit = match &arr.elements[i] {
                        Value::Array(inner) => {
                            proof {
                                lemma_view_seq(inner.elements@);
                            }
                            let ps = selection_indices(&self.selection, inner.elements.len());
                            let r = ps.len() > 0;
                            proof {
                                assert(crate::select::to_ints(ps@).len() == ps@.len());
                            }
                            r
                        },
                        _ => false,
                    };
                    proof {
                        assert(hit == row_hit(ev[i as int], self.selection.items@));
                    }
                    let ghost ph = view_seq(hits@);
                    let ghost pm = view_seq(misses@);
                    proof {
                        lemma_view_seq(hits@);
                        lemma_view_seq(misses@);
                        let t1 = ev.take(i as int + 1);
                        assert(t1.drop_last() =~= ev.take(i as int));
                        assert(t1.last() == ev[i as int]);
                    }
                    let copy = arr.elements[i].deep_copy();
                    if hit {
                        hits.push(copy);
                        proof {
                            lemma_view_seq(hits@);
                            assert(view_seq(hits@) =~= ph.push(ev[i as int]));
                        }
                    } else {
                        misses.push(copy);
                        proof {
                            lemma_view_seq(misses@);
                            assert(view_seq(misses@) =~= pm.push(ev[i as int]));
                        }
                    }
                    i = i + 1;
                }
                proof {
                    assert(ev.take(n as int) =~= ev);
                }
                let level = arr.level;
                let hv = Value::Array(Array { elements: hits, level });
                let mv = Value::Array(Array { elements: misses, level });
                let mut outer: Vec<Value> = Vec::new();
                outer.push(hv);
                outer.push(mv);
                let r = Value::Array(Array { elements: outer, level });
                proof {
                    lemma_view_seq(outer@);
                    assert(vv == (ValueSpec::Array { elems: ev, level }));
                    assert(r@ matches ValueSpec::Array { elems: re, level: rl } && re =~= seq![
                        (ValueSpec::Array { elems: hit_rows(ev, self.selection.items@, true), level }),
                        (ValueSpec::Array {
                            elems: hit_rows(ev, self.selection.items@, false),
                            level,
                        }),
                    ]);
                    assert(r@ == partition_apply_spec(vv, self.selection.items@));
                }
                Ok(r)
            },
            other => Ok(other),
        }
    }

    pub fn requires_full_input(&self) -> (r: bool)
        ensures
            r == true,
    {
        true
    }
}

} // verus!
