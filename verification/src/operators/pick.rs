//! The bare selection operator: picking positions of an array.

use vstd::prelude::*;
use crate::ast::{SelectItem, Selection};
use crate::error::Error;
use crate::select::{item_positions, lemma_slice_identity, lemma_slice_reverse, selection_indices,
    selection_positions, to_ints};
use crate::value::{Array, Value, ValueSpec, view_seq, lemma_view_seq};

verus! {

/// The elements at the given positions, in the positions' order.
pub open spec fn seq_select(elems: Seq<ValueSpec>, ps: Seq<int>) -> Seq<ValueSpec> {
    Seq::new(ps.len(), |k: int| elems[ps[k]])
}

/// What a bare selection produces: the selected positions of the array,
/// level unchanged; any other value is unchanged.
pub open spec fn select_apply_spec(v: ValueSpec, items: Seq<SelectItem>) -> ValueSpec {
    match v {
        ValueSpec::Array { elems, level } => ValueSpec::Array {
            elems: seq_select(elems, selection_positions(items, elems.len() as int)),
            level,
        },
        other => other,
    }
}

/// Selects positions of the array: indices and slices concatenate their
/// outputs; out-of-range indices are skipped, slice bounds clamp.
pub struct Select {
    pub selection: Selection,
}

impl Select {
    pub fn new(selection: Selection) -> (r: Select)
        ensures
            r.selection == selection,
    {
        Select { selection }
    }

    pub fn apply(&self, value: Value) -> (r: Result<Value, Error>)
        ensures
            r matches Ok(v) && v@ == select_apply_spec(value@, self.selection.items@),
    {
        match value {
            Value::Array(arr) => {
                let r = Value::Array(select_from_array(&arr, &self.selection));
                Ok(r)
            },
            other => Ok(other),
        }
    }

    pub fn requires_full_input(&self) -> (r: bool)
        ensures
            r == false,
    {
        false
    }
}

/// The selected elements of an array, deep-copied, level kept.
pub fn select_from_array(arr: &Array, sel: &Selection) -> (r: Array)
    ensures
        r@ == seq_select(arr@, selection_positions(sel.items@, arr@.len() as int)),
        r.level == arr.level,
{
    proof {
        lemma_view_seq(arr.elements@);
    }
    let ghost ev = view_seq(arr.elements@);
    let len = arr.elements.len();
    let positions = selection_indices(sel, len);
    let ghost ps = selection_positions(sel.items@, len as int);
    let mut out: Vec<Value> = Vec::new();
    let n = positions.len();
    let mut k: usize = 0;
    while k < n
        invariant
            k <= n,
            n == positions@.len(),
            len == arr.elements@.len(),
            ev == view_seq(arr.elements@),
            ev.len() == len as int,
            forall|j: int| 0 <= j < len as int ==> ev[j] == arr.elements@[j]@,
            to_ints(positions@) == ps,
            forall|j: int| 0 <= j < n as int ==> (#[trigger] positions@[j]) < len,
            out@.len() == k as int,
            forall|j: int| 0 <= j < k as int ==> out@[j]@ == ev[ps[j]],
        decreases n - k,
    {
        proof {
            assert(ps[k as int] == positions@[k as int] as int);
            assert(0 <= ps[k as int] < len as int);
        }
        let e = arr.elements[positions[k]].deep_copy();
        out.push(e);
        k = k + 1;
    }
    let r = Array { elements: out, level: arr.level };
    proof {
        lemma_view_seq(out@);
        assert(ps.len() == n as int);
        assert(r@ =~= seq_select(ev, ps));
    }
    r
}

/// Selecting with the slice `::-1` reverses the array.
pub proof fn lemma_select_reverses(v: ValueSpec, items: Seq<SelectItem>)
    requires
        v is Array,
        items =~= seq![SelectItem::Slice { start: None, end: None, step: Some(-1i64) }],
    ensures
        select_apply_spec(v, items)->elems =~= v->elems.reverse(),
        select_apply_spec(v, items)->level == v->level,
{
    let elems = v->elems;
    let len = elems.len() as int;
    lemma_slice_reverse(len);
    assert(item_positions(items.first(), len) =~= Seq::new(len as nat, |k: int| len - 1 - k));
    assert(selection_positions(items.drop_first(), len) == Seq::<int>::empty());
    assert(selection_positions(items, len) =~= Seq::new(len as nat, |k: int| len - 1 - k));
    assert(elems.reverse().len() == len);
    assert forall|k: int| 0 <= k < len implies select_apply_spec(v, items)->elems[k]
        == elems.reverse()[k] by {
        assert(select_apply_spec(v, items)->elems[k] == elems[len - 1 - k]);
    }
}

/// Selecting with the slice `::1` gives back the array itself.
pub proof fn lemma_select_identity(v: ValueSpec, items: Seq<SelectItem>)
    requires
        v is Array,
        items =~= seq![SelectItem::Slice { start: None, end: None, step: Some(1i64) }],
    ensures
        select_apply_spec(v, items) == v,
{
    let elems = v->elems;
    let len = elems.len() as int;
    lemma_slice_identity(len);
    assert(item_positions(items.first(), len) =~= Seq::new(len as nat, |k: int| k));
    assert(selection_positions(items.drop_first(), len) == Seq::<int>::empty());
    assert(selection_positions(items, len) =~= Seq::new(len as nat, |k: int| k));
    assert(select_apply_spec(v, items)->elems =~= elems);
    assert(select_apply_spec(v, items) == v);
}

} // verus!
