//! Grouping rows by a selection, in first-seen order.

use vstd::prelude::*;
use crate::ast::Selection;
use crate::error::Error;
use crate::operators::pick::{seq_select, select_from_array};
use crate::select::{selection_positions};
use crate::value::{Array, Level, Value, ValueSpec, view_seq, lemma_view_seq};

verus! {

/// The key a selection extracts from a row: the single selected element
/// when the selection picks exactly one position, else the selected
/// positions as an array; a non-array row is its own key.
pub open spec fn extract_spec(row: ValueSpec, items: Seq<crate::ast::SelectItem>) -> ValueSpec {
    match row {
        ValueSpec::Array { elems, level } => {
            let ps = selection_positions(items, elems.len() as int);
            if ps.len() == 1 {
                elems[ps[0]]
            } else {
                ValueSpec::Array { elems: seq_select(elems, ps), level }
            }
        },
        other => other,
    }
}

/// Extracts the selection's key from one row.
pub fn extract_key(value: &Value, selection: &Selection) -> (r: Result<Value, Error>)
    ensures
        r matches Ok(v) && v@ == extract_spec(value@, selection.items@),
{
    match value {
        Value::Array(arr) => {
            proof {
                lemma_view_seq(arr.elements@);
            }
            let picked = select_from_array(arr, selection);
            let ghost pv = picked@;
            if picked.elements.len() == 1 {
                let mut elems = picked.elements;
                proof {
                    lemma_view_seq(elems@);
                    assert(pv[0] == elems@[0]@);
                }
                let one = elems.remove(0);
                Ok(one)
            } else {
                proof {
                    lemma_view_seq(picked.elements@);
                }
                Ok(Value::Array(picked))
            }
        },
        other => Ok(other.deep_copy()),
    }
}

/// The groups of the rows, in first-seen order of their keys: each group
/// holds its key value and its member rows in input order.
pub open spec fn build_groups(elems: Seq<ValueSpec>, items: Seq<crate::ast::SelectItem>) -> Seq<
    (ValueSpec, Seq<ValueSpec>),
> {
    build_groups_upto(elems, items, elems.len() as int)
}

pub open spec fn build_groups_upto(
    elems: Seq<ValueSpec>,
    items: Seq<crate::ast::SelectItem>,
    n: int,
) -> Seq<(ValueSpec, Seq<ValueSpec>)>
    decreases n,
{
    if n <= 0 {
        Seq::<(ValueSpec, Seq<ValueSpec>)>::empty()
    } else {
        let prev = build_groups_upto(elems, items, n - 1);
        let e = elems[n - 1];
        let k = extract_spec(e, items);
        let i = group_index(prev, k);
        if i >= 0 {
            proof {
                lemma_group_index(prev, k);
            }
            prev.update(i, (k, prev[i].1.push(e)))
        } else {
            prev.push((k, seq![e]))
        }
    }
}

/// The first group with the given key, or `-1`.
pub open spec fn group_index(groups: Seq<(ValueSpec, Seq<ValueSpec>)>, k: ValueSpec) -> int
    decreases groups.len(),
{
    if groups.len() == 0 {
        -1
    } else if groups.first().0 == k {
        0
    } else {
        let r = group_index(groups.drop_first(), k);
        if r < 0 {
            -1
        } else {
            r + 1
        }
    }
}

pub proof fn lemma_group_index(groups: Seq<(ValueSpec, Seq<ValueSpec>)>, k: ValueSpec)
    ensures
        group_index(groups, k) >= 0 ==> group_index(groups, k) < groups.len()
            && groups[group_index(groups, k)].0 == k,
        group_index(groups, k) < 0 ==> forall|i: int|
            0 <= i < groups.len() ==> (#[trigger] groups[i]).0 != k,
    decreases groups.len(),
{
    if groups.len() > 0 && groups.first().0 != k {
        lemma_group_index(groups.drop_first(), k);
        let r = group_index(groups.drop_first(), k);
        if r >= 0 {
            assert(groups.drop_first()[r] == groups[r + 1]);
        } else {
            assert forall|i: int| 0 <= i < groups.len() implies (#[trigger] groups[i]).0 != k by {
                if i > 0 {
                    assert(groups.drop_first()[i - 1] == groups[i]);
                }
            }
        }
    }
}

/// One group as a row: the key, then the members as an array.
pub open spec fn group_row(g: (ValueSpec, Seq<ValueSpec>)) -> ValueSpec {
    ValueSpec::Array {
        elems: seq![g.0, ValueSpec::Array { elems: g.1, level: Level::Line }],
        level: Level::Word,
    }
}

/// What grouping produces: one row per distinct key, in first-seen order;
/// a non-array value is unchanged.
pub open spec fn group_apply_spec(v: ValueSpec, items: Seq<crate::ast::SelectItem>) -> ValueSpec {
    match v {
        ValueSpec::Array { elems, level } => ValueSpec::Array {
            elems: Seq::new(
                build_groups(elems, items).len(),
                |i: int| group_row(build_groups(elems, items)[i]),
            ),
            level: Level::Line,
        },
        other => other,
    }
}

/// Groups rows by the key a selection extracts; the outer order is the
/// keys' first appearance, each group's members keep input order.
pub struct Group {
    pub selection: Selection,
}

impl Group {
    pub fn new(selection: Selection) -> (r: Group)
        ensures
            r.selection == selection,
    {
        Group { selection }
    }

    pub fn apply(&self, value: Value) -> (r: Result<Value, Error>)
        ensures
            r matches Ok(v) && v@ == group_apply_spec(value@, self.selection.items@),
    {
        match value {
            Value::Array(arr) => {
                let ghost ev = view_seq(arr.elements@);
                proof {
                    lemma_view_seq(arr.elements@);
                }
                let n = arr.elements.len();
                let mut keyvals: Vec<Value> = Vec::new();
                let mut members: Vec<Vec<Value>> = Vec::new();
                let ghost items = self.selection.items@;
                let mut i: usize = 0;
                while i < n
                    invariant
                        i <= n,
                        n == arr.elements@.len(),
                        ev == view_seq(arr.elements@),
                        ev.len() == n as int,
                        forall|j: int| 0 <= j < n as int ==> ev[j] == arr.elements@[j]@,
                        items == self.selection.items@,
                        keyvals@.len() == members@.len(),
                        keyvals@.len() == build_groups_upto(ev, items, i as int).len(),
                        forall|g: int|
                            0 <= g < keyvals@.len() ==> (#[trigger] keyvals@[g])@
                                == build_groups_upto(ev, items, i as int)[g].0,
                        forall|g: int|
                            0 <= g < members@.len() ==> view_seq(#[trigger] members@[g]@)
                                == build_groups_upto(ev, items, i as int)[g].1,
                    decreases n - i,
                {
                    let ghost prev = build_groups_upto(ev, items, i as int);
                    let key = match extract_key(&arr.elements[i], &self.selection) {
                        Ok(k) => k,
                        Err(e) => {
                            return Err(e);
                        },
                    };
                    proof {
                        lemma_group_index(prev, key@);
                    }
                    let ghost gidx = group_index(prev, key@);
                    let found = find_key(&keyvals, &key);
                    match found {
                        Some(g) => {
                            proof {
                                assert(prev.len() == keyvals@.len());
                                assert((keyvals@[g as int])@ == key@);
                                assert(prev[g as int].0 == key@);
                                assert forall|t: int| 0 <= t < g as int implies (#[trigger] prev[t]).0
                                    != key@ by {
                                    assert((keyvals@[t])@ != key@);
                                    assert((keyvals@[t])@ == prev[t].0);
                                }
                                lemma_group_index_at(prev, key@, g as int);
                                assert(gidx == g as int);
                            }
                            let member = arr.elements[i].deep_copy();
                            let ghost oldmembers = members@;
                            push_member(&mut members, g, member);
                            proof {
                                let cur = build_groups_upto(ev, items, i as int + 1);
                                assert(cur == prev.update(
                                    gidx,
                                    (key@, prev[gidx].1.push(ev[i as int])),
                                ));
                                lemma_view_seq(members@[g as int]@);
                                lemma_view_seq(oldmembers[g as int]@);
                                assert(view_seq(members@[g as int]@) =~= view_seq(
                                    oldmembers[g as int]@,
                                ).push(ev[i as int]));
                                assert forall|t: int|
                                    0 <= t < members@.len() implies view_seq(
                                    #[trigger] members@[t]@,
                                ) == cur[t].1 by {
                                    if t != g as int {
                                        assert(members@[t] == oldmembers[t]);
                                    }
                                }
                            }
                        },
                        None => {
                            proof {
                                assert(gidx < 0) by {
                                    if gidx >= 0 {
                                        assert(prev[gidx].0 == key@);
                                        assert((keyvals@[gidx])@ == prev[gidx].0);
                                        assert((keyvals@[gidx])@ != key@);
                                    }
                                }
                                let cur = build_groups_upto(ev, items, i as int + 1);
                                assert(cur == prev.push((key@, seq![ev[i as int]])));
                            }
                            let member = arr.elements[i].deep_copy();
                            let mut ms: Vec<Value> = Vec::new();
                            ms.push(member);
                            proof {
                                lemma_view_seq(ms@);
                                assert(view_seq(ms@) =~= seq![ev[i as int]]);
                            }
                            keyvals.push(key);
                            members.push(ms);
                        },
                    }
                    i = i + 1;
                }
                let ghost groups = build_groups(ev, items);
                proof {
                    assert(groups == build_groups_upto(ev, items, n as int));
                }
                let mut out: Vec<Value> = Vec::new();
                let gn = keyvals.len();
                let mut rest_keys = keyvals;
                let mut rest_members = members;
                let mut g: usize = 0;
                while g < gn
                    invariant
                        g <= gn,
                        gn == groups.len(),
                        rest_keys@.len() == gn - g as int,
                        rest_members@.len() == gn - g as int,
                        forall|t: int|
                            0 <= t < rest_keys@.len() ==> (#[trigger] rest_keys@[t])@ == groups[
                                g + t
                            ].0,
                        forall|t: int|
                            0 <= t < rest_members@.len() ==> view_seq(#[trigger] rest_members@[t]@)
                                == groups[g + t].1,
                        out@.len() == g as int,
                        forall|t: int| 0 <= t < g as int ==> out@[t]@ == group_row(groups[t]),
                    decreases gn - g,
                {
                    let key = rest_keys.remove(0);
                    let ms = rest_members.remove(0);
                    let inner = Value::Array(Array { elements: ms, level: Level::Line });
                    let mut rowv: Vec<Value> = Vec::new();
                    rowv.push(key);
                    rowv.push(inner);
                    let row = Value::Array(Array { elements: rowv, level: Level::Word });
                    proof {
                        lemma_view_seq(rowv@);
                        assert(row@ matches ValueSpec::Array { elems: re, level: rl } && re
                            =~= group_row(groups[g as int])->elems);
                        assert(row@ == group_row(groups[g as int]));
                    }
                    out.push(row);
                    g = g + 1;
                }
                let r = Value::Array(Array { elements: out, level: Level::Line });
                proof {
                    lemma_view_seq(out@);
                    assert(r@ matches ValueSpec::Array { elems: re, level: rl } && re =~= Seq::new(
                        groups.len(),
                        |t: int| group_row(groups[t]),
                    ));
                }
                Ok(r)
            },
            other => Ok(other),
        }
    }

    pub fn requires_full_input(&self) -> (r: bool)
        ensures
            r == true,
    {
        true
    }
}


/// The first index whose value equals the key, or nothing.
fn find_key(keyvals: &Vec<Value>, key: &Value) -> (r: Option<usize>)
    ensures
        match r {
            Some(g) => g < keyvals@.len() && keyvals@[g as int]@ == key@ && forall|t: int|
                0 <= t < g as int ==> (#[trigger] keyvals@[t])@ != key@,
            None => forall|t: int| 0 <= t < keyvals@.len() ==> (#[trigger] keyvals@[t])@ != key@,
        },
{
    let n = keyvals.len();
    let mut g: usize = 0;
    while g < n
        invariant
            g <= n,
            n == keyvals@.len(),
            forall|t: int| 0 <= t < g as int ==> (#[trigger] keyvals@[t])@ != key@,
        decreases n - g,
    {
        if values_equal(&keyvals[g], key) {
            return Some(g);
        }
        g = g + 1;
    }
    None
}

/// Pushes one member into the group at `g`.
fn push_member(members: &mut Vec<Vec<Value>>, g: usize, member: Value)
    requires
        g < old(members)@.len(),
    ensures
        final(members)@.len() == old(members)@.len(),
        final(members)@[g as int]@ == old(members)@[g as int]@.push(member),
        forall|t: int|
            0 <= t < old(members)@.len() && t != g as int ==> final(members)@[t] == old(
                members,
            )@[t],
{
    let mut group = members.remove(g);
    group.push(member);
    members.insert(g, group);
    proof {
        assert forall|t: int|
            0 <= t < old(members)@.len() && t != g as int implies members@[t] == old(
            members,
        )@[t] by {
            if t < g as int {
                assert(old(members)@.remove(g as int)[t] == old(members)@[t]);
            } else {
                assert(old(members)@.remove(g as int)[t - 1] == old(members)@[t]);
            }
        }
    }
}

/// If the first `g` group keys differ from `k` and the key at `g` equals
/// `k`, the group index is `g`.
proof fn lemma_group_index_at(groups: Seq<(ValueSpec, Seq<ValueSpec>)>, k: ValueSpec, g: int)
    requires
        0 <= g < groups.len(),
        groups[g].0 == k,
        forall|t: int| 0 <= t < g ==> (#[trigger] groups[t]).0 != k,
    ensures
        group_index(groups, k) == g,
    decreases groups.len(),
{
    if g > 0 {
        assert forall|t: int|
            0 <= t < g - 1 implies (#[trigger] groups.drop_first()[t]).0 != k by {
            assert(groups.drop_first()[t] == groups[t + 1]);
        }
        assert(groups.drop_first()[g - 1] == groups[g]);
        lemma_group_index_at(groups.drop_first(), k, g - 1);
    }
}

/// Compares two values for (deep) equality.
pub fn values_equal(a: &Value, b: &Value) -> (r: bool)
    ensures
        r == (a@ == b@),
    decreases a,
{
    match (a, b) {
        (Value::Number(na), Value::Number(nb)) => *na == *nb,
        (Value::Text(sa), Value::Text(sb)) => {
            let r = strings_equal(sa, sb);
            proof {
                if sa@ == sb@ {
                    assert(a@ == b@);
                }
            }
            r
        },
        (Value::Array(aa), Value::Array(ab)) => {
            if !levels_equal(aa.level, ab.level) {
                proof {
                    assert(a@ matches ValueSpec::Array { elems: e1, level: l1 } && l1 == aa.level);
                    assert(b@ matches ValueSpec::Array { elems: e2, level: l2 } && l2 == ab.level);
                }
                false
            } else if aa.elements.len() != ab.elements.len() {
                proof {
                    lemma_view_seq(aa.elements@);
                    lemma_view_seq(ab.elements@);
                }
                false
            } else {
                proof {
                    lemma_view_seq(aa.elements@);
                    lemma_view_seq(ab.elements@);
                }
                let n = aa.elements.len();
                let ghost e1 = view_seq(aa.elements@);
                let ghost e2 = view_seq(ab.elements@);
                let mut i: usize = 0;
                while i < n
                    invariant
                        i <= n,
                        n == aa.elements@.len(),
                        n == ab.elements@.len(),
                        e1 == view_seq(aa.elements@),
                        e2 == view_seq(ab.elements@),
                        e1.len() == n as int,
                        e2.len() == n as int,
                        forall|j: int| 0 <= j < n as int ==> e1[j] == aa.elements@[j]@,
                        forall|j: int| 0 <= j < n as int ==> e2[j] == ab.elements@[j]@,
                        forall|j: int| 0 <= j < i as int ==> e1[j] == e2[j],
                        a == Value::Array(*aa),
                        b == Value::Array(*ab),
                    decreases n - i,
                {
                    proof {
                        assert(a->Array_0 == *aa);
                        assert(decreases_to!(*a => a->Array_0));
                        assert(decreases_to!(*a => *aa));
                        assert(decreases_to!(*aa => aa.elements));
                        assert(decreases_to!(aa.elements => aa.elements@));
                        assert(decreases_to!(aa.elements@ => aa.elements@[i as int]));
                    }
                    if !values_equal(&aa.elements[i], &ab.elements[i]) {
                        proof {
                            assert(e1[i as int] != e2[i as int]);
                            assert(a@ != b@) by {
                                if a@ == b@ {
                                    assert(e1 == e2);
                                }
                            }
                        }
                        return false;
                    }
                    i = i + 1;
                }
                proof {
                    assert(e1 =~= e2);
                    assert(a@ == b@);
                }
                true
            }
        },
        _ => {
            proof {
                assert(a@ != b@);
            }
            false
        },
    }
}

/// Relies on `String::eq`: equality of the characters.
fn strings_equal(a: &String, b: &String) -> (r: bool)
    ensures
        r == (a@ == b@),
{
    a.eq(b)
}

fn levels_equal(a: Level, b: Level) -> (r: bool)
    ensures
        r == (a == b),
{
    match (a, b) {
        (Level::File, Level::File) => true,
        (Level::Line, Level::Line) => true,
        (Level::Word, Level::Word) => true,
        (Level::Char, Level::Char) => true,
        _ => false,
    }
}

} // verus!
