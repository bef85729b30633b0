//! Dedupe with counts: one row `[count, value]` per distinct value, sorted
//! by count descending with ties in first-seen order.

use vstd::prelude::*;
use vstd::relations::{sorted_by, total_ordering};
use vstd::seq_lib::lemma_sorted_unique;
use crate::ast::Selection;
use crate::chars::push_char;
use crate::error::Error;
use crate::operators::fold::clamp_i64;
use crate::operators::group::{extract_key, extract_spec, values_equal};
use crate::operators::sort::{le_val, lemma_cmp_val_laws};
use crate::render::{i64_to_string, int_to_dec};
use crate::value::{Array, Level, Value, ValueSpec, view_seq, lemma_view_seq};

verus! {

/// The canonical key of a value: a prefix-tagged recursive encoding, so
/// text, number, and array are never confused.
pub open spec fn key_spec(v: ValueSpec) -> Seq<char>
    decreases v, 0int,
{
    match v {
        ValueSpec::Text { chars } => seq!['T', ':'] + chars,
        ValueSpec::Number { num } => seq!['N', ':'] + int_to_dec(num),
        ValueSpec::Array { elems, level } => seq!['A', ':', '['] + key_seq(elems) + seq![']'],
    }
}

pub open spec fn key_seq(elems: Seq<ValueSpec>) -> Seq<char>
    decreases elems, 1int,
{
    if elems.len() == 0 {
        Seq::<char>::empty()
    } else if elems.len() == 1 {
        key_spec(elems.first())
    } else {
        key_spec(elems.first()) + seq![','] + key_seq(elems.drop_first())
    }
}

proof fn lemma_key_seq_snoc(elems: Seq<ValueSpec>)
    requires
        elems.len() >= 2,
    ensures
        key_seq(elems) == key_seq(elems.drop_last()) + seq![','] + key_spec(elems.last()),
    decreases elems.len(),
{
    if elems.len() == 2 {
        assert(elems.drop_first().len() == 1);
        assert(elems.drop_first().first() == elems.last());
        assert(elems.drop_last().len() == 1);
        assert(elems.drop_last().first() == elems.first());
        assert(key_seq(elems.drop_first()) == key_spec(elems.drop_first().first()));
        assert(key_seq(elems.drop_last()) == key_spec(elems.drop_last().first()));
        assert(key_seq(elems) =~= key_seq(elems.drop_last()) + seq![','] + key_spec(elems.last()));
    } else {
        lemma_key_seq_snoc(elems.drop_first());
        assert(elems.drop_first().drop_last() =~= elems.drop_last().drop_first());
        assert(elems.drop_first().last() == elems.last());
        assert(elems.drop_last().first() == elems.first());
        assert(key_seq(elems.drop_last()) == key_spec(elems.first()) + seq![','] + key_seq(
            elems.drop_last().drop_first(),
        ));
        assert(key_seq(elems) =~= key_seq(elems.drop_last()) + seq![','] + key_spec(elems.last()));
    }
}

/// The canonical key, executably.
pub fn value_to_key(value: &Value) -> (r: String)
    ensures
        r@ == key_spec(value@),
    decreases value, 1int,
{
    let mut out = String::new();
    match value {
        Value::Text(s) => {
            push_char(&mut out, 'T');
            push_char(&mut out, ':');
            out.append(s.as_str());
            proof {
                assert(out@ =~= key_spec(value@));
            }
        },
        Value::Number(n) => {
            push_char(&mut out, 'N');
            push_char(&mut out, ':');
            let ds = i64_to_string(*n);
            out.append(ds.as_str());
            proof {
                assert(out@ =~= key_spec(value@));
            }
        },
        Value::Array(arr) => {
            proof {
                assert(value->Array_0 == *arr);
                assert(decreases_to!(*value => value->Array_0));
                assert(decreases_to!(*value => *arr));
                assert(decreases_to!(*arr => arr.elements));
            }
            push_char(&mut out, 'A');
            push_char(&mut out, ':');
            push_char(&mut out, '[');
            let inner = keys_of_elements(&arr.elements);
            out.append(inner.as_str());
            push_char(&mut out, ']');
            proof {
                assert(out@ =~= key_spec(value@));
            }
        },
    }
    out
}

/// The keys of the elements, joined with commas.
fn keys_of_elements(elements: &Vec<Value>) -> (r: String)
    ensures
        r@ == key_seq(view_seq(elements@)),
    decreases elements, 0int,
{
    proof {
        lemma_view_seq(elements@);
    }
    let ghost ev = view_seq(elements@);
    let mut out = String::new();
    let n = elements.len();
    let mut i: usize = 0;
    while i < n
        invariant
            i <= n,
            n == elements@.len(),
            ev == view_seq(elements@),
            ev.len() == n as int,
            forall|j: int| 0 <= j < n as int ==> ev[j] == elements@[j]@,
            out@ == key_seq(ev.take(i as int)),
        decreases n - i,
    {
        proof {
            assert(decreases_to!(elements => elements@));
            assert(decreases_to!(elements@ => elements@[i as int]));
        }
        let piece = value_to_key(&elements[i]);
        if i > 0 {
            push_char(&mut out, ',');
        }
        out.append(piece.as_str());
        proof {
            let t1 = ev.take(i as int + 1);
            assert(t1.last() == ev[i as int]);
            assert(t1.drop_last() =~= ev.take(i as int));
            if i == 0 {
                assert(t1.len() == 1);
                assert(t1.first() == ev[0]);
                assert(out@ =~= key_seq(t1));
            } else {
                lemma_key_seq_snoc(t1);
                assert(out@ =~= key_seq(ev.take(i as int)) + seq![','] + key_spec(ev[i as int]));
            }
        }
        i = i + 1;
    }
    proof {
        assert(ev.take(n as int) =~= ev);
    }
    out
}

/// The deduping key of one row: the row itself, or what a selection
/// extracts from it.
pub open spec fn entry_rep(e: ValueSpec, items: Option<Seq<crate::ast::SelectItem>>) -> ValueSpec {
    match items {
        None => e,
        Some(its) => extract_spec(e, its),
    }
}

pub open spec fn entry_key(e: ValueSpec, items: Option<Seq<crate::ast::SelectItem>>) -> Seq<char> {
    key_spec(entry_rep(e, items))
}

/// The distinct keyed values with their counts and first representatives,
/// in first-seen order.
pub open spec fn build_entries(
    elems: Seq<ValueSpec>,
    items: Option<Seq<crate::ast::SelectItem>>,
    n: int,
) -> Seq<(Seq<char>, int, ValueSpec)>
    decreases n,
{
    if n <= 0 {
        Seq::<(Seq<char>, int, ValueSpec)>::empty()
    } else {
        let prev = build_entries(elems, items, n - 1);
        let k = entry_key(elems[n - 1], items);
        let i = entry_index(prev, k);
        if i >= 0 {
            proof {
                lemma_entry_index(prev, k);
            }
            prev.update(i, (k, prev[i].1 + 1, prev[i].2))
        } else {
            prev.push((k, 1, entry_rep(elems[n - 1], items)))
        }
    }
}

/// The first entry with the given key, or `-1`.
pub open spec fn entry_index(entries: Seq<(Seq<char>, int, ValueSpec)>, k: Seq<char>) -> int
    decreases entries.len(),
{
    if entries.len() == 0 {
        -1
    } else if entries.first().0 == k {
        0
    } else {
        let r = entry_index(entries.drop_first(), k);
        if r < 0 {
            -1
        } else {
            r + 1
        }
    }
}

pub proof fn lemma_entry_index(entries: Seq<(Seq<char>, int, ValueSpec)>, k: Seq<char>)
    ensures
        entry_index(entries, k) >= 0 ==> entry_index(entries, k) < entries.len() && entries[
            entry_index(entries, k)
        ].0 == k,
        entry_index(entries, k) < 0 ==> forall|i: int|
            0 <= i < entries.len() ==> (#[trigger] entries[i]).0 != k,
    decreases entries.len(),
{
    if entries.len() > 0 && entries.first().0 != k {
        lemma_entry_index(entries.drop_first(), k);
        let r = entry_index(entries.drop_first(), k);
        if r >= 0 {
            assert(entries.drop_first()[r] == entries[r + 1]);
        } else {
            assert forall|i: int| 0 <= i < entries.len() implies (#[trigger] entries[i]).0 != k by {
                if i > 0 {
                    assert(entries.drop_first()[i - 1] == entries[i]);
                }
            }
        }
    }
}

/// The ordering of the result rows `(count, first-seen index, value)`:
/// count descending, ties by first-seen index, then by value.
pub open spec fn row_le() -> spec_fn((int, int, ValueSpec), (int, int, ValueSpec)) -> bool {
    |a: (int, int, ValueSpec), b: (int, int, ValueSpec)|
        a.0 > b.0 || (a.0 == b.0 && (a.1 < b.1 || (a.1 == b.1 && le_val(a.2, b.2))))
}

/// The row order is a total ordering.
pub proof fn lemma_row_le_total()
    ensures
        total_ordering(row_le()),
{
    assert forall|a: (int, int, ValueSpec), b: (int, int, ValueSpec), c: (int, int, ValueSpec)|
        true implies (#[trigger] row_le()(a, b) || row_le()(b, a)) && (row_le()(a, b) && row_le()(
        b,
        a,
    ) ==> a == b) && (row_le()(a, b) && #[trigger] row_le()(b, c) ==> row_le()(a, c)) && row_le()(
        a,
        a,
    ) by {
        lemma_cmp_val_laws(a.2, b.2, c.2);
        lemma_cmp_val_laws(b.2, a.2, c.2);
        lemma_cmp_val_laws(a.2, a.2, a.2);
    }
}

/// The rows of the entries: count, first-seen index, representative.
pub open spec fn rows_of(entries: Seq<(Seq<char>, int, ValueSpec)>) -> Seq<(int, int, ValueSpec)> {
    Seq::new(entries.len(), |i: int| (entries[i].1, i, entries[i].2))
}

/// One result row `[count, value]`, the count clamped into 64 bits.
pub open spec fn row_value(r: (int, int, ValueSpec)) -> ValueSpec {
    ValueSpec::Array {
        elems: seq![ValueSpec::Number { num: clamp_i64(r.0) }, r.2],
        level: Level::Word,
    }
}

/// What dedupe produces on an array: the rows sorted by count descending,
/// ties first-seen.
pub open spec fn dedupe_rows(elems: Seq<ValueSpec>, items: Option<
    Seq<crate::ast::SelectItem>,
>) -> Seq<(int, int, ValueSpec)> {
    rows_of(build_entries(elems, items, elems.len() as int)).sort_by(row_le())
}

pub open spec fn dedupe_apply_spec(v: ValueSpec, items: Option<
    Seq<crate::ast::SelectItem>,
>) -> ValueSpec {
    match v {
        ValueSpec::Array { elems, level } => ValueSpec::Array {
            elems: Seq::new(
                dedupe_rows(elems, items).len(),
                |i: int| row_value(dedupe_rows(elems, items)[i]),
            ),
            level: Level::Line,
        },
        other => other,
    }
}

/// The counts of the entries, added up.
pub open spec fn sum_counts(entries: Seq<(Seq<char>, int, ValueSpec)>) -> int
    decreases entries.len(),
{
    if entries.len() == 0 {
        0
    } else {
        sum_counts(entries.drop_last()) + entries.last().1
    }
}

/// The counts of the rows, added up.
pub open spec fn sum_row_counts(rows: Seq<(int, int, ValueSpec)>) -> int
    decreases rows.len(),
{
    if rows.len() == 0 {
        0
    } else {
        sum_row_counts(rows.drop_last()) + rows.last().0
    }
}

proof fn lemma_sum_counts_update(entries: Seq<(Seq<char>, int, ValueSpec)>, i: int, e2: (
    Seq<char>,
    int,
    ValueSpec,
))
    requires
        0 <= i < entries.len(),
        e2.1 == entries[i].1 + 1,
    ensures
        sum_counts(entries.update(i, e2)) == sum_counts(entries) + 1,
    decreases entries.len(),
{
    let u = entries.update(i, e2);
    if i == entries.len() - 1 {
        assert(u.drop_last() =~= entries.drop_last());
        assert(u.last() == e2);
    } else {
        lemma_sum_counts_update(entries.drop_last(), i, e2);
        assert(u.drop_last() =~= entries.drop_last().update(i, e2));
        assert(u.last() == entries.last());
    }
}

/// The keys of the rows, in input order.
pub open spec fn keys_of_rows(elems: Seq<ValueSpec>, items: Option<
    Seq<crate::ast::SelectItem>,
>) -> Seq<Seq<char>> {
    Seq::new(elems.len(), |i: int| entry_key(elems[i], items))
}

/// The entry keys, in entry order.
pub open spec fn keys_of_entries(entries: Seq<(Seq<char>, int, ValueSpec)>) -> Seq<Seq<char>> {
    Seq::new(entries.len(), |i: int| entries[i].0)
}

/// Dedupe preserves the multiset of keyed rows: the entry counts add up to
/// the number of rows, the entry keys are distinct, and together they are
/// exactly the keys seen in the input — so the output has one row per
/// distinct key, and its counts also add up to the number of rows.
pub proof fn lemma_dedupe_counts(elems: Seq<ValueSpec>, items: Option<Seq<crate::ast::SelectItem>>)
    ensures
        sum_counts(build_entries(elems, items, elems.len() as int)) == elems.len(),
        keys_of_entries(build_entries(elems, items, elems.len() as int)).no_duplicates(),
        keys_of_entries(build_entries(elems, items, elems.len() as int)).to_set() == keys_of_rows(
            elems,
            items,
        ).to_set(),
        build_entries(elems, items, elems.len() as int).len() == keys_of_rows(
            elems,
            items,
        ).to_set().len(),
        dedupe_rows(elems, items).len() == build_entries(elems, items, elems.len() as int).len(),
        sum_row_counts(dedupe_rows(elems, items)) == elems.len(),
{
    lemma_build_entries_props(elems, items, elems.len() as int);
    let entries = build_entries(elems, items, elems.len() as int);
    let kr = keys_of_rows(elems, items);
    assert forall|x: Seq<char>|
        kr.to_set().contains(x) implies keys_seen(elems, items, elems.len() as int).contains(
        x,
    ) by {
        let t = choose|t: int| 0 <= t < kr.len() && kr[t] == x;
        assert(entry_key(elems[t], items) == x);
    }
    assert forall|x: Seq<char>|
        keys_seen(elems, items, elems.len() as int).contains(x) implies kr.to_set().contains(
        x,
    ) by {
        let w = choose|w: int|
            0 <= w < elems.len() && entry_key(#[trigger] elems[w], items) == x;
        assert(kr[w] == x);
        assert(kr.contains(x));
    }
    assert(keys_of_rows(elems, items).to_set() =~= keys_seen(elems, items, elems.len() as int));
    keys_of_entries(entries).unique_seq_to_set();
    let rows = rows_of(entries);
    lemma_row_le_total();
    rows.lemma_sort_by_ensures(row_le());
    let sorted = rows.sort_by(row_le());
    rows.to_multiset_ensures();
    sorted.to_multiset_ensures();
    assert(sorted.len() == sorted.to_multiset().len());
    assert(rows.len() == rows.to_multiset().len());
    lemma_sum_rows_fold(rows);
    lemma_sum_rows_fold(sorted);
    assert(vstd::seq_lib::commutative_foldr(row_add())) by {
        assert(forall|x: (int, int, ValueSpec), y: (int, int, ValueSpec), v: int|
            #[trigger] row_add()(x, row_add()(y, v)) == row_add()(y, row_add()(x, v)));
    }
    vstd::seq_lib::lemma_fold_right_permutation(sorted, rows, row_add(), 0);
    lemma_rows_sum(entries);
}

/// The set of keys among the first `n` rows.
pub open spec fn keys_seen(
    elems: Seq<ValueSpec>,
    items: Option<Seq<crate::ast::SelectItem>>,
    n: int,
) -> Set<Seq<char>> {
    Set::new(|k: Seq<char>| exists|i: int| 0 <= i < n && entry_key(#[trigger] elems[i], items) == k)
}

proof fn lemma_build_entries_props(
    elems: Seq<ValueSpec>,
    items: Option<Seq<crate::ast::SelectItem>>,
    n: int,
)
    requires
        0 <= n <= elems.len(),
    ensures
        sum_counts(build_entries(elems, items, n)) == n,
        keys_of_entries(build_entries(elems, items, n)).no_duplicates(),
        keys_of_entries(build_entries(elems, items, n)).to_set() == keys_seen(elems, items, n),
    decreases n,
{
    let cur = build_entries(elems, items, n);
    let kc = keys_of_entries(cur);
    if n == 0 {
        assert(kc =~= Seq::<Seq<char>>::empty());
        assert(kc.to_set() =~= keys_seen(elems, items, 0));
        assert(kc.to_set() == keys_seen(elems, items, 0));
    } else {
        lemma_build_entries_props(elems, items, n - 1);
        let prev = build_entries(elems, items, n - 1);
        let kp = keys_of_entries(prev);
        let k = entry_key(elems[n - 1], items);
        let i = entry_index(prev, k);
        lemma_entry_index(prev, k);
        if i >= 0 {
            lemma_sum_counts_update(prev, i, (k, prev[i].1 + 1, prev[i].2));
            assert(kc =~= kp.update(i, k));
            assert(kp[i] == k);
            assert(kc =~= kp);
            assert(kp.to_set().contains(k)) by {
                assert(kp[i] == k);
            }
            assert(kc.to_set() =~= keys_seen(elems, items, n)) by {
                assert forall|x: Seq<char>| keys_seen(elems, items, n).contains(x) implies kc.to_set().contains(
                    x,
                ) by {
                    let w = choose|w: int|
                        0 <= w < n && entry_key(#[trigger] elems[w], items) == x;
                    if w < n - 1 {
                        assert(keys_seen(elems, items, n - 1).contains(x));
                    } else {
                        assert(x == k);
                    }
                }
                assert forall|x: Seq<char>| kc.to_set().contains(x) implies keys_seen(
                    elems,
                    items,
                    n,
                ).contains(x) by {
                    assert(keys_seen(elems, items, n - 1).contains(x));
                    let w = choose|w: int|
                        0 <= w < n - 1 && entry_key(#[trigger] elems[w], items) == x;
                    assert(0 <= w < n && entry_key(elems[w], items) == x);
                }
            }
            assert(kc.to_set() == keys_seen(elems, items, n));
        } else {
            assert(cur == prev.push((k, 1, entry_rep(elems[n - 1], items))));
            assert(cur.drop_last() =~= prev);
            assert(sum_counts(cur) == sum_counts(prev) + 1);
            assert(kc =~= kp.push(k));
            assert(forall|t: int| 0 <= t < kp.len() ==> (#[trigger] kp[t]) != k);
            assert(kc.no_duplicates()) by {
                assert forall|p: int, q: int|
                    0 <= p < q < kc.len() implies kc[p] != kc[q] by {
                    if q < kp.len() {
                        assert(kp[p] == kc[p] && kp[q] == kc[q]);
                    } else {
                        assert(kc[q] == k);
                        assert(kc[p] == kp[p]);
                    }
                }
            }
            assert(kc.to_set() =~= keys_seen(elems, items, n)) by {
                assert forall|x: Seq<char>| keys_seen(elems, items, n).contains(x) implies kc.to_set().contains(
                    x,
                ) by {
                    let w = choose|w: int|
                        0 <= w < n && entry_key(#[trigger] elems[w], items) == x;
                    if w < n - 1 {
                        assert(keys_seen(elems, items, n - 1).contains(x));
                        assert(kp.to_set().contains(x));
                        let t = choose|t: int| 0 <= t < kp.len() && kp[t] == x;
                        assert(kc[t] == x);
                    } else {
                        assert(kc[kc.len() - 1] == x);
                    }
                }
                assert forall|x: Seq<char>| kc.to_set().contains(x) implies keys_seen(
                    elems,
                    items,
                    n,
                ).contains(x) by {
                    let t = choose|t: int| 0 <= t < kc.len() && kc[t] == x;
                    if t < kp.len() {
                        assert(kp[t] == x);
                        assert(keys_seen(elems, items, n - 1).contains(x));
                        let w = choose|w: int|
                            0 <= w < n - 1 && entry_key(#[trigger] elems[w], items) == x;
                        assert(0 <= w < n && entry_key(elems[w], items) == x);
                    } else {
                        assert(x == k);
                        assert(entry_key(elems[n - 1], items) == x);
                    }
                }
            }
            assert(kc.to_set() == keys_seen(elems, items, n));
        }
    }
}

/// Adding a row's count, as a fold step.
pub open spec fn row_add() -> spec_fn((int, int, ValueSpec), int) -> int {
    |r: (int, int, ValueSpec), acc: int| acc + r.0
}

proof fn lemma_sum_rows_fold(rows: Seq<(int, int, ValueSpec)>)
    ensures
        sum_row_counts(rows) == rows.fold_right(row_add(), 0),
    decreases rows.len(),
{
    if rows.len() > 0 {
        lemma_sum_rows_fold(rows.drop_last());
        rows.drop_last().lemma_fold_right_commute_one(rows.last(), row_add(), 0);
    }
}

proof fn lemma_rows_sum(entries: Seq<(Seq<char>, int, ValueSpec)>)
    ensures
        sum_row_counts(rows_of(entries)) == sum_counts(entries),
    decreases entries.len(),
{
    if entries.len() > 0 {
        lemma_rows_sum(entries.drop_last());
        assert(rows_of(entries).drop_last() =~= rows_of(entries.drop_last()));
        assert(rows_of(entries).last().0 == entries.last().1);
    }
}


/// A result row under construction: its count, its first-seen index, and
/// its representative value.
pub struct Row {
    pub count: usize,
    pub order: usize,
    pub rep: Value,
}

pub open spec fn row_view(r: Row) -> (int, int, ValueSpec) {
    (r.count as int, r.order as int, r.rep@)
}

pub open spec fn rows_view(s: Seq<Row>) -> Seq<(int, int, ValueSpec)> {
    Seq::new(s.len(), |i: int| row_view(s[i]))
}

/// The first index among the keys equal to `key`, or nothing.
fn find_key_str(keys: &Vec<String>, key: &String) -> (r: Option<usize>)
    ensures
        match r {
            Some(g) => g < keys@.len() && (keys@[g as int])@ == key@ && forall|t: int|
                0 <= t < g as int ==> (#[trigger] keys@[t])@ != key@,
            None => forall|t: int| 0 <= t < keys@.len() ==> (#[trigger] keys@[t])@ != key@,
        },
{
    let n = keys.len();
    let mut g: usize = 0;
    while g < n
        invariant
            g <= n,
            n == keys@.len(),
            forall|t: int| 0 <= t < g as int ==> (#[trigger] keys@[t])@ != key@,
        decreases n - g,
    {
        if crate::chars::strings_equal(&keys[g], key) {
            return Some(g);
        }
        g = g + 1;
    }
    None
}

/// If the first `g` entry keys differ from `k` and the key at `g` equals
/// `k`, the entry index is `g`.
proof fn lemma_entry_index_at(entries: Seq<(Seq<char>, int, ValueSpec)>, k: Seq<char>, g: int)
    requires
        0 <= g < entries.len(),
        entries[g].0 == k,
        forall|t: int| 0 <= t < g ==> (#[trigger] entries[t]).0 != k,
    ensures
        entry_index(entries, k) == g,
    decreases entries.len(),
{
    if g > 0 {
        assert forall|t: int|
            0 <= t < g - 1 implies (#[trigger] entries.drop_first()[t]).0 != k by {
            assert(entries.drop_first()[t] == entries[t + 1]);
        }
        assert(entries.drop_first()[g - 1] == entries[g]);
        lemma_entry_index_at(entries.drop_first(), k, g - 1);
    }
}

/// Dedupes the rows of an array, keyed by the whole row or by a selection.
fn dedupe_with_counts_by(arr: Array, sel: Option<&Selection>) -> (r: Result<Value, Error>)
    ensures
        r matches Ok(v) && v@ == dedupe_apply_spec(
            (ValueSpec::Array { elems: arr@, level: arr.level }),
            match sel {
                Some(s) => Some(s.items@),
                None => None,
            },
        ),
{
    let ghost ev = view_seq(arr.elements@);
    let ghost items: Option<Seq<crate::ast::SelectItem>> = match sel {
        Some(s) => Some(s.items@),
        None => None,
    };
    proof {
        lemma_view_seq(arr.elements@);
    }
    let n = arr.elements.len();
    let mut keys: Vec<String> = Vec::new();
    let mut counts: Vec<usize> = Vec::new();
    let mut reps: Vec<Value> = Vec::new();
    let mut i: usize = 0;
    while i < n
        invariant
            i <= n,
            n == arr.elements@.len(),
            ev == view_seq(arr.elements@),
            ev.len() == n as int,
            forall|j: int| 0 <= j < n as int ==> ev[j] == arr.elements@[j]@,
            items == (match sel {
                Some(s) => Some(s.items@),
                None => None,
            }),
            keys@.len() == counts@.len(),
            keys@.len() == reps@.len(),
            keys@.len() == build_entries(ev, items, i as int).len(),
            forall|g: int|
                0 <= g < keys@.len() ==> (#[trigger] keys@[g])@ == build_entries(
                    ev,
                    items,
                    i as int,
                )[g].0,
            forall|g: int|
                0 <= g < counts@.len() ==> (#[trigger] counts@[g]) as int == build_entries(
                    ev,
                    items,
                    i as int,
                )[g].1,
            forall|g: int| 0 <= g < counts@.len() ==> (#[trigger] counts@[g]) <= i,
            forall|g: int|
                0 <= g < reps@.len() ==> (#[trigger] reps@[g])@ == build_entries(
                    ev,
                    items,
                    i as int,
                )[g].2,
        decreases n - i,
    {
        let ghost prev = build_entries(ev, items, i as int);
        let keyed: Value = match sel {
            Some(s) => match extract_key(&arr.elements[i], s) {
                Ok(k) => k,
                Err(e) => {
                    return Err(e);
                },
            },
            None => arr.elements[i].deep_copy(),
        };
        proof {
            assert(keyed@ == entry_rep(ev[i as int], items));
        }
        let key = value_to_key(&keyed);
        proof {
            assert(key@ == entry_key(ev[i as int], items));
            lemma_entry_index(prev, key@);
        }
        let ghost gidx = entry_index(prev, key@);
        match find_key_str(&keys, &key) {
            Some(g) => {
                proof {
                    assert(prev[g as int].0 == key@);
                    assert forall|t: int| 0 <= t < g as int implies (#[trigger] prev[t]).0
                        != key@ by {
                        assert((keys@[t])@ != key@);
                        assert((keys@[t])@ == prev[t].0);
                    }
                    lemma_entry_index_at(prev, key@, g as int);
                    assert(gidx == g as int);
                    assert(counts@[g as int] <= i);
                }
                let c = counts[g];
                counts.set(g, c + 1);
                proof {
                    let cur = build_entries(ev, items, i as int + 1);
                    assert(cur == prev.update(gidx, (key@, prev[gidx].1 + 1, prev[gidx].2)));
                }
            },
            None => {
                proof {
                    assert(gidx < 0) by {
                        if gidx >= 0 {
                            assert(prev[gidx].0 == key@);
                            assert((keys@[gidx])@ == prev[gidx].0);
                            assert((keys@[gidx])@ != key@);
                        }
                    }
                    let cur = build_entries(ev, items, i as int + 1);
                    assert(cur == prev.push((key@, 1, entry_rep(ev[i as int], items))));
                }
                keys.push(key);
                counts.push(1);
                reps.push(keyed);
            },
        }
        i = i + 1;
    }
    let ghost entries = build_entries(ev, items, n as int);
    let gn = counts.len();
    let mut rows: Vec<Row> = Vec::new();
    let mut rest_reps = reps;
    let mut g: usize = 0;
    while g < gn
        invariant
            g <= gn,
            gn == entries.len(),
            gn == counts@.len(),
            rest_reps@.len() == gn - g as int,
            forall|t: int|
                0 <= t < counts@.len() ==> (#[trigger] counts@[t]) as int == entries[t].1,
            forall|t: int|
                0 <= t < rest_reps@.len() ==> (#[trigger] rest_reps@[t])@ == entries[g + t].2,
            rows@.len() == g as int,
            forall|t: int|
                0 <= t < g as int ==> row_view(#[trigger] rows@[t]) == rows_of(entries)[t],
        decreases gn - g,
    {
        let rep = rest_reps.remove(0);
        let row = Row { count: counts[g], order: g, rep };
        rows.push(row);
        g = g + 1;
    }
    proof {
        assert(rows_view(rows@) =~= rows_of(entries));
    }
    let sorted = sort_rows(rows);
    proof {
        lemma_row_le_total();
        rows_of(entries).lemma_sort_by_ensures(row_le());
        lemma_sorted_unique(rows_view(sorted@), rows_of(entries).sort_by(row_le()), row_le());
        assert(rows_view(sorted@) =~= dedupe_rows(ev, items));
    }
    let ghost drows = dedupe_rows(ev, items);
    let mut out: Vec<Value> = Vec::new();
    let rn = sorted.len();
    let mut rest = sorted;
    let mut t: usize = 0;
    while t < rn
        invariant
            t <= rn,
            rn == drows.len(),
            rest@.len() == rn - t as int,
            forall|q: int|
                0 <= q < rest@.len() ==> row_view(#[trigger] rest@[q]) == drows[t + q],
            out@.len() == t as int,
            forall|q: int| 0 <= q < t as int ==> out@[q]@ == row_value(drows[q]),
        decreases rn - t,
    {
        let row = rest.remove(0);
        let cnum: i64 = if row.count as u128 > i64::MAX as u128 {
            i64::MAX
        } else {
            row.count as i64
        };
        let mut cells: Vec<Value> = Vec::new();
        cells.push(Value::Number(cnum));
        cells.push(row.rep);
        let rv = Value::Array(Array { elements: cells, level: Level::Word });
        proof {
            lemma_view_seq(rv->Array_0.elements@);
            assert(rv@ matches ValueSpec::Array { elems: re, level: rl } && re =~= row_value(
                drows[t as int],
            )->elems);
            assert(rv@ == row_value(drows[t as int]));
        }
        out.push(rv);
        t = t + 1;
    }
    let r = Value::Array(Array { elements: out, level: Level::Line });
    proof {
        lemma_view_seq(out@);
        assert(r@ matches ValueSpec::Array { elems: re, level: rl } && re =~= Seq::new(
            drows.len(),
            |q: int| row_value(drows[q]),
        ));
        assert(r@ == dedupe_apply_spec(
            (ValueSpec::Array { elems: ev, level: arr.level }),
            items,
        ));
    }
    Ok(r)
}

/// Sorts the rows by count descending, ties by first-seen index.
fn sort_rows(input: Vec<Row>) -> (r: Vec<Row>)
    ensures
        sorted_by(rows_view(r@), row_le()),
        rows_view(r@).to_multiset() == rows_view(input@).to_multiset(),
{
    let ghost orig = rows_view(input@);
    let mut rest = input;
    let mut out: Vec<Row> = Vec::new();
    proof {
        rows_view(out@).to_multiset_ensures();
        vstd::multiset::lemma_multiset_empty_len(rows_view(out@).to_multiset());
        assert(rows_view(out@).to_multiset() =~= vstd::multiset::Multiset::<(
            int,
            int,
            ValueSpec,
        )>::empty());
        assert(rows_view(out@).to_multiset().add(rows_view(rest@).to_multiset())
            =~= orig.to_multiset());
    }
    while rest.len() > 0
        invariant
            rows_view(out@).to_multiset().add(rows_view(rest@).to_multiset())
                == orig.to_multiset(),
            sorted_by(rows_view(out@), row_le()),
            forall|i: int, j: int|
                0 <= i < rows_view(out@).len() && 0 <= j < rows_view(rest@).len()
                    ==> row_le()(rows_view(out@)[i], rows_view(rest@)[j]),
        decreases rest@.len(),
    {
        let n = rest.len();
        let mut m: usize = 0;
        proof {
            assert(row_le()(row_view(rest@[0]), row_view(rest@[0]))) by {
                lemma_cmp_val_laws(row_view(rest@[0]).2, row_view(rest@[0]).2, row_view(rest@[0]).2);
            }
        }
        let mut j: usize = 1;
        while j < n
            invariant
                m < j <= n,
                n == rest@.len(),
                forall|k: int|
                    0 <= k < j as int ==> row_le()(
                        row_view(rest@[m as int]),
                        row_view(#[trigger] rest@[k]),
                    ),
            decreases n - j,
        {
            let better = row_before(&rest[j], &rest[m]);
            proof {
                let rm = row_view(rest@[m as int]);
                let rj = row_view(rest@[j as int]);
                if better {
                    assert forall|k: int|
                        0 <= k < j as int + 1 implies row_le()(rj, row_view(#[trigger] rest@[k])) by {
                        let rk = row_view(rest@[k]);
                        lemma_cmp_val_laws(rj.2, rm.2, rk.2);
                        lemma_cmp_val_laws(rk.2, rm.2, rj.2);
                        lemma_cmp_val_laws(rj.2, rj.2, rj.2);
                    }
                } else {
                    lemma_cmp_val_laws(rm.2, rj.2, rj.2);
                    lemma_cmp_val_laws(rj.2, rm.2, rm.2);
                }
            }
            if better {
                m = j;
            }
            j = j + 1;
        }
        let ghost rv = rows_view(rest@);
        let ghost ov = rows_view(out@);
        let picked = rest.remove(m);
        let ghost pv = row_view(picked);
        out.push(picked);
        proof {
            assert(rows_view(out@) =~= ov.push(pv));
            assert(rows_view(rest@) =~= rv.remove(m as int));
            rv.to_multiset_ensures();
            ov.to_multiset_ensures();
            assert(rv.remove(m as int).to_multiset() =~= rv.to_multiset().remove(rv[m as int]));
            assert(ov.push(pv).to_multiset() =~= ov.to_multiset().insert(pv));
            assert(pv == rv[m as int]);
            assert(rv.to_multiset().count(rv[m as int]) > 0) by {
                assert(rv.contains(rv[m as int]));
            }
            assert(rows_view(out@).to_multiset().add(rows_view(rest@).to_multiset())
                =~= orig.to_multiset());
            let ov2 = rows_view(out@);
            let rv2 = rows_view(rest@);
            assert forall|i: int, j2: int|
                0 <= i < ov2.len() && 0 <= j2 < rv2.len() implies row_le()(ov2[i], rv2[j2]) by {
                if i < ov.len() {
                    assert(ov2[i] == ov[i]);
                } else {
                    assert(ov2[i] == rv[m as int]);
                }
                if j2 < m as int {
                    assert(rv2[j2] == rv[j2]);
                } else {
                    assert(rv2[j2] == rv[j2 + 1]);
                }
            }
            assert forall|i: int, j2: int|
                0 <= i < j2 < ov2.len() implies row_le()(ov2[i], ov2[j2]) by {
                if j2 < ov.len() {
                    assert(ov2[i] == ov[i]);
                    assert(ov2[j2] == ov[j2]);
                } else {
                    assert(ov2[j2] == rv[m as int]);
                }
            }
        }
    }
    proof {
        rows_view(rest@).to_multiset_ensures();
        vstd::multiset::lemma_multiset_empty_len(rows_view(rest@).to_multiset());
        assert(rows_view(rest@).to_multiset() =~= vstd::multiset::Multiset::<(
            int,
            int,
            ValueSpec,
        )>::empty());
        assert(rows_view(out@).to_multiset() =~= orig.to_multiset());
    }
    out
}

/// Whether row `a` sorts strictly before row `b`.
fn row_before(a: &Row, b: &Row) -> (r: bool)
    ensures
        r == (row_le()(row_view(*a), row_view(*b)) && row_view(*a) != row_view(*b)),
{
    proof {
        lemma_cmp_val_laws(a.rep@, b.rep@, a.rep@);
    }
    if a.count > b.count {
        true
    } else if a.count < b.count {
        false
    } else if a.order < b.order {
        true
    } else if a.order > b.order {
        false
    } else {
        let c = crate::operators::sort::exec_cmp(&a.rep, &b.rep);
        c < 0
    }
}

/// Dedupe with counts: one row `[count, value]` per distinct row value.
pub struct DedupeWithCounts;

impl DedupeWithCounts {
    /// The rows grouped by value: one row `[count, value]` per distinct
    /// value, counts descending, ties in first-seen order; the counts add
    /// up to the input length and there is one row per distinct value.
    /// A non-array value is unchanged.
    pub fn apply(&self, value: Value) -> (r: Result<Value, Error>)
        ensures
            r matches Ok(v) && v@ == dedupe_apply_spec(value@, None),
    {
        match value {
            Value::Array(arr) => dedupe_with_counts_by(arr, None),
            other => Ok(other),
        }
    }

    pub fn requires_full_input(&self) -> (r: bool)
        ensures
            r == true,
    {
        true
    }
}

/// Dedupe with counts, keyed by a selection within each row.
pub struct DedupeSelectionWithCounts {
    pub selection: Selection,
}

impl DedupeSelectionWithCounts {
    pub fn new(selection: Selection) -> (r: DedupeSelectionWithCounts)
        ensures
            r.selection == selection,
    {
        DedupeSelectionWithCounts { selection }
    }

    /// As `DedupeWithCounts`, but rows are keyed and represented by what
    /// the selection extracts from them.
    pub fn apply(&self, value: Value) -> (r: Result<Value, Error>)
        ensures
            r matches Ok(v) && v@ == dedupe_apply_spec(value@, Some(self.selection.items@)),
    {
        match value {
            Value::Array(arr) => dedupe_with_counts_by(arr, Some(&self.selection)),
            other => Ok(other),
        }
    }

    pub fn requires_full_input(&self) -> (r: bool)
        ensures
            r == true,
    {
        true
    }
}


} // verus!
