//! Filtering rows by a pattern, collecting matches, replacing in leaves,
//! and deleting empty elements.

use vstd::prelude::*;
use crate::ast::Selection;
use crate::chars::{chars_to_string, str_to_chars};
use crate::error::Error;
use crate::regex::{matches_from, Pattern, replace_from, spec_search};
use crate::render::{render_spec, render_value};
use crate::select::{selection_indices, selection_positions, to_ints};
use crate::value::{Array, Level, Value, ValueSpec, view_seq, lemma_view_seq};

verus! {

/// The rows whose text rendering does (or does not) hold a match.
pub open spec fn filter_rows(elems: Seq<ValueSpec>, p: Pattern, keep_matching: bool) -> Seq<
    ValueSpec,
>
    decreases elems.len(),
{
    if elems.len() == 0 {
        Seq::<ValueSpec>::empty()
    } else {
        let rest = filter_rows(elems.drop_last(), p, keep_matching);
        if spec_search(p, render_spec(elems.last())) == keep_matching {
            rest.push(elems.last())
        } else {
            rest
        }
    }
}

pub open spec fn filter_apply_spec(v: ValueSpec, p: Pattern, keep_matching: bool) -> ValueSpec {
    match v {
        ValueSpec::Array { elems, level } => ValueSpec::Array {
            elems: filter_rows(elems, p, keep_matching),
            level,
        },
        other => other,
    }
}

/// Keeps rows matching the pattern (`/pat/`), or drops them (`!/pat/`).
pub struct Filter {
    pub pattern: Pattern,
    pub keep_matching: bool,
}

impl Filter {
    pub fn new(pattern: Pattern, keep_matching: bool) -> (r: Filter)
        ensures
            r.pattern == pattern,
            r.keep_matching == keep_matching,
    {
        Filter { pattern, keep_matching }
    }

    pub fn apply(&self, value: Value) -> (r: Result<Value, Error>)
        ensures
            r matches Ok(v) && v@ == filter_apply_spec(value@, self.pattern, self.keep_matching),
    {
        match value {
            Value::Array(arr) => {
                let ghost ev = view_seq(arr.elements@);
                proof {
                    lemma_view_seq(arr.elements@);
                }
                let n = arr.elements.len();
                let mut out: Vec<Value> = Vec::new();
                let mut i: usize = 0;
                while i < n
                    invariant
                        i <= n,
                        n == arr.elements@.len(),
                        ev == view_seq(arr.elements@),
                        ev.len() == n as int,
                        forall|j: int| 0 <= j < n as int ==> ev[j] == arr.elements@[j]@,
                        view_seq(out@) =~= filter_rows(
                            ev.take(i as int),
                            self.pattern,
                            self.keep_matching,
                        ),
                    decreases n - i,
                {
                    let text = render_value(&arr.elements[i]);
                    let cs = str_to_chars(text.as_str());
                    let hit = self.pattern.is_match(&cs);
                    let ghost pre = view_seq(out@);
                    proof {
                        lemma_view_seq(out@);
                        let t1 = ev.take(i as int + 1);
                        assert(t1.drop_last() =~= ev.take(i as int));
                        assert(t1.last() == ev[i as int]);
                    }
                    if hit == self.keep_matching {
                        let kept = arr.elements[i].deep_copy();
                        out.push(kept);
                        proof {
                            lemma_view_seq(out@);
                            assert(view_seq(out@) =~= pre.push(ev[i as int]));
                        }
                    }
                    i = i + 1;
                }
                proof {
                    assert(ev.take(n as int) =~= ev);
                    lemma_view_seq(out@);
                }
                Ok(Value::Array(Array { elements: out, level: arr.level }))
            },
            other => Ok(other),
        }
    }

    pub fn requires_full_input(&self) -> (r: bool)
        ensures
            r == false,
    {
        false
    }
}

/// The matches of one row: the pattern's matches in the row's rendering,
/// as a word-level array of texts.
pub open spec fn matches_row_spec(e: ValueSpec, p: Pattern) -> ValueSpec {
    ValueSpec::Array {
        elems: crate::operators::split::texts_of(matches_from(p.atoms@, render_spec(e), 0)),
        level: Level::Word,
    }
}

pub open spec fn matches_apply_spec(v: ValueSpec, p: Pattern) -> ValueSpec {
    match v {
        ValueSpec::Array { elems, level } => ValueSpec::Array {
            elems: Seq::new(elems.len(), |i: int| matches_row_spec(elems[i], p)),
            level,
        },
        other => matches_row_spec(v, p),
    }
}

/// Collects, per row, every match of the pattern in the row's rendering.
pub struct MatchAll {
    pub pattern: Pattern,
}

impl MatchAll {
    pub fn new(pattern: Pattern) -> (r: MatchAll)
        ensures
            r.pattern == pattern,
    {
        MatchAll { pattern }
    }

    fn apply_row(&self, row: &Value) -> (r: Value)
        ensures
            r@ == matches_row_spec(row@, self.pattern),
    {
        let text = render_value(row);
        let cs = str_to_chars(text.as_str());
        let found = self.pattern.find_all(&cs);
        let elements = texts_from_pieces_local(found);
        Value::Array(Array { elements, level: Level::Word })
    }

    pub fn apply(&self, value: Value) -> (r: Result<Value, Error>)
        ensures
            r matches Ok(v) && v@ == matches_apply_spec(value@, self.pattern),
    {
        match value {
            Value::Array(arr) => {
                let ghost ev = view_seq(arr.elements@);
                proof {
                    lemma_view_seq(arr.elements@);
                }
                let n = arr.elements.len();
                let mut out: Vec<Value> = Vec::new();
                let mut i: usize = 0;
                while i < n
                    invariant
                        i <= n,
                        n == arr.elements@.len(),
                        ev == view_seq(arr.elements@),
                        ev.len() == n as int,
                        forall|j: int| 0 <= j < n as int ==> ev[j] == arr.elements@[j]@,
                        out@.len() == i as int,
                        forall|j: int|
                            0 <= j < i as int ==> out@[j]@ == matches_row_spec(
                                ev[j],
                                self.pattern,
                            ),
                    decreases n - i,
                {
                    let e = self.apply_row(&arr.elements[i]);
                    out.push(e);
                    i = i + 1;
                }
                let r = Value::Array(Array { elements: out, level: arr.level });
                proof {
                    lemma_view_seq(out@);
                    assert(r@ matches ValueSpec::Array { elems: re, level: rl } && re =~= Seq::new(
                        ev.len(),
                        |j: int| matches_row_spec(ev[j], self.pattern),
                    ));
                }
                Ok(r)
            },
            other => Ok(self.apply_row(&other)),
        }
    }

    pub fn requires_full_input(&self) -> (r: bool)
        ensures
            r == false,
    {
        false
    }
}

/// Builds the text values for the given pieces.
fn texts_from_pieces_local(pieces: Vec<Vec<char>>) -> (r: Vec<Value>)
    ensures
        view_seq(r@) == crate::operators::split::texts_of(pieces.deep_view()),
{
    let mut out: Vec<Value> = Vec::new();
    let n = pieces.len();
    let mut i: usize = 0;
    while i < n
        invariant
            i <= n,
            n == pieces@.len(),
            out@.len() == i as int,
            forall|j: int|
                0 <= j < i as int ==> out@[j]@ == (ValueSpec::Text {
                    chars: pieces@[j].deep_view(),
                }),
        decreases n - i,
    {
        let piece = chars_to_string(&pieces[i]);
        proof {
            assert(pieces@[i as int].deep_view() =~= pieces@[i as int]@);
        }
        out.push(Value::Text(piece));
        i = i + 1;
    }
    proof {
        lemma_view_seq(out@);
        assert(view_seq(out@) =~= crate::operators::split::texts_of(pieces.deep_view()));
    }
    out
}

/// What replacing does to one text leaf.
pub open spec fn replace_leaf(chars: Seq<char>, p: Pattern, repl: Seq<char>) -> ValueSpec {
    ValueSpec::Text { chars: replace_from(p.atoms@, chars, repl, 0) }
}

/// Replacing applied to every text leaf, recursively.
pub open spec fn replace_value(v: ValueSpec, p: Pattern, repl: Seq<char>) -> ValueSpec
    decreases v,
{
    match v {
        ValueSpec::Text { chars } => replace_leaf(chars, p, repl),
        ValueSpec::Number { num } => ValueSpec::Number { num },
        ValueSpec::Array { elems, level } => ValueSpec::Array {
            elems: replace_seq(elems, p, repl),
            level,
        },
    }
}

pub open spec fn replace_seq(elems: Seq<ValueSpec>, p: Pattern, repl: Seq<char>) -> Seq<ValueSpec>
    decreases elems,
{
    if elems.len() == 0 {
        Seq::<ValueSpec>::empty()
    } else {
        seq![replace_value(elems.first(), p, repl)] + replace_seq(elems.drop_first(), p, repl)
    }
}

pub proof fn lemma_replace_seq(elems: Seq<ValueSpec>, p: Pattern, repl: Seq<char>)
    ensures
        replace_seq(elems, p, repl).len() == elems.len(),
        forall|i: int|
            0 <= i < elems.len() ==> replace_seq(elems, p, repl)[i] == replace_value(
                elems[i],
                p,
                repl,
            ),
    decreases elems.len(),
{
    if elems.len() > 0 {
        lemma_replace_seq(elems.drop_first(), p, repl);
        let rest = replace_seq(elems.drop_first(), p, repl);
        let s = seq![replace_value(elems.first(), p, repl)] + rest;
        assert(replace_seq(elems, p, repl) == s);
        assert forall|i: int|
            0 <= i < elems.len() implies replace_seq(elems, p, repl)[i] == replace_value(
            elems[i],
            p,
            repl,
        ) by {
            if i > 0 {
                assert(s[i] == rest[i - 1]);
                assert(elems.drop_first()[i - 1] == elems[i]);
            }
        }
    }
}

/// What the selected form produces: within each array row, replacement
/// runs at the selected positions only.
pub open spec fn replace_row_spec(
    row: ValueSpec,
    items: Seq<crate::ast::SelectItem>,
    p: Pattern,
    repl: Seq<char>,
) -> ValueSpec {
    match row {
        ValueSpec::Array { elems, level } => ValueSpec::Array {
            elems: Seq::new(
                elems.len(),
                |j: int|
                    if selection_positions(items, elems.len() as int).contains(j) {
                        replace_value(elems[j], p, repl)
                    } else {
                        elems[j]
                    },
            ),
            level,
        },
        other => other,
    }
}

pub open spec fn replace_apply_spec(
    v: ValueSpec,
    sel: Option<Seq<crate::ast::SelectItem>>,
    p: Pattern,
    repl: Seq<char>,
) -> ValueSpec {
    match sel {
        None => replace_value(v, p, repl),
        Some(items) => match v {
            ValueSpec::Array { elems, level } => ValueSpec::Array {
                elems: Seq::new(elems.len(), |i: int| replace_row_spec(elems[i], items, p, repl)),
                level,
            },
            other => other,
        },
    }
}

/// Replaces every match of the pattern in every text leaf (anchors play no
/// part), or only at the selected positions within each row.
pub struct Replace {
    pub sel: Option<Selection>,
    pub pattern: Pattern,
    pub replacement: String,
}

impl Replace {
    pub fn new(sel: Option<Selection>, pattern: Pattern, replacement: String) -> (r: Replace)
        ensures
            r.sel == sel,
            r.pattern == pattern,
            r.replacement == replacement,
    {
        Replace { sel, pattern, replacement }
    }

    pub open spec fn spec_sel(&self) -> Option<Seq<crate::ast::SelectItem>> {
        match self.sel {
            Some(s) => Some(s.items@),
            None => None,
        }
    }

    fn apply_value(&self, v: &Value) -> (r: Value)
        ensures
            r@ == replace_value(v@, self.pattern, self.replacement@),
        decreases v,
    {
        match v {
            Value::Text(s) => {
                let cs = str_to_chars(s.as_str());
                let rs = str_to_chars(self.replacement.as_str());
                let replaced = self.pattern.replace_all(&cs, &rs);
                Value::Text(chars_to_string(&replaced))
            },
            Value::Number(n) => Value::Number(*n),
            Value::Array(arr) => {
                let mut out: Vec<Value> = Vec::new();
                let n = arr.elements.len();
                let ghost ev = view_seq(arr.elements@);
                proof {
                    lemma_view_seq(arr.elements@);
                }
                let mut i: usize = 0;
                while i < n
                    invariant
                        i <= n,
                        n == arr.elements@.len(),
                        ev == view_seq(arr.elements@),
                        ev.len() == n as int,
                        forall|j: int| 0 <= j < n as int ==> ev[j] == arr.elements@[j]@,
                        out@.len() == i as int,
                        forall|j: int|
                            0 <= j < i as int ==> out@[j]@ == replace_value(
                                ev[j],
                                self.pattern,
                                self.replacement@,
                            ),
                        v == Value::Array(*arr),
                    decreases n - i,
                {
                    proof {
                        assert(v->Array_0 == *arr);
                        assert(decreases_to!(*v => v->Array_0));
                        assert(decreases_to!(*v => *arr));
                        assert(decreases_to!(*arr => arr.elements));
                        assert(decreases_to!(arr.elements => arr.elements@));
                        assert(decreases_to!(arr.elements@ => arr.elements@[i as int]));
                    }
                    let e = self.apply_value(&arr.elements[i]);
                    out.push(e);
                    i = i + 1;
                }
                let r = Value::Array(Array { elements: out, level: arr.level });
                proof {
                    lemma_view_seq(out@);
                    lemma_replace_seq(ev, self.pattern, self.replacement@);
                    assert(r@ matches ValueSpec::Array { elems: re, level: rl } && re
                        =~= replace_seq(ev, self.pattern, self.replacement@));
                }
                r
            },
        }
    }

    fn apply_row(&self, sel: &Selection, row: &Value) -> (r: Value)
        ensures
            r@ == replace_row_spec(row@, sel.items@, self.pattern, self.replacement@),
    {
        match row {
            Value::Array(inner) => {
                let len = inner.elements.len();
                let positions = selection_indices(sel, len);
                let chosen = crate::operators::caseops::mark_positions(&positions, len);
                proof {
                    lemma_view_seq(inner.elements@);
                }
                let ghost ev = view_seq(inner.elements@);
                let ghost ps = selection_positions(sel.items@, len as int);
                let mut out: Vec<Value> = Vec::new();
                let mut j: usize = 0;
                while j < len
                    invariant
                        j <= len,
                        len == inner.elements@.len(),
                        ev == view_seq(inner.elements@),
                        ev.len() == len as int,
                        forall|q: int| 0 <= q < len as int ==> ev[q] == inner.elements@[q]@,
                        chosen@.len() == len as int,
                        ps == selection_positions(sel.items@, len as int),
                        forall|q: int| 0 <= q < len as int ==> chosen@[q] == ps.contains(q),
                        out@.len() == j as int,
                        forall|q: int|
                            0 <= q < j as int ==> out@[q]@ == (if ps.contains(q) {
                                replace_value(ev[q], self.pattern, self.replacement@)
                            } else {
                                ev[q]
                            }),
                    decreases len - j,
                {
                    let e = if chosen[j] {
                        self.apply_value(&inner.elements[j])
                    } else {
                        inner.elements[j].deep_copy()
                    };
                    out.push(e);
                    j = j + 1;
                }
                let r = Value::Array(Array { elements: out, level: inner.level });
                proof {
                    lemma_view_seq(out@);
                    assert(r@ matches ValueSpec::Array { elems: re, level: rl } && re =~= Seq::new(
                        ev.len(),
                        |q: int|
                            if ps.contains(q) {
                                replace_value(ev[q], self.pattern, self.replacement@)
                            } else {
                                ev[q]
                            },
                    ));
                }
                r
            },
            other => other.deep_copy(),
        }
    }

    pub fn apply(&self, value: Value) -> (r: Result<Value, Error>)
        ensures
            r matches Ok(v) && v@ == replace_apply_spec(
                value@,
                self.spec_sel(),
                self.pattern,
                self.replacement@,
            ),
    {
        match &self.sel {
            None => Ok(self.apply_value(&value)),
            Some(sel) => {
                match value {
                    Value::Array(arr) => {
                        let mut out: Vec<Value> = Vec::new();
                        let n = arr.elements.len();
                        let ghost ev = view_seq(arr.elements@);
                        proof {
                            lemma_view_seq(arr.elements@);
                        }
                        let mut i: usize = 0;
                        while i < n
                            invariant
                                i <= n,
                                n == arr.elements@.len(),
                                ev == view_seq(arr.elements@),
                                ev.len() == n as int,
                                forall|j: int| 0 <= j < n as int ==> ev[j] == arr.elements@[j]@,
                                out@.len() == i as int,
                                forall|j: int|
                                    0 <= j < i as int ==> out@[j]@ == replace_row_spec(
                                        ev[j],
                                        sel.items@,
                                        self.pattern,
                                        self.replacement@,
                                    ),
                            decreases n - i,
                        {
                            let e = self.apply_row(sel, &arr.elements[i]);
                            out.push(e);
                            i = i + 1;
                        }
                        let r = Value::Array(Array { elements: out, level: arr.level });
                        proof {
                            lemma_view_seq(out@);
                            assert(r@ matches ValueSpec::Array { elems: re, level: rl } && re
                                =~= Seq::new(
                                ev.len(),
                                |j: int| replace_row_spec(
                                    ev[j],
                                    sel.items@,
                                    self.pattern,
                                    self.replacement@,
                                ),
                            ));
                        }
                        Ok(r)
                    },
                    other => Ok(other),
                }
            },
        }
    }

    pub fn requires_full_input(&self) -> (r: bool)
        ensures
            r == false,
    {
        false
    }
}

/// Whether a value is empty: empty text or an empty array.
pub open spec fn is_empty_val(e: ValueSpec) -> bool {
    match e {
        ValueSpec::Text { chars } => chars.len() == 0,
        ValueSpec::Array { elems, level } => elems.len() == 0,
        ValueSpec::Number { num } => false,
    }
}

pub open spec fn nonempty_rows(elems: Seq<ValueSpec>) -> Seq<ValueSpec>
    decreases elems.len(),
{
    if elems.len() == 0 {
        Seq::<ValueSpec>::empty()
    } else {
        let rest = nonempty_rows(elems.drop_last());
        if is_empty_val(elems.last()) {
            rest
        } else {
            rest.push(elems.last())
        }
    }
}

pub open spec fn delete_empty_spec(v: ValueSpec) -> ValueSpec {
    match v {
        ValueSpec::Array { elems, level } => ValueSpec::Array {
            elems: nonempty_rows(elems),
            level,
        },
        other => other,
    }
}

/// Deletes empty elements: empty texts and empty arrays.
pub struct DeleteEmpty;

impl DeleteEmpty {
    pub fn apply(&self, value: Value) -> (r: Result<Value, Error>)
        ensures
            r matches Ok(v) && v@ == delete_empty_spec(value@),
    {
        match value {
            Value::Array(arr) => {
                let ghost ev = view_seq(arr.elements@);
                proof {
                    lemma_view_seq(arr.elements@);
                }
                let n = arr.elements.len();
                let mut out: Vec<Value> = Vec::new();
                let mut i: usize = 0;
                while i < n
                    invariant
                        i <= n,
                        n == arr.elements@.len(),
                        ev == view_seq(arr.elements@),
                        ev.len() == n as int,
                        forall|j: int| 0 <= j < n as int ==> ev[j] == arr.elements@[j]@,
                        view_seq(out@) =~= nonempty_rows(ev.take(i as int)),
                    decreases n - i,
                {
                    let keep = match &arr.elements[i] {
                        Value::Text(s) => !s.as_str().is_empty(),
                        Value::Array(inner) => inner.elements.len() > 0,
                        Value::Number(_) => true,
                    };
                    let ghost pre = view_seq(out@);
                    proof {
                        lemma_view_seq(out@);
                        let t1 = ev.take(i as int + 1);
                        assert(t1.drop_last() =~= ev.take(i as int));
                        assert(t1.last() == ev[i as int]);
                        if ev[i as int] is Array {
                            lemma_view_seq(arr.elements@[i as int]->Array_0.elements@);
                        }
                    }
                    if keep {
                        let kept = arr.elements[i].deep_copy();
                        out.push(kept);
                        proof {
                            lemma_view_seq(out@);
                            assert(view_seq(out@) =~= pre.push(ev[i as int]));
                        }
                    }
                    i = i + 1;
                }
                proof {
                    assert(ev.take(n as int) =~= ev);
                    lemma_view_seq(out@);
                }
                Ok(Value::Array(Array { elements: out, level: arr.level }))
            },
            other => Ok(other),
        }
    }

    pub fn requires_full_input(&self) -> (r: bool)
        ensures
            r == false,
    {
        false
    }
}

} // verus!
