//! Lowercase, uppercase, trim, and to-number: leaf transforms applied to
//! every text leaf, or only to selected positions within each row.

use vstd::prelude::*;
use crate::ast::Selection;
use crate::chars::{chars_to_string, str_to_chars};
use crate::error::Error;
use crate::render::i64_to_string;
use crate::select::{selection_indices, selection_positions, to_ints};
use crate::textops::{lower_spec, upper_spec, trim_spec, lower_chars, upper_chars, trim_chars,
    lemma_lower_idempotent, lemma_upper_idempotent, lemma_trim_idempotent};
use crate::value::{Array, Value, ValueSpec, view_seq, lemma_view_seq};

verus! {

/// Which leaf transform runs.
#[derive(Clone, Copy, Debug, PartialEq, Eq, Structural)]
pub enum CaseKind {
    Lower,
    Upper,
    Trim,
    ToNumber,
}

pub open spec fn is_digit(c: char) -> bool {
    '0' <= c && c <= '9'
}

pub open spec fn all_digits(s: Seq<char>) -> bool {
    forall|i: int| 0 <= i < s.len() ==> is_digit(#[trigger] s[i])
}

/// The value of a digit string, most significant digit first.
pub open spec fn digits_val(s: Seq<char>) -> int
    decreases s.len(),
{
    if s.len() == 0 {
        0
    } else {
        digits_val(s.drop_last()) * 10 + (s.last() as int - 48)
    }
}

/// The integer a text denotes: an optional `-`, then one or more digits,
/// and nothing else.
pub open spec fn int_of_text(s: Seq<char>) -> Option<int> {
    if s.len() >= 1 && s[0] == '-' {
        let ds = s.drop_first();
        if ds.len() > 0 && all_digits(ds) {
            Some(-digits_val(ds))
        } else {
            None
        }
    } else if s.len() > 0 && all_digits(s) {
        Some(digits_val(s))
    } else {
        None
    }
}

/// What one text leaf becomes under the given kind.  To-number keeps the
/// text unchanged when it is not an integer in range.
pub open spec fn case_leaf(kind: CaseKind, chars: Seq<char>) -> ValueSpec {
    match kind {
        CaseKind::Lower => ValueSpec::Text { chars: lower_spec(chars) },
        CaseKind::Upper => ValueSpec::Text { chars: upper_spec(chars) },
        CaseKind::Trim => ValueSpec::Text { chars: trim_spec(chars) },
        CaseKind::ToNumber => match int_of_text(chars) {
            Some(v) => if i64::MIN <= v <= i64::MAX {
                ValueSpec::Number { num: v }
            } else {
                ValueSpec::Text { chars }
            },
            None => ValueSpec::Text { chars },
        },
    }
}

/// The transform applied to every text leaf, recursively.
pub open spec fn case_value(kind: CaseKind, v: ValueSpec) -> ValueSpec
    decreases v,
{
    match v {
        ValueSpec::Text { chars } => case_leaf(kind, chars),
        ValueSpec::Number { num } => ValueSpec::Number { num },
        ValueSpec::Array { elems, level } => ValueSpec::Array {
            elems: case_seq(kind, elems),
            level,
        },
    }
}

pub open spec fn case_seq(kind: CaseKind, elems: Seq<ValueSpec>) -> Seq<ValueSpec>
    decreases elems,
{
    if elems.len() == 0 {
        Seq::<ValueSpec>::empty()
    } else {
        seq![case_value(kind, elems.first())] + case_seq(kind, elems.drop_first())
    }
}

/// `case_seq` maps the elements one by one.
pub proof fn lemma_case_seq(kind: CaseKind, elems: Seq<ValueSpec>)
    ensures
        case_seq(kind, elems).len() == elems.len(),
        forall|i: int|
            0 <= i < elems.len() ==> case_seq(kind, elems)[i] == case_value(kind, elems[i]),
    decreases elems.len(),
{
    if elems.len() > 0 {
        lemma_case_seq(kind, elems.drop_first());
        let rest = case_seq(kind, elems.drop_first());
        let s = seq![case_value(kind, elems.first())] + rest;
        assert(case_seq(kind, elems) == s);
        assert forall|i: int|
            0 <= i < elems.len() implies case_seq(kind, elems)[i] == case_value(
            kind,
            elems[i],
        ) by {
            if i > 0 {
                assert(s[i] == rest[i - 1]);
                assert(elems.drop_first()[i - 1] == elems[i]);
            }
        }
    }
}

/// What the selected form produces: within each array row, the transform
/// runs at the selected positions only; other rows and positions stay.
pub open spec fn case_row_spec(kind: CaseKind, row: ValueSpec, items: Seq<
    crate::ast::SelectItem,
>) -> ValueSpec {
    match row {
        ValueSpec::Array { elems, level } => ValueSpec::Array {
            elems: Seq::new(
                elems.len(),
                |j: int|
                    if selection_positions(items, elems.len() as int).contains(j) {
                        case_value(kind, elems[j])
                    } else {
                        elems[j]
                    },
            ),
            level,
        },
        other => other,
    }
}

pub open spec fn case_apply_spec(
    kind: CaseKind,
    v: ValueSpec,
    sel: Option<Seq<crate::ast::SelectItem>>,
) -> ValueSpec {
    match sel {
        None => case_value(kind, v),
        Some(items) => match v {
            ValueSpec::Array { elems, level } => ValueSpec::Array {
                elems: Seq::new(elems.len(), |i: int| case_row_spec(kind, elems[i], items)),
                level,
            },
            other => other,
        },
    }
}

/// Lowercasing every leaf twice is lowercasing it once, and so for
/// uppercasing and trimming.
pub proof fn lemma_case_value_idempotent(kind: CaseKind, v: ValueSpec)
    requires
        kind == CaseKind::Lower || kind == CaseKind::Upper || kind == CaseKind::Trim,
    ensures
        case_value(kind, case_value(kind, v)) == case_value(kind, v),
    decreases v,
{
    match v {
        ValueSpec::Text { chars } => {
            match kind {
                CaseKind::Lower => lemma_lower_idempotent(chars),
                CaseKind::Upper => lemma_upper_idempotent(chars),
                CaseKind::Trim => lemma_trim_idempotent(chars),
                CaseKind::ToNumber => {},
            }
        },
        ValueSpec::Number { num } => {},
        ValueSpec::Array { elems, level } => {
            lemma_case_seq(kind, elems);
            lemma_case_seq(kind, case_seq(kind, elems));
            assert forall|i: int|
                0 <= i < elems.len() implies case_seq(kind, case_seq(kind, elems))[i] == case_seq(
                kind,
                elems,
            )[i] by {
                assert(decreases_to!(v => elems));
                assert(decreases_to!(elems => elems[i]));
                lemma_case_value_idempotent(kind, elems[i]);
            }
            assert(case_seq(kind, case_seq(kind, elems)) =~= case_seq(kind, elems));
        },
    }
}

/// Parses a text as an integer: `None` when the text is not an optional
/// `-` followed by digits, or does not fit.
pub fn parse_i64_text(s: &Vec<char>) -> (r: Option<i64>)
    ensures
        match int_of_text(s@) {
            Some(v) => if i64::MIN <= v <= i64::MAX {
                r == Some(v as i64)
            } else {
                r is None
            },
            None => r is None,
        },
{
    let n = s.len();
    let mut start: usize = 0;
    let mut negative = false;
    if n >= 1 && s[0] == '-' {
        negative = true;
        start = 1;
    }
    if start >= n {
        return None;
    }
    let ghost ds = s@.skip(start as int);
    proof {
        if start == 1 {
            assert(s@.drop_first() =~= ds);
        } else {
            assert(s@.skip(0) =~= s@);
        }
    }
    let mut i = start;
    while i < n
        invariant
            start <= i <= n,
            n == s@.len(),
            negative == (n >= 1 && s@[0] == '-'),
            start == (if negative { 1int } else { 0int }),
            ds == s@.skip(start as int),
            ds.len() == n - start as int,
            forall|j: int| 0 <= j < i - start ==> is_digit(#[trigger] ds[j]),
        decreases n - i,
    {
        let c = s[i];
        if !('0' <= c && c <= '9') {
            proof {
                assert(ds[i - start as int] == s@[i as int]);
                assert(!all_digits(ds));
                if start == 1 {
                    assert(s@.drop_first() =~= ds);
                } else {
                    assert(s@.skip(0) =~= s@);
                }
            }
            return None;
        }
        i = i + 1;
    }
    let mut acc: i128 = 0;
    let mut k = start;
    while k < n
        invariant
            start <= k <= n,
            n == s@.len(),
            negative == (n >= 1 && s@[0] == '-'),
            start == (if negative { 1int } else { 0int }),
            ds == s@.skip(start as int),
            ds.len() == n - start as int,
            ds.len() > 0,
            all_digits(ds),
            0 <= acc as int,
            acc as int == digits_val(ds.take(k - start as int)),
            acc as int <= 9223372036854775808int,
        decreases n - k,
    {
        proof {
            assert(ds[k - start as int] == s@[k as int]);
            assert(is_digit(ds[k - start as int]));
            assert(all_digits(ds.take(k + 1 - start as int))) by {
                assert(forall|j: int|
                    0 <= j < k + 1 - start as int ==> ds.take(k + 1 - start as int)[j] == ds[j]);
            }
            lemma_digits_val_nonneg(ds.take(k + 1 - start as int));
            assert(ds.take(k + 1 - start as int).drop_last() =~= ds.take(k - start as int));
            assert(ds.take(k + 1 - start as int).last() == ds[k - start as int]);
        }
        let d: i128 = (s[k] as u8 - 48) as i128;
        acc = acc * 10 + d;
        if acc > 9223372036854775808i128 {
            proof {
                lemma_digits_prefix_le(ds, k + 1 - start as int);
                if negative {
                    assert(s@.drop_first() =~= ds);
                    assert(int_of_text(s@) == Some(-digits_val(ds)));
                } else {
                    assert(s@.skip(0) =~= s@);
                    assert(int_of_text(s@) == Some(digits_val(ds)));
                }
            }
            return None;
        }
        k = k + 1;
    }
    proof {
        assert(ds.take(n - start as int) =~= ds);
        if negative {
            assert(s@.drop_first() =~= ds);
        } else {
            assert(s@.skip(0) =~= s@);
        }
    }
    if negative {
        Some((-acc) as i64)
    } else {
        if acc > 9223372036854775807i128 {
            return None;
        }
        Some(acc as i64)
    }
}

/// A digit string has a non-negative value.
pub proof fn lemma_digits_val_nonneg(s: Seq<char>)
    requires
        all_digits(s),
    ensures
        digits_val(s) >= 0,
    decreases s.len(),
{
    if s.len() > 0 {
        assert(all_digits(s.drop_last())) by {
            assert(forall|i: int| 0 <= i < s.len() - 1 ==> s.drop_last()[i] == s[i]);
        }
        lemma_digits_val_nonneg(s.drop_last());
        assert(is_digit(s.last()));
    }
}

/// A prefix of a digit string is worth no more than the whole.
pub proof fn lemma_digits_prefix_le(s: Seq<char>, k: int)
    requires
        all_digits(s),
        0 <= k <= s.len(),
    ensures
        digits_val(s.take(k)) <= digits_val(s),
    decreases s.len() - k,
{
    if k < s.len() {
        lemma_digits_prefix_le(s, k + 1);
        let t1 = s.take(k + 1);
        assert(all_digits(t1)) by {
            assert(forall|i: int| 0 <= i < k + 1 ==> t1[i] == s[i]);
        }
        assert(t1.drop_last() =~= s.take(k));
        assert(all_digits(s.take(k))) by {
            assert(forall|i: int| 0 <= i < k ==> s.take(k)[i] == s[i]);
        }
        lemma_digits_val_nonneg(s.take(k));
        assert(digits_val(t1) == digits_val(s.take(k)) * 10 + (t1.last() as int - 48));
        assert(is_digit(t1.last()));
        assert(digits_val(s.take(k)) * 10 >= digits_val(s.take(k))) by (nonlinear_arith)
            requires
                digits_val(s.take(k)) >= 0,
        ;
    } else {
        assert(s.take(k) =~= s);
    }
}

/// One leaf transform, executably.
fn apply_leaf(kind: CaseKind, s: &str) -> (r: Value)
    ensures
        r@ == case_leaf(kind, s@),
{
    let cs = str_to_chars(s);
    match kind {
        CaseKind::Lower => Value::Text(chars_to_string(&lower_chars(&cs))),
        CaseKind::Upper => Value::Text(chars_to_string(&upper_chars(&cs))),
        CaseKind::Trim => Value::Text(chars_to_string(&trim_chars(&cs))),
        CaseKind::ToNumber => match parse_i64_text(&cs) {
            Some(v) => Value::Number(v),
            None => Value::Text(chars_to_string(&cs)),
        },
    }
}

/// Applies the transform to every text leaf, recursively.
fn apply_case_value(kind: CaseKind, v: &Value) -> (r: Value)
    ensures
        r@ == case_value(kind, v@),
    decreases v,
{
    match v {
        Value::Text(s) => apply_leaf(kind, s.as_str()),
        Value::Number(n) => Value::Number(*n),
        Value::Array(arr) => {
            let mut out: Vec<Value> = Vec::new();
            let n = arr.elements.len();
            let ghost ev = view_seq(arr.elements@);
            proof {
                lemma_view_seq(arr.elements@);
                lemma_case_seq(kind, ev);
            }
            let mut i: usize = 0;
            while i < n
                invariant
                    i <= n,
                    n == arr.elements@.len(),
                    ev == view_seq(arr.elements@),
                    ev.len() == n as int,
                    forall|j: int| 0 <= j < n as int ==> ev[j] == arr.elements@[j]@,
                    out@.len() == i as int,
                    forall|j: int| 0 <= j < i as int ==> out@[j]@ == case_value(kind, ev[j]),
                    v == Value::Array(*arr),
                decreases n - i,
            {
                proof {
                    assert(v->Array_0 == *arr);
                    assert(decreases_to!(*v => v->Array_0));
                    assert(decreases_to!(*v => *arr));
                    assert(decreases_to!(*arr => arr.elements));
                    assert(decreases_to!(arr.elements => arr.elements@));
                    assert(decreases_to!(arr.elements@ => arr.elements@[i as int]));
                }
                let e = apply_case_value(kind, &arr.elements[i]);
                out.push(e);
                i = i + 1;
            }
            let r = Value::Array(Array { elements: out, level: arr.level });
            proof {
                lemma_view_seq(out@);
                lemma_case_seq(kind, ev);
                assert(r@ matches ValueSpec::Array { elems: re, level: rl } && re =~= case_seq(
                    kind,
                    ev,
                ));
            }
            r
        },
    }
}

/// Lowercase, uppercase, trim, or to-number on every text leaf, or on the
/// selected positions within each row only.
pub struct CaseOp {
    pub kind: CaseKind,
    pub sel: Option<Selection>,
}

impl CaseOp {
    pub fn new(kind: CaseKind, sel: Option<Selection>) -> (r: CaseOp)
        ensures
            r.kind == kind,
            r.sel == sel,
    {
        CaseOp { kind, sel }
    }

    pub open spec fn spec_sel(&self) -> Option<Seq<crate::ast::SelectItem>> {
        match self.sel {
            Some(s) => Some(s.items@),
            None => None,
        }
    }

    pub fn apply(&self, value: Value) -> (r: Result<Value, Error>)
        ensures
            r matches Ok(v) && v@ == case_apply_spec(self.kind, value@, self.spec_sel()),
    {
        match &self.sel {
            None => Ok(apply_case_value(self.kind, &value)),
            Some(sel) => {
                match value {
                    Value::Array(arr) => {
                        let mut out: Vec<Value> = Vec::new();
                        let n = arr.elements.len();
                        let ghost ev = view_seq(arr.elements@);
                        proof {
                            lemma_view_seq(arr.elements@);
                        }
                        let mut i: usize = 0;
                        while i < n
                            invariant
                                i <= n,
                                n == arr.elements@.len(),
                                ev == view_seq(arr.elements@),
                                ev.len() == n as int,
                                forall|j: int| 0 <= j < n as int ==> ev[j] == arr.elements@[j]@,
                                out@.len() == i as int,
                                forall|j: int|
                                    0 <= j < i as int ==> out@[j]@ == case_row_spec(
                                        self.kind,
                                        ev[j],
                                        sel.items@,
                                    ),
                            decreases n - i,
                        {
                            let e = self.apply_row(sel, &arr.elements[i]);
                            out.push(e);
                            i = i + 1;
                        }
                        let r = Value::Array(Array { elements: out, level: arr.level });
                        proof {
                            lemma_view_seq(out@);
                            assert(r@ matches ValueSpec::Array { elems: re, level: rl } && re
                                =~= Seq::new(
                                ev.len(),
                                |j: int| case_row_spec(self.kind, ev[j], sel.items@),
                            ));
                        }
                        Ok(r)
                    },
                    other => Ok(other),
                }
            },
        }
    }

    /// Applies the transform at the selected positions of one row.
    fn apply_row(&self, sel: &Selection, row: &Value) -> (r: Value)
        ensures
            r@ == case_row_spec(self.kind, row@, sel.items@),
    {
        match row {
            Value::Array(inner) => {
                let len = inner.elements.len();
                let positions = selection_indices(sel, len);
                let mut chosen: Vec<bool> = mark_positions(&positions, len);
                proof {
                    lemma_view_seq(inner.elements@);
                }
                let ghost ev = view_seq(inner.elements@);
                let ghost ps = selection_positions(sel.items@, len as int);
                let mut out: Vec<Value> = Vec::new();
                let mut j: usize = 0;
                while j < len
                    invariant
                        j <= len,
                        len == inner.elements@.len(),
                        ev == view_seq(inner.elements@),
                        ev.len() == len as int,
                        forall|q: int| 0 <= q < len as int ==> ev[q] == inner.elements@[q]@,
                        chosen@.len() == len as int,
                        ps == selection_positions(sel.items@, len as int),
                        forall|q: int| 0 <= q < len as int ==> chosen@[q] == ps.contains(q),
                        out@.len() == j as int,
                        forall|q: int|
                            0 <= q < j as int ==> out@[q]@ == (if ps.contains(q) {
                                case_value(self.kind, ev[q])
                            } else {
                                ev[q]
                            }),
                    decreases len - j,
                {
                    let e = if chosen[j] {
                        apply_case_value(self.kind, &inner.elements[j])
                    } else {
                        inner.elements[j].deep_copy()
                    };
                    out.push(e);
                    j = j + 1;
                }
                let r = Value::Array(Array { elements: out, level: inner.level });
                proof {
                    lemma_view_seq(out@);
                    assert(r@ matches ValueSpec::Array { elems: re, level: rl } && re =~= Seq::new(
                        ev.len(),
                        |q: int|
                            if ps.contains(q) {
                                case_value(self.kind, ev[q])
                            } else {
                                ev[q]
                            },
                    ));
                }
                r
            },
            other => other.deep_copy(),
        }
    }

    pub fn requires_full_input(&self) -> (r: bool)
        ensures
            r == false,
    {
        false
    }
}

/// Marks which positions of a row a selection picks.
pub fn mark_positions(positions: &Vec<usize>, len: usize) -> (r: Vec<bool>)
    requires
        forall|k: int| 0 <= k < positions@.len() ==> (#[trigger] positions@[k]) < len,
    ensures
        r@.len() == len as int,
        forall|q: int| 0 <= q < len as int ==> r@[q] == to_ints(positions@).contains(q),
{
    let mut r: Vec<bool> = Vec::new();
    let mut q: usize = 0;
    while q < len
        invariant
            q <= len,
            r@.len() == q as int,
            forall|t: int| 0 <= t < q as int ==> r@[t] == false,
        decreases len - q,
    {
        r.push(false);
        q = q + 1;
    }
    let n = positions.len();
    let mut k: usize = 0;
    while k < n
        invariant
            k <= n,
            n == positions@.len(),
            r@.len() == len as int,
            forall|t: int| 0 <= t < positions@.len() ==> (#[trigger] positions@[t]) < len,
            forall|t: int|
                0 <= t < len as int ==> r@[t] == to_ints(positions@.take(k as int)).contains(t),
        decreases n - k,
    {
        let p = positions[k];
        let ghost pre = r@;
        r.set(p, true);
        proof {
            let tk = to_ints(positions@.take(k as int));
            let tk1 = to_ints(positions@.take(k as int + 1));
            assert forall|t: int| 0 <= t < len as int implies r@[t] == tk1.contains(t) by {
                assert(tk1.len() == k as int + 1);
                assert(forall|u: int| 0 <= u < k as int + 1 ==> tk1[u] == positions@.take(
                    k as int + 1,
                )[u] as int);
                if t == positions@[k as int] as int {
                    assert(tk1[k as int] == t);
                    assert(tk1.contains(t));
                } else {
                    assert(r@[t] == pre[t]);
                    assert forall|u: int| 0 <= u < tk1.len() && tk1[u] == t implies u < k as int by {
                        if u == k as int {
                            assert(tk1[u] == positions@[k as int] as int);
                        }
                    }
                    assert(tk.contains(t) == tk1.contains(t)) by {
                        if tk.contains(t) {
                            let w = choose|w: int| 0 <= w < tk.len() && tk[w] == t;
                            assert(tk1[w] == t);
                        }
                        if tk1.contains(t) {
                            let w = choose|w: int| 0 <= w < tk1.len() && tk1[w] == t;
                            assert(w < k as int);
                            assert(tk[w] == t);
                        }
                    }
                }
            }
        }
        k = k + 1;
    }
    proof {
        assert(positions@.take(n as int) =~= positions@);
    }
    r
}

} // verus!
