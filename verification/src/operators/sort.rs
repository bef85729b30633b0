//! Sorting: a total order across heterogeneous values — numbers by value,
//! text lexicographic, arrays lexicographic over elements, and
//! numbers before text before arrays.

use vstd::prelude::*;
use vstd::multiset::{lemma_multiset_empty_len, Multiset};
use vstd::relations::{sorted_by, total_ordering};
use vstd::seq_lib::lemma_sorted_unique;
use crate::error::Error;
use crate::value::{Array, Value, ValueSpec, view_seq, lemma_view_seq};

verus! {

/// Lexicographic three-way comparison of character sequences:
/// negative, zero, or positive.
pub open spec fn cmp_chars(x: Seq<char>, y: Seq<char>) -> int
    decreases x.len(),
{
    if x.len() == 0 && y.len() == 0 {
        0
    } else if x.len() == 0 {
        -1
    } else if y.len() == 0 {
        1
    } else if x.first() < y.first() {
        -1
    } else if y.first() < x.first() {
        1
    } else {
        cmp_chars(x.drop_first(), y.drop_first())
    }
}

/// The kind ordinal: numbers, then text, then arrays.
pub open spec fn kind_ord(v: ValueSpec) -> int {
    match v {
        ValueSpec::Number { num } => 0,
        ValueSpec::Text { chars } => 1,
        ValueSpec::Array { elems, level } => 2,
    }
}

/// Three-way comparison of values: kind ordinal first, then numbers by
/// value, text lexicographic by scalar, arrays lexicographic over elements.
pub open spec fn cmp_val(a: ValueSpec, b: ValueSpec) -> int
    decreases a, 0int,
{
    if kind_ord(a) < kind_ord(b) {
        -1
    } else if kind_ord(b) < kind_ord(a) {
        1
    } else {
        match a {
            ValueSpec::Number { num: na } => {
                let nb = b->num;
                if na < nb {
                    -1
                } else if nb < na {
                    1
                } else {
                    0
                }
            },
            ValueSpec::Text { chars: ca } => cmp_chars(ca, b->chars),
            ValueSpec::Array { elems: ea, level: la } => {
                let c = cmp_seq(ea, b->elems);
                if c != 0 {
                    c
                } else {
                    let lb = b->level;
                    if level_ord(la) < level_ord(lb) {
                        -1
                    } else if level_ord(lb) < level_ord(la) {
                        1
                    } else {
                        0
                    }
                }
            },
        }
    }
}

/// An ordinal for levels, to break ties between arrays with equal elements.
pub open spec fn level_ord(l: crate::value::Level) -> int {
    match l {
        crate::value::Level::File => 0,
        crate::value::Level::Line => 1,
        crate::value::Level::Word => 2,
        crate::value::Level::Char => 3,
    }
}

pub open spec fn cmp_seq(x: Seq<ValueSpec>, y: Seq<ValueSpec>) -> int
    decreases x, 1int,
{
    if x.len() == 0 && y.len() == 0 {
        0
    } else if x.len() == 0 {
        -1
    } else if y.len() == 0 {
        1
    } else {
        let c = cmp_val(x.first(), y.first());
        if c != 0 {
            c
        } else {
            cmp_seq(x.drop_first(), y.drop_first())
        }
    }
}

/// The sorting order: `a` at or before `b`.
pub open spec fn le_val(a: ValueSpec, b: ValueSpec) -> bool {
    cmp_val(a, b) <= 0
}

pub proof fn lemma_cmp_chars_laws(x: Seq<char>, y: Seq<char>, z: Seq<char>)
    ensures
        cmp_chars(x, x) == 0,
        cmp_chars(x, y) == -cmp_chars(y, x),
        cmp_chars(x, y) == 0 ==> x == y,
        cmp_chars(x, y) <= 0 && cmp_chars(y, z) <= 0 ==> cmp_chars(x, z) <= 0,
        cmp_chars(x, y) <= 0 && cmp_chars(y, z) <= 0 && cmp_chars(x, z) == 0 ==> cmp_chars(x, y)
            == 0 && cmp_chars(y, z) == 0,
    decreases x.len() + y.len() + z.len(),
{
    if x.len() > 0 || y.len() > 0 || z.len() > 0 {
        lemma_cmp_chars_laws(
            if x.len() > 0 {
                x.drop_first()
            } else {
                x
            },
            if y.len() > 0 {
                y.drop_first()
            } else {
                y
            },
            if z.len() > 0 {
                z.drop_first()
            } else {
                z
            },
        );
        if x.len() > 0 && y.len() > 0 && cmp_chars(x, y) == 0 {
            lemma_cmp_chars_laws(x.drop_first(), y.drop_first(), z);
            assert(!(x.first() < y.first()) && !(y.first() < x.first()));
            assert(x.first() == y.first());
            if cmp_chars(x.drop_first(), y.drop_first()) == 0 {
                assert(x.drop_first() == y.drop_first());
                assert forall|i: int| 0 <= i < x.len() implies x[i] == y[i] by {
                    if i > 0 {
                        assert(x.drop_first()[i - 1] == x[i]);
                        assert(y.drop_first()[i - 1] == y[i]);
                    }
                }
                assert(x =~= y);
            }
        }
        if x.len() > 0 && y.len() > 0 && z.len() > 0 {
            lemma_cmp_chars_laws(x.drop_first(), y.drop_first(), z.drop_first());
        }
    }
}

/// The comparison laws: reflexive, a flip negates, zero means equal, and
/// the at-or-before relation is transitive.
pub proof fn lemma_cmp_val_laws(a: ValueSpec, b: ValueSpec, c: ValueSpec)
    ensures
        cmp_val(a, a) == 0,
        cmp_val(a, b) == -cmp_val(b, a),
        cmp_val(a, b) == 0 ==> a == b,
        cmp_val(a, b) <= 0 && cmp_val(b, c) <= 0 ==> cmp_val(a, c) <= 0,
        cmp_val(a, b) <= 0 && cmp_val(b, c) <= 0 && cmp_val(a, c) == 0 ==> cmp_val(a, b) == 0
            && cmp_val(b, c) == 0,
    decreases a, b, c, 0int,
{
    lemma_cmp_refl(a);
    lemma_cmp_flip(a, b);
    lemma_cmp_flip(b, a);
    lemma_cmp_flip(b, c);
    lemma_cmp_flip(a, c);
    lemma_cmp_eq(a, b);
    lemma_cmp_trans(a, b, c);
}

proof fn lemma_cmp_refl(a: ValueSpec)
    ensures
        cmp_val(a, a) == 0,
    decreases a, 1int,
{
    match a {
        ValueSpec::Number { num } => {},
        ValueSpec::Text { chars } => {
            lemma_cmp_chars_laws(chars, chars, chars);
        },
        ValueSpec::Array { elems, level } => {
            lemma_cmp_seq_refl(elems);
        },
    }
}

proof fn lemma_cmp_seq_refl(x: Seq<ValueSpec>)
    ensures
        cmp_seq(x, x) == 0,
    decreases x, 0int,
{
    if x.len() > 0 {
        lemma_cmp_refl(x.first());
        lemma_cmp_seq_refl(x.drop_first());
    }
}

proof fn lemma_cmp_flip(a: ValueSpec, b: ValueSpec)
    ensures
        cmp_val(a, b) == -cmp_val(b, a),
    decreases a, 1int,
{
    match a {
        ValueSpec::Number { num } => {},
        ValueSpec::Text { chars } => {
            if b is Text {
                lemma_cmp_chars_laws(chars, b->chars, chars);
            }
        },
        ValueSpec::Array { elems, level } => {
            if b is Array {
                lemma_cmp_seq_flip(elems, b->elems);
            }
        },
    }
}

proof fn lemma_cmp_seq_flip(x: Seq<ValueSpec>, y: Seq<ValueSpec>)
    ensures
        cmp_seq(x, y) == -cmp_seq(y, x),
    decreases x, 0int,
{
    if x.len() > 0 && y.len() > 0 {
        lemma_cmp_flip(x.first(), y.first());
        lemma_cmp_seq_flip(x.drop_first(), y.drop_first());
    }
}

proof fn lemma_cmp_eq(a: ValueSpec, b: ValueSpec)
    ensures
        cmp_val(a, b) == 0 ==> a == b,
    decreases a, 1int,
{
    match a {
        ValueSpec::Number { num } => {
            if cmp_val(a, b) == 0 {
                assert(b is Number);
                assert(a->num == b->num);
            }
        },
        ValueSpec::Text { chars } => {
            if b is Text {
                lemma_cmp_chars_laws(chars, b->chars, chars);
                if cmp_val(a, b) == 0 {
                    assert(a->chars == b->chars);
                }
            }
        },
        ValueSpec::Array { elems, level } => {
            if b is Array {
                lemma_cmp_seq_eq(elems, b->elems);
                if cmp_val(a, b) == 0 {
                    assert(a->elems == b->elems);
                    assert(a->level == b->level);
                }
            }
        },
    }
}

proof fn lemma_cmp_seq_eq(x: Seq<ValueSpec>, y: Seq<ValueSpec>)
    ensures
        cmp_seq(x, y) == 0 ==> x == y,
    decreases x, 0int,
{
    if x.len() > 0 && y.len() > 0 {
        lemma_cmp_eq(x.first(), y.first());
        lemma_cmp_seq_eq(x.drop_first(), y.drop_first());
        if cmp_seq(x, y) == 0 {
            assert(cmp_val(x.first(), y.first()) == 0);
            assert(x.first() == y.first());
            assert(x.drop_first() == y.drop_first());
            assert forall|i: int| 0 <= i < x.len() implies x[i] == y[i] by {
                if i > 0 {
                    assert(x.drop_first()[i - 1] == x[i]);
                    assert(y.drop_first()[i - 1] == y[i]);
                }
            }
            assert(x =~= y);
        }
    }
}

proof fn lemma_cmp_trans(a: ValueSpec, b: ValueSpec, c: ValueSpec)
    ensures
        cmp_val(a, b) <= 0 && cmp_val(b, c) <= 0 ==> cmp_val(a, c) <= 0,
        cmp_val(a, b) <= 0 && cmp_val(b, c) <= 0 && cmp_val(a, c) == 0 ==> cmp_val(a, b) == 0
            && cmp_val(b, c) == 0,
    decreases a, b, c, 1int,
{
    if cmp_val(a, b) <= 0 && cmp_val(b, c) <= 0 {
        if kind_ord(a) == kind_ord(b) && kind_ord(b) == kind_ord(c) {
            match a {
                ValueSpec::Number { num } => {},
                ValueSpec::Text { chars } => {
                    lemma_cmp_chars_laws(chars, b->chars, c->chars);
                },
                ValueSpec::Array { elems, level } => {
                    lemma_cmp_seq_trans(elems, b->elems, c->elems);
                },
            }
        }
    }
}

proof fn lemma_cmp_seq_trans(x: Seq<ValueSpec>, y: Seq<ValueSpec>, z: Seq<ValueSpec>)
    ensures
        cmp_seq(x, y) <= 0 && cmp_seq(y, z) <= 0 ==> cmp_seq(x, z) <= 0,
        cmp_seq(x, y) <= 0 && cmp_seq(y, z) <= 0 && cmp_seq(x, z) == 0 ==> cmp_seq(x, y) == 0
            && cmp_seq(y, z) == 0,
    decreases x, y, z, 0int,
{
    if x.len() > 0 && y.len() > 0 && z.len() > 0 {
        lemma_cmp_trans(x.first(), y.first(), z.first());
        lemma_cmp_seq_trans(x.drop_first(), y.drop_first(), z.drop_first());
        lemma_cmp_flip(x.first(), y.first());
        lemma_cmp_flip(y.first(), z.first());
        lemma_cmp_flip(x.first(), z.first());
        lemma_cmp_eq(x.first(), y.first());
        lemma_cmp_eq(y.first(), z.first());
    }
}

/// The ascending order as a relation.
pub open spec fn asc_order() -> spec_fn(ValueSpec, ValueSpec) -> bool {
    |a: ValueSpec, b: ValueSpec| le_val(a, b)
}

/// The descending order as a relation.
pub open spec fn desc_order() -> spec_fn(ValueSpec, ValueSpec) -> bool {
    |a: ValueSpec, b: ValueSpec| le_val(b, a)
}

/// Both orders are total orderings.
pub proof fn lemma_orders_total()
    ensures
        total_ordering(asc_order()),
        total_ordering(desc_order()),
{
    assert forall|a: ValueSpec, b: ValueSpec, c: ValueSpec|
        true implies (#[trigger] asc_order()(a, b) || asc_order()(b, a)) && (asc_order()(a, b)
        && asc_order()(b, a) ==> a == b) && (asc_order()(a, b) && #[trigger] asc_order()(b, c)
        ==> asc_order()(a, c)) && asc_order()(a, a) by {
        lemma_cmp_val_laws(a, b, c);
        lemma_cmp_val_laws(b, a, c);
    }
    assert forall|a: ValueSpec, b: ValueSpec, c: ValueSpec|
        true implies (#[trigger] desc_order()(a, b) || desc_order()(b, a)) && (desc_order()(a, b)
        && desc_order()(b, a) ==> a == b) && (desc_order()(a, b) && #[trigger] desc_order()(b, c)
        ==> desc_order()(a, c)) && desc_order()(a, a) by {
        lemma_cmp_val_laws(c, b, a);
        lemma_cmp_val_laws(a, b, c);
        lemma_cmp_val_laws(b, a, c);
    }
}

/// Two sequences sorted by the same order out of the same multiset are the
/// same sequence; so sorting ascending after sorting descending equals
/// sorting ascending directly.
pub proof fn lemma_sorted_perm_equal(x: Seq<ValueSpec>, y: Seq<ValueSpec>)
    requires
        sorted_by(x, asc_order()),
        sorted_by(y, asc_order()),
        x.to_multiset() == y.to_multiset(),
    ensures
        x == y,
{
    lemma_orders_total();
    lemma_sorted_unique(x, y, asc_order());
    assert(x =~= y);
}

/// Three-way comparison, executably.
pub fn exec_cmp(a: &Value, b: &Value) -> (r: i32)
    ensures
        (r == 0) == (cmp_val(a@, b@) == 0),
        (r < 0) == (cmp_val(a@, b@) < 0),
        (r > 0) == (cmp_val(a@, b@) > 0),
    decreases a,
{
    match (a, b) {
        (Value::Number(na), Value::Number(nb)) => {
            if *na < *nb {
                -1
            } else if *nb < *na {
                1
            } else {
                0
            }
        },
        (Value::Number(_), _) => -1,
        (_, Value::Number(_)) => 1,
        (Value::Text(sa), Value::Text(sb)) => {
            let ca = crate::chars::str_to_chars(sa.as_str());
            let cb = crate::chars::str_to_chars(sb.as_str());
            exec_cmp_chars(&ca, &cb)
        },
        (Value::Text(_), _) => -1,
        (_, Value::Text(_)) => 1,
        (Value::Array(aa), Value::Array(ab)) => {
            proof {
                assert(a->Array_0 == *aa);
                assert(decreases_to!(*a => a->Array_0));
                assert(decreases_to!(*a => *aa));
                assert(decreases_to!(*aa => aa.elements));
            }
            let c = exec_cmp_elems(&aa.elements, &ab.elements);
            if c != 0 {
                c
            } else {
                let la = exec_level_ord(aa.level);
                let lb = exec_level_ord(ab.level);
                if la < lb {
                    -1
                } else if lb < la {
                    1
                } else {
                    0
                }
            }
        },
    }
}

fn exec_level_ord(l: crate::value::Level) -> (r: i32)
    ensures
        r as int == level_ord(l),
{
    match l {
        crate::value::Level::File => 0,
        crate::value::Level::Line => 1,
        crate::value::Level::Word => 2,
        crate::value::Level::Char => 3,
    }
}

/// Lexicographic comparison of two element lists.
fn exec_cmp_elems(x: &Vec<Value>, y: &Vec<Value>) -> (r: i32)
    ensures
        (r == 0) == (cmp_seq(view_seq(x@), view_seq(y@)) == 0),
        (r < 0) == (cmp_seq(view_seq(x@), view_seq(y@)) < 0),
        (r > 0) == (cmp_seq(view_seq(x@), view_seq(y@)) > 0),
    decreases x,
{
    proof {
        lemma_view_seq(x@);
        lemma_view_seq(y@);
    }
    let ghost xv = view_seq(x@);
    let ghost yv = view_seq(y@);
    let nx = x.len();
    let ny = y.len();
    proof {
        assert(xv.skip(0) =~= xv);
        assert(yv.skip(0) =~= yv);
    }
    let mut i: usize = 0;
    loop
        invariant
            i <= nx,
            i <= ny,
            nx == x@.len(),
            ny == y@.len(),
            xv == view_seq(x@),
            yv == view_seq(y@),
            xv.len() == nx as int,
            yv.len() == ny as int,
            forall|j: int| 0 <= j < nx as int ==> xv[j] == x@[j]@,
            forall|j: int| 0 <= j < ny as int ==> yv[j] == y@[j]@,
            cmp_seq(xv, yv) == cmp_seq(xv.skip(i as int), yv.skip(i as int)),
        decreases nx - i,
    {
        if i == nx && i == ny {
            proof {
                assert(xv.skip(i as int).len() == 0);
                assert(yv.skip(i as int).len() == 0);
            }
            return 0;
        }
        if i == nx {
            proof {
                assert(xv.skip(i as int).len() == 0);
                assert(yv.skip(i as int).len() > 0);
            }
            return -1;
        }
        if i == ny {
            proof {
                assert(yv.skip(i as int).len() == 0);
                assert(xv.skip(i as int).len() > 0);
            }
            return 1;
        }
        proof {
            assert(decreases_to!(x => x@));
            assert(decreases_to!(x@ => x@[i as int]));
        }
        let c = exec_cmp(&x[i], &y[i]);
        proof {
            let xs = xv.skip(i as int);
            let ys = yv.skip(i as int);
            assert(xs.first() == xv[i as int]);
            assert(ys.first() == yv[i as int]);
            assert(xs.drop_first() =~= xv.skip(i as int + 1));
            assert(ys.drop_first() =~= yv.skip(i as int + 1));
        }
        if c != 0 {
            return c;
        }
        i = i + 1;
    }
}

/// Lexicographic comparison of character lists.
fn exec_cmp_chars(x: &Vec<char>, y: &Vec<char>) -> (r: i32)
    ensures
        (r == 0) == (cmp_chars(x@, y@) == 0),
        (r < 0) == (cmp_chars(x@, y@) < 0),
        (r > 0) == (cmp_chars(x@, y@) > 0),
{
    let nx = x.len();
    let ny = y.len();
    proof {
        assert(x@.skip(0) =~= x@);
        assert(y@.skip(0) =~= y@);
    }
    let mut i: usize = 0;
    loop
        invariant
            i <= nx,
            i <= ny,
            nx == x@.len(),
            ny == y@.len(),
            cmp_chars(x@, y@) == cmp_chars(x@.skip(i as int), y@.skip(i as int)),
        decreases nx - i,
    {
        if i == nx && i == ny {
            return 0;
        }
        if i == nx {
            return -1;
        }
        if i == ny {
            return 1;
        }
        proof {
            let xs = x@.skip(i as int);
            let ys = y@.skip(i as int);
            assert(xs.first() == x@[i as int]);
            assert(ys.first() == y@[i as int]);
            assert(xs.drop_first() =~= x@.skip(i as int + 1));
            assert(ys.drop_first() =~= y@.skip(i as int + 1));
        }
        if x[i] < y[i] {
            return -1;
        }
        if y[i] < x[i] {
            return 1;
        }
        i = i + 1;
    }
}

/// Sorts rows by selection of the least remaining row: ascending when
/// `ascending`, else descending.  The result is sorted by the order and is
/// a permutation of the input.
pub fn sort_values(input: Vec<Value>, ascending: bool) -> (r: Vec<Value>)
    ensures
        ascending ==> sorted_by(view_seq(r@), asc_order()),
        !ascending ==> sorted_by(view_seq(r@), desc_order()),
        view_seq(r@).to_multiset() == view_seq(input@).to_multiset(),
{
    proof {
        lemma_view_seq(input@);
    }
    let ghost orig = view_seq(input@);
    let mut rest = input;
    let mut out: Vec<Value> = Vec::new();
    proof {
        lemma_view_seq(rest@);
        lemma_view_seq(out@);
        assert(view_seq(out@).len() == 0);
        view_seq(out@).to_multiset_ensures();
        lemma_multiset_empty_len(view_seq(out@).to_multiset());
        assert(view_seq(out@).to_multiset() =~= Multiset::<ValueSpec>::empty());
        assert(view_seq(out@).to_multiset().add(view_seq(rest@).to_multiset())
            =~= orig.to_multiset());
    }
    while rest.len() > 0
        invariant
            view_seq(out@).to_multiset().add(view_seq(rest@).to_multiset()) == orig.to_multiset(),
            ascending ==> sorted_by(view_seq(out@), asc_order()),
            !ascending ==> sorted_by(view_seq(out@), desc_order()),
            forall|i: int, j: int|
                0 <= i < view_seq(out@).len() && 0 <= j < view_seq(rest@).len() ==> (if ascending {
                    le_val(view_seq(out@)[i], view_seq(rest@)[j])
                } else {
                    le_val(view_seq(rest@)[j], view_seq(out@)[i])
                }),
        decreases rest@.len(),
    {
        proof {
            lemma_view_seq(rest@);
        }
        let n = rest.len();
        let mut m: usize = 0;
        proof {
            lemma_view_seq(rest@);
            lemma_cmp_val_laws(view_seq(rest@)[0], view_seq(rest@)[0], view_seq(rest@)[0]);
        }
        let mut j: usize = 1;
        while j < n
            invariant
                m < j <= n,
                n == rest@.len(),
                forall|k: int|
                    0 <= k < j as int ==> (if ascending {
                        le_val(view_seq(rest@)[m as int], view_seq(rest@)[k])
                    } else {
                        le_val(view_seq(rest@)[k], view_seq(rest@)[m as int])
                    }),
            decreases n - j,
        {
            proof {
                lemma_view_seq(rest@);
            }
            let c = exec_cmp(&rest[j], &rest[m]);
            let better = if ascending {
                c < 0
            } else {
                c > 0
            };
            proof {
                let rv = view_seq(rest@);
                if better {
                    assert forall|k: int|
                        0 <= k < j as int + 1 implies (if ascending {
                        le_val(rv[j as int], rv[k])
                    } else {
                        le_val(rv[k], rv[j as int])
                    }) by {
                        lemma_cmp_val_laws(rv[j as int], rv[m as int], rv[k]);
                        lemma_cmp_val_laws(rv[k], rv[m as int], rv[j as int]);
                        lemma_cmp_val_laws(rv[j as int], rv[j as int], rv[j as int]);
                    }
                } else {
                    lemma_cmp_val_laws(rv[m as int], rv[j as int], rv[j as int]);
                    lemma_cmp_val_laws(rv[j as int], rv[m as int], rv[m as int]);
                }
            }
            if better {
                m = j;
            }
            j = j + 1;
        }
        let ghost rv = view_seq(rest@);
        let ghost ov = view_seq(out@);
        let ghost oldrest = rest@;
        let ghost oldout = out@;
        let picked = rest.remove(m);
        let ghost pv = picked@;
        out.push(picked);
        proof {
            lemma_view_seq(oldrest);
            lemma_view_seq(oldout);
            lemma_view_seq(rest@);
            lemma_view_seq(out@);
            assert(pv == rv[m as int]);
            assert(view_seq(out@) =~= ov.push(pv));
            assert(view_seq(rest@) =~= rv.remove(m as int));
            rv.to_multiset_ensures();
            ov.to_multiset_ensures();
            assert(rv.remove(m as int).to_multiset() =~= rv.to_multiset().remove(rv[m as int]));
            assert(ov.push(pv).to_multiset() =~= ov.to_multiset().insert(pv));
            assert(rv.to_multiset().count(rv[m as int]) > 0) by {
                assert(rv.contains(rv[m as int]));
            }
            assert(view_seq(out@).to_multiset().add(view_seq(rest@).to_multiset())
                =~= orig.to_multiset());
            let ov2 = view_seq(out@);
            let rv2 = view_seq(rest@);
            assert forall|i: int, j2: int|
                0 <= i < ov2.len() && 0 <= j2 < rv2.len() implies (if ascending {
                le_val(ov2[i], rv2[j2])
            } else {
                le_val(rv2[j2], ov2[i])
            }) by {
                if i < ov.len() {
                    assert(ov2[i] == ov[i]);
                } else {
                    assert(ov2[i] == rv[m as int]);
                }
                if j2 < m as int {
                    assert(rv2[j2] == rv[j2]);
                } else {
                    assert(rv2[j2] == rv[j2 + 1]);
                }
            }
            assert forall|i: int, j2: int|
                0 <= i < j2 < ov2.len() implies (if ascending {
                asc_order()(ov2[i], ov2[j2])
            } else {
                desc_order()(ov2[i], ov2[j2])
            }) by {
                if j2 < ov.len() {
                    assert(ov2[i] == ov[i]);
                    assert(ov2[j2] == ov[j2]);
                } else {
                    assert(ov2[j2] == rv[m as int]);
                }
            }
        }
    }
    proof {
        lemma_view_seq(rest@);
        assert(view_seq(rest@).len() == 0);
        view_seq(rest@).to_multiset_ensures();
        lemma_multiset_empty_len(view_seq(rest@).to_multiset());
        assert(view_seq(rest@).to_multiset() =~= Multiset::<ValueSpec>::empty());
        assert(view_seq(out@).to_multiset() =~= orig.to_multiset());
    }
    out
}

/// What sorting produces: the rows in order; a non-array value unchanged.
pub struct Sort {
    pub ascending: bool,
}

impl Sort {
    pub fn new(ascending: bool) -> (r: Sort)
        ensures
            r.ascending == ascending,
    {
        Sort { ascending }
    }

    /// The result holds exactly the input rows (as a multiset) and is
    /// sorted by the order; a non-array value is unchanged.
    pub fn apply(&self, value: Value) -> (r: Result<Value, Error>)
        ensures
            value@ matches ValueSpec::Array { elems, level } ==> r matches Ok(v)
                && v@ matches ValueSpec::Array { elems: relems, level: rlevel } && rlevel == level
                && relems.to_multiset() == elems.to_multiset() && (self.ascending ==> sorted_by(
                relems,
                asc_order(),
            )) && (!self.ascending ==> sorted_by(relems, desc_order())),
            !(value@ is Array) ==> (r matches Ok(v) && v == value),
    {
        match value {
            Value::Array(arr) => {
                let level = arr.level;
                proof {
                    lemma_view_seq(arr.elements@);
                }
                let sorted = sort_values(arr.elements, self.ascending);
                Ok(Value::Array(Array { elements: sorted, level }))
            },
            other => Ok(other),
        }
    }

    pub fn requires_full_input(&self) -> (r: bool)
        ensures
            r == true,
    {
        true
    }
}

} // verus!
