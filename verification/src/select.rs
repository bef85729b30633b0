//! Selections: resolving indices and Python-style slices against an array
//! length, and applying them to value sequences.

use vstd::prelude::*;
use crate::ast::{SelectItem, Selection};

verus! {

/// The positions as unbounded integers.
pub open spec fn to_ints(s: Seq<usize>) -> Seq<int> {
    Seq::new(s.len(), |k: int| s[k] as int)
}

/// A single index resolved against a length: negative counts from the end;
/// out of range yields nothing.
pub open spec fn resolve_index(idx: int, len: int) -> Option<int> {
    let r = if idx < 0 {
        len + idx
    } else {
        idx
    };
    if 0 <= r < len {
        Some(r)
    } else {
        None
    }
}

/// The start bound of a slice, clamped as Python does.
pub open spec fn clamp_start(start: Option<int>, step: int, len: int) -> int {
    match start {
        Some(v) => {
            let r = if v < 0 {
                len + v
            } else {
                v
            };
            if step > 0 {
                if r < 0 {
                    0
                } else if r > len {
                    len
                } else {
                    r
                }
            } else {
                if r < -1 {
                    -1
                } else if r > len - 1 {
                    len - 1
                } else {
                    r
                }
            }
        },
        None => if step > 0 {
            0
        } else {
            len - 1
        },
    }
}

/// The end bound of a slice, clamped as Python does.
pub open spec fn clamp_end(end: Option<int>, step: int, len: int) -> int {
    match end {
        Some(v) => {
            let r = if v < 0 {
                len + v
            } else {
                v
            };
            if step > 0 {
                if r < 0 {
                    0
                } else if r > len {
                    len
                } else {
                    r
                }
            } else {
                if r < -1 {
                    -1
                } else if r > len - 1 {
                    len - 1
                } else {
                    r
                }
            }
        },
        None => if step > 0 {
            len
        } else {
            -1
        },
    }
}

/// How many positions a slice yields.
pub open spec fn slice_count(s: int, e: int, step: int) -> int {
    if step > 0 {
        if e > s {
            (e - s + step - 1) / step
        } else {
            0
        }
    } else {
        if s > e {
            (s - e + (-step) - 1) / (-step)
        } else {
            0
        }
    }
}

/// The positions of a slice `start:end:step` against a length, following
/// Python's half-open semantics with clamping.
pub open spec fn slice_positions(start: Option<int>, end: Option<int>, step: int, len: int) -> Seq<
    int,
> {
    if step == 0 {
        Seq::<int>::empty()
    } else {
        let s = clamp_start(start, step, len);
        let e = clamp_end(end, step, len);
        Seq::new(slice_count(s, e, step) as nat, |k: int| s + k * step)
    }
}

/// The positions of one selection item.
pub open spec fn item_positions(item: SelectItem, len: int) -> Seq<int> {
    match item {
        SelectItem::Index(idx) => match resolve_index(idx as int, len) {
            Some(r) => seq![r],
            None => Seq::<int>::empty(),
        },
        SelectItem::Slice { start, end, step } => slice_positions(
            match start {
                Some(v) => Some(v as int),
                None => None,
            },
            match end {
                Some(v) => Some(v as int),
                None => None,
            },
            match step {
                Some(v) => v as int,
                None => 1,
            },
            len,
        ),
    }
}

/// The positions of a whole selection: the items' outputs concatenate.
pub open spec fn selection_positions(items: Seq<SelectItem>, len: int) -> Seq<int>
    decreases items.len(),
{
    if items.len() == 0 {
        Seq::<int>::empty()
    } else {
        item_positions(items.first(), len) + selection_positions(items.drop_first(), len)
    }
}

/// For `0 <= k < ceil(d / m)` with `m > 0` and `d > 0`: `k * m < d`.
proof fn lemma_mul_bounds(k: int, cnt: int, m: int, d: int)
    requires
        m > 0,
        d > 0,
        cnt == (d + m - 1) / m,
        0 <= k < cnt,
    ensures
        0 <= k * m < d,
{
    assert(0 <= k * m) by (nonlinear_arith)
        requires
            0 <= k,
            m > 0,
    ;
    assert(cnt * m <= d + m - 1) by (nonlinear_arith)
        requires
            m > 0,
            cnt == (d + m - 1) / m,
    ;
    assert(k * m <= (cnt - 1) * m) by (nonlinear_arith)
        requires
            k <= cnt - 1,
            m > 0,
    ;
    assert((cnt - 1) * m == cnt * m - m) by (nonlinear_arith);
}

/// Every slice position lies within the length.
pub proof fn lemma_slice_positions_in_range(
    start: Option<int>,
    end: Option<int>,
    step: int,
    len: int,
)
    requires
        len >= 0,
    ensures
        forall|k: int|
            0 <= k < slice_positions(start, end, step, len).len() ==> 0
                <= #[trigger] slice_positions(start, end, step, len)[k] < len,
{
    let ps = slice_positions(start, end, step, len);
    if step != 0 {
        let s = clamp_start(start, step, len);
        let e = clamp_end(end, step, len);
        let cnt = slice_count(s, e, step);
        assert forall|k: int| 0 <= k < ps.len() implies 0 <= #[trigger] ps[k] < len by {
            assert(ps[k] == s + k * step);
            if step > 0 && e > s {
                lemma_mul_bounds(k, cnt, step, e - s);
            } else if step < 0 && s > e {
                lemma_mul_bounds(k, cnt, -step, s - e);
                assert(s + k * step == s - k * (-step)) by (nonlinear_arith);
            }
        }
    }
}

/// `::1` yields exactly the positions `0, 1, ..., len-1`: selecting with it
/// is the identity.
pub proof fn lemma_slice_identity(len: int)
    requires
        len >= 0,
    ensures
        slice_positions(None, None, 1, len) =~= Seq::new(len as nat, |k: int| k),
{
}

/// `::-1` yields exactly the positions `len-1, ..., 1, 0`: selecting with it
/// reverses.
pub proof fn lemma_slice_reverse(len: int)
    requires
        len >= 0,
    ensures
        slice_positions(None, None, -1, len) =~= Seq::new(len as nat, |k: int| len - 1 - k),
{
    if len > 0 {
        assert(slice_count(len - 1, -1, -1) == len);
    }
}

/// Resolves the positions of a selection against an array length.
pub fn selection_indices(sel: &Selection, len: usize) -> (r: Vec<usize>)
    ensures
        to_ints(r@) == selection_positions(sel.items@, len as int),
        forall|k: int| 0 <= k < r@.len() ==> (#[trigger] r@[k]) < len,
{
    let mut out: Vec<usize> = Vec::new();
    let n = sel.items.len();
    let mut i: usize = 0;
    while i < n
        invariant
            i <= n,
            n == sel.items@.len(),
            to_ints(out@) =~= selection_positions(sel.items@.take(i as int), len as int),
            forall|k: int| 0 <= k < out@.len() ==> (#[trigger] out@[k]) < len,
        decreases n - i,
    {
        let ghost pre = out@;
        push_item_positions(&mut out, &sel.items[i], len);
        proof {
            let t1 = sel.items@.take(i as int + 1);
            lemma_selection_positions_snoc(t1, len as int);
            assert(t1.drop_last() =~= sel.items@.take(i as int));
            assert(t1.last() == sel.items@[i as int]);
        }
        i = i + 1;
    }
    proof {
        assert(sel.items@.take(n as int) =~= sel.items@);
    }
    out
}

/// Appending one item appends its positions.
proof fn lemma_selection_positions_snoc(items: Seq<SelectItem>, len: int)
    requires
        items.len() >= 1,
    ensures
        selection_positions(items, len) == selection_positions(items.drop_last(), len)
            + item_positions(items.last(), len),
    decreases items.len(),
{
    if items.len() == 1 {
        assert(selection_positions(items.drop_first(), len) == Seq::<int>::empty());
        assert(selection_positions(items.drop_last(), len) == Seq::<int>::empty());
        assert(selection_positions(items, len) =~= selection_positions(items.drop_last(), len)
            + item_positions(items.last(), len));
    } else {
        lemma_selection_positions_snoc(items.drop_first(), len);
        assert(items.drop_first().drop_last() =~= items.drop_last().drop_first());
        assert(items.drop_first().last() == items.last());
        assert(items.drop_last().first() == items.first());
        assert(selection_positions(items.drop_last(), len) == item_positions(items.first(), len)
            + selection_positions(items.drop_last().drop_first(), len));
        assert(selection_positions(items, len) =~= selection_positions(items.drop_last(), len)
            + item_positions(items.last(), len));
    }
}

/// Pushes the positions of one item, in order.
#[verifier::rlimit(100)]
fn push_item_positions(out: &mut Vec<usize>, item: &SelectItem, len: usize)
    requires
        forall|k: int| 0 <= k < old(out)@.len() ==> (#[trigger] old(out)@[k]) < len,
    ensures
        to_ints(final(out)@) == to_ints(old(out)@) + item_positions(*item, len as int),
        forall|k: int| 0 <= k < final(out)@.len() ==> (#[trigger] final(out)@[k]) < len,
{
    let ghost pre = out@;
    match item {
        SelectItem::Index(idx) => {
            let v = *idx;
            let resolved: i128 = if v < 0 {
                len as i128 + v as i128
            } else {
                v as i128
            };
            if 0 <= resolved && resolved < len as i128 {
                out.push(resolved as usize);
                proof {
                    assert(resolve_index(v as int, len as int) == Some(resolved as int));
                    assert(to_ints(out@) =~= to_ints(pre) + item_positions(*item, len as int));
                }
            } else {
                proof {
                    assert(resolve_index(v as int, len as int) is None);
                    assert(to_ints(out@) =~= to_ints(pre) + item_positions(*item, len as int));
                }
            }
        },
        SelectItem::Slice { start, end, step } => {
            let st: i64 = match step {
                Some(v) => *v,
                None => 1,
            };
            let ghost sti = st as int;
            let ghost startspec = match *start {
                Some(v) => Some(v as int),
                None => None,
            };
            let ghost endspec = match *end {
                Some(v) => Some(v as int),
                None => None,
            };
            let ghost positions = slice_positions(startspec, endspec, sti, len as int);
            if st == 0 {
                proof {
                    assert(positions == Seq::<int>::empty());
                    assert(to_ints(out@) =~= to_ints(pre) + item_positions(*item, len as int));
                }
                return ;
            }
            let s128: i128 = match start {
                Some(v) => {
                    let r: i128 = if *v < 0 {
                        len as i128 + *v as i128
                    } else {
                        *v as i128
                    };
                    if st > 0 {
                        if r < 0 {
                            0
                        } else if r > len as i128 {
                            len as i128
                        } else {
                            r
                        }
                    } else {
                        if r < -1 {
                            -1
                        } else if r > len as i128 - 1 {
                            len as i128 - 1
                        } else {
                            r
                        }
                    }
                },
                None => if st > 0 {
                    0
                } else {
                    len as i128 - 1
                },
            };
            let e128: i128 = match end {
                Some(v) => {
                    let r: i128 = if *v < 0 {
                        len as i128 + *v as i128
                    } else {
                        *v as i128
                    };
                    if st > 0 {
                        if r < 0 {
                            0
                        } else if r > len as i128 {
                            len as i128
                        } else {
                            r
                        }
                    } else {
                        if r < -1 {
                            -1
                        } else if r > len as i128 - 1 {
                            len as i128 - 1
                        } else {
                            r
                        }
                    }
                },
                None => if st > 0 {
                    len as i128
                } else {
                    -1
                },
            };
            proof {
                assert(s128 as int == clamp_start(startspec, sti, len as int));
                assert(e128 as int == clamp_end(endspec, sti, len as int));
                lemma_slice_positions_in_range(startspec, endspec, sti, len as int);
            }
            let ghost cnt = slice_count(s128 as int, e128 as int, sti);
            proof {
                lemma_step_guard(s128 as int, e128 as int, sti, cnt, 0);
                lemma_count_le_len(s128 as int, e128 as int, sti, len as int);
                assert(positions.take(0) =~= Seq::<int>::empty());
                assert(to_ints(out@) =~= to_ints(pre) + positions.take(0));
            }
            let mut cur: i128 = s128;
            let mut k: usize = 0;
            while (st > 0 && cur < e128) || (st < 0 && cur > e128)
                invariant
                    st != 0,
                    sti == st as int,
                    -1 <= s128 <= len as i128,
                    -1 <= e128 <= len as i128,
                    cnt == slice_count(s128 as int, e128 as int, sti),
                    positions == slice_positions(startspec, endspec, sti, len as int),
                    positions.len() == cnt,
                    forall|j: int| 0 <= j < cnt ==> #[trigger] positions[j] == s128 + j * sti,
                    forall|j: int| 0 <= j < cnt ==> 0 <= #[trigger] positions[j] < len as int,
                    0 <= k as int <= cnt,
                    cnt <= len as int,
                    cur as int == s128 as int + k as int * sti,
                    st > 0 ==> cur >= s128,
                    st < 0 ==> cur <= s128,
                    ((k as int) < cnt) == ((st > 0 && cur < e128) || (st < 0 && cur > e128)),
                    to_ints(out@) =~= to_ints(pre) + positions.take(k as int),
                    forall|j: int| 0 <= j < out@.len() ==> (#[trigger] out@[j]) < len,
                decreases cnt - k as int,
            {
                proof {
                    assert(positions[k as int] == cur as int);
                }
                let ghost before = out@;
                out.push(cur as usize);
                proof {
                    assert(out@ == before.push(cur as usize));
                    assert(to_ints(out@) =~= to_ints(before).push(cur as int));
                    assert(positions.take(k as int).push(cur as int) =~= positions.take(
                        k as int + 1,
                    ));
                    assert(to_ints(out@) =~= to_ints(pre) + positions.take(k as int + 1));
                    assert(s128 as int + (k as int + 1) * sti == cur as int + sti)
                        by (nonlinear_arith)
                        requires
                            cur as int == s128 as int + k as int * sti,
                    ;
                    lemma_step_guard(s128 as int, e128 as int, sti, cnt, k as int + 1);
                }
                cur = cur + st as i128;
                k = k + 1;
            }
            proof {
                assert(k as int == cnt);
                assert(positions.take(cnt) =~= positions);
                assert(to_ints(out@) =~= to_ints(pre) + item_positions(*item, len as int));
            }
        },
    }
}

/// A slice yields at most `len` positions.
proof fn lemma_count_le_len(s: int, e: int, step: int, len: int)
    requires
        step != 0,
        len >= 0,
        step > 0 ==> 0 <= s <= len && 0 <= e <= len,
        step < 0 ==> -1 <= s <= len - 1 && -1 <= e <= len - 1,
    ensures
        slice_count(s, e, step) <= len,
{
    if step > 0 {
        if e > s {
            let d = e - s;
            assert((d + step - 1) / step <= d) by (nonlinear_arith)
                requires
                    step >= 1,
                    d >= 1,
            ;
        }
    } else {
        let m = -step;
        if s > e {
            let d = s - e;
            assert((d + m - 1) / m <= d) by (nonlinear_arith)
                requires
                    m >= 1,
                    d >= 1,
            ;
        }
    }
}

/// The loop guard at step `k` agrees with `k < cnt`.
proof fn lemma_step_guard(s: int, e: int, step: int, cnt: int, k: int)
    requires
        step != 0,
        cnt == slice_count(s, e, step),
        0 <= k,
    ensures
        k < cnt ==> (step > 0 ==> s + k * step < e) && (step < 0 ==> s + k * step > e),
        k >= cnt ==> (step > 0 ==> s + k * step >= e) && (step < 0 ==> s + k * step <= e),
{
    if step > 0 {
        if e > s {
            let d = e - s;
            if k < cnt {
                lemma_mul_bounds(k, cnt, step, d);
            } else {
                assert(cnt * step >= d) by (nonlinear_arith)
                    requires
                        step > 0,
                        d > 0,
                        cnt == (d + step - 1) / step,
                ;
                assert(k * step >= cnt * step) by (nonlinear_arith)
                    requires
                        k >= cnt,
                        step > 0,
                ;
            }
        } else {
            assert(k * step >= 0) by (nonlinear_arith)
                requires
                    k >= 0,
                    step > 0,
            ;
        }
    } else {
        let m = -step;
        assert(s + k * step == s - k * m) by (nonlinear_arith)
            requires
                m == -step,
        ;
        if s > e {
            let d = s - e;
            if k < cnt {
                lemma_mul_bounds(k, cnt, m, d);
            } else {
                assert(cnt * m >= d) by (nonlinear_arith)
                    requires
                        m > 0,
                        d > 0,
                        cnt == (d + m - 1) / m,
                ;
                assert(k * m >= cnt * m) by (nonlinear_arith)
                    requires
                        k >= cnt,
                        m > 0,
                ;
            }
        } else {
            assert(k * m >= 0) by (nonlinear_arith)
                requires
                    k >= 0,
                    m > 0,
            ;
        }
    }
}

} // verus!
