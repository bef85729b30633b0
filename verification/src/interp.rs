//! The interpreter core: compiling the AST into transforms and running
//! them in order over a value.

use vstd::prelude::*;
use crate::ast::{Operator, Programme, SelectItem, Selection};
use crate::error::Error;
use crate::operators::caseops::{case_apply_spec, CaseKind, CaseOp};
use crate::operators::columnate::{columnate_apply_spec, Columnate};
use crate::operators::dedupe::{dedupe_apply_spec, DedupeSelectionWithCounts, DedupeWithCounts};
use crate::operators::filter::{delete_empty_spec, DeleteEmpty, Filter, filter_apply_spec,
    MatchAll, matches_apply_spec, Replace, replace_apply_spec};
use crate::operators::fold::{Count, count_apply_spec, Sum, sum_apply_spec};
use crate::operators::group::{Group, group_apply_spec};
use crate::operators::join::{Join, join_apply_spec};
use crate::operators::noop::NoOp;
use crate::operators::partition::{Partition, partition_apply_spec};
use crate::operators::pick::{Select, select_apply_spec};
use crate::operators::sort::{asc_order, desc_order, Sort};
use crate::operators::split::{Split, split_apply_spec, SplitDelim, split_delim_spec, SplitMode};
use crate::value::{Value, ValueSpec};
use vstd::relations::sorted_by;

verus! {

/// One compiled transform: a closed set of operator kinds.
pub enum Transform {
    Split(Split),
    SplitDelim(SplitDelim),
    Join(Join),
    Case(CaseOp),
    Replace(Replace),
    Filter(Filter),
    MatchAll(MatchAll),
    Dedupe(DedupeWithCounts),
    DedupeSel(DedupeSelectionWithCounts),
    Sort(Sort),
    DeleteEmpty(DeleteEmpty),
    Group(Group),
    Count(Count),
    Sum(Sum),
    Columnate(Columnate),
    Partition(Partition),
    Select(Select),
    NoOp(NoOp),
}

/// Sorting has no functional specification expressed as a single value
/// function (any sorted permutation is the one answer); the transform
/// dispatch uses this relation instead.
pub open spec fn transform_rel(t: Transform, v: ValueSpec, r: ValueSpec) -> bool {
    match t {
        Transform::Split(op) => r == split_apply_spec(v, op.mode),
        Transform::SplitDelim(op) => r == split_delim_spec(v, op.delimiter@),
        Transform::Join(op) => r == join_apply_spec(v, op.spec_delim()),
        Transform::Case(op) => r == case_apply_spec(op.kind, v, op.spec_sel()),
        Transform::Replace(op) => r == replace_apply_spec(
            v,
            op.spec_sel(),
            op.pattern,
            op.replacement@,
        ),
        Transform::Filter(op) => r == filter_apply_spec(v, op.pattern, op.keep_matching),
        Transform::MatchAll(op) => r == matches_apply_spec(v, op.pattern),
        Transform::Dedupe(op) => r == dedupe_apply_spec(v, None),
        Transform::DedupeSel(op) => r == dedupe_apply_spec(v, Some(op.selection.items@)),
        Transform::Sort(op) => match v {
            ValueSpec::Array { elems, level } => r matches ValueSpec::Array {
                elems: relems,
                level: rlevel,
            } && rlevel == level && relems.to_multiset() == elems.to_multiset() && (op.ascending
                ==> sorted_by(relems, asc_order())) && (!op.ascending ==> sorted_by(
                relems,
                desc_order(),
            )),
            other => r == other,
        },
        Transform::DeleteEmpty(op) => r == delete_empty_spec(v),
        Transform::Group(op) => r == group_apply_spec(v, op.selection.items@),
        Transform::Count(op) => r == count_apply_spec(v),
        Transform::Sum(op) => r == sum_apply_spec(v),
        Transform::Columnate(op) => r == columnate_apply_spec(v),
        Transform::Partition(op) => r == partition_apply_spec(v, op.selection.items@),
        Transform::Select(op) => r == select_apply_spec(v, op.selection.items@),
        Transform::NoOp(op) => r == v,
    }
}

impl Transform {
    /// Applies the transform; the result stands in the transform's
    /// input-output relation.
    pub fn apply(&self, value: Value) -> (r: Result<Value, Error>)
        ensures
            r matches Ok(out) && transform_rel(*self, value@, out@),
    {
        match self {
            Transform::Split(op) => op.apply(value),
            Transform::SplitDelim(op) => op.apply(value),
            Transform::Join(op) => op.apply(value),
            Transform::Case(op) => op.apply(value),
            Transform::Replace(op) => op.apply(value),
            Transform::Filter(op) => op.apply(value),
            Transform::MatchAll(op) => op.apply(value),
            Transform::Dedupe(op) => op.apply(value),
            Transform::DedupeSel(op) => op.apply(value),
            Transform::Sort(op) => op.apply(value),
            Transform::DeleteEmpty(op) => op.apply(value),
            Transform::Group(op) => op.apply(value),
            Transform::Count(op) => op.apply(value),
            Transform::Sum(op) => op.apply(value),
            Transform::Columnate(op) => op.apply(value),
            Transform::Partition(op) => op.apply(value),
            Transform::Select(op) => op.apply(value),
            Transform::NoOp(op) => op.apply(value),
        }
    }

    /// Whether the transform must see all rows before producing output.
    pub fn requires_full_input(&self) -> (r: bool)
        ensures
            r == self.spec_requires_full_input(),
    {
        match self {
            Transform::Split(op) => op.requires_full_input(),
            Transform::SplitDelim(op) => op.requires_full_input(),
            Transform::Join(op) => op.requires_full_input(),
            Transform::Case(op) => op.requires_full_input(),
            Transform::Replace(op) => op.requires_full_input(),
            Transform::Filter(op) => op.requires_full_input(),
            Transform::MatchAll(op) => op.requires_full_input(),
            Transform::Dedupe(op) => op.requires_full_input(),
            Transform::DedupeSel(op) => op.requires_full_input(),
            Transform::Sort(op) => op.requires_full_input(),
            Transform::DeleteEmpty(op) => op.requires_full_input(),
            Transform::Group(op) => op.requires_full_input(),
            Transform::Count(op) => op.requires_full_input(),
            Transform::Sum(op) => op.requires_full_input(),
            Transform::Columnate(op) => op.requires_full_input(),
            Transform::Partition(op) => op.requires_full_input(),
            Transform::Select(op) => op.requires_full_input(),
            Transform::NoOp(op) => op.requires_full_input(),
        }
    }

    pub open spec fn spec_requires_full_input(&self) -> bool {
        match self {
            Transform::Dedupe(op) => true,
            Transform::DedupeSel(op) => true,
            Transform::Sort(op) => true,
            Transform::Group(op) => true,
            Transform::Count(op) => true,
            Transform::Sum(op) => true,
            Transform::Columnate(op) => true,
            Transform::Partition(op) => true,
            _ => false,
        }
    }
}

/// Whether a selection is accepted at compile time: no slice with step 0.
pub open spec fn sel_ok(items: Seq<SelectItem>) -> bool {
    forall|i: int|
        0 <= i < items.len() ==> !((#[trigger] items[i]) matches SelectItem::Slice {
            start: _,
            end: _,
            step: Some(0i64),
        })
}

/// Whether an operator is accepted at compile time.
pub open spec fn op_ok(op: Operator) -> bool {
    match op {
        Operator::Lowercase(Some(sel)) => sel_ok(sel.items@),
        Operator::Uppercase(Some(sel)) => sel_ok(sel.items@),
        Operator::Trim(Some(sel)) => sel_ok(sel.items@),
        Operator::ToNumber(Some(sel)) => sel_ok(sel.items@),
        Operator::Replace { sel: Some(sel), pattern: _, replacement: _ } => sel_ok(sel.items@),
        Operator::DedupeSel(sel) => sel_ok(sel.items@),
        Operator::Group(sel) => sel_ok(sel.items@),
        Operator::Partition(sel) => sel_ok(sel.items@),
        Operator::Select(sel) => sel_ok(sel.items@),
        _ => true,
    }
}

/// How a compiled transform corresponds to its operator.
pub open spec fn tr_matches(op: Operator, t: Transform) -> bool {
    match op {
        Operator::Split => t matches Transform::Split(s) && s.mode is Whitespace,
        Operator::SplitDelim(d) => t matches Transform::SplitDelim(sd) && sd.delimiter@ == d@,
        Operator::Join => t matches Transform::Join(j) && j.spec_delim() is None,
        Operator::JoinDelim(d) => t matches Transform::Join(j) && j.spec_delim() matches Some(dd)
            && dd == d@,
        Operator::Lowercase(sel) => t matches Transform::Case(c) && c.kind == CaseKind::Lower
            && c.spec_sel() == spec_sel_of(sel),
        Operator::Uppercase(sel) => t matches Transform::Case(c) && c.kind == CaseKind::Upper
            && c.spec_sel() == spec_sel_of(sel),
        Operator::Trim(sel) => t matches Transform::Case(c) && c.kind == CaseKind::Trim
            && c.spec_sel() == spec_sel_of(sel),
        Operator::ToNumber(sel) => t matches Transform::Case(c) && c.kind == CaseKind::ToNumber
            && c.spec_sel() == spec_sel_of(sel),
        Operator::Replace { sel, pattern, replacement } => t matches Transform::Replace(r)
            && r.spec_sel() == spec_sel_of(sel) && r.pattern == pattern && r.replacement@
            == replacement@,
        Operator::FilterKeep(pattern) => t matches Transform::Filter(f) && f.pattern == pattern
            && f.keep_matching,
        Operator::FilterDrop(pattern) => t matches Transform::Filter(f) && f.pattern == pattern
            && !f.keep_matching,
        Operator::Matches(pattern) => t matches Transform::MatchAll(m) && m.pattern == pattern,
        Operator::Dedupe => t is Dedupe,
        Operator::DedupeSel(sel) => t matches Transform::DedupeSel(d) && d.selection.items@
            == sel.items@,
        Operator::SortDesc => t matches Transform::Sort(s) && !s.ascending,
        Operator::SortAsc => t matches Transform::Sort(s) && s.ascending,
        Operator::DeleteEmpty => t is DeleteEmpty,
        Operator::Group(sel) => t matches Transform::Group(g) && g.selection.items@ == sel.items@,
        Operator::Count => t is Count,
        Operator::Sum => t is Sum,
        Operator::Columnate => t is Columnate,
        Operator::Partition(sel) => t matches Transform::Partition(p) && p.selection.items@
            == sel.items@,
        Operator::Descend => t is NoOp,
        Operator::Ascend => t is NoOp,
        Operator::Separator => t is NoOp,
        Operator::Select(sel) => t matches Transform::Select(s) && s.selection.items@
            == sel.items@,
    }
}

pub open spec fn spec_sel_of(sel: Option<Selection>) -> Option<Seq<SelectItem>> {
    match sel {
        Some(s) => Some(s.items@),
        None => None,
    }
}

/// Checks a selection for a zero step.
fn check_selection(sel: &Selection) -> (r: bool)
    ensures
        r == sel_ok(sel.items@),
{
    let n = sel.items.len();
    let mut i: usize = 0;
    while i < n
        invariant
            i <= n,
            n == sel.items@.len(),
            forall|j: int|
                0 <= j < i as int ==> !((#[trigger] sel.items@[j]) matches SelectItem::Slice {
                    start: _,
                    end: _,
                    step: Some(0i64),
                }),
        decreases n - i,
    {
        let bad = match &sel.items[i] {
            SelectItem::Slice { start: _, end: _, step: Some(s) } => *s == 0,
            _ => false,
        };
        if bad {
            return false;
        }
        i = i + 1;
    }
    true
}

/// Compiles each operator into its transform, in order; a selection with a
/// zero slice step is rejected.
pub fn compile(programme: Programme) -> (r: Result<Vec<Transform>, Error>)
    ensures
        r matches Ok(ts) ==> ts@.len() == programme.operators@.len() && forall|i: int|
            0 <= i < ts@.len() ==> tr_matches(programme.operators@[i], #[trigger] ts@[i]) && op_ok(
                programme.operators@[i],
            ),
        r matches Err(e) ==> e is Compile && exists|i: int|
            0 <= i < programme.operators@.len() && !op_ok(#[trigger] programme.operators@[i]),
{
    let ghost orig = programme.operators@;
    let mut ops = programme.operators;
    let mut ts: Vec<Transform> = Vec::new();
    let n = ops.len();
    let mut i: usize = 0;
    while i < n
        invariant
            orig == programme.operators@,
            i <= n,
            n == orig.len(),
            ops@.len() == n - i as int,
            forall|j: int| 0 <= j < ops@.len() ==> ops@[j] == orig[i + j],
            ts@.len() == i as int,
            forall|j: int|
                0 <= j < i as int ==> tr_matches(orig[j], #[trigger] ts@[j]) && op_ok(orig[j]),
        decreases n - i,
    {
        let op = ops.remove(0);
        let ghost opg = op;
        let t: Transform = match op {
            Operator::Split => Transform::Split(Split::new(SplitMode::Whitespace)),
            Operator::SplitDelim(d) => Transform::SplitDelim(SplitDelim::new(d)),
            Operator::Join => Transform::Join(Join::new(None)),
            Operator::JoinDelim(d) => Transform::Join(Join::new(Some(d))),
            Operator::Lowercase(sel) => {
                if !check_opt_selection(&sel) {
                    proof {
                        assert(orig == programme.operators@);
                        assert(!op_ok(programme.operators@[i as int]));
                    }
                    return Err(zero_step_error());
                }
                Transform::Case(CaseOp::new(CaseKind::Lower, sel))
            },
            Operator::Uppercase(sel) => {
                if !check_opt_selection(&sel) {
                    proof {
                        assert(orig == programme.operators@);
                        assert(!op_ok(programme.operators@[i as int]));
                    }
                    return Err(zero_step_error());
                }
                Transform::Case(CaseOp::new(CaseKind::Upper, sel))
            },
            Operator::Trim(sel) => {
                if !check_opt_selection(&sel) {
                    proof {
                        assert(orig == programme.operators@);
                        assert(!op_ok(programme.operators@[i as int]));
                    }
                    return Err(zero_step_error());
                }
                Transform::Case(CaseOp::new(CaseKind::Trim, sel))
            },
            Operator::ToNumber(sel) => {
                if !check_opt_selection(&sel) {
                    proof {
                        assert(orig == programme.operators@);
                        assert(!op_ok(programme.operators@[i as int]));
                    }
                    return Err(zero_step_error());
                }
                Transform::Case(CaseOp::new(CaseKind::ToNumber, sel))
            },
            Operator::Replace { sel, pattern, replacement } => {
                if !check_opt_selection(&sel) {
                    proof {
                        assert(orig == programme.operators@);
                        assert(!op_ok(programme.operators@[i as int]));
                    }
                    return Err(zero_step_error());
                }
                Transform::Replace(Replace::new(sel, pattern, replacement))
            },
            Operator::FilterKeep(pattern) => Transform::Filter(Filter::new(pattern, true)),
            Operator::FilterDrop(pattern) => Transform::Filter(Filter::new(pattern, false)),
            Operator::Matches(pattern) => Transform::MatchAll(MatchAll::new(pattern)),
            Operator::Dedupe => Transform::Dedupe(DedupeWithCounts),
            Operator::DedupeSel(sel) => {
                if !check_selection(&sel) {
                    proof {
                        assert(orig == programme.operators@);
                        assert(!op_ok(programme.operators@[i as int]));
                    }
                    return Err(zero_step_error());
                }
                Transform::DedupeSel(DedupeSelectionWithCounts::new(sel))
            },
            Operator::SortDesc => Transform::Sort(Sort::new(false)),
            Operator::SortAsc => Transform::Sort(Sort::new(true)),
            Operator::DeleteEmpty => Transform::DeleteEmpty(DeleteEmpty),
            Operator::Group(sel) => {
                if !check_selection(&sel) {
                    proof {
                        assert(orig == programme.operators@);
                        assert(!op_ok(programme.operators@[i as int]));
                    }
                    return Err(zero_step_error());
                }
                Transform::Group(Group::new(sel))
            },
            Operator::Count => Transform::Count(Count),
            Operator::Sum => Transform::Sum(Sum),
            Operator::Columnate => Transform::Columnate(Columnate),
            Operator::Partition(sel) => {
                if !check_selection(&sel) {
                    proof {
                        assert(orig == programme.operators@);
                        assert(!op_ok(programme.operators@[i as int]));
                    }
                    return Err(zero_step_error());
                }
                Transform::Partition(Partition::new(sel))
            },
            Operator::Descend => Transform::NoOp(NoOp),
            Operator::Ascend => Transform::NoOp(NoOp),
            Operator::Separator => Transform::NoOp(NoOp),
            Operator::Select(sel) => {
                if !check_selection(&sel) {
                    proof {
                        assert(orig == programme.operators@);
                        assert(!op_ok(programme.operators@[i as int]));
                    }
                    return Err(zero_step_error());
                }
                Transform::Select(Select::new(sel))
            },
        };
        proof {
            assert(tr_matches(orig[i as int], t));
            assert(op_ok(orig[i as int]));
        }
        ts.push(t);
        i = i + 1;
    }
    Ok(ts)
}

/// Whether an optional selection is free of zero steps.
fn check_opt_selection(sel: &Option<Selection>) -> (r: bool)
    ensures
        r == (match sel {
            Some(s) => sel_ok(s.items@),
            None => true,
        }),
{
    match sel {
        Some(s) => check_selection(s),
        None => true,
    }
}

fn zero_step_error() -> (r: Error)
    ensures
        r is Compile,
{
    Error::Compile { message: "selection step cannot be zero".to_owned() }
}

/// The execution context: it owns the current root value.
pub struct Context {
    pub value: Value,
}

impl Context {
    pub fn new(value: Value) -> (r: Context)
        ensures
            r.value == value,
    {
        Context { value }
    }

    pub fn into_value(self) -> (r: Value)
        ensures
            r == self.value,
    {
        self.value
    }
}

/// Whether the outputs `r` can arise from running the transforms in order
/// over `v`.
pub open spec fn run_rel(ts: Seq<Transform>, v: ValueSpec, r: ValueSpec) -> bool
    decreases ts.len(),
{
    if ts.len() == 0 {
        r == v
    } else {
        exists|mid: ValueSpec|
            #[trigger] transform_rel(ts.first(), v, mid) && run_rel(ts.drop_first(), mid, r)
    }
}

/// Runs each transform in order, replacing the root in the context with
/// each result as it goes, so the context always holds the outcome of the
/// transforms applied so far.  The built-in transforms never fail, so the
/// run always succeeds, and the final root chains to the initial one
/// through the transforms' relations.
pub fn run(transforms: &Vec<Transform>, ctx: &mut Context) -> (r: Result<(), Error>)
    ensures
        r is Ok,
        run_rel(transforms@, old(ctx).value@, final(ctx).value@),
{
    let n = transforms.len();
    let mut i: usize = 0;
    proof {
        assert(transforms@.skip(0) =~= transforms@);
    }
    while i < n
        invariant
            i <= n,
            n == transforms@.len(),
            forall|r2: ValueSpec|
                run_rel(transforms@.skip(i as int), ctx.value@, r2) ==> run_rel(
                    transforms@,
                    old(ctx).value@,
                    r2,
                ),
        decreases n - i,
    {
        proof {
            assert(transforms@.skip(i as int).first() == transforms@[i as int]);
            assert(transforms@.skip(i as int).drop_first() =~= transforms@.skip(i as int + 1));
        }
        let ghost curv = ctx.value@;
        let current = take_value(ctx);
        let next = match transforms[i].apply(current) {
            Ok(v) => v,
            Err(e) => {
                return Err(e);
            },
        };
        ctx.value = next;
        proof {
            assert forall|r2: ValueSpec|
                run_rel(transforms@.skip(i as int + 1), ctx.value@, r2) implies run_rel(
                transforms@,
                old(ctx).value@,
                r2,
            ) by {
                assert(transform_rel(transforms@[i as int], curv, ctx.value@));
                assert(transform_rel(transforms@.skip(i as int).first(), curv, ctx.value@));
                assert(run_rel(transforms@.skip(i as int), curv, r2));
            }
        }
        i = i + 1;
    }
    proof {
        assert(transforms@.skip(n as int).len() == 0);
        assert(run_rel(transforms@.skip(n as int), ctx.value@, ctx.value@));
    }
    Ok(())
}

/// Takes the root value out of the context, leaving a placeholder.
fn take_value(ctx: &mut Context) -> (r: Value)
    ensures
        r == old(ctx).value,
{
    let mut v = Value::Number(0);
    core::mem::swap(&mut v, &mut ctx.value);
    v
}


/// How a transform corresponds to the mathematical form of the operator it
/// was compiled from (composing the parser's and the compiler's
/// correspondences).
pub open spec fn t_matches(t: Transform, o: crate::parser::OpSpec) -> bool {
    exists|op: Operator| #[trigger] crate::parser::op_matches(op, o) && tr_matches(op, t)
}

/// Whether a mathematical operator list is accepted at compile time: no
/// selection slice with step zero.
pub open spec fn list_op_ok(o: crate::parser::OpSpec) -> bool {
    match o {
        crate::parser::OpSpec::Lowercase(Some(items)) => sel_ok(items),
        crate::parser::OpSpec::Uppercase(Some(items)) => sel_ok(items),
        crate::parser::OpSpec::Trim(Some(items)) => sel_ok(items),
        crate::parser::OpSpec::ToNumber(Some(items)) => sel_ok(items),
        crate::parser::OpSpec::Replace { sel: Some(items), pattern: _, replacement: _ } => sel_ok(
            items,
        ),
        crate::parser::OpSpec::DedupeSel(items) => sel_ok(items),
        crate::parser::OpSpec::Group(items) => sel_ok(items),
        crate::parser::OpSpec::Partition(items) => sel_ok(items),
        crate::parser::OpSpec::Select(items) => sel_ok(items),
        _ => true,
    }
}

/// An operator's compile-time acceptance is the same through the parser's
/// correspondence.
pub proof fn lemma_op_ok_matches(op: Operator, o: crate::parser::OpSpec)
    requires
        crate::parser::op_matches(op, o),
    ensures
        op_ok(op) == list_op_ok(o),
{
}

} // verus!
