//! Count and sum: folds over the rows of an array.

use vstd::prelude::*;
use crate::chars::str_to_chars;
use crate::error::Error;
use crate::operators::caseops::{int_of_text, parse_i64_text};
use crate::value::{Value, ValueSpec, view_seq, lemma_view_seq};

verus! {

/// Replaces an array with its length as a number; a scalar is unchanged.
pub struct Count;

pub open spec fn count_apply_spec(v: ValueSpec) -> ValueSpec {
    match v {
        ValueSpec::Array { elems, level } => ValueSpec::Number {
            num: clamp_i64(elems.len() as int),
        },
        other => other,
    }
}

impl Count {
    /// The count of an array equals the array's length; on a non-array the
    /// scalar is unchanged.
    pub fn apply(&self, value: Value) -> (r: Result<Value, Error>)
        ensures
            r matches Ok(v) && v@ == count_apply_spec(value@),
    {
        match value {
            Value::Array(arr) => {
                proof {
                    lemma_view_seq(arr.elements@);
                }
                let len = arr.elements.len();
                let r: i64 = if len as u128 > i64::MAX as u128 {
                    i64::MAX
                } else {
                    len as i64
                };
                Ok(Value::Number(r))
            },
            other => Ok(other),
        }
    }

    pub fn requires_full_input(&self) -> (r: bool)
        ensures
            r == true,
    {
        true
    }
}

/// The result clamped into the 64-bit range.
pub open spec fn clamp_i64(x: int) -> int {
    if x > i64::MAX {
        i64::MAX as int
    } else if x < i64::MIN {
        i64::MIN as int
    } else {
        x
    }
}

/// What one row contributes to a sum: a number its value; a text the
/// integer it denotes, or zero when it denotes none or does not fit;
/// an array zero.
pub open spec fn coerce_num(e: ValueSpec) -> int {
    match e {
        ValueSpec::Number { num } => num,
        ValueSpec::Text { chars } => match int_of_text(chars) {
            Some(v) => if i64::MIN <= v <= i64::MAX {
                v
            } else {
                0
            },
            None => 0,
        },
        ValueSpec::Array { elems, level } => 0,
    }
}

/// The rows' contributions added left to right, each step clamped.
pub open spec fn sum_spec(elems: Seq<ValueSpec>) -> int
    decreases elems.len(),
{
    if elems.len() == 0 {
        0
    } else {
        clamp_i64(sum_spec(elems.drop_last()) + coerce_num(elems.last()))
    }
}

/// Folds numeric addition over the rows, coercing text by number parse
/// with failures counting zero; a non-array value is unchanged.
pub struct Sum;

pub open spec fn sum_apply_spec(v: ValueSpec) -> ValueSpec {
    match v {
        ValueSpec::Array { elems, level } => ValueSpec::Number { num: sum_spec(elems) },
        other => other,
    }
}

impl Sum {
    /// The sum over an empty array is zero.
    pub fn apply(&self, value: Value) -> (r: Result<Value, Error>)
        ensures
            r matches Ok(v) && v@ == sum_apply_spec(value@),
            value@ matches ValueSpec::Array { elems, level } && elems.len() == 0 ==> (
            r matches Ok(v) && v@ == (ValueSpec::Number { num: 0 })),
    {
        match value {
            Value::Array(arr) => {
                let ghost ev = view_seq(arr.elements@);
                proof {
                    lemma_view_seq(arr.elements@);
                }
                let n = arr.elements.len();
                let mut acc: i64 = 0;
                let mut i: usize = 0;
                while i < n
                    invariant
                        i <= n,
                        n == arr.elements@.len(),
                        ev == view_seq(arr.elements@),
                        ev.len() == n as int,
                        forall|j: int| 0 <= j < n as int ==> ev[j] == arr.elements@[j]@,
                        acc as int == sum_spec(ev.take(i as int)),
                    decreases n - i,
                {
                    let c = coerce_value(&arr.elements[i]);
                    let wide: i128 = acc as i128 + c as i128;
                    let clamped: i64 = if wide > i64::MAX as i128 {
                        i64::MAX
                    } else if wide < i64::MIN as i128 {
                        i64::MIN
                    } else {
                        wide as i64
                    };
                    proof {
                        let t1 = ev.take(i as int + 1);
                        assert(t1.drop_last() =~= ev.take(i as int));
                        assert(t1.last() == ev[i as int]);
                    }
                    acc = clamped;
                    i = i + 1;
                }
                proof {
                    assert(ev.take(n as int) =~= ev);
                }
                Ok(Value::Number(acc))
            },
            other => Ok(other),
        }
    }

    pub fn requires_full_input(&self) -> (r: bool)
        ensures
            r == true,
    {
        true
    }
}

/// One row's numeric contribution.
fn coerce_value(v: &Value) -> (r: i64)
    ensures
        r as int == coerce_num(v@),
{
    match v {
        Value::Number(n) => *n,
        Value::Text(s) => {
            let cs = str_to_chars(s.as_str());
            match parse_i64_text(&cs) {
                Some(v) => v,
                None => 0,
            }
        },
        Value::Array(arr) => 0,
    }
}

} // verus!
