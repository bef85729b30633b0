//! The programme parser: consumes a programme string left to right with
//! single-character lookahead and produces the operator AST.  On error it
//! returns a caret offset into the original string and a short message.

use vstd::prelude::*;
use crate::ast::{Operator, Programme, SelectItem, Selection};
use crate::chars::{chars_to_string, str_to_chars};
use crate::error::{parse_error, Error};
use crate::regex::Pattern;

verus! {

pub open spec fn is_digit(c: char) -> bool {
    '0' <= c && c <= '9'
}

fn digit_char(c: char) -> (r: bool)
    ensures
        r == is_digit(c),
{
    '0' <= c && c <= '9'
}

/// Whether an operator begins at position `i` (with one-character lookahead
/// for the forms that need it).  Delimiter payloads of `S` and `J` extend to
/// the first position where this holds.
fn operator_starts(cs: &Vec<char>, i: usize) -> (r: bool)
    requires
        i < cs@.len(),
    ensures
        r == op_start(cs@, i as int),
{
    let n = cs.len();
    let c = cs[i];
    match c {
        's' | 'S' | 'j' | 'J' | 'l' | 'L' | 'u' | 'U' | 't' | 'T' | 'n' | 'N' | 'r' | 'd' | 'D'
            | 'o' | 'O' | 'x' | 'g' | '#' | '+' | 'c' | 'p' | '@' | '^' | ';' | '/' | ':' => true,
        '!' | 'm' => i + 1 < n && cs[i + 1] == '/',
        '-' => i + 1 < n && digit_char(cs[i + 1]),
        _ => digit_char(c),
    }
}


/// Whether an operator begins at position `i` of the programme text, with
/// the one-character lookahead the grammar allows.
pub open spec fn op_start(s: Seq<char>, i: int) -> bool {
    if i < 0 || i >= s.len() {
        false
    } else {
        let c = s[i];
        if c == 's' || c == 'S' || c == 'j' || c == 'J' || c == 'l' || c == 'L' || c == 'u' || c
            == 'U' || c == 't' || c == 'T' || c == 'n' || c == 'N' || c == 'r' || c == 'd' || c
            == 'D' || c == 'o' || c == 'O' || c == 'x' || c == 'g' || c == '#' || c == '+' || c
            == 'c' || c == 'p' || c == '@' || c == '^' || c == ';' || c == '/' || c == ':' {
            true
        } else if c == '!' || c == 'm' {
            i + 1 < s.len() && s[i + 1] == '/'
        } else if c == '-' {
            i + 1 < s.len() && is_digit(s[i + 1])
        } else {
            is_digit(c)
        }
    }
}

/// The delimiter text and end position read from `i`, before the empty
/// check: it runs to the next operator start, `\` escaping one character.
pub open spec fn scan_delim_body(s: Seq<char>, i: int) -> Option<(Seq<char>, int)>
    decreases s.len() - i,
{
    if i < 0 || i >= s.len() {
        Some((Seq::<char>::empty(), i))
    } else if s[i] == '\\' {
        if i + 1 >= s.len() {
            None
        } else {
            match scan_delim_body(s, i + 2) {
                Some(p) => Some((seq![s[i + 1]] + p.0, p.1)),
                None => None,
            }
        }
    } else if op_start(s, i) {
        Some((Seq::<char>::empty(), i))
    } else {
        match scan_delim_body(s, i + 1) {
            Some(p) => Some((seq![s[i]] + p.0, p.1)),
            None => None,
        }
    }
}

/// A delimiter payload starting at `i`: `None` when it is empty or ends in
/// a dangling escape.
pub open spec fn scan_delim(s: Seq<char>, i: int) -> Option<(Seq<char>, int)> {
    match scan_delim_body(s, i) {
        Some(p) => if p.1 == i {
            None
        } else {
            Some(p)
        },
        None => None,
    }
}

/// The delimiter body never walks backwards and stays within the text.
pub proof fn lemma_scan_delim_body_bounds(s: Seq<char>, i: int)
    requires
        0 <= i <= s.len(),
    ensures
        scan_delim_body(s, i) matches Some(p) ==> i <= p.1 <= s.len(),
    decreases s.len() - i,
{
    if i < s.len() {
        if s[i] == '\\' {
            if i + 1 < s.len() {
                lemma_scan_delim_body_bounds(s, i + 2);
            }
        } else if !op_start(s, i) {
            lemma_scan_delim_body_bounds(s, i + 1);
        }
    }
}

/// Reads a delimiter payload starting at `i`: it extends to the next
/// operator boundary; `\` escapes the following character.
fn parse_delim(cs: &Vec<char>, i: usize) -> (r: Result<(String, usize), Error>)
    requires
        i <= cs@.len(),
    ensures
        r matches Ok(p) ==> i < p.1 <= cs@.len() && scan_delim(cs@, i as int) == Some(
            (p.0@, p.1 as int),
        ),
        r matches Err(e) ==> e is Parse && e.spec_offset() <= cs@.len() && scan_delim(
            cs@,
            i as int,
        ) is None,
{
    let n = cs.len();
    let mut out: Vec<char> = Vec::new();
    let mut j = i;
    proof {
        lemma_scan_delim_body_bounds(cs@, i as int);
        assert(out@ =~= Seq::<char>::empty());
        match scan_delim_body(cs@, i as int) {
            Some(p) => {
                assert(Seq::<char>::empty() + p.0 =~= p.0);
            },
            None => {},
        }
    }
    while j < n
        invariant
            i <= j <= n,
            n == cs@.len(),
            (match scan_delim_body(cs@, j as int) {
                Some(p) => scan_delim_body(cs@, i as int) == Some((out@ + p.0, p.1)) && p.1
                    >= j as int,
                None => scan_delim_body(cs@, i as int) is None,
            }),
        decreases n - j,
    {
        let c = cs[j];
        proof {
            lemma_scan_delim_body_bounds(cs@, j as int);
        }
        if c == '\\' {
            if j + 1 >= n {
                proof {
                    assert(scan_delim_body(cs@, j as int) is None);
                }
                return Err(parse_error(j, "trailing escape in delimiter"));
            }
            proof {
                lemma_scan_delim_body_bounds(cs@, j as int + 2);
                match scan_delim_body(cs@, j as int + 2) {
                    Some(p) => {
                        assert(scan_delim_body(cs@, j as int) == Some(
                            (seq![cs@[j + 1]] + p.0, p.1),
                        ));
                        assert(out@ + (seq![cs@[j + 1]] + p.0) =~= out@.push(cs@[j + 1]) + p.0);
                        assert(scan_delim_body(cs@, i as int) == Some(
                            (out@.push(cs@[j + 1]) + p.0, p.1),
                        ));
                    },
                    None => {
                        assert(scan_delim_body(cs@, j as int) is None);
                    },
                }
            }
            out.push(cs[j + 1]);
            j = j + 2;
        } else if operator_starts(cs, j) {
            proof {
                assert(scan_delim_body(cs@, j as int) == Some((Seq::<char>::empty(), j as int)));
                assert(out@ + Seq::<char>::empty() =~= out@);
                assert(scan_delim_body(cs@, i as int) == Some((out@, j as int)));
            }
            if j == i {
                return Err(parse_error(i, "expected delimiter"));
            }
            return Ok((chars_to_string(&out), j));
        } else {
            proof {
                lemma_scan_delim_body_bounds(cs@, j as int + 1);
                match scan_delim_body(cs@, j as int + 1) {
                    Some(p) => {
                        assert(scan_delim_body(cs@, j as int) == Some(
                            (seq![cs@[j as int]] + p.0, p.1),
                        ));
                        assert(out@ + (seq![cs@[j as int]] + p.0) =~= out@.push(cs@[j as int])
                            + p.0);
                        assert(scan_delim_body(cs@, i as int) == Some(
                            (out@.push(cs@[j as int]) + p.0, p.1),
                        ));
                    },
                    None => {
                        assert(scan_delim_body(cs@, j as int) is None);
                    },
                }
            }
            out.push(c);
            j = j + 1;
        }
    }
    proof {
        assert(scan_delim_body(cs@, j as int) == Some((Seq::<char>::empty(), j as int)));
        assert(out@ + Seq::<char>::empty() =~= out@);
        assert(scan_delim_body(cs@, i as int) == Some((out@, j as int)));
    }
    if j == i {
        return Err(parse_error(i, "expected delimiter"));
    }
    Ok((chars_to_string(&out), j))
}


/// The first position at or after `i` that does not hold a digit.
pub open spec fn digits_end(s: Seq<char>, i: int) -> int
    decreases s.len() - i,
{
    if i < 0 || i >= s.len() {
        i
    } else if is_digit(s[i]) {
        digits_end(s, i + 1)
    } else {
        i
    }
}

pub proof fn lemma_digits_end(s: Seq<char>, i: int)
    requires
        0 <= i <= s.len(),
    ensures
        i <= digits_end(s, i) <= s.len(),
        forall|j: int| i <= j < digits_end(s, i) ==> is_digit(#[trigger] s[j]),
        digits_end(s, i) < s.len() ==> !is_digit(s[digits_end(s, i)]),
    decreases s.len() - i,
{
    if i < s.len() && is_digit(s[i]) {
        lemma_digits_end(s, i + 1);
    }
}

/// An optional integer read at `i`: an optional `-`, then digits.  `None`
/// for a sign without digits or a value beyond the 64-bit range; a bare
/// non-number position reads as nothing consumed.
pub open spec fn scan_int(s: Seq<char>, i: int) -> Option<(Option<int>, int)> {
    let neg = 0 <= i < s.len() && s[i] == '-';
    let j0 = if neg {
        i + 1
    } else {
        i
    };
    let e = digits_end(s, j0);
    if e == j0 {
        if neg {
            None
        } else {
            Some((None::<int>, i))
        }
    } else {
        let v = crate::operators::caseops::digits_val(s.subrange(j0, e));
        if v > i64::MAX {
            None
        } else {
            Some((Some(if neg { -v } else { v }), e))
        }
    }
}

/// Reads an optional integer (optional `-`, then digits) at `i`.
fn parse_int(cs: &Vec<char>, i: usize) -> (r: Result<(Option<i64>, usize), Error>)
    requires
        i <= cs@.len(),
    ensures
        r matches Ok(p) ==> i <= p.1 <= cs@.len() && (p.0 is Some ==> i < p.1) && scan_int(
            cs@,
            i as int,
        ) == Some(
            (
                match p.0 {
                    Some(x) => Some(x as int),
                    None => None::<int>,
                },
                p.1 as int,
            ),
        ),
        r matches Err(e) ==> e is Parse && e.spec_offset() <= cs@.len() && scan_int(
            cs@,
            i as int,
        ) is None,
{
    let n = cs.len();
    let mut j = i;
    let mut negative = false;
    if j < n && cs[j] == '-' {
        negative = true;
        j = j + 1;
    }
    let digits_start = j;
    let ghost e = digits_end(cs@, digits_start as int);
    proof {
        lemma_digits_end(cs@, digits_start as int);
        let run = cs@.subrange(digits_start as int, e);
        assert(crate::operators::caseops::all_digits(run)) by {
            assert(forall|q: int| 0 <= q < run.len() ==> run[q] == cs@[digits_start + q]);
        }
        crate::operators::caseops::lemma_digits_val_nonneg(run);
    }
    let mut value: i64 = 0;
    while j < n && digit_char(cs[j])
        invariant
            digits_start <= j <= n,
            n == cs@.len(),
            i <= digits_start <= i + 1,
            negative == (i < n && cs@[i as int] == '-'),
            digits_start == (if negative { i + 1 } else { i as int }),
            0 <= value,
            e == digits_end(cs@, digits_start as int),
            digits_start <= j as int <= e,
            value as int == crate::operators::caseops::digits_val(
                cs@.subrange(digits_start as int, j as int),
            ),
        decreases n - j,
    {
        proof {
            assert(is_digit(cs@[j as int]));
            lemma_digits_end(cs@, digits_start as int);
            assert((j as int) < e) by {
                if j as int == e {
                    assert(!is_digit(cs@[e]));
                }
            }
            let run = cs@.subrange(digits_start as int, e);
            assert(crate::operators::caseops::all_digits(run)) by {
                assert(forall|q: int| 0 <= q < run.len() ==> run[q] == cs@[digits_start + q]);
            }
            let next = cs@.subrange(digits_start as int, j as int + 1);
            assert(crate::operators::caseops::all_digits(next)) by {
                assert(forall|q: int| 0 <= q < next.len() ==> next[q] == cs@[digits_start + q]);
            }
            crate::operators::caseops::lemma_digits_val_nonneg(next);
            assert(next.drop_last() =~= cs@.subrange(digits_start as int, j as int));
            assert(next.last() == cs@[j as int]);
            crate::operators::caseops::lemma_digits_prefix_le(run, j as int + 1 - digits_start);
            assert(run.take(j as int + 1 - digits_start) =~= next);
        }
        let d: i64 = (cs[j] as u8 - 48) as i64;
        if value > i64::MAX / 10 {
            proof {
                assert(crate::operators::caseops::digits_val(
                    cs@.subrange(digits_start as int, j as int + 1),
                ) > i64::MAX);
                assert(scan_int(cs@, i as int) is None);
            }
            return Err(parse_error(j, "number too large"));
        }
        value = value * 10;
        if value > i64::MAX - d {
            proof {
                assert(crate::operators::caseops::digits_val(
                    cs@.subrange(digits_start as int, j as int + 1),
                ) > i64::MAX);
                assert(scan_int(cs@, i as int) is None);
            }
            return Err(parse_error(j, "number too large"));
        }
        value = value + d;
        j = j + 1;
    }
    proof {
        lemma_digits_end(cs@, digits_start as int);
        assert((j as int) == e) by {
            if (j as int) < e {
                assert(is_digit(cs@[j as int]));
            }
        }
    }
    if j == digits_start {
        if negative {
            proof {
                assert(scan_int(cs@, i as int) is None);
            }
            return Err(parse_error(i, "expected number"));
        }
        return Ok((None, i));
    }
    let v = if negative {
        -value
    } else {
        value
    };
    Ok((Some(v), j))
}


pub open spec fn opt_i64(x: Option<int>) -> Option<i64> {
    match x {
        Some(v) => Some(v as i64),
        None => None,
    }
}

/// A successful integer read ends within the text and after its digits.
pub proof fn lemma_scan_int_bounds(s: Seq<char>, i: int)
    requires
        0 <= i <= s.len(),
    ensures
        scan_int(s, i) matches Some(p) ==> i <= p.1 <= s.len() && (p.0 is Some ==> p.1 > i),
{
    let neg = 0 <= i < s.len() && s[i] == '-';
    let j0 = if neg {
        i + 1
    } else {
        i
    };
    lemma_digits_end(s, j0);
}

/// One selection item read at `i`: an index, or a slice `start:end[:step]`.
pub open spec fn scan_item(s: Seq<char>, i: int) -> Option<(SelectItem, int)> {
    match scan_int(s, i) {
        None => None,
        Some((first, j)) => if 0 <= j < s.len() && s[j] == ':' {
            match scan_int(s, j + 1) {
                None => None,
                Some((end, j2)) => if 0 <= j2 < s.len() && s[j2] == ':' {
                    match scan_int(s, j2 + 1) {
                        None => None,
                        Some((st, j3)) => Some(
                            (
                                SelectItem::Slice {
                                    start: opt_i64(first),
                                    end: opt_i64(end),
                                    step: opt_i64(st),
                                },
                                j3,
                            ),
                        ),
                    }
                } else {
                    Some(
                        (
                            SelectItem::Slice {
                                start: opt_i64(first),
                                end: opt_i64(end),
                                step: None,
                            },
                            j2,
                        ),
                    )
                },
            }
        } else {
            match first {
                Some(v) => Some((SelectItem::Index(v as i64), j)),
                None => None,
            }
        },
    }
}

/// A successful item read moves strictly forward, within the text.
pub proof fn lemma_scan_item_bounds(s: Seq<char>, i: int)
    requires
        0 <= i <= s.len(),
    ensures
        scan_item(s, i) matches Some(p) ==> i < p.1 <= s.len(),
{
    lemma_scan_int_bounds(s, i);
    match scan_int(s, i) {
        None => {},
        Some((first, j)) => {
            if 0 <= j < s.len() && s[j] == ':' {
                lemma_scan_int_bounds(s, j + 1);
                match scan_int(s, j + 1) {
                    None => {},
                    Some((end, j2)) => {
                        if 0 <= j2 < s.len() && s[j2] == ':' {
                            lemma_scan_int_bounds(s, j2 + 1);
                        }
                    },
                }
            }
        },
    }
}

/// The items after the first: a comma, an item, and so on.
pub open spec fn scan_sel_rest(s: Seq<char>, j: int) -> Option<(Seq<SelectItem>, int)>
    decreases s.len() - j,
{
    if 0 <= j < s.len() && s[j] == ',' {
        match scan_item(s, j + 1) {
            None => None,
            Some(p) => {
                proof {
                    lemma_scan_item_bounds(s, j + 1);
                }
                match scan_sel_rest(s, p.1) {
                    None => None,
                    Some(q) => Some((seq![p.0] + q.0, q.1)),
                }
            },
        }
    } else {
        Some((Seq::<SelectItem>::empty(), j))
    }
}

/// A whole selection read at `i`: one or more comma-separated items.
pub open spec fn scan_selection(s: Seq<char>, i: int) -> Option<(Seq<SelectItem>, int)> {
    match scan_item(s, i) {
        None => None,
        Some(p) => match scan_sel_rest(s, p.1) {
            None => None,
            Some(q) => Some((seq![p.0] + q.0, q.1)),
        },
    }
}

/// The rest of a selection never walks backwards.
pub proof fn lemma_scan_sel_rest_bounds(s: Seq<char>, j: int)
    requires
        0 <= j <= s.len(),
    ensures
        scan_sel_rest(s, j) matches Some(p) ==> j <= p.1 <= s.len(),
    decreases s.len() - j,
{
    if 0 <= j < s.len() && s[j] == ',' {
        lemma_scan_item_bounds(s, j + 1);
        match scan_item(s, j + 1) {
            None => {},
            Some(p) => {
                lemma_scan_sel_rest_bounds(s, p.1);
            },
        }
    }
}

/// Reads one selection item: an index, or a slice `start:end[:step]`.
fn parse_select_item(cs: &Vec<char>, i: usize) -> (r: Result<(SelectItem, usize), Error>)
    requires
        i <= cs@.len(),
    ensures
        r matches Ok(p) ==> i < p.1 <= cs@.len() && scan_item(cs@, i as int) == Some(
            (p.0, p.1 as int),
        ),
        r matches Err(e) ==> e is Parse && e.spec_offset() <= cs@.len() && scan_item(
            cs@,
            i as int,
        ) is None,
{
    let n = cs.len();
    proof {
        lemma_scan_item_bounds(cs@, i as int);
    }
    let start = match parse_int(cs, i) {
        Ok(p) => p,
        Err(e) => {
            return Err(e);
        },
    };
    let (first, mut j) = start;
    if j < n && cs[j] == ':' {
        j = j + 1;
        let (end, j2) = match parse_int(cs, j) {
            Ok(p) => p,
            Err(e) => {
                return Err(e);
            },
        };
        let mut j3 = j2;
        let mut step: Option<i64> = None;
        if j3 < n && cs[j3] == ':' {
            j3 = j3 + 1;
            let (st, j4) = match parse_int(cs, j3) {
                Ok(p) => p,
                Err(e) => {
                    return Err(e);
                },
            };
            step = st;
            j3 = j4;
        }
        Ok((SelectItem::Slice { start: first, end, step }, j3))
    } else {
        match first {
            Some(v) => Ok((SelectItem::Index(v), j)),
            None => Err(parse_error(i, "expected selection")),
        }
    }
}

/// Reads a selection: one or more items separated by commas.
fn parse_selection(cs: &Vec<char>, i: usize) -> (r: Result<(Selection, usize), Error>)
    requires
        i <= cs@.len(),
    ensures
        r matches Ok(p) ==> i < p.1 <= cs@.len() && scan_selection(cs@, i as int) == Some(
            (p.0.items@, p.1 as int),
        ),
        r matches Err(e) ==> e is Parse && e.spec_offset() <= cs@.len() && scan_selection(
            cs@,
            i as int,
        ) is None,
{
    let n = cs.len();
    let mut items: Vec<SelectItem> = Vec::new();
    let first = match parse_select_item(cs, i) {
        Ok(p) => p,
        Err(e) => {
            return Err(e);
        },
    };
    items.push(first.0);
    let mut j = first.1;
    proof {
        lemma_scan_sel_rest_bounds(cs@, j as int);
        match scan_sel_rest(cs@, j as int) {
            Some(q) => {
                assert(items@ + q.0 =~= seq![first.0] + q.0);
            },
            None => {},
        }
    }
    while j < n && cs[j] == ','
        invariant
            i < j <= n,
            n == cs@.len(),
            (match scan_sel_rest(cs@, j as int) {
                Some(q) => scan_selection(cs@, i as int) == Some((items@ + q.0, q.1)) && q.1
                    >= j as int,
                None => scan_selection(cs@, i as int) is None,
            }),
        decreases n - j,
    {
        proof {
            lemma_scan_item_bounds(cs@, j as int + 1);
        }
        let (item, j2) = match parse_select_item(cs, j + 1) {
            Ok(p) => p,
            Err(e) => {
                proof {
                    assert(scan_sel_rest(cs@, j as int) is None);
                }
                return Err(e);
            },
        };
        proof {
            lemma_scan_sel_rest_bounds(cs@, j2 as int);
            match scan_sel_rest(cs@, j2 as int) {
                Some(q) => {
                    assert(scan_sel_rest(cs@, j as int) == Some((seq![item] + q.0, q.1)));
                    assert(items@ + (seq![item] + q.0) =~= items@.push(item) + q.0);
                },
                None => {
                    assert(scan_sel_rest(cs@, j as int) is None);
                },
            }
        }
        items.push(item);
        j = j2;
    }
    proof {
        assert(scan_sel_rest(cs@, j as int) == Some((Seq::<SelectItem>::empty(), j as int)));
        assert(items@ + Seq::<SelectItem>::empty() =~= items@);
    }
    Ok((Selection { items }, j))
}


/// The text of a `/.../` literal after its opening slash: `\/` stands for
/// a literal `/`; other escapes pass through; `None` when it never closes.
pub open spec fn scan_slash_body(s: Seq<char>, j: int) -> Option<(Seq<char>, int)>
    decreases s.len() - j,
{
    if j < 0 || j >= s.len() {
        None
    } else if s[j] == '/' {
        Some((Seq::<char>::empty(), j + 1))
    } else if s[j] == '\\' && j + 1 < s.len() && s[j + 1] == '/' {
        match scan_slash_body(s, j + 2) {
            Some(p) => Some((seq!['/'] + p.0, p.1)),
            None => None,
        }
    } else if s[j] == '\\' && j + 1 < s.len() {
        match scan_slash_body(s, j + 2) {
            Some(p) => Some((seq!['\\', s[j + 1]] + p.0, p.1)),
            None => None,
        }
    } else {
        match scan_slash_body(s, j + 1) {
            Some(p) => Some((seq![s[j]] + p.0, p.1)),
            None => None,
        }
    }
}

/// A `/.../` literal whose opening slash stands at `i`.
pub open spec fn scan_slash(s: Seq<char>, i: int) -> Option<(Seq<char>, int)> {
    scan_slash_body(s, i + 1)
}

/// A closed literal ends after its opening, within the text, on a slash.
pub proof fn lemma_scan_slash_bounds(s: Seq<char>, j: int)
    requires
        0 <= j <= s.len(),
    ensures
        scan_slash_body(s, j) matches Some(p) ==> j < p.1 <= s.len() && s[p.1 - 1] == '/',
    decreases s.len() - j,
{
    if 0 <= j < s.len() && s[j] != '/' {
        if s[j] == '\\' && j + 1 < s.len() {
            lemma_scan_slash_bounds(s, j + 2);
        } else {
            lemma_scan_slash_bounds(s, j + 1);
        }
    }
}

/// Reads a `/.../` literal starting at the `/` at position `i`; `\/` stands
/// for a literal `/` inside.  Returns the raw text and the position after
/// the closing `/`.
fn parse_slash_field(cs: &Vec<char>, i: usize) -> (r: Result<(Vec<char>, usize), Error>)
    requires
        i < cs@.len(),
    ensures
        r matches Ok(p) ==> i < p.1 <= cs@.len() && scan_slash(cs@, i as int) == Some(
            (p.0@, p.1 as int),
        ),
        r matches Err(e) ==> e is Parse && e.spec_offset() == i as int && scan_slash(
            cs@,
            i as int,
        ) is None,
{
    let n = cs.len();
    let mut out: Vec<char> = Vec::new();
    let mut j = i + 1;
    proof {
        assert(out@ =~= Seq::<char>::empty());
        match scan_slash_body(cs@, i as int + 1) {
            Some(p) => {
                assert(Seq::<char>::empty() + p.0 =~= p.0);
            },
            None => {},
        }
    }
    while j < n
        invariant
            i < j <= n,
            n == cs@.len(),
            (match scan_slash_body(cs@, j as int) {
                Some(p) => scan_slash_body(cs@, i as int + 1) == Some((out@ + p.0, p.1)),
                None => scan_slash_body(cs@, i as int + 1) is None,
            }),
        decreases n - j,
    {
        let c = cs[j];
        if c == '/' {
            proof {
                assert(scan_slash_body(cs@, j as int) == Some(
                    (Seq::<char>::empty(), j as int + 1),
                ));
                assert(out@ + Seq::<char>::empty() =~= out@);
            }
            return Ok((out, j + 1));
        }
        if c == '\\' && j + 1 < n && cs[j + 1] == '/' {
            proof {
                match scan_slash_body(cs@, j as int + 2) {
                    Some(p) => {
                        assert(scan_slash_body(cs@, j as int) == Some((seq!['/'] + p.0, p.1)));
                        assert(out@ + (seq!['/'] + p.0) =~= out@.push('/') + p.0);
                    },
                    None => {
                        assert(scan_slash_body(cs@, j as int) is None);
                    },
                }
            }
            out.push('/');
            j = j + 2;
        } else if c == '\\' && j + 1 < n {
            proof {
                match scan_slash_body(cs@, j as int + 2) {
                    Some(p) => {
                        assert(scan_slash_body(cs@, j as int) == Some(
                            (seq!['\\', cs@[j + 1]] + p.0, p.1),
                        ));
                        assert(out@ + (seq!['\\', cs@[j + 1]] + p.0) =~= out@.push('\\').push(
                            cs@[j + 1],
                        ) + p.0);
                    },
                    None => {
                        assert(scan_slash_body(cs@, j as int) is None);
                    },
                }
            }
            out.push('\\');
            out.push(cs[j + 1]);
            j = j + 2;
        } else {
            proof {
                match scan_slash_body(cs@, j as int + 1) {
                    Some(p) => {
                        assert(scan_slash_body(cs@, j as int) == Some(
                            (seq![cs@[j as int]] + p.0, p.1),
                        ));
                        assert(out@ + (seq![cs@[j as int]] + p.0) =~= out@.push(cs@[j as int])
                            + p.0);
                    },
                    None => {
                        assert(scan_slash_body(cs@, j as int) is None);
                    },
                }
            }
            out.push(c);
            j = j + 1;
        }
    }
    proof {
        assert(scan_slash_body(cs@, j as int) is None);
    }
    Err(parse_error(i, "unterminated pattern"))
}

/// Compiles the pattern field that starts at the `/` at position `i`.
/// An invalid pattern is reported at its first character.
fn parse_pattern(cs: &Vec<char>, i: usize) -> (r: Result<(Pattern, usize), Error>)
    requires
        i < cs@.len(),
    ensures
        r matches Ok(p) ==> i < p.1 <= cs@.len() && scan_slash(cs@, i as int) == Some(
            (p.0.source@, p.1 as int),
        ) && crate::regex::pattern_valid(p.0.source@),
        r matches Err(e) ==> e is Parse && e.spec_offset() <= cs@.len() && (match scan_slash(
            cs@,
            i as int,
        ) {
            Some(p) => !crate::regex::pattern_valid(p.0) && e.spec_offset() == i as int + 1,
            None => e.spec_offset() == i as int,
        }),
{
    let (raw, next) = match parse_slash_field(cs, i) {
        Ok(p) => p,
        Err(e) => {
            return Err(e);
        },
    };
    match Pattern::compile(&raw) {
        Some(p) => Ok((p, next)),
        None => Err(parse_error(i + 1, "invalid regex")),
    }
}


/// The mathematical form of one parsed operator: the kinds with their
/// payloads as plain sequences; a pattern payload is the pattern's text.
pub enum OpSpec {
    Split,
    SplitDelim(Seq<char>),
    Join,
    JoinDelim(Seq<char>),
    Lowercase(Option<Seq<SelectItem>>),
    Uppercase(Option<Seq<SelectItem>>),
    Trim(Option<Seq<SelectItem>>),
    ToNumber(Option<Seq<SelectItem>>),
    Replace { sel: Option<Seq<SelectItem>>, pattern: Seq<char>, replacement: Seq<char> },
    FilterKeep(Seq<char>),
    FilterDrop(Seq<char>),
    Matches(Seq<char>),
    Dedupe,
    DedupeSel(Seq<SelectItem>),
    SortDesc,
    SortAsc,
    DeleteEmpty,
    Group(Seq<SelectItem>),
    Count,
    Sum,
    Columnate,
    Partition(Seq<SelectItem>),
    Descend,
    Ascend,
    Separator,
    Select(Seq<SelectItem>),
}

/// How an AST operator corresponds to its mathematical form: same kind,
/// payload views equal; a pattern corresponds through the text it was
/// compiled from.
pub open spec fn op_matches(op: Operator, o: OpSpec) -> bool {
    match op {
        Operator::Split => o is Split,
        Operator::SplitDelim(d) => o matches OpSpec::SplitDelim(ds) && ds == d@,
        Operator::Join => o is Join,
        Operator::JoinDelim(d) => o matches OpSpec::JoinDelim(ds) && ds == d@,
        Operator::Lowercase(sel) => o matches OpSpec::Lowercase(ss) && ss == sel_view(sel),
        Operator::Uppercase(sel) => o matches OpSpec::Uppercase(ss) && ss == sel_view(sel),
        Operator::Trim(sel) => o matches OpSpec::Trim(ss) && ss == sel_view(sel),
        Operator::ToNumber(sel) => o matches OpSpec::ToNumber(ss) && ss == sel_view(sel),
        Operator::Replace { sel, pattern, replacement } => o matches OpSpec::Replace {
            sel: ss,
            pattern: ps,
            replacement: rs,
        } && ss == sel_view(sel) && ps == pattern.source@ && rs == replacement@
            && crate::regex::pattern_valid(pattern.source@),
        Operator::FilterKeep(pattern) => o matches OpSpec::FilterKeep(ps) && ps == pattern.source@
            && crate::regex::pattern_valid(pattern.source@),
        Operator::FilterDrop(pattern) => o matches OpSpec::FilterDrop(ps) && ps == pattern.source@
            && crate::regex::pattern_valid(pattern.source@),
        Operator::Matches(pattern) => o matches OpSpec::Matches(ps) && ps == pattern.source@
            && crate::regex::pattern_valid(pattern.source@),
        Operator::Dedupe => o is Dedupe,
        Operator::DedupeSel(sel) => o matches OpSpec::DedupeSel(ss) && ss == sel.items@,
        Operator::SortDesc => o is SortDesc,
        Operator::SortAsc => o is SortAsc,
        Operator::DeleteEmpty => o is DeleteEmpty,
        Operator::Group(sel) => o matches OpSpec::Group(ss) && ss == sel.items@,
        Operator::Count => o is Count,
        Operator::Sum => o is Sum,
        Operator::Columnate => o is Columnate,
        Operator::Partition(sel) => o matches OpSpec::Partition(ss) && ss == sel.items@,
        Operator::Descend => o is Descend,
        Operator::Ascend => o is Ascend,
        Operator::Separator => o is Separator,
        Operator::Select(sel) => o matches OpSpec::Select(ss) && ss == sel.items@,
    }
}

pub open spec fn sel_view(sel: Option<Selection>) -> Option<Seq<SelectItem>> {
    match sel {
        Some(s) => Some(s.items@),
        None => None,
    }
}

/// The tail of a replace form after its optional selection: the two
/// slash-delimited fields, the first a valid pattern.
pub open spec fn scan_r_tail(s: Seq<char>, sel: Option<Seq<SelectItem>>, j1: int) -> Option<
    (OpSpec, int),
> {
    if j1 >= s.len() || s[j1] != '/' {
        None
    } else {
        match scan_slash(s, j1) {
            None => None,
            Some(p) => if !crate::regex::pattern_valid(p.0) {
                None
            } else {
                match scan_slash(s, p.1 - 1) {
                    None => None,
                    Some(q) => Some(
                        (OpSpec::Replace { sel, pattern: p.0, replacement: q.0 }, q.1),
                    ),
                }
            },
        }
    }
}

/// One operator read at position `i` of the programme text.
pub open spec fn scan_op(s: Seq<char>, i: int) -> Option<(OpSpec, int)> {
    if i < 0 || i >= s.len() {
        None
    } else {
        let c = s[i];
        if c == 's' {
            Some((OpSpec::Split, i + 1))
        } else if c == 'S' {
            match scan_delim(s, i + 1) {
                Some(p) => Some((OpSpec::SplitDelim(p.0), p.1)),
                None => None,
            }
        } else if c == 'j' {
            Some((OpSpec::Join, i + 1))
        } else if c == 'J' {
            match scan_delim(s, i + 1) {
                Some(p) => Some((OpSpec::JoinDelim(p.0), p.1)),
                None => None,
            }
        } else if c == 'l' {
            Some((OpSpec::Lowercase(None), i + 1))
        } else if c == 'u' {
            Some((OpSpec::Uppercase(None), i + 1))
        } else if c == 't' {
            Some((OpSpec::Trim(None), i + 1))
        } else if c == 'n' {
            Some((OpSpec::ToNumber(None), i + 1))
        } else if c == 'L' {
            match scan_selection(s, i + 1) {
                Some(p) => Some((OpSpec::Lowercase(Some(p.0)), p.1)),
                None => None,
            }
        } else if c == 'U' {
            match scan_selection(s, i + 1) {
                Some(p) => Some((OpSpec::Uppercase(Some(p.0)), p.1)),
                None => None,
            }
        } else if c == 'T' {
            match scan_selection(s, i + 1) {
                Some(p) => Some((OpSpec::Trim(Some(p.0)), p.1)),
                None => None,
            }
        } else if c == 'N' {
            match scan_selection(s, i + 1) {
                Some(p) => Some((OpSpec::ToNumber(Some(p.0)), p.1)),
                None => None,
            }
        } else if c == 'r' {
            if i + 1 < s.len() && s[i + 1] != '/' {
                match scan_selection(s, i + 1) {
                    Some(p) => scan_r_tail(s, Some(p.0), p.1),
                    None => None,
                }
            } else {
                scan_r_tail(s, None, i + 1)
            }
        } else if c == '/' {
            match scan_slash(s, i) {
                Some(p) => if crate::regex::pattern_valid(p.0) {
                    Some((OpSpec::FilterKeep(p.0), p.1))
                } else {
                    None
                },
                None => None,
            }
        } else if c == '!' {
            if i + 1 >= s.len() || s[i + 1] != '/' {
                None
            } else {
                match scan_slash(s, i + 1) {
                    Some(p) => if crate::regex::pattern_valid(p.0) {
                        Some((OpSpec::FilterDrop(p.0), p.1))
                    } else {
                        None
                    },
                    None => None,
                }
            }
        } else if c == 'm' {
            if i + 1 >= s.len() || s[i + 1] != '/' {
                None
            } else {
                match scan_slash(s, i + 1) {
                    Some(p) => if crate::regex::pattern_valid(p.0) {
                        Some((OpSpec::Matches(p.0), p.1))
                    } else {
                        None
                    },
                    None => None,
                }
            }
        } else if c == 'd' {
            Some((OpSpec::Dedupe, i + 1))
        } else if c == 'D' {
            match scan_selection(s, i + 1) {
                Some(p) => Some((OpSpec::DedupeSel(p.0), p.1)),
                None => None,
            }
        } else if c == 'o' {
            Some((OpSpec::SortDesc, i + 1))
        } else if c == 'O' {
            Some((OpSpec::SortAsc, i + 1))
        } else if c == 'x' {
            Some((OpSpec::DeleteEmpty, i + 1))
        } else if c == 'g' {
            match scan_selection(s, i + 1) {
                Some(p) => Some((OpSpec::Group(p.0), p.1)),
                None => None,
            }
        } else if c == '#' {
            Some((OpSpec::Count, i + 1))
        } else if c == '+' {
            Some((OpSpec::Sum, i + 1))
        } else if c == 'c' {
            Some((OpSpec::Columnate, i + 1))
        } else if c == 'p' {
            match scan_selection(s, i + 1) {
                Some(p) => Some((OpSpec::Partition(p.0), p.1)),
                None => None,
            }
        } else if c == '@' {
            Some((OpSpec::Descend, i + 1))
        } else if c == '^' {
            Some((OpSpec::Ascend, i + 1))
        } else if c == ';' {
            Some((OpSpec::Separator, i + 1))
        } else if is_digit(c) || c == '-' || c == ':' || c == ',' {
            match scan_selection(s, i) {
                Some(p) => Some((OpSpec::Select(p.0), p.1)),
                None => None,
            }
        } else {
            None
        }
    }
}

/// A successful operator read moves strictly forward, within the text.
pub proof fn lemma_scan_op_bounds(s: Seq<char>, i: int)
    requires
        0 <= i <= s.len(),
    ensures
        scan_op(s, i) matches Some(p) ==> i < p.1 <= s.len(),
{
    if 0 <= i < s.len() {
        lemma_scan_delim_bounds(s, i + 1);
        lemma_scan_item_bounds(s, i + 1);
        lemma_scan_item_bounds(s, i);
        lemma_scan_selection_bounds(s, i + 1);
        lemma_scan_selection_bounds(s, i);
        lemma_scan_slash_bounds(s, i + 1);
        if i + 2 <= s.len() {
            lemma_scan_slash_bounds(s, i + 2);
        }
        let c = s[i];
        if c == 'r' {
            if i + 1 < s.len() && s[i + 1] != '/' {
                match scan_selection(s, i + 1) {
                    Some(p) => {
                        lemma_scan_r_tail_bounds(s, Some(p.0), p.1);
                    },
                    None => {},
                }
            } else {
                lemma_scan_r_tail_bounds(s, None, i + 1);
            }
        }
    }
}

pub proof fn lemma_scan_delim_bounds(s: Seq<char>, i: int)
    requires
        0 <= i <= s.len(),
    ensures
        scan_delim(s, i) matches Some(p) ==> i < p.1 <= s.len(),
{
    lemma_scan_delim_body_bounds(s, i);
}

pub proof fn lemma_scan_selection_bounds(s: Seq<char>, i: int)
    requires
        0 <= i <= s.len(),
    ensures
        scan_selection(s, i) matches Some(p) ==> i < p.1 <= s.len(),
{
    lemma_scan_item_bounds(s, i);
    match scan_item(s, i) {
        Some(p) => {
            lemma_scan_sel_rest_bounds(s, p.1);
        },
        None => {},
    }
}

pub proof fn lemma_scan_r_tail_bounds(s: Seq<char>, sel: Option<Seq<SelectItem>>, j1: int)
    requires
        0 <= j1,
    ensures
        scan_r_tail(s, sel, j1) matches Some(p) ==> j1 < p.1 <= s.len(),
{
    if j1 < s.len() && s[j1] == '/' {
        lemma_scan_slash_bounds(s, j1 + 1);
        match scan_slash(s, j1) {
            Some(p) => {
                lemma_scan_slash_bounds(s, p.1);
            },
            None => {},
        }
    }
}

/// The whole programme read from `i`: each operator in order, `None` on
/// the first malformed one.
pub open spec fn scan_ops(s: Seq<char>, i: int) -> Option<Seq<OpSpec>>
    decreases s.len() - i,
{
    if i < 0 {
        None
    } else if i >= s.len() {
        Some(Seq::<OpSpec>::empty())
    } else {
        match scan_op(s, i) {
            None => None,
            Some(p) => {
                proof {
                    lemma_scan_op_bounds(s, i);
                }
                match scan_ops(s, p.1) {
                    None => None,
                    Some(rest) => Some(seq![p.0] + rest),
                }
            },
        }
    }
}

/// One parsing step: consuming the operator at `i` carries the whole-text
/// reading forward.
proof fn lemma_scan_step(s: Seq<char>, i: int, j: int, o: OpSpec, sofar: Seq<OpSpec>)
    requires
        0 <= i < s.len(),
        scan_op(s, i) == Some((o, j)),
        (match scan_ops(s, i) {
            Some(rest) => scan_ops(s, 0) == Some(sofar + rest),
            None => scan_ops(s, 0) is None,
        }),
    ensures
        (match scan_ops(s, j) {
            Some(rest) => scan_ops(s, 0) == Some(sofar.push(o) + rest),
            None => scan_ops(s, 0) is None,
        }),
{
    lemma_scan_op_bounds(s, i);
    match scan_ops(s, j) {
        Some(rest) => {
            assert(scan_ops(s, i) == Some(seq![o] + rest));
            assert(sofar + (seq![o] + rest) =~= sofar.push(o) + rest);
        },
        None => {
            assert(scan_ops(s, i) is None);
        },
    }
}

/// A malformed operator at `i` makes the whole reading fail.
proof fn lemma_scan_step_none(s: Seq<char>, i: int, sofar: Seq<OpSpec>)
    requires
        0 <= i < s.len(),
        scan_op(s, i) is None,
        (match scan_ops(s, i) {
            Some(rest) => scan_ops(s, 0) == Some(sofar + rest),
            None => scan_ops(s, 0) is None,
        }),
    ensures
        scan_ops(s, 0) is None,
{
    assert(scan_ops(s, i) is None);
}

/// Parses a whole programme string into its operator list: on success the
/// operators are, one for one, the operators the grammar reads from the
/// text (`scan_ops`); on failure the grammar reads none, and the error
/// carries the offset of the character it points at.
pub fn parse_programme(prog: &str) -> (r: Result<Programme, Error>)
    ensures
        r matches Ok(p) ==> (match scan_ops(prog@, 0) {
            Some(list) => p.operators@.len() == list.len() && forall|k: int|
                0 <= k < list.len() ==> op_matches(#[trigger] p.operators@[k], list[k]),
            None => false,
        }),
        r matches Err(e) ==> e is Parse && e.spec_offset() <= prog@.len() && scan_ops(
            prog@,
            0,
        ) is None,
{
    let cs = str_to_chars(prog);
    let n = cs.len();
    let mut operators: Vec<Operator> = Vec::new();
    let ghost mut sofar: Seq<OpSpec> = Seq::empty();
    let mut i: usize = 0;
    proof {
        match scan_ops(cs@, 0) {
            Some(rest) => {
                assert(sofar + rest =~= rest);
            },
            None => {},
        }
    }
    while i < n
        invariant
            i <= n,
            n == cs@.len(),
            cs@ == prog@,
            operators@.len() == sofar.len(),
            forall|k: int|
                0 <= k < sofar.len() ==> op_matches(#[trigger] operators@[k], sofar[k]),
            (match scan_ops(cs@, i as int) {
                Some(rest) => scan_ops(cs@, 0) == Some(sofar + rest),
                None => scan_ops(cs@, 0) is None,
            }),
        decreases n - i,
    {
        let c = cs[i];
        match c {
            's' => {
                proof {
                    assert(scan_op(cs@, i as int) == Some((OpSpec::Split, i as int + 1)));
                    lemma_scan_step(cs@, i as int, i as int + 1, OpSpec::Split, sofar);
                    sofar = sofar.push(OpSpec::Split);
                }
                operators.push(Operator::Split);
                i = i + 1;
            },
            'S' => {
                let (d, j) = match parse_delim(&cs, i + 1) {
                    Ok(p) => p,
                    Err(e) => {
                        proof {
                            assert(scan_op(cs@, i as int) is None);
                            lemma_scan_step_none(cs@, i as int, sofar);
                        }
                        return Err(e);
                    },
                };
                proof {
                    assert(scan_op(cs@, i as int) == Some((OpSpec::SplitDelim(d@), j as int)));
                    lemma_scan_step(cs@, i as int, j as int, OpSpec::SplitDelim(d@), sofar);
                    sofar = sofar.push(OpSpec::SplitDelim(d@));
                }
                operators.push(Operator::SplitDelim(d));
                i = j;
            },
            'j' => {
                proof {
                    assert(scan_op(cs@, i as int) == Some((OpSpec::Join, i as int + 1)));
                    lemma_scan_step(cs@, i as int, i as int + 1, OpSpec::Join, sofar);
                    sofar = sofar.push(OpSpec::Join);
                }
                operators.push(Operator::Join);
                i = i + 1;
            },
            'J' => {
                let (d, j) = match parse_delim(&cs, i + 1) {
                    Ok(p) => p,
                    Err(e) => {
                        proof {
                            assert(scan_op(cs@, i as int) is None);
                            lemma_scan_step_none(cs@, i as int, sofar);
                        }
                        return Err(e);
                    },
                };
                proof {
                    assert(scan_op(cs@, i as int) == Some((OpSpec::JoinDelim(d@), j as int)));
                    lemma_scan_step(cs@, i as int, j as int, OpSpec::JoinDelim(d@), sofar);
                    sofar = sofar.push(OpSpec::JoinDelim(d@));
                }
                operators.push(Operator::JoinDelim(d));
                i = j;
            },
            'l' => {
                proof {
                    assert(scan_op(cs@, i as int) == Some((OpSpec::Lowercase(None), i as int + 1)));
                    lemma_scan_step(cs@, i as int, i as int + 1, OpSpec::Lowercase(None), sofar);
                    sofar = sofar.push(OpSpec::Lowercase(None));
                }
                operators.push(Operator::Lowercase(None));
                i = i + 1;
            },
            'u' => {
                proof {
                    assert(scan_op(cs@, i as int) == Some((OpSpec::Uppercase(None), i as int + 1)));
                    lemma_scan_step(cs@, i as int, i as int + 1, OpSpec::Uppercase(None), sofar);
                    sofar = sofar.push(OpSpec::Uppercase(None));
                }
                operators.push(Operator::Uppercase(None));
                i = i + 1;
            },
            't' => {
                proof {
                    assert(scan_op(cs@, i as int) == Some((OpSpec::Trim(None), i as int + 1)));
                    lemma_scan_step(cs@, i as int, i as int + 1, OpSpec::Trim(None), sofar);
                    sofar = sofar.push(OpSpec::Trim(None));
                }
                operators.push(Operator::Trim(None));
                i = i + 1;
            },
            'n' => {
                proof {
                    assert(scan_op(cs@, i as int) == Some((OpSpec::ToNumber(None), i as int + 1)));
                    lemma_scan_step(cs@, i as int, i as int + 1, OpSpec::ToNumber(None), sofar);
                    sofar = sofar.push(OpSpec::ToNumber(None));
                }
                operators.push(Operator::ToNumber(None));
                i = i + 1;
            },
            'L' => {
                let (sel, j) = match parse_selection(&cs, i + 1) {
                    Ok(p) => p,
                    Err(e) => {
                        proof {
                            assert(scan_op(cs@, i as int) is None);
                            lemma_scan_step_none(cs@, i as int, sofar);
                        }
                        return Err(e);
                    },
                };
                proof {
                    assert(scan_op(cs@, i as int) == Some(
                        (OpSpec::Lowercase(Some(sel.items@)), j as int),
                    ));
                    lemma_scan_step(
                        cs@,
                        i as int,
                        j as int,
                        OpSpec::Lowercase(Some(sel.items@)),
                        sofar,
                    );
                    sofar = sofar.push(OpSpec::Lowercase(Some(sel.items@)));
                }
                operators.push(Operator::Lowercase(Some(sel)));
                i = j;
            },
            'U' => {
                let (sel, j) = match parse_selection(&cs, i + 1) {
                    Ok(p) => p,
                    Err(e) => {
                        proof {
                            assert(scan_op(cs@, i as int) is None);
                            lemma_scan_step_none(cs@, i as int, sofar);
                        }
                        return Err(e);
                    },
                };
                proof {
                    assert(scan_op(cs@, i as int) == Some(
                        (OpSpec::Uppercase(Some(sel.items@)), j as int),
                    ));
                    lemma_scan_step(
                        cs@,
                        i as int,
                        j as int,
                        OpSpec::Uppercase(Some(sel.items@)),
                        sofar,
                    );
                    sofar = sofar.push(OpSpec::Uppercase(Some(sel.items@)));
                }
                operators.push(Operator::Uppercase(Some(sel)));
                i = j;
            },
            'T' => {
                let (sel, j) = match parse_selection(&cs, i + 1) {
                    Ok(p) => p,
                    Err(e) => {
                        proof {
                            assert(scan_op(cs@, i as int) is None);
                            lemma_scan_step_none(cs@, i as int, sofar);
                        }
                        return Err(e);
                    },
                };
                proof {
                    assert(scan_op(cs@, i as int) == Some(
                        (OpSpec::Trim(Some(sel.items@)), j as int),
                    ));
                    lemma_scan_step(cs@, i as int, j as int, OpSpec::Trim(Some(sel.items@)), sofar);
                    sofar = sofar.push(OpSpec::Trim(Some(sel.items@)));
                }
                operators.push(Operator::Trim(Some(sel)));
                i = j;
            },
            'N' => {
                let (sel, j) = match parse_selection(&cs, i + 1) {
                    Ok(p) => p,
                    Err(e) => {
                        proof {
                            assert(scan_op(cs@, i as int) is None);
                            lemma_scan_step_none(cs@, i as int, sofar);
                        }
                        return Err(e);
                    },
                };
                proof {
                    assert(scan_op(cs@, i as int) == Some(
                        (OpSpec::ToNumber(Some(sel.items@)), j as int),
                    ));
                    lemma_scan_step(
                        cs@,
                        i as int,
                        j as int,
                        OpSpec::ToNumber(Some(sel.items@)),
                        sofar,
                    );
                    sofar = sofar.push(OpSpec::ToNumber(Some(sel.items@)));
                }
                operators.push(Operator::ToNumber(Some(sel)));
                i = j;
            },
            'r' => {
                let mut sel: Option<Selection> = None;
                let mut j = i + 1;
                if j < n && cs[j] != '/' {
                    let (s2, j2) = match parse_selection(&cs, j) {
                        Ok(p) => p,
                        Err(e) => {
                            proof {
                                assert(scan_op(cs@, i as int) is None);
                                lemma_scan_step_none(cs@, i as int, sofar);
                            }
                            return Err(e);
                        },
                    };
                    sel = Some(s2);
                    j = j2;
                }
                let ghost sv: Option<Seq<SelectItem>> = match &sel {
                    Some(s2) => Some(s2.items@),
                    None => None,
                };
                proof {
                    assert(scan_op(cs@, i as int) == scan_r_tail(cs@, sv, j as int));
                }
                if j >= n || cs[j] != '/' {
                    proof {
                        assert(scan_r_tail(cs@, sv, j as int) is None);
                        lemma_scan_step_none(cs@, i as int, sofar);
                    }
                    return Err(parse_error(j, "expected /pattern/replacement/"));
                }
                let (pattern, j3) = match parse_pattern(&cs, j) {
                    Ok(p) => p,
                    Err(e) => {
                        proof {
                            assert(scan_r_tail(cs@, sv, j as int) is None);
                            lemma_scan_step_none(cs@, i as int, sofar);
                        }
                        return Err(e);
                    },
                };
                proof {
                    lemma_scan_slash_bounds(cs@, j as int + 1);
                }
                if j3 == 0 || j3 > n || cs[j3 - 1] != '/' {
                    proof {
                        assert(false);
                    }
                    return Err(parse_error(j, "expected /pattern/replacement/"));
                }
                let (repl, j4) = match parse_slash_field(&cs, j3 - 1) {
                    Ok(p) => p,
                    Err(e) => {
                        proof {
                            assert(scan_r_tail(cs@, sv, j as int) is None);
                            lemma_scan_step_none(cs@, i as int, sofar);
                        }
                        return Err(e);
                    },
                };
                let ghost ospec = OpSpec::Replace {
                    sel: sv,
                    pattern: pattern.source@,
                    replacement: repl@,
                };
                proof {
                    assert(scan_r_tail(cs@, sv, j as int) == Some((ospec, j4 as int)));
                    lemma_scan_step(cs@, i as int, j4 as int, ospec, sofar);
                    sofar = sofar.push(ospec);
                }
                operators.push(
                    Operator::Replace { sel, pattern, replacement: chars_to_string(&repl) },
                );
                i = j4;
            },
            '/' => {
                let (pattern, j) = match parse_pattern(&cs, i) {
                    Ok(p) => p,
                    Err(e) => {
                        proof {
                            assert(scan_op(cs@, i as int) is None);
                            lemma_scan_step_none(cs@, i as int, sofar);
                        }
                        return Err(e);
                    },
                };
                proof {
                    assert(scan_op(cs@, i as int) == Some(
                        (OpSpec::FilterKeep(pattern.source@), j as int),
                    ));
                    lemma_scan_step(
                        cs@,
                        i as int,
                        j as int,
                        OpSpec::FilterKeep(pattern.source@),
                        sofar,
                    );
                    sofar = sofar.push(OpSpec::FilterKeep(pattern.source@));
                }
                operators.push(Operator::FilterKeep(pattern));
                i = j;
            },
            '!' => {
                if i + 1 >= n || cs[i + 1] != '/' {
                    proof {
                        assert(scan_op(cs@, i as int) is None);
                        lemma_scan_step_none(cs@, i as int, sofar);
                    }
                    return Err(parse_error(i, "expected /pattern/ after !"));
                }
                let (pattern, j) = match parse_pattern(&cs, i + 1) {
                    Ok(p) => p,
                    Err(e) => {
                        proof {
                            assert(scan_op(cs@, i as int) is None);
                            lemma_scan_step_none(cs@, i as int, sofar);
                        }
                        return Err(e);
                    },
                };
                proof {
                    assert(scan_op(cs@, i as int) == Some(
                        (OpSpec::FilterDrop(pattern.source@), j as int),
                    ));
                    lemma_scan_step(
                        cs@,
                        i as int,
                        j as int,
                        OpSpec::FilterDrop(pattern.source@),
                        sofar,
                    );
                    sofar = sofar.push(OpSpec::FilterDrop(pattern.source@));
                }
                operators.push(Operator::FilterDrop(pattern));
                i = j;
            },
            'm' => {
                if i + 1 >= n || cs[i + 1] != '/' {
                    proof {
                        assert(scan_op(cs@, i as int) is None);
                        lemma_scan_step_none(cs@, i as int, sofar);
                    }
                    return Err(parse_error(i, "unknown operator"));
                }
                let (pattern, j) = match parse_pattern(&cs, i + 1) {
                    Ok(p) => p,
                    Err(e) => {
                        proof {
                            assert(scan_op(cs@, i as int) is None);
                            lemma_scan_step_none(cs@, i as int, sofar);
                        }
                        return Err(e);
                    },
                };
                proof {
                    assert(scan_op(cs@, i as int) == Some(
                        (OpSpec::Matches(pattern.source@), j as int),
                    ));
                    lemma_scan_step(cs@, i as int, j as int, OpSpec::Matches(pattern.source@), sofar);
                    sofar = sofar.push(OpSpec::Matches(pattern.source@));
                }
                operators.push(Operator::Matches(pattern));
                i = j;
            },
            'd' => {
                proof {
                    assert(scan_op(cs@, i as int) == Some((OpSpec::Dedupe, i as int + 1)));
                    lemma_scan_step(cs@, i as int, i as int + 1, OpSpec::Dedupe, sofar);
                    sofar = sofar.push(OpSpec::Dedupe);
                }
                operators.push(Operator::Dedupe);
                i = i + 1;
            },
            'D' => {
                let (sel, j) = match parse_selection(&cs, i + 1) {
                    Ok(p) => p,
                    Err(e) => {
                        proof {
                            assert(scan_op(cs@, i as int) is None);
                            lemma_scan_step_none(cs@, i as int, sofar);
                        }
                        return Err(e);
                    },
                };
                proof {
                    assert(scan_op(cs@, i as int) == Some(
                        (OpSpec::DedupeSel(sel.items@), j as int),
                    ));
                    lemma_scan_step(cs@, i as int, j as int, OpSpec::DedupeSel(sel.items@), sofar);
                    sofar = sofar.push(OpSpec::DedupeSel(sel.items@));
                }
                operators.push(Operator::DedupeSel(sel));
                i = j;
            },
            'o' => {
                proof {
                    assert(scan_op(cs@, i as int) == Some((OpSpec::SortDesc, i as int + 1)));
                    lemma_scan_step(cs@, i as int, i as int + 1, OpSpec::SortDesc, sofar);
                    sofar = sofar.push(OpSpec::SortDesc);
                }
                operators.push(Operator::SortDesc);
                i = i + 1;
            },
            'O' => {
                proof {
                    assert(scan_op(cs@, i as int) == Some((OpSpec::SortAsc, i as int + 1)));
                    lemma_scan_step(cs@, i as int, i as int + 1, OpSpec::SortAsc, sofar);
                    sofar = sofar.push(OpSpec::SortAsc);
                }
                operators.push(Operator::SortAsc);
                i = i + 1;
            },
            'x' => {
                proof {
                    assert(scan_op(cs@, i as int) == Some((OpSpec::DeleteEmpty, i as int + 1)));
                    lemma_scan_step(cs@, i as int, i as int + 1, OpSpec::DeleteEmpty, sofar);
                    sofar = sofar.push(OpSpec::DeleteEmpty);
                }
                operators.push(Operator::DeleteEmpty);
                i = i + 1;
            },
            'g' => {
                let (sel, j) = match parse_selection(&cs, i + 1) {
                    Ok(p) => p,
                    Err(e) => {
                        proof {
                            assert(scan_op(cs@, i as int) is None);
                            lemma_scan_step_none(cs@, i as int, sofar);
                        }
                        return Err(e);
                    },
                };
                proof {
                    assert(scan_op(cs@, i as int) == Some((OpSpec::Group(sel.items@), j as int)));
                    lemma_scan_step(cs@, i as int, j as int, OpSpec::Group(sel.items@), sofar);
                    sofar = sofar.push(OpSpec::Group(sel.items@));
                }
                operators.push(Operator::Group(sel));
                i = j;
            },
            '#' => {
                proof {
                    assert(scan_op(cs@, i as int) == Some((OpSpec::Count, i as int + 1)));
                    lemma_scan_step(cs@, i as int, i as int + 1, OpSpec::Count, sofar);
                    sofar = sofar.push(OpSpec::Count);
                }
                operators.push(Operator::Count);
                i = i + 1;
            },
            '+' => {
                proof {
                    assert(scan_op(cs@, i as int) == Some((OpSpec::Sum, i as int + 1)));
                    lemma_scan_step(cs@, i as int, i as int + 1, OpSpec::Sum, sofar);
                    sofar = sofar.push(OpSpec::Sum);
                }
                operators.push(Operator::Sum);
                i = i + 1;
            },
            'c' => {
                proof {
                    assert(scan_op(cs@, i as int) == Some((OpSpec::Columnate, i as int + 1)));
                    lemma_scan_step(cs@, i as int, i as int + 1, OpSpec::Columnate, sofar);
                    sofar = sofar.push(OpSpec::Columnate);
                }
                operators.push(Operator::Columnate);
                i = i + 1;
            },
            'p' => {
                let (sel, j) = match parse_selection(&cs, i + 1) {
                    Ok(p) => p,
                    Err(e) => {
                        proof {
                            assert(scan_op(cs@, i as int) is None);
                            lemma_scan_step_none(cs@, i as int, sofar);
                        }
                        return Err(e);
                    },
                };
                proof {
                    assert(scan_op(cs@, i as int) == Some(
                        (OpSpec::Partition(sel.items@), j as int),
                    ));
                    lemma_scan_step(cs@, i as int, j as int, OpSpec::Partition(sel.items@), sofar);
                    sofar = sofar.push(OpSpec::Partition(sel.items@));
                }
                operators.push(Operator::Partition(sel));
                i = j;
            },
            '@' => {
                proof {
                    assert(scan_op(cs@, i as int) == Some((OpSpec::Descend, i as int + 1)));
                    lemma_scan_step(cs@, i as int, i as int + 1, OpSpec::Descend, sofar);
                    sofar = sofar.push(OpSpec::Descend);
                }
                operators.push(Operator::Descend);
                i = i + 1;
            },
            '^' => {
                proof {
                    assert(scan_op(cs@, i as int) == Some((OpSpec::Ascend, i as int + 1)));
                    lemma_scan_step(cs@, i as int, i as int + 1, OpSpec::Ascend, sofar);
                    sofar = sofar.push(OpSpec::Ascend);
                }
                operators.push(Operator::Ascend);
                i = i + 1;
            },
            ';' => {
                proof {
                    assert(scan_op(cs@, i as int) == Some((OpSpec::Separator, i as int + 1)));
                    lemma_scan_step(cs@, i as int, i as int + 1, OpSpec::Separator, sofar);
                    sofar = sofar.push(OpSpec::Separator);
                }
                operators.push(Operator::Separator);
                i = i + 1;
            },
            _ => {
                if digit_char(c) || c == '-' || c == ':' || c == ',' {
                    let (sel, j) = match parse_selection(&cs, i) {
                        Ok(p) => p,
                        Err(e) => {
                            proof {
                                assert(scan_op(cs@, i as int) is None);
                                lemma_scan_step_none(cs@, i as int, sofar);
                            }
                            return Err(e);
                        },
                    };
                    proof {
                        assert(scan_op(cs@, i as int) == Some(
                            (OpSpec::Select(sel.items@), j as int),
                        ));
                        lemma_scan_step(cs@, i as int, j as int, OpSpec::Select(sel.items@), sofar);
                        sofar = sofar.push(OpSpec::Select(sel.items@));
                    }
                    operators.push(Operator::Select(sel));
                    i = j;
                } else {
                    proof {
                        assert(scan_op(cs@, i as int) is None);
                        lemma_scan_step_none(cs@, i as int, sofar);
                    }
                    return Err(parse_error(i, "unknown operator"));
                }
            },
        }
    }
    proof {
        assert(scan_ops(cs@, i as int) == Some(Seq::<OpSpec>::empty()));
        assert(sofar + Seq::<OpSpec>::empty() =~= sofar);
    }
    Ok(Programme { operators })
}

} // verus!
