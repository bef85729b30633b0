//! Data definitions for operators, selections, and slices.

use vstd::prelude::*;
use crate::regex::Pattern;

verus! {

/// One item of a selection: a single index (negative counts from the end)
/// or a slice `start:end:step` with Python's half-open semantics.
#[derive(Debug)]
pub enum SelectItem {
    Index(i64),
    Slice { start: Option<i64>, end: Option<i64>, step: Option<i64> },
}

/// A comma-separated list of selection items; the items' outputs concatenate.
#[derive(Debug)]
pub struct Selection {
    pub items: Vec<SelectItem>,
}

/// One operator of a programme.
pub enum Operator {
    /// `s`: split text elements at the array's level.
    Split,
    /// `S<delim>`: split text elements on an explicit delimiter.
    SplitDelim(String),
    /// `j`: join array rows using their own level's default delimiter.
    Join,
    /// `J<delim>`: join array rows with an explicit delimiter.
    JoinDelim(String),
    /// `l` / `L<sel>`: lowercase every leaf text / selected positions.
    Lowercase(Option<Selection>),
    /// `u` / `U<sel>`: uppercase every leaf text / selected positions.
    Uppercase(Option<Selection>),
    /// `t` / `T<sel>`: trim every leaf text / selected positions.
    Trim(Option<Selection>),
    /// `n` / `N<sel>`: parse every leaf text as a number / selected positions.
    ToNumber(Option<Selection>),
    /// `r/<pat>/<repl>/` and `r<sel>/<pat>/<repl>/`: regex replace.
    Replace { sel: Option<Selection>, pattern: Pattern, replacement: String },
    /// `/<pat>/`: keep rows matching the pattern.
    FilterKeep(Pattern),
    /// `!/<pat>/`: drop rows matching the pattern.
    FilterDrop(Pattern),
    /// `m/<pat>/`: all matches per row, as a word-level array.
    Matches(Pattern),
    /// `d`: dedupe with counts.
    Dedupe,
    /// `D<sel>`: dedupe with counts, keyed by selection.
    DedupeSel(Selection),
    /// `o`: sort descending.
    SortDesc,
    /// `O`: sort ascending.
    SortAsc,
    /// `x`: delete empty elements.
    DeleteEmpty,
    /// `g<sel>`: group rows by selection.
    Group(Selection),
    /// `#`: replace an array by its length.
    Count,
    /// `+`: numeric fold over the rows.
    Sum,
    /// `c`: pad cells for aligned display.
    Columnate,
    /// `p<sel>`: two-way split into matching / non-matching rows.
    Partition(Selection),
    /// `@`: descend the focus level (renderer state only).
    Descend,
    /// `^`: ascend the focus level (renderer state only).
    Ascend,
    /// `;`: separator, no-op.
    Separator,
    /// A bare selection: select positions of the array.
    Select(Selection),
}

/// A parsed programme: the operators in textual order.
pub struct Programme {
    pub operators: Vec<Operator>,
}

} // verus!
