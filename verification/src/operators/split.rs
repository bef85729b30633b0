//! Splitting text elements of an array based on the array's semantic level.

use vstd::prelude::*;
use crate::chars::{chars_to_string, push_char, str_to_chars};
use crate::error::Error;
use crate::textops::{space_tokens, split_str, split_whitespace_chars, split_delim_chars};
use crate::value::{Array, Level, Value, ValueSpec, view_seq, lemma_view_seq};

verus! {

/// How `s` splits text elements.
#[derive(Debug)]
pub enum SplitMode {
    /// Split on whitespace (the default).
    Whitespace,
    /// Split on a specific delimiter.
    Delimiter(String),
    /// Split as CSV fields.
    Csv,
}

impl Default for SplitMode {
    fn default() -> (r: SplitMode)
        ensures
            r is Whitespace,
    {
        SplitMode::Whitespace
    }
}

/// The fields of the one CSV record in a line of text; what the csv crate's
/// reader yields depends on the text alone.
pub uninterp spec fn csv_fields_of(s: Seq<char>) -> Seq<Seq<char>>;

/// Relies on csv::Reader::read_record (headers off): the fields of the first
/// CSV record of the text; no record gives no fields.
#[verifier::external_body]
fn parse_csv_record(s: &str) -> (r: Vec<String>)
    ensures
        r.deep_view() == csv_fields_of(s@),
{
    let mut reader = csv::ReaderBuilder::new().has_headers(false).from_reader(s.as_bytes());
    let mut record = csv::StringRecord::new();
    if reader.read_record(&mut record).unwrap_or(false) {
        record.iter().map(|f| f.to_string()).collect()
    } else {
        Vec::new()
    }
}

/// Each piece as a text value.
pub open spec fn texts_of(parts: Seq<Seq<char>>) -> Seq<ValueSpec> {
    Seq::new(parts.len(), |i: int| ValueSpec::Text { chars: parts[i] })
}

/// One carriage return stripped from the end of a newline-terminated line.
pub open spec fn strip_cr(p: Seq<char>) -> Seq<char> {
    if p.len() > 0 && p.last() == '\r' {
        p.drop_last()
    } else {
        p
    }
}

/// The lines of a text: split on `\n` with a `\r` before each `\n`
/// stripped, one trailing newline not counted — as `str::lines` reads them.
pub open spec fn lines_of(s: Seq<char>) -> Seq<Seq<char>> {
    if s.len() == 0 {
        Seq::<Seq<char>>::empty()
    } else if s.last() == '\n' {
        let raw = split_str(s.drop_last(), seq!['\n']);
        Seq::new(raw.len(), |i: int| strip_cr(raw[i]))
    } else {
        let raw = split_str(s, seq!['\n']);
        Seq::new(
            raw.len(),
            |i: int|
                if i < raw.len() - 1 {
                    strip_cr(raw[i])
                } else {
                    raw[i]
                },
        )
    }
}

/// Strips one trailing carriage return from each newline-terminated piece:
/// every piece when the text ended with a newline, else all but the last.
pub fn strip_cr_pieces(pieces: Vec<Vec<char>>, strip_last: bool) -> (r: Vec<Vec<char>>)
    ensures
        r.deep_view() == Seq::new(
            pieces.deep_view().len(),
            |i: int|
                if strip_last || i < pieces.deep_view().len() - 1 {
                    strip_cr(pieces.deep_view()[i])
                } else {
                    pieces.deep_view()[i]
                },
        ),
{
    let ghost pv = pieces.deep_view();
    let n = pieces.len();
    let mut out: Vec<Vec<char>> = Vec::new();
    let mut rest = pieces;
    let mut i: usize = 0;
    while i < n
        invariant
            i <= n,
            n == pv.len(),
            rest@.len() == n - i as int,
            forall|j: int| 0 <= j < rest@.len() ==> (#[trigger] rest@[j])@ == pv[i + j],
            out@.len() == i as int,
            forall|j: int|
                0 <= j < i as int ==> (#[trigger] out@[j])@ == (if strip_last || j < n as int - 1 {
                    strip_cr(pv[j])
                } else {
                    pv[j]
                }),
        decreases n - i,
    {
        let mut piece = rest.remove(0);
        if (strip_last || i + 1 < n) && piece.len() > 0 && piece[piece.len() - 1] == '\r' {
            let _ = piece.pop();
            proof {
                assert(piece@ =~= strip_cr(pv[i as int]));
            }
        } else {
            proof {
                assert(piece@ =~= pv[i as int]);
                if strip_last || (i as int) < n as int - 1 {
                    assert(strip_cr(pv[i as int]) == pv[i as int]);
                }
            }
        }
        out.push(piece);
        i = i + 1;
    }
    proof {
        assert(out.deep_view() =~~= Seq::new(
            pv.len(),
            |j: int|
                if strip_last || j < pv.len() - 1 {
                    strip_cr(pv[j])
                } else {
                    pv[j]
                },
        ));
    }
    out
}

/// Each character as a one-character text.
pub open spec fn chars_of(s: Seq<char>) -> Seq<Seq<char>> {
    Seq::new(s.len(), |i: int| seq![s[i]])
}

/// How one text splits at a line level.
pub open spec fn split_line_spec(s: Seq<char>, mode: SplitMode) -> Seq<ValueSpec> {
    match mode {
        SplitMode::Whitespace => texts_of(space_tokens(s)),
        SplitMode::Delimiter(d) => texts_of(split_str(s, d@)),
        SplitMode::Csv => texts_of(csv_fields_of(s)),
    }
}

/// How one text splits at a given level: a file into lines, a line into
/// words (by the mode), a word into characters.
pub open spec fn split_text_spec(s: Seq<char>, level: Level, mode: SplitMode) -> ValueSpec {
    let elems = match level {
        Level::File => texts_of(lines_of(s)),
        Level::Line => split_line_spec(s, mode),
        Level::Word => texts_of(chars_of(s)),
        Level::Char => seq![ValueSpec::Text { chars: s }],
    };
    ValueSpec::Array { elems, level: level.spec_split_into() }
}

/// How one element of the outer array splits: text splits, anything else
/// (a nested array, a number) is left unchanged.
pub open spec fn split_elem_spec(e: ValueSpec, level: Level, mode: SplitMode) -> ValueSpec {
    match e {
        ValueSpec::Text { chars } => split_text_spec(chars, level, mode),
        other => other,
    }
}

/// What `Split` produces: each text element of an array splits at the
/// array's level; bare text is a word and splits into characters; a number
/// is unchanged.
pub open spec fn split_apply_spec(v: ValueSpec, mode: SplitMode) -> ValueSpec {
    match v {
        ValueSpec::Array { elems, level } => ValueSpec::Array {
            elems: Seq::new(elems.len(), |i: int| split_elem_spec(elems[i], level, mode)),
            level,
        },
        ValueSpec::Text { chars } => split_text_spec(chars, Level::Word, mode),
        ValueSpec::Number { num } => ValueSpec::Number { num },
    }
}

/// Builds the text values for the given pieces.
fn texts_from_pieces(pieces: Vec<Vec<char>>) -> (r: Vec<Value>)
    ensures
        view_seq(r@) == texts_of(pieces.deep_view()),
{
    let mut out: Vec<Value> = Vec::new();
    let n = pieces.len();
    let mut i: usize = 0;
    while i < n
        invariant
            i <= n,
            n == pieces@.len(),
            out@.len() == i as int,
            forall|j: int|
                0 <= j < i as int ==> out@[j]@ == (ValueSpec::Text {
                    chars: pieces@[j].deep_view(),
                }),
        decreases n - i,
    {
        let piece = chars_to_string(&pieces[i]);
        proof {
            assert(pieces@[i as int].deep_view() =~= pieces@[i as int]@);
        }
        out.push(Value::Text(piece));
        i = i + 1;
    }
    proof {
        lemma_view_seq(out@);
        assert(pieces.deep_view().len() == pieces@.len());
        assert(view_seq(out@) =~= texts_of(pieces.deep_view()));
    }
    out
}

/// Builds the text values for a list of strings.
fn texts_from_strings(fields: Vec<String>) -> (r: Vec<Value>)
    ensures
        view_seq(r@) == texts_of(fields.deep_view()),
{
    let mut out: Vec<Value> = Vec::new();
    let n = fields.len();
    let ghost fv = fields.deep_view();
    let mut i: usize = 0;
    let mut rest = fields;
    while i < n
        invariant
            i <= n,
            n == fv.len(),
            rest@.len() == n - i as int,
            forall|j: int| 0 <= j < rest@.len() ==> rest@[j]@ == fv[i + j],
            out@.len() == i as int,
            forall|j: int| 0 <= j < i as int ==> out@[j]@ == (ValueSpec::Text { chars: fv[j] }),
        decreases n - i,
    {
        let s = rest.remove(0);
        out.push(Value::Text(s));
        i = i + 1;
    }
    proof {
        lemma_view_seq(out@);
        assert(view_seq(out@) =~= texts_of(fv));
    }
    out
}

/// Splits one text at the given level.
pub fn split_text(s: &str, level: Level, mode: &SplitMode) -> (r: Value)
    ensures
        r@ == split_text_spec(s@, level, *mode),
{
    let new_level = level.split_into();
    let cs = str_to_chars(s);
    let elements: Vec<Value> = match level {
        Level::File => {
            let mut body = cs;
            if body.len() == 0 {
                proof {
                    lemma_view_seq(Seq::<Value>::empty());
                    assert(view_seq(Seq::<Value>::empty()) =~= texts_of(lines_of(s@)));
                }
                Vec::new()
            } else {
                let mut ended_newline = false;
                if body[body.len() - 1] == '\n' {
                    let _ = body.pop();
                    ended_newline = true;
                    proof {
                        assert(body@ =~= s@.drop_last());
                    }
                }
                let mut nl: Vec<char> = Vec::new();
                nl.push('\n');
                proof {
                    assert(nl@ =~= seq!['\n']);
                }
                let pieces = split_delim_chars(&body, &nl);
                let stripped = strip_cr_pieces(pieces, ended_newline);
                proof {
                    assert(stripped.deep_view() =~~= lines_of(s@));
                }
                texts_from_pieces(stripped)
            }
        },
        Level::Line => match mode {
            SplitMode::Whitespace => texts_from_pieces(split_whitespace_chars(&cs)),
            SplitMode::Delimiter(d) => {
                let dc = str_to_chars(d.as_str());
                if dc.len() == 0 {
                    let mut one: Vec<Value> = Vec::new();
                    one.push(Value::Text(chars_to_string(&cs)));
                    proof {
                        lemma_view_seq(one@);
                        assert(view_seq(one@) =~= texts_of(split_str(s@, d@)));
                    }
                    one
                } else {
                    texts_from_pieces(split_delim_chars(&cs, &dc))
                }
            },
            SplitMode::Csv => texts_from_strings(parse_csv_record(s)),
        },
        Level::Word => {
            let mut out: Vec<Value> = Vec::new();
            let n = cs.len();
            let mut i: usize = 0;
            while i < n
                invariant
                    i <= n,
                    n == cs@.len(),
                    cs@ == s@,
                    out@.len() == i as int,
                    forall|j: int|
                        0 <= j < i as int ==> out@[j]@ == (ValueSpec::Text { chars: seq![s@[j]] }),
                decreases n - i,
            {
                let mut one = String::new();
                push_char(&mut one, cs[i]);
                proof {
                    assert(one@ =~= seq![s@[i as int]]);
                }
                out.push(Value::Text(one));
                i = i + 1;
            }
            proof {
                lemma_view_seq(out@);
                assert(view_seq(out@) =~= texts_of(chars_of(s@)));
            }
            out
        },
        Level::Char => {
            let mut one: Vec<Value> = Vec::new();
            one.push(Value::Text(s.to_owned()));
            proof {
                lemma_view_seq(one@);
                assert(view_seq(one@) =~= seq![ValueSpec::Text { chars: s@ }]);
            }
            one
        },
    };
    Value::Array(Array { elements, level: new_level })
}

/// Splits text elements of an array based on the array's semantic level:
/// a file array into lines, a line array into words, a word array into
/// characters.  Nested arrays are left unchanged; bare text is a word.
pub struct Split {
    pub mode: SplitMode,
}

impl Default for Split {
    fn default() -> (r: Split)
        ensures
            r.mode is Whitespace,
    {
        Split { mode: SplitMode::Whitespace }
    }
}

impl Split {
    pub fn new(mode: SplitMode) -> (r: Split)
        ensures
            r.mode == mode,
    {
        Split { mode }
    }

    /// How one element of the array splits.
    pub fn apply_to_element(&self, value: &Value, level: Level) -> (r: Result<Value, Error>)
        ensures
            r matches Ok(v) && v@ == split_elem_spec(value@, level, self.mode),
    {
        match value {
            Value::Array(arr) => Ok(Value::Array(arr.deep_copy())),
            Value::Text(s) => Ok(split_text(s.as_str(), level, &self.mode)),
            Value::Number(n) => Ok(Value::Number(*n)),
        }
    }

    /// Splits each text element of the array at the array's level.
    pub fn apply(&self, value: Value) -> (r: Result<Value, Error>)
        ensures
            r matches Ok(v) && v@ == split_apply_spec(value@, self.mode),
    {
        match value {
            Value::Array(arr) => {
                let elem_level = arr.level;
                let mut out: Vec<Value> = Vec::new();
                let n = arr.elements.len();
                let ghost ev = view_seq(arr.elements@);
                proof {
                    lemma_view_seq(arr.elements@);
                }
                let mut i: usize = 0;
                while i < n
                    invariant
                        i <= n,
                        n == arr.elements@.len(),
                        ev == view_seq(arr.elements@),
                        ev.len() == n as int,
                        forall|j: int| 0 <= j < n as int ==> ev[j] == arr.elements@[j]@,
                        out@.len() == i as int,
                        forall|j: int|
                            0 <= j < i as int ==> out@[j]@ == split_elem_spec(
                                ev[j],
                                elem_level,
                                self.mode,
                            ),
                    decreases n - i,
                {
                    let e = match self.apply_to_element(&arr.elements[i], elem_level) {
                        Ok(v) => v,
                        Err(e) => {
                            return Err(e);
                        },
                    };
                    out.push(e);
                    i = i + 1;
                }
                let r = Value::Array(Array { elements: out, level: arr.level });
                proof {
                    lemma_view_seq(out@);
                    assert(r@ matches ValueSpec::Array { elems: re, level: rl } && re =~= Seq::new(
                        ev.len(),
                        |j: int| split_elem_spec(ev[j], elem_level, self.mode),
                    ));
                }
                Ok(r)
            },
            Value::Text(s) => Ok(split_text(s.as_str(), Level::Word, &self.mode)),
            Value::Number(n) => Ok(Value::Number(n)),
        }
    }

    pub fn requires_full_input(&self) -> (r: bool)
        ensures
            r == false,
    {
        false
    }
}

/// Splits every text leaf on an explicit delimiter, recursing into nested
/// arrays; the pieces form a word-level array.  An empty delimiter leaves
/// the text whole.
pub struct SplitDelim {
    pub delimiter: String,
}

/// What `SplitDelim` produces, recursively.
pub open spec fn split_delim_spec(v: ValueSpec, d: Seq<char>) -> ValueSpec
    decreases v,
{
    match v {
        ValueSpec::Array { elems, level } => ValueSpec::Array {
            elems: split_delim_seq(elems, d),
            level,
        },
        ValueSpec::Text { chars } => ValueSpec::Array {
            elems: texts_of(split_str(chars, d)),
            level: Level::Word,
        },
        ValueSpec::Number { num } => ValueSpec::Number { num },
    }
}

pub open spec fn split_delim_seq(elems: Seq<ValueSpec>, d: Seq<char>) -> Seq<ValueSpec>
    decreases elems,
{
    if elems.len() == 0 {
        Seq::<ValueSpec>::empty()
    } else {
        seq![split_delim_spec(elems.first(), d)] + split_delim_seq(elems.drop_first(), d)
    }
}

/// `split_delim_seq` maps the elements one by one.
pub proof fn lemma_split_delim_seq(elems: Seq<ValueSpec>, d: Seq<char>)
    ensures
        split_delim_seq(elems, d).len() == elems.len(),
        forall|i: int|
            0 <= i < elems.len() ==> split_delim_seq(elems, d)[i] == split_delim_spec(elems[i], d),
    decreases elems.len(),
{
    if elems.len() > 0 {
        lemma_split_delim_seq(elems.drop_first(), d);
        let rest = split_delim_seq(elems.drop_first(), d);
        let s = seq![split_delim_spec(elems.first(), d)] + rest;
        assert(split_delim_seq(elems, d) == s);
        assert forall|i: int|
            0 <= i < elems.len() implies split_delim_seq(elems, d)[i] == split_delim_spec(
            elems[i],
            d,
        ) by {
            if i > 0 {
                assert(s[i] == rest[i - 1]);
                assert(elems.drop_first()[i - 1] == elems[i]);
            }
        }
    }
}

impl SplitDelim {
    pub fn new(delimiter: String) -> (r: SplitDelim)
        ensures
            r.delimiter == delimiter,
    {
        SplitDelim { delimiter }
    }

    /// Splits every text leaf on the delimiter.
    pub fn apply(&self, value: Value) -> (r: Result<Value, Error>)
        ensures
            r matches Ok(v) && v@ == split_delim_spec(value@, self.delimiter@),
    {
        Ok(self.apply_ref(&value))
    }

    fn apply_ref(&self, value: &Value) -> (r: Value)
        ensures
            r@ == split_delim_spec(value@, self.delimiter@),
        decreases value,
    {
        match value {
            Value::Array(arr) => {
                let mut out: Vec<Value> = Vec::new();
                let n = arr.elements.len();
                let ghost ev = view_seq(arr.elements@);
                proof {
                    lemma_view_seq(arr.elements@);
                }
                let mut i: usize = 0;
                while i < n
                    invariant
                        i <= n,
                        n == arr.elements@.len(),
                        ev == view_seq(arr.elements@),
                        ev.len() == n as int,
                        forall|j: int| 0 <= j < n as int ==> ev[j] == arr.elements@[j]@,
                        out@.len() == i as int,
                        forall|j: int|
                            0 <= j < i as int ==> out@[j]@ == split_delim_spec(
                                ev[j],
                                self.delimiter@,
                            ),
                        value == Value::Array(*arr),
                    decreases n - i,
                {
                    proof {
                        assert(value->Array_0 == *arr);
                        assert(decreases_to!(*value => value->Array_0));
                        assert(decreases_to!(*value => *arr));
                        assert(decreases_to!(*arr => arr.elements));
                        assert(decreases_to!(arr.elements => arr.elements@));
                        assert(decreases_to!(arr.elements@ => arr.elements@[i as int]));
                    }
                    let e = self.apply_ref(&arr.elements[i]);
                    out.push(e);
                    i = i + 1;
                }
                let r = Value::Array(Array { elements: out, level: arr.level });
                proof {
                    lemma_view_seq(out@);
                    lemma_split_delim_seq(ev, self.delimiter@);
                    assert(r@ matches ValueSpec::Array { elems: re, level: rl } && re
                        =~= split_delim_seq(ev, self.delimiter@));
                }
                r
            },
            Value::Text(s) => {
                let cs = str_to_chars(s.as_str());
                let dc = str_to_chars(self.delimiter.as_str());
                let elements = if dc.len() == 0 {
                    let mut one: Vec<Value> = Vec::new();
                    one.push(Value::Text(chars_to_string(&cs)));
                    proof {
                        lemma_view_seq(one@);
                        assert(view_seq(one@) =~= texts_of(split_str(s@, self.delimiter@)));
                    }
                    one
                } else {
                    texts_from_pieces(split_delim_chars(&cs, &dc))
                };
                Value::Array(Array { elements, level: Level::Word })
            },
            Value::Number(n) => Value::Number(*n),
        }
    }

    pub fn requires_full_input(&self) -> (r: bool)
        ensures
            r == false,
    {
        false
    }
}

} // verus!
