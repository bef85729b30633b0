//! Interactive mode state: the line editor state machine and the preview
//! execution over a possibly-truncated prefix of the input.  Reading keys
//! and painting the terminal is the caller's business.

use vstd::prelude::*;
use crate::ast::{Operator, Programme};
use crate::chars::{chars_to_string, str_to_chars};
use crate::error::Error;
use crate::interp::{compile, Context, run, run_rel, Transform};
use crate::parser::parse_programme;
use crate::value::{Array, Value, ValueSpec};

verus! {

/// The fewest preview lines the interactive mode keeps.
pub const MIN_PREVIEW_LINES: usize = 10;

/// One key, reduced to what the editor distinguishes.
#[derive(Clone, Copy, Debug, PartialEq, Eq, Structural)]
pub enum KeyInput {
    Char(char),
    Ctrl(char),
    Enter,
    Backspace,
    Delete,
    Left,
    Right,
    Home,
    End,
    Esc,
    Other,
}

/// What one key does to the session.
#[derive(Clone, Copy, Debug, PartialEq, Eq, Structural)]
pub enum KeyAction {
    Continue,
    Commit,
    Cancel,
}

/// The interactive session state: the input being previewed, the programme
/// line under edit with its cursor, the output mode, and the prompt row.
pub struct InteractiveMode {
    pub input: Array,
    pub programme: String,
    pub cursor: usize,
    pub json_output: bool,
    pub show_help: bool,
    pub prompt_row: u16,
}

impl InteractiveMode {
    /// A fresh session over the input, the line empty.
    pub fn new(input: Array, json_output: bool, prompt_row: u16) -> (r: InteractiveMode)
        ensures
            r.input == input,
            r.programme@ == Seq::<char>::empty(),
            r.cursor == 0,
            r.json_output == json_output,
            !r.show_help,
            r.prompt_row == prompt_row,
    {
        InteractiveMode {
            input,
            programme: String::new(),
            cursor: 0,
            json_output,
            show_help: false,
            prompt_row,
        }
    }

    /// The cursor stays within the line.
    pub open spec fn wf(&self) -> bool {
        self.cursor <= self.programme@.len()
    }

    /// A deep copy of the full input, for the final execution after commit.
    pub fn full_input(&self) -> (r: Array)
        ensures
            r@ == self.input@,
            r.level == self.input.level,
    {
        self.input.deep_copy()
    }

    /// A line cut to the width: over-long lines lose their tail for an
    /// ellipsis when there is room for one.
    pub fn truncate_line(line: &str, max_width: usize) -> (r: String)
        ensures
            line@.len() <= max_width as int ==> r@ == line@,
            line@.len() > max_width as int && max_width > 3 ==> r@ == line@.take(
                max_width - 3,
            ) + seq!['.', '.', '.'],
            line@.len() > max_width as int && max_width <= 3 ==> r@ == line@.take(
                max_width as int,
            ),
    {
        let cs = str_to_chars(line);
        if cs.len() <= max_width {
            proof {
                assert(cs@ =~= line@);
            }
            chars_to_string(&cs)
        } else if max_width > 3 {
            let mut cut = copy_prefix(&cs, max_width - 3);
            cut.push('.');
            cut.push('.');
            cut.push('.');
            proof {
                assert(cut@ =~= line@.take(max_width - 3) + seq!['.', '.', '.']);
            }
            chars_to_string(&cut)
        } else {
            let cut = copy_prefix(&cs, max_width);
            chars_to_string(&cut)
        }
    }

    /// How many preview lines fit below the prompt, at least the minimum.
    pub fn available_preview_lines(&self, term_height: u16) -> (r: usize)
        ensures
            r as int == (if term_height as int - (self.prompt_row as int + 1)
                > MIN_PREVIEW_LINES as int {
                term_height as int - (self.prompt_row as int + 1)
            } else {
                MIN_PREVIEW_LINES as int
            }),
    {
        let below: usize = if term_height as usize > self.prompt_row as usize + 1 {
            term_height as usize - (self.prompt_row as usize + 1)
        } else {
            0
        };
        if below > MIN_PREVIEW_LINES {
            below
        } else {
            MIN_PREVIEW_LINES
        }
    }

    /// The prompt line: the marker, then the programme under edit.
    pub fn prompt_line(&self) -> (r: String)
        ensures
            r@ == seq!['t', '>', ' '] + self.programme@,
    {
        let mut out = String::new();
        out.append("t> ");
        out.append(self.programme.as_str());
        proof {
            reveal_strlit("t> ");
            assert(out@ =~= seq!['t', '>', ' '] + self.programme@);
        }
        out
    }

    /// The column the terminal cursor belongs at: after the marker and the
    /// characters left of the edit cursor.
    pub fn cursor_col(&self) -> (r: usize)
        requires
            self.cursor <= usize::MAX - 3,
        ensures
            r == self.cursor + 3,
    {
        self.cursor + 3
    }

    /// When the terminal scrolled while drawing, the prompt row moves up by
    /// the scrolled amount.
    pub fn adjust_prompt_row(&mut self, current_row: u16, lines_below: u16)
        ensures
            final(self).input == old(self).input,
            final(self).programme == old(self).programme,
            final(self).cursor == old(self).cursor,
            final(self).json_output == old(self).json_output,
            final(self).show_help == old(self).show_help,
            ({
                let expected = old(self).prompt_row as int + lines_below as int;
                if (current_row as int) < expected {
                    final(self).prompt_row as int == (if old(self).prompt_row as int - (expected
                        - current_row as int) >= 0 {
                        old(self).prompt_row as int - (expected - current_row as int)
                    } else {
                        0
                    })
                } else {
                    final(self).prompt_row == old(self).prompt_row
                }
            }),
    {
        let expected: u32 = self.prompt_row as u32 + lines_below as u32;
        if (current_row as u32) < expected {
            let scroll = expected - current_row as u32;
            if scroll > self.prompt_row as u32 {
                self.prompt_row = 0;
            } else {
                self.prompt_row = self.prompt_row - (scroll as u16);
            }
        }
    }

    /// One key against the editor state: editing keys change the line and
    /// cursor, control keys toggle the mode or end the session.  A help
    /// screen is dismissed by the next key, which passes through unless it
    /// is escape.
    pub fn handle_key(&mut self, key: KeyInput) -> (r: KeyAction)
        requires
            old(self).wf(),
            old(self).programme@.len() < usize::MAX,
        ensures
            final(self).wf(),
            final(self).input == old(self).input,
            final(self).prompt_row == old(self).prompt_row,
            !final(self).show_help || key == KeyInput::Ctrl('h'),
            old(self).show_help && key == KeyInput::Esc ==> r == KeyAction::Continue
                && final(self).programme == old(self).programme
                && final(self).cursor == old(self).cursor,
            !old(self).show_help ==> match key {
                KeyInput::Esc => r == KeyAction::Cancel,
                KeyInput::Ctrl(c) => if c == 'c' {
                    r == KeyAction::Cancel
                } else if c == 'd' {
                    r == (if old(self).programme@.len() == 0 {
                        KeyAction::Cancel
                    } else {
                        KeyAction::Continue
                    })
                } else if c == 'j' {
                    r == KeyAction::Continue && final(self).json_output == !old(self).json_output
                } else if c == 'h' {
                    r == KeyAction::Continue && final(self).show_help
                } else {
                    r == KeyAction::Continue
                },
                KeyInput::Enter => r == KeyAction::Commit,
                KeyInput::Backspace => r == KeyAction::Continue && (old(self).cursor > 0
                    ==> final(self).programme@ == old(self).programme@.remove(
                    old(self).cursor - 1,
                ) && final(self).cursor == old(self).cursor - 1),
                KeyInput::Delete => r == KeyAction::Continue && ((old(self).cursor as int) < old(self).programme@.len()
                    ==> final(self).programme@ == old(self).programme@.remove(old(self).cursor as int)
                        && final(self).cursor == old(self).cursor),
                KeyInput::Left => r == KeyAction::Continue && final(self).cursor as int == (
                if old(self).cursor > 0 {
                    old(self).cursor - 1
                } else {
                    0int
                }),
                KeyInput::Right => r == KeyAction::Continue && final(self).cursor as int == (
                if (old(self).cursor as int) < old(self).programme@.len() {
                    old(self).cursor + 1
                } else {
                    old(self).cursor as int
                }),
                KeyInput::Home => r == KeyAction::Continue && final(self).cursor == 0,
                KeyInput::End => r == KeyAction::Continue && final(self).cursor
                    == old(self).programme@.len(),
                KeyInput::Char(c) => r == KeyAction::Continue
                    && final(self).programme@ == old(self).programme@.insert(old(self).cursor as int, c)
                    && final(self).cursor == old(self).cursor + 1,
                KeyInput::Other => r == KeyAction::Continue && *final(self) == *old(self),
            },
    {
        if self.show_help {
            self.show_help = false;
            if key == KeyInput::Esc {
                return KeyAction::Continue;
            }
        }
        match key {
            KeyInput::Esc => KeyAction::Cancel,
            KeyInput::Ctrl(c) => {
                if c == 'c' {
                    KeyAction::Cancel
                } else if c == 'd' {
                    if self.programme.as_str().is_empty() {
                        KeyAction::Cancel
                    } else {
                        KeyAction::Continue
                    }
                } else if c == 'j' {
                    self.json_output = !self.json_output;
                    KeyAction::Continue
                } else if c == 'h' {
                    self.show_help = true;
                    KeyAction::Continue
                } else {
                    KeyAction::Continue
                }
            },
            KeyInput::Enter => KeyAction::Commit,
            KeyInput::Backspace => {
                if self.cursor > 0 {
                    let mut cs = str_to_chars(self.programme.as_str());
                    let _ = cs.remove(self.cursor - 1);
                    self.programme = chars_to_string(&cs);
                    self.cursor = self.cursor - 1;
                }
                KeyAction::Continue
            },
            KeyInput::Delete => {
                let mut cs = str_to_chars(self.programme.as_str());
                if self.cursor < cs.len() {
                    let _ = cs.remove(self.cursor);
                    self.programme = chars_to_string(&cs);
                }
                KeyAction::Continue
            },
            KeyInput::Left => {
                if self.cursor > 0 {
                    self.cursor = self.cursor - 1;
                }
                KeyAction::Continue
            },
            KeyInput::Right => {
                let len = str_to_chars(self.programme.as_str()).len();
                if self.cursor < len {
                    self.cursor = self.cursor + 1;
                }
                KeyAction::Continue
            },
            KeyInput::Home => {
                self.cursor = 0;
                KeyAction::Continue
            },
            KeyInput::End => {
                let len = str_to_chars(self.programme.as_str()).len();
                self.cursor = len;
                KeyAction::Continue
            },
            KeyInput::Char(c) => {
                let mut cs = str_to_chars(self.programme.as_str());
                cs.insert(self.cursor, c);
                self.programme = chars_to_string(&cs);
                self.cursor = self.cursor + 1;
                KeyAction::Continue
            },
            KeyInput::Other => KeyAction::Continue,
        }
    }

    /// Runs the programme for a preview: a programme that does not parse is
    /// cut back to its longest parsing prefix and the parse error reported;
    /// a programme that parses and compiles runs over the input (a
    /// truncated copy of it unless some operator needs every row), and the
    /// result, the focus depth, and no error come back.
    pub fn try_execute(&self, needed_lines: usize) -> (r: (Value, usize, Option<Error>))
        ensures
            (match crate::parser::scan_ops(self.programme@, 0) {
                Some(list) => {
                    &&& (forall|k: int|
                        0 <= k < list.len() ==> crate::interp::list_op_ok(
                            #[trigger] list[k],
                        )) ==> {
                        &&& r.2 is None
                        &&& r.1 as int == depth_of_list(list)
                        &&& preview_outcome(list, self.input@, self.input.level, r.0@)
                    }
                    &&& !(forall|k: int|
                        0 <= k < list.len() ==> crate::interp::list_op_ok(#[trigger] list[k]))
                        ==> (r.2 matches Some(e) && e is Compile && r.0@ == (ValueSpec::Array {
                        elems: self.input@,
                        level: self.input.level,
                    }))
                },
                None => r.2 is Some,
            }),
    {
        let cs = str_to_chars(self.programme.as_str());
        let full = parse_programme(self.programme.as_str());
        let ghost full_parse_ok = full is Ok;
        let (programme, parse_error) = match full {
            Ok(p) => (p, None),
            Err(e) => {
                let mut best: Option<Programme> = None;
                let n = cs.len();
                let mut take = n;
                while take > 0 && best.is_none()
                    invariant
                        take <= n,
                        n == cs@.len(),
                    decreases take,
                {
                    take = take - 1;
                    let prefix = chars_to_string(&copy_prefix(&cs, take));
                    match parse_programme(prefix.as_str()) {
                        Ok(p) => {
                            if p.operators.len() > 0 {
                                best = Some(p);
                            }
                        },
                        Err(_) => {},
                    }
                }
                let prog = match best {
                    Some(p) => p,
                    None => Programme { operators: Vec::new() },
                };
                (prog, Some(e))
            },
        };
        let ghost opsv = programme.operators@;
        let depth = compute_depth(&programme);
        proof {
            if full_parse_ok {
                match crate::parser::scan_ops(self.programme@, 0) {
                    Some(list) => {
                        lemma_depth_matches(opsv, list);
                    },
                    None => {},
                }
            }
        }
        let ops = match compile(programme) {
            Ok(ops) => ops,
            Err(e) => {
                proof {
                    if full_parse_ok {
                        match crate::parser::scan_ops(self.programme@, 0) {
                            Some(list) => {
                                let bad = choose|k: int|
                                    0 <= k < opsv.len() && !crate::interp::op_ok(opsv[k]);
                                crate::interp::lemma_op_ok_matches(opsv[bad], list[bad]);
                                assert(!crate::interp::list_op_ok(list[bad]));
                            },
                            None => {},
                        }
                    }
                }
                let copy = self.input.deep_copy();
                proof {
                    crate::value::lemma_view_seq(copy.elements@);
                    assert(Value::Array(copy)@ == (ValueSpec::Array {
                        elems: self.input@,
                        level: self.input.level,
                    }));
                }
                return (Value::Array(copy), depth, Some(e));
            },
        };
        let (result, run_err) = preview_pipeline(&ops, &self.input, needed_lines);
        proof {
            if full_parse_ok {
                match crate::parser::scan_ops(self.programme@, 0) {
                    Some(list) => {
                        assert forall|k: int|
                            0 <= k < ops@.len() implies crate::interp::t_matches(
                            #[trigger] ops@[k],
                            list[k],
                        ) by {
                            assert(crate::interp::tr_matches(opsv[k], ops@[k]));
                            assert(crate::parser::op_matches(opsv[k], list[k]));
                        }
                    },
                    None => {},
                }
            }
        }
        let out = match run_err {
            Some(e) => (result, depth, Some(e)),
            None => (result, depth, parse_error),
        };
        proof {
            if full_parse_ok {
                match crate::parser::scan_ops(self.programme@, 0) {
                    Some(list) => {
                        let pb = choose|b: int|
                            #[trigger] preview_ran(ops@, self.input@, self.input.level, b, out.0@);
                        assert(preview_ran(ops@, self.input@, self.input.level, pb, out.0@));
                        assert(ops@.len() == list.len());
                        assert(preview_outcome(list, self.input@, self.input.level, out.0@));
                        assert(out.2 is None);
                        assert(out.1 as int == depth_of_list(list));
                        assert forall|k: int|
                            0 <= k < list.len() implies crate::interp::list_op_ok(
                            #[trigger] list[k],
                        ) by {
                            assert(crate::interp::tr_matches(opsv[k], ops@[k]));
                            assert(crate::interp::op_ok(opsv[k]));
                            crate::interp::lemma_op_ok_matches(opsv[k], list[k]);
                        }
                    },
                    None => {},
                }
            } else {
                assert(crate::parser::scan_ops(self.programme@, 0) is None);
                assert(out.2 is Some);
            }
        }
        out
    }
}

/// The focus depth of a mathematical operator list.
pub open spec fn depth_of_list(list: Seq<crate::parser::OpSpec>) -> int
    decreases list.len(),
{
    if list.len() == 0 {
        0
    } else {
        let d = depth_of_list(list.drop_last());
        match list.last() {
            crate::parser::OpSpec::Descend => d + 1,
            crate::parser::OpSpec::Ascend => if d > 0 {
                d - 1
            } else {
                0
            },
            _ => d,
        }
    }
}

/// Corresponding operator lists have the same focus depth.
pub proof fn lemma_depth_matches(ops: Seq<Operator>, list: Seq<crate::parser::OpSpec>)
    requires
        ops.len() == list.len(),
        forall|k: int| 0 <= k < list.len() ==> crate::parser::op_matches(#[trigger] ops[k], list[k]),
    ensures
        depth_spec(ops) == depth_of_list(list),
    decreases ops.len(),
{
    if ops.len() > 0 {
        assert forall|k: int|
            0 <= k < list.drop_last().len() implies crate::parser::op_matches(
            #[trigger] ops.drop_last()[k],
            list.drop_last()[k],
        ) by {
            assert(ops.drop_last()[k] == ops[k]);
            assert(list.drop_last()[k] == list[k]);
        }
        lemma_depth_matches(ops.drop_last(), list.drop_last());
        assert(crate::parser::op_matches(ops.last(), list.last()));
    }
}

/// One acceptable preview run: over a prefix of `b` rows (all of them when
/// any transform needs every row), with `out` the transforms' reading of
/// that prefix.
pub open spec fn preview_ran(
    ops: Seq<Transform>,
    elems: Seq<ValueSpec>,
    level: crate::value::Level,
    b: int,
    out: ValueSpec,
) -> bool {
    &&& 0 <= b <= elems.len()
    &&& ((exists|k: int|
        0 <= k < ops.len() && (#[trigger] ops[k]).spec_requires_full_input()) ==> b == elems.len())
    &&& run_rel(ops, (ValueSpec::Array { elems: elems.take(b), level }), out)
}

/// One acceptable full preview outcome for a parsed operator list: some
/// transforms correspond to the list one for one, and a preview run of
/// them produced `out`.
pub open spec fn preview_outcome(
    list: Seq<crate::parser::OpSpec>,
    elems: Seq<ValueSpec>,
    level: crate::value::Level,
    out: ValueSpec,
) -> bool {
    exists|ts: Seq<Transform>, b: int|
        ts.len() == list.len() && (forall|k: int|
            0 <= k < ts.len() ==> crate::interp::t_matches(#[trigger] ts[k], list[k]))
            && #[trigger] preview_ran(ts, elems, level, b, out)
}

/// Runs the transforms for a preview: over the whole input when any of
/// them needs every row, else over a truncated copy of a prefix, growing
/// until the output fills the line budget or the input is exhausted.  The
/// run never fails, and what comes back is the transforms' reading of that
/// prefix; the input itself is untouched.
pub fn preview_pipeline(ops: &Vec<Transform>, input: &Array, needed_lines: usize) -> (r: (
    Value,
    Option<Error>,
))
    ensures
        r.1 is None,
        exists|b: int| #[trigger] preview_ran(ops@, input@, input.level, b, r.0@),
{
    let mut full_needed = false;
    let mut k: usize = 0;
    let on = ops.len();
    while k < on
        invariant
            k <= on,
            on == ops@.len(),
            full_needed == exists|q: int|
                0 <= q < k as int && (#[trigger] ops@[q]).spec_requires_full_input(),
        decreases on - k,
    {
        if ops[k].requires_full_input() {
            full_needed = true;
        }
        k = k + 1;
    }
    let total = input.len();
    let mut batch: usize = if full_needed || total < 100 {
        total
    } else {
        100
    };
    loop
        invariant
            batch <= total,
            total == input@.len(),
            full_needed == exists|q: int|
                0 <= q < ops@.len() && (#[trigger] ops@[q]).spec_requires_full_input(),
            full_needed ==> batch == total,
        decreases total - batch,
    {
        let prefix = if batch >= total {
            let c = input.deep_copy();
            proof {
                assert(input@.take(input@.len() as int) =~= input@);
            }
            c
        } else {
            input.truncated_copy(batch)
        };
        let ghost pv = prefix@;
        proof {
            assert(pv == input@.take(batch as int));
        }
        let mut ctx = Context::new(Value::Array(prefix));
        match run(ops, &mut ctx) {
            Ok(()) => {},
            Err(e) => {
                return (ctx.into_value(), Some(e));
            },
        }
        let result = ctx.into_value();
        proof {
            assert(run_rel(
                ops@,
                (ValueSpec::Array { elems: input@.take(batch as int), level: input.level }),
                result@,
            ));
        }
        if batch >= total {
            let out = (result, None);
            proof {
                assert(preview_ran(ops@, input@, input.level, batch as int, out.0@));
            }
            return out;
        }
        let lines = crate::textui::count_output_lines(&result);
        if lines >= needed_lines {
            let out = (result, None);
            proof {
                assert(!full_needed);
                assert(preview_ran(ops@, input@, input.level, batch as int, out.0@));
            }
            return out;
        }
        let next: usize = if batch <= 500 {
            500
        } else if batch <= 2000 {
            2000
        } else {
            total
        };
        batch = if next > total || next <= batch {
            total
        } else {
            next
        };
    }
}

/// The first `k` characters as a fresh vector.
fn copy_prefix(cs: &Vec<char>, k: usize) -> (r: Vec<char>)
    requires
        k <= cs@.len(),
    ensures
        r@ == cs@.take(k as int),
{
    let mut out: Vec<char> = Vec::new();
    let mut i: usize = 0;
    while i < k
        invariant
            i <= k,
            k <= cs@.len(),
            out@ =~= cs@.take(i as int),
        decreases k - i,
    {
        out.push(cs[i]);
        proof {
            assert(cs@.take(i as int).push(cs@[i as int]) =~= cs@.take(i + 1 as int));
        }
        i = i + 1;
    }
    out
}

/// The focus depth a programme leaves the renderer at: `@` descends, `^`
/// ascends, never below the surface.
pub open spec fn depth_spec(ops: Seq<Operator>) -> int
    decreases ops.len(),
{
    if ops.len() == 0 {
        0
    } else {
        let d = depth_spec(ops.drop_last());
        match ops.last() {
            Operator::Descend => d + 1,
            Operator::Ascend => if d > 0 {
                d - 1
            } else {
                0
            },
            _ => d,
        }
    }
}

/// Computes the focus depth of a programme.
pub fn compute_depth(programme: &Programme) -> (r: usize)
    ensures
        r as int == depth_spec(programme.operators@),
{
    let n = programme.operators.len();
    let mut depth: usize = 0;
    let mut i: usize = 0;
    proof {
        assert(programme.operators@.take(0) =~= Seq::<Operator>::empty());
    }
    while i < n
        invariant
            i <= n,
            n == programme.operators@.len(),
            depth as int == depth_spec(programme.operators@.take(i as int)),
            depth <= i,
        decreases n - i,
    {
        proof {
            let t1 = programme.operators@.take(i as int + 1);
            assert(t1.drop_last() =~= programme.operators@.take(i as int));
            assert(t1.last() == programme.operators@[i as int]);
        }
        match &programme.operators[i] {
            Operator::Descend => {
                depth = depth + 1;
            },
            Operator::Ascend => {
                if depth > 0 {
                    depth = depth - 1;
                }
            },
            _ => {},
        }
        i = i + 1;
    }
    proof {
        assert(programme.operators@.take(n as int) =~= programme.operators@);
    }
    depth
}

/// The caret offset and short message of an error: a parse error carries
/// its own offset; other kinds point at the start.
pub fn parse_error_info(err: &Error) -> (r: (usize, String))
    ensures
        r.0 as int == err.spec_offset(),
        r.1@ == err.spec_message(),
{
    let offset = err.offset();
    let message = clone_message(err.message());
    (offset, message)
}

/// The same characters, as vstd specifies `String::clone`.
fn clone_message(s: &String) -> (r: String)
    ensures
        r@ == s@,
{
    s.clone()
}

/// The plain text operator help.
pub fn help_text() -> (r: String)
{
    crate::help::help_text()
}

} // verus!
