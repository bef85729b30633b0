//! Help text definitions and generation.

use vstd::prelude::*;
use crate::chars::push_char;
use crate::operators::columnate::pad_to;
use crate::textops::join_with;
use crate::textui::lemma_join_snoc;

verus! {

/// One line of the operator help: a heading, a two-column row, or a single
/// entry.
pub enum HelpLine {
    Heading(&'static str),
    Row(&'static str, &'static str, &'static str, &'static str),
    Single(&'static str, &'static str),
}

/// The operator help table.
pub fn operator_help() -> (r: Vec<HelpLine>)
    ensures
        r@.len() == 17,
{
    let mut t: Vec<HelpLine> = Vec::new();
    t.push(HelpLine::Heading("Operators:"));
    t.push(HelpLine::Row("s", "split on whitespace", "S<d>", "split on delimiter"));
    t.push(HelpLine::Row("j", "join with level sep", "J<d>", "join with delimiter"));
    t.push(HelpLine::Row("l", "lowercase", "L<sel>", "lowercase selected"));
    t.push(HelpLine::Row("u", "uppercase", "U<sel>", "uppercase selected"));
    t.push(HelpLine::Row("t", "trim whitespace", "T<sel>", "trim selected"));
    t.push(HelpLine::Row("n", "to number", "N<sel>", "to number selected"));
    t.push(HelpLine::Row("r/<p>/<r>/", "replace pattern", "r<sel>/<p>/<r>/", "replace in selected"));
    t.push(HelpLine::Row("/<pat>/", "filter keep", "!/<pat>/", "filter remove"));
    t.push(HelpLine::Single("m/<pat>/", "matches to array"));
    t.push(HelpLine::Row("d", "dedupe", "D<sel>", "dedupe on selected"));
    t.push(HelpLine::Row("o", "sort descending", "O", "sort ascending"));
    t.push(HelpLine::Row("x", "delete empty", "g<sel>", "group by"));
    t.push(HelpLine::Row("#", "count", "+", "sum"));
    t.push(HelpLine::Row("c", "columnate", "p<sel>", "partition"));
    t.push(HelpLine::Row("@", "descend", "^", "ascend"));
    t.push(HelpLine::Row(";", "separator (no-op)", "<sel>", "select (e.g. 0, 1:3, ::2)"));
    t
}

/// The interactive key bindings.
pub fn interactive_keys() -> (r: Vec<(&'static str, &'static str)>)
    ensures
        r@.len() == 4,
{
    let mut t: Vec<(&'static str, &'static str)> = Vec::new();
    t.push(("Enter", "Commit"));
    t.push(("^C/Esc", "Cancel"));
    t.push(("^J", "JSON"));
    t.push(("^H", "Help"));
    t
}

/// The total number of lines in the help output: the operator table, the
/// keys heading, and the keys row.
pub fn help_line_count() -> (r: usize)
    ensures
        r == 19,
{
    let t = operator_help();
    t.len() + 2
}

/// A text padded with trailing spaces to the width.
pub fn pad_str(s: &str, width: usize) -> (r: String)
    ensures
        r@ == pad_to(s@, width as int),
{
    let mut out = s.to_owned();
    let len = s.unicode_len();
    if len >= width {
        proof {
            assert(out@ == pad_to(s@, width as int));
        }
        return out;
    }
    let need = width - len;
    let mut k: usize = 0;
    let ghost base = s@;
    proof {
        assert(out@ =~= base + Seq::new(0nat, |q: int| ' '));
    }
    while k < need
        invariant
            k <= need,
            out@ =~= base + Seq::new(k as nat, |q: int| ' '),
        decreases need - k,
    {
        push_char(&mut out, ' ');
        proof {
            assert(base + Seq::new(k as nat, |q: int| ' ') + seq![' '] =~= base + Seq::new(
                (k + 1) as nat,
                |q: int| ' ',
            ));
            assert(out@ =~= base + Seq::new((k + 1) as nat, |q: int| ' '));
        }
        k = k + 1;
    }
    out
}

/// One help line as plain text, without colour.
fn help_line_text(line: &HelpLine) -> (r: String)
{
    let mut out = String::new();
    match line {
        HelpLine::Heading(text) => {
            out.append(text);
        },
        HelpLine::Row(op1, desc1, op2, desc2) => {
            out.append("  ");
            out.append(pad_str(op1, 16).as_str());
            out.append(pad_str(desc1, 21).as_str());
            out.append(pad_str(op2, 16).as_str());
            out.append(desc2);
        },
        HelpLine::Single(op, desc) => {
            out.append("  ");
            out.append(pad_str(op, 16).as_str());
            out.append(desc);
        },
    }
    out
}

/// One help line with colour escape codes around the operator columns.
fn help_line_coloured(line: &HelpLine) -> (r: String)
{
    let cyan = "\u{1b}[36m";
    let yellow = "\u{1b}[33m";
    let reset = "\u{1b}[0m";
    let mut out = String::new();
    match line {
        HelpLine::Heading(text) => {
            out.append(yellow);
            out.append(text);
            out.append(reset);
        },
        HelpLine::Row(op1, desc1, op2, desc2) => {
            out.append("  ");
            out.append(cyan);
            out.append(pad_str(op1, 16).as_str());
            out.append(reset);
            out.append(pad_str(desc1, 21).as_str());
            out.append(cyan);
            out.append(pad_str(op2, 16).as_str());
            out.append(reset);
            out.append(desc2);
        },
        HelpLine::Single(op, desc) => {
            out.append("  ");
            out.append(cyan);
            out.append(pad_str(op, 16).as_str());
            out.append(reset);
            out.append(desc);
        },
    }
    out
}

/// The plain text operator help: one line per table entry, joined with
/// newlines and no trailing newline.
pub fn help_text() -> (r: String)
    ensures
        exists|ls: Seq<Seq<char>>| ls.len() == 17 && r@ == #[trigger] join_with(ls, seq!['\n']),
{
    let table = operator_help();
    let mut out = String::new();
    let ghost mut lines: Seq<Seq<char>> = Seq::empty();
    let n = table.len();
    let mut i: usize = 0;
    while i < n
        invariant
            i <= n,
            n == table@.len(),
            n == 17,
            lines.len() == i as int,
            out@ == join_with(lines, seq!['\n']),
        decreases n - i,
    {
        if i > 0 {
            push_char(&mut out, '\n');
        }
        let line = help_line_text(&table[i]);
        out.append(line.as_str());
        proof {
            let grown = lines.push(line@);
            if i == 0 {
                assert(grown.len() == 1);
                assert(grown[0] == line@);
                assert(out@ =~= join_with(grown, seq!['\n']));
            } else {
                lemma_join_snoc(grown, seq!['\n'], grown.len() as int);
                assert(grown.take(grown.len() as int) =~= grown);
                assert(grown.take(grown.len() as int - 1) =~= lines);
                assert(out@ =~= join_with(grown, seq!['\n']));
            }
            lines = grown;
        }
        i = i + 1;
    }
    out
}

/// The operator help with or without colour, each line newline-terminated.
pub fn write_help_text(use_color: bool) -> (r: String)
{
    let table = operator_help();
    let mut out = String::new();
    let n = table.len();
    let mut i: usize = 0;
    while i < n
        invariant
            i <= n,
            n == table@.len(),
        decreases n - i,
    {
        let line = if use_color {
            help_line_coloured(&table[i])
        } else {
            help_line_text(&table[i])
        };
        out.append(line.as_str());
        push_char(&mut out, '\n');
        i = i + 1;
    }
    out
}

/// The help block the interactive mode draws: the operator table, then the
/// key bindings, cut to the line budget; each line starts on its own row.
pub fn draw_help_lines(max_lines: usize) -> (r: Vec<String>)
    ensures
        r@.len() <= max_lines,
{
    let table = operator_help();
    let mut out: Vec<String> = Vec::new();
    let n = table.len();
    let mut i: usize = 0;
    while i < n && out.len() < max_lines
        invariant
            i <= n,
            n == table@.len(),
            out@.len() <= max_lines,
            out@.len() <= i,
        decreases n - i,
    {
        out.push(help_line_coloured(&table[i]));
        i = i + 1;
    }
    if out.len() < max_lines {
        let mut heading = String::new();
        heading.append("\u{1b}[33m");
        heading.append("Keys:");
        heading.append("\u{1b}[0m");
        out.push(heading);
    }
    if out.len() < max_lines {
        let keys = interactive_keys();
        let mut line = String::new();
        line.append("  ");
        let kn = keys.len();
        let mut k: usize = 0;
        while k < kn
            invariant
                k <= kn,
                kn == keys@.len(),
            decreases kn - k,
        {
            if k > 0 {
                line.append("  ");
            }
            let (key, desc) = keys[k];
            line.append("\u{1b}[36m");
            line.append(key);
            line.append("\u{1b}[0m");
            line.append(" ");
            line.append(desc);
            k = k + 1;
        }
        out.push(line);
    }
    out
}

/// The intro section for the command line help.
pub fn write_intro(use_color: bool) -> (r: String)
{
    let mut out = String::new();
    out.append(
        "T is a concise language for manipulating text, replacing common usage\npatterns of Unix utilities like grep, sed, cut, awk, sort, and uniq.\n\n",
    );
    if use_color {
        out.append("\u{1b}[33m");
        out.append("Example:");
        out.append("\u{1b}[0m");
    } else {
        out.append("Example:");
    }
    out.append(
        "\nTop 20 most frequent words (lowercased):\n\n  t 'sjldo:20' file\n    s   - split lines into words\n    j   - join each row back to text\n    l   - lowercase each word\n    d   - dedupe with counts\n    o   - sort descending\n    :20 - take first 20\n\n",
    );
    out
}

/// The footer section for the command line help.
pub fn write_footer(use_color: bool) -> (r: String)
{
    let mut out = String::new();
    out.append("For full documentation, see: ");
    if use_color {
        out.append("\u{1b}[36m");
        out.append("https://github.com/alecthomas/t");
        out.append("\u{1b}[0m");
        out.append("\n");
    } else {
        out.append("https://github.com/alecthomas/t");
        out.append("\n");
    }
    out
}

/// One line of the options section: the flags padded to a column, then the
/// help text.
pub fn format_option_line(flags: &str, help: &str, use_color: bool) -> (r: String)
{
    let mut out = String::new();
    out.append("  ");
    if use_color {
        out.append("\u{1b}[36m");
        out.append(pad_str(flags, 19).as_str());
        out.append("\u{1b}[0m");
    } else {
        out.append(pad_str(flags, 19).as_str());
    }
    out.append(help);
    out
}

} // verus!
