//! Structured errors shared by the parser, the compiler, and the interpreter.

use vstd::prelude::*;
use crate::chars::push_char;

verus! {

/// An error of the core: a malformed programme (with the byte offset of the
/// offending character), a rejected AST, or a failed transform.
#[derive(Debug)]
pub enum Error {
    Parse { offset: usize, message: String },
    Compile { message: String },
    Runtime { message: String },
}

impl Error {
    /// The short human message.
    pub fn message(&self) -> (r: &String)
        ensures
            r@ == self.spec_message(),
    {
        match self {
            Error::Parse { offset: _, message } => message,
            Error::Compile { message } => message,
            Error::Runtime { message } => message,
        }
    }

    pub open spec fn spec_message(&self) -> Seq<char> {
        match self {
            Error::Parse { offset: _, message } => message@,
            Error::Compile { message } => message@,
            Error::Runtime { message } => message@,
        }
    }

    /// The caret offset of a parse error; zero for the other kinds.
    pub fn offset(&self) -> (r: usize)
        ensures
            r as int == self.spec_offset(),
    {
        match self {
            Error::Parse { offset, message: _ } => *offset,
            Error::Compile { message: _ } => 0,
            Error::Runtime { message: _ } => 0,
        }
    }

    pub open spec fn spec_offset(&self) -> int {
        match self {
            Error::Parse { offset, message: _ } => *offset as int,
            Error::Compile { message: _ } => 0,
            Error::Runtime { message: _ } => 0,
        }
    }

    /// The multi-line diagnostic: the message, the programme indented by
    /// two spaces, and a caret under the offending character.
    pub fn render(&self, programme: &str) -> (r: String)
        ensures
            match self {
                Error::Parse { offset, message } => r@ == "parse error: "@ + message@ + "\n  "@
                    + programme@ + "\n  "@ + Seq::new(offset as nat, |q: int| ' ') + seq!['^'],
                Error::Compile { message } => r@ == "compile error: "@ + message@,
                Error::Runtime { message } => r@ == "runtime error: "@ + message@,
            },
    {
        let mut out = String::new();
        match self {
            Error::Parse { offset, message } => {
                out.append("parse error: ");
                out.append(message.as_str());
                out.append("\n  ");
                out.append(programme);
                out.append("\n");
                push_char(&mut out, ' ');
                push_char(&mut out, ' ');
                let ghost base = out@;
                let n = *offset;
                let mut i: usize = 0;
                proof {
                    assert(out@ =~= base + Seq::new(0nat, |q: int| ' '));
                }
                while i < n
                    invariant
                        i <= n,
                        out@ =~= base + Seq::new(i as nat, |q: int| ' '),
                    decreases n - i,
                {
                    push_char(&mut out, ' ');
                    proof {
                        assert(base + Seq::new(i as nat, |q: int| ' ') + seq![' '] =~= base
                            + Seq::new((i + 1) as nat, |q: int| ' '));
                        assert(out@ =~= base + Seq::new((i + 1) as nat, |q: int| ' '));
                    }
                    i = i + 1;
                }
                push_char(&mut out, '^');
                proof {
                    reveal_strlit("parse error: ");
                    reveal_strlit("\n  ");
                    reveal_strlit("\n");
                    assert(out@ =~= "parse error: "@ + message@ + "\n  "@ + programme@ + "\n  "@
                        + Seq::new(n as nat, |q: int| ' ') + seq!['^']);
                }
            },
            Error::Compile { message } => {
                out.append("compile error: ");
                out.append(message.as_str());
            },
            Error::Runtime { message } => {
                out.append("runtime error: ");
                out.append(message.as_str());
            },
        }
        out
    }
}

/// A parse error at the given offset.
pub fn parse_error(offset: usize, message: &str) -> (r: Error)
    ensures
        r matches Error::Parse { offset: o, message: m } && o == offset && m@ == message@,
{
    Error::Parse { offset, message: message.to_owned() }
}

} // verus!
