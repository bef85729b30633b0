//! A compact, composable command language for manipulating structured text.
//!
//! A one-line programme of concatenated operators is parsed into an AST,
//! compiled into a pipeline of transforms, and evaluated over a hierarchical
//! value (text / number / array-with-level).

pub mod ast;
pub mod chars;
pub mod error;
pub mod help;
pub mod history;
pub mod interactive;
pub mod interp;
pub mod jsonout;
pub mod operators;
pub mod parser;
pub mod regex;
pub mod render;
pub mod select;
pub mod textops;
pub mod textui;
pub mod value;

pub use value::{Array, Level, Value};
