//! A small command-line REPL toolkit: a tokenizer for command lines, a tree of
//! commands and parameters, a parser that walks that tree, tab completion and
//! help screens.  Everything here is plain computation; reading lines from a
//! terminal and printing is left to the caller.

pub mod args;
pub mod callbacks;
pub mod completion;
pub mod help;
pub mod parser;
pub mod paths;
pub mod repl;
pub mod session;
pub mod table;
pub mod text;
pub mod tokenizer;

pub use crate::args::Args;
pub use crate::callbacks::CallbackMap;
pub use crate::completion::{complete, Candidate};
pub use crate::help::{help_lines, HelpItem, HelpList, Span};
pub use crate::parser::{parse, ParseConfig};
pub use crate::repl::{Command, Group, ParamType, Parameter, Repl, ReplBuilder, Selection};
pub use crate::session::{Action, Input};
pub use crate::tokenizer::{tokenize, Token, TokenList};

use vstd::prelude::*;
use vstd::string::*;

verus! {

/// Errors of the library's public API.
#[derive(Debug, Clone, Copy, PartialEq, Eq, Structural)]
pub enum Error {
    /// The named argument was not given to the command (or was already taken).
    ArgNotAvailable,
}

impl Error {
    /// The error's message.
    pub fn to_string(&self) -> (s: String)
        ensures
            s@ == "argument not available"@,
    {
        match self {
            Error::ArgNotAvailable => String::from_str("argument not available"),
        }
    }
}

} // verus!
