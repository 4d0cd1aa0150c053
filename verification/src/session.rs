//! What the REPL does with each line it reads: the decision half of the
//! read-eval loop.  The caller reads a line, hands over what it got, and
//! carries out the action that comes back.

use vstd::prelude::*;
use vstd::string::*;

use crate::args::{Args, ArgsView};
use crate::help::{help_lines, help_screen, Span};
use crate::parser::{parse, parse_error_message, parse_from, spec_parse, ParseConfig};
use crate::repl::{help_word, strings_view, Repl, Selection};
use crate::tokenizer::{spec_tokenize, tokenize, tokens_view, TokenView};

verus! {

/// What reading a line gave.
pub enum Input {
    /// A line.
    Line(String),
    /// The end of the input.
    Eof,
    /// The user interrupted.
    Interrupted,
    /// Reading failed, for the reason given.
    Failed(String),
}

/// What to do about a line.
pub enum Action<'r, Cb> {
    /// Nothing (an empty line, or a command without a callback).
    Nothing,
    /// Show these help lines.
    Help(Vec<Vec<Span>>),
    /// Run this callback with these arguments.
    Run(&'r Cb, Args),
    /// Show this message in bold and go on.
    Error(String),
    /// Show this message (in bold or not) and stop.
    Quit(String, bool),
}

/// The message for a line whose quoting is invalid.
pub open spec fn invalid_input_message() -> Seq<char> {
    "invalid input"@
}

/// The message when reading stops at the end of the input or on an interrupt.
pub open spec fn bye_message() -> Seq<char> {
    "Bye"@
}

/// Parsing only ever adds to the commands collected so far.
pub proof fn lemma_parse_extends(
    am: bool,
    sel: Selection,
    tokens: Seq<TokenView>,
    cmds: Seq<Seq<char>>,
    args: ArgsView,
)
    ensures
        parse_from(am, sel, tokens, cmds, args) matches Ok((c, _)) ==> c.len() >= cmds.len() && c.take(
            cmds.len() as int,
        ) == cmds,
    decreases sel,
{
    match sel {
        Selection::Fixed(fixed) => {
            if tokens.len() > 0 && !tokens[0].quoted {
                if let Some(j) = crate::repl::first_named(fixed@, tokens[0].text) {
                    if 0 <= j < fixed@.len() {
                        lemma_parse_extends(am, fixed@[j].1, tokens.drop_first(), cmds.push(tokens[0].text), args);
                        if let Ok((c, _)) = parse_from(am, sel, tokens, cmds, args) {
                            assert(c.take(cmds.len() as int) =~= c.take(cmds.len() + 1int).take(cmds.len() as int));
                            assert(cmds.push(tokens[0].text).take(cmds.len() as int) =~= cmds);
                        }
                    }
                }
            }
            if let Ok((c, _)) = parse_from(am, sel, tokens, cmds, args) {
                if tokens.len() == 0 {
                    assert(c.take(cmds.len() as int) =~= cmds);
                }
            }
        },
        Selection::String { name, optional, next } => {
            if tokens.len() > 0 {
                lemma_parse_extends(am, *next, tokens.drop_first(), cmds, args.with_string(name@, Some(tokens[0].text)));
            } else {
                lemma_parse_extends(am, *next, tokens, cmds, args.with_string(name@, None));
            }
        },
        Selection::Alt { name, optional, values, next } => {
            if tokens.len() > 0 {
                lemma_parse_extends(am, *next, tokens.drop_first(), cmds, args.with_alt(name@, Some(tokens[0].text)));
            } else {
                lemma_parse_extends(am, *next, tokens, cmds, args.with_alt(name@, None));
            }
        },
        Selection::Bool { name, optional, values, next } => {
            if tokens.len() > 0 {
                lemma_parse_extends(am, *next, tokens.drop_first(), cmds, args.with_bool(name@, Some(true)));
                lemma_parse_extends(am, *next, tokens.drop_first(), cmds, args.with_bool(name@, Some(false)));
            } else {
                lemma_parse_extends(am, *next, tokens, cmds, args.with_bool(name@, None));
            }
        },
        Selection::End => {
            if let Ok((c, _)) = parse_from(am, sel, tokens, cmds, args) {
                assert(c.take(cmds.len() as int) =~= cmds);
            }
        },
    }
}

/// What the REPL with the given help list, selection tree and callbacks
/// does about a line whose tokens are `toks`.
pub open spec fn line_action_ok<Cb>(
    help: Option<crate::help::HelpList>,
    tree: Selection,
    callbacks: Map<Seq<Seq<char>>, Cb>,
    toks: Seq<TokenView>,
    a: Action<Cb>,
) -> bool {
    if toks.len() == 0 {
        a is Nothing
    } else if help is Some && toks[0].text == help_word() {
        match spec_parse(true, tree, toks) {
            Ok((cmds, _)) => a matches Action::Help(lines) && lines.deep_view() == help_screen(
                help,
                cmds.drop_first(),
            ),
            Err(e) => a matches Action::Error(m) && m@ == parse_error_message(e),
        }
    } else {
        match spec_parse(false, tree, toks) {
            Ok((cmds, args)) => if callbacks.contains_key(cmds) {
                a matches Action::Run(cb, x) && *cb == callbacks[cmds] && x@ == args
            } else {
                a is Nothing
            },
            Err(e) => a matches Action::Error(m) && m@ == parse_error_message(e),
        }
    }
}

impl<'a, Ctx, Cb> Repl<'a, Ctx, Cb> {
    /// Decides what to do about what reading a line gave: stop at the end of
    /// the input, on an interrupt or when reading failed; otherwise tokenize
    /// the line and, for `help ...` when help is enabled, show help about the
    /// commands named, or else parse it and run the command's callback.
    pub fn step(&self, input: Input) -> (a: Action<'_, Cb>)
        requires
            self.parse_tree is Fixed || self.parse_tree is End,
        ensures
            match input {
                Input::Eof => a matches Action::Quit(m, b) && m@ == bye_message() && !b,
                Input::Interrupted => a matches Action::Quit(m, b) && m@ == bye_message() && !b,
                Input::Failed(s) => a matches Action::Quit(m, b) && m@ == "readline: "@ + s@ && b,
                Input::Line(l) => match spec_tokenize(l@) {
                    None => a matches Action::Error(m) && m@ == invalid_input_message(),
                    Some(toks) => line_action_ok(self.help, self.parse_tree, self.callbacks@, toks, a),
                },
            },
    {
        match input {
            Input::Eof => Action::Quit(String::from_str("Bye"), false),
            Input::Interrupted => Action::Quit(String::from_str("Bye"), false),
            Input::Failed(s) => {
                let mut m = String::from_str("readline: ");
                m.append(s.as_str());
                Action::Quit(m, true)
            },
            Input::Line(l) => match tokenize(l.as_str()) {
                Err(()) => Action::Error(String::from_str("invalid input")),
                Ok(tokens) => self.on_tokens(tokens),
            },
        }
    }

    fn on_tokens(&self, tokens: crate::tokenizer::TokenList) -> (a: Action<'_, Cb>)
        requires
            self.parse_tree is Fixed || self.parse_tree is End,
        ensures
            line_action_ok(self.help, self.parse_tree, self.callbacks@, tokens_view(tokens@), a),
    {
        let ghost toks = tokens_view(tokens@);
        if tokens.len() == 0 {
            return Action::Nothing;
        }
        let is_help = match &self.help {
            Some(_) => {
                let help_cmd = String::from_str("help");
                tokens[0].text == help_cmd
            },
            None => false,
        };
        if is_help {
            let cfg = ParseConfig::for_help();
            match parse(&cfg, &self.parse_tree, tokens) {
                Ok((cmds, _)) => {
                    proof {
                        lemma_parse_extends(true, self.parse_tree, toks, Seq::empty(), ArgsView::empty());
                        crate::parser::lemma_parse_first_command(true, self.parse_tree, toks);
                        assert(strings_view(cmds@).len() > 0);
                    }
                    let n = cmds.len();
                    let words = vstd::slice::slice_subrange(cmds.as_slice(), 1, n);
                    assert(words.deep_view() =~= strings_view(cmds@).drop_first());
                    Action::Help(help_lines(&self.help, words))
                },
                Err(e) => Action::Error(e.to_string()),
            }
        } else {
            let cfg = ParseConfig::default();
            match parse(&cfg, &self.parse_tree, tokens) {
                Ok((cmds, args)) => {
                    assert(cmds.deep_view() =~= strings_view(cmds@));
                    match self.callbacks.get(&cmds) {
                        Some(cb) => Action::Run(cb, args),
                        None => Action::Nothing,
                    }
                },
                Err(e) => Action::Error(e.to_string()),
            }
        }
    }
}

} // verus!
