//! Parsing a tokenized command line against a selection tree.

use vstd::prelude::*;
use vstd::string::*;

use crate::args::{Args, ArgsView};
use crate::repl::{contains_string, find_named, first_named, strings_view, Selection};
use crate::tokenizer::{pop_token, tokens_view, TokenList, TokenView};

verus! {

/// Why a command line does not fit the command tree.
#[derive(Debug, Clone, Copy, PartialEq, Eq, Structural)]
pub enum Error {
    /// The line ended where a command was expected.
    MissingCommand,
    /// A token does not name a command (or is quoted where a command was expected).
    InvalidCommand,
    /// The line ended where a required parameter was expected.
    MissingParameter,
    /// A token is not one of the values that the parameter accepts.
    InvalidParameter,
    /// Tokens are left over after the command and its parameters.
    ExtraToken,
}

impl Error {
    /// The error's message.
    pub fn to_string(&self) -> (s: String)
        ensures
            s@ == parse_error_message(*self),
    {
        match self {
            Error::MissingCommand => String::from_str("missing command"),
            Error::InvalidCommand => String::from_str("invalid command"),
            Error::MissingParameter => String::from_str("missing parameter"),
            Error::InvalidParameter => String::from_str("invalid parameter"),
            Error::ExtraToken => String::from_str("too many parameters"),
        }
    }
}

pub open spec fn parse_error_message(e: Error) -> Seq<char> {
    match e {
        Error::MissingCommand => "missing command"@,
        Error::InvalidCommand => "invalid command"@,
        Error::MissingParameter => "missing parameter"@,
        Error::InvalidParameter => "invalid parameter"@,
        Error::ExtraToken => "too many parameters"@,
    }
}

/// How lenient the parser is.
#[derive(Debug)]
pub struct ParseConfig {
    accept_missing_command: bool,
}

impl ParseConfig {
    /// Whether a line may end where a command is expected.
    pub closed spec fn accepts_missing_command(self) -> bool {
        self.accept_missing_command
    }

    /// The configuration for help requests: a line may stop at a group.
    pub fn for_help() -> (c: Self)
        ensures
            c.accepts_missing_command(),
    {
        ParseConfig { accept_missing_command: true }
    }
}

impl Default for ParseConfig {
    /// The configuration for running commands: a line must name a command.
    fn default() -> (c: Self)
        ensures
            !c.accepts_missing_command(),
    {
        ParseConfig { accept_missing_command: false }
    }
}

/// What parsing gives: the names of the commands (and groups) on the path,
/// and the arguments collected.
pub type ParseView = Result<(Seq<Seq<char>>, ArgsView), Error>;

/// The result of parsing `tokens` from node `sel`, with `cmds` and `args`
/// collected so far.
pub open spec fn parse_from(
    accept_missing: bool,
    sel: Selection,
    tokens: Seq<TokenView>,
    cmds: Seq<Seq<char>>,
    args: ArgsView,
) -> ParseView
    decreases sel,
{
    match sel {
        Selection::Fixed(fixed) => {
            if tokens.len() == 0 {
                if accept_missing {
                    Ok((cmds, args))
                } else {
                    Err(Error::MissingCommand)
                }
            } else if tokens[0].quoted {
                Err(Error::InvalidCommand)
            } else {
                match first_named(fixed@, tokens[0].text) {
                    Some(j) => {
                        if 0 <= j < fixed@.len() {
                            parse_from(
                                accept_missing,
                                fixed@[j].1,
                                tokens.drop_first(),
                                cmds.push(tokens[0].text),
                                args,
                            )
                        } else {
                            Err(Error::InvalidCommand)
                        }
                    },
                    None => Err(Error::InvalidCommand),
                }
            }
        },
        Selection::String { name, optional, next } => {
            if tokens.len() > 0 {
                parse_from(
                    accept_missing,
                    *next,
                    tokens.drop_first(),
                    cmds,
                    args.with_string(name@, Some(tokens[0].text)),
                )
            } else if optional {
                parse_from(accept_missing, *next, tokens, cmds, args.with_string(name@, None))
            } else {
                Err(Error::MissingParameter)
            }
        },
        Selection::Alt { name, optional, values, next } => {
            if tokens.len() > 0 {
                if !tokens[0].quoted && strings_view(values@).contains(tokens[0].text) {
                    parse_from(
                        accept_missing,
                        *next,
                        tokens.drop_first(),
                        cmds,
                        args.with_alt(name@, Some(tokens[0].text)),
                    )
                } else {
                    Err(Error::InvalidParameter)
                }
            } else if optional {
                parse_from(accept_missing, *next, tokens, cmds, args.with_alt(name@, None))
            } else {
                Err(Error::MissingParameter)
            }
        },
        Selection::Bool { name, optional, values, next } => {
            if tokens.len() > 0 {
                if tokens[0].quoted {
                    Err(Error::InvalidParameter)
                } else if values.0@ == tokens[0].text {
                    parse_from(
                        accept_missing,
                        *next,
                        tokens.drop_first(),
                        cmds,
                        args.with_bool(name@, Some(true)),
                    )
                } else if values.1@ == tokens[0].text {
                    parse_from(
                        accept_missing,
                        *next,
                        tokens.drop_first(),
                        cmds,
                        args.with_bool(name@, Some(false)),
                    )
                } else {
                    Err(Error::InvalidParameter)
                }
            } else if optional {
                parse_from(accept_missing, *next, tokens, cmds, args.with_bool(name@, None))
            } else {
                Err(Error::MissingParameter)
            }
        },
        Selection::End => {
            if tokens.len() == 0 {
                Ok((cmds, args))
            } else {
                Err(Error::ExtraToken)
            }
        },
    }
}

/// The result of parsing `tokens` against the tree `sel`.
pub open spec fn spec_parse(accept_missing: bool, sel: Selection, tokens: Seq<TokenView>) -> ParseView {
    parse_from(accept_missing, sel, tokens, Seq::empty(), ArgsView::empty())
}

/// Parsing for help accepts more than parsing for running and agrees with
/// it otherwise: unless parsing for running fails for a missing command, both
/// give the same result; and where parsing for running fails only for a
/// missing command, parsing for help succeeds.
#[verifier::spinoff_prover]
#[verifier::rlimit(60)]
pub proof fn lemma_help_parse_relaxes(
    sel: Selection,
    tokens: Seq<TokenView>,
    cmds: Seq<Seq<char>>,
    args: ArgsView,
)
    ensures
        parse_from(false, sel, tokens, cmds, args) != Err::<(Seq<Seq<char>>, ArgsView), Error>(
            Error::MissingCommand,
        ) ==> parse_from(true, sel, tokens, cmds, args) == parse_from(false, sel, tokens, cmds, args),
        parse_from(false, sel, tokens, cmds, args) == Err::<(Seq<Seq<char>>, ArgsView), Error>(
            Error::MissingCommand,
        ) ==> parse_from(true, sel, tokens, cmds, args) is Ok,
    decreases sel,
{
    match sel {
        Selection::Fixed(fixed) => {
            if tokens.len() > 0 && !tokens[0].quoted {
                if let Some(j) = first_named(fixed@, tokens[0].text) {
                    if 0 <= j < fixed@.len() {
                        lemma_help_parse_relaxes(fixed@[j].1, tokens.drop_first(), cmds.push(tokens[0].text), args);
                    }
                }
            }
        },
        Selection::String { name, optional, next } => {
            if tokens.len() > 0 {
                lemma_help_parse_relaxes(*next, tokens.drop_first(), cmds, args.with_string(name@, Some(tokens[0].text)));
            } else {
                lemma_help_parse_relaxes(*next, tokens, cmds, args.with_string(name@, None));
            }
        },
        Selection::Alt { name, optional, values, next } => {
            if tokens.len() > 0 {
                lemma_help_parse_relaxes(*next, tokens.drop_first(), cmds, args.with_alt(name@, Some(tokens[0].text)));
            } else {
                lemma_help_parse_relaxes(*next, tokens, cmds, args.with_alt(name@, None));
            }
        },
        Selection::Bool { name, optional, values, next } => {
            if tokens.len() > 0 {
                lemma_help_parse_relaxes(*next, tokens.drop_first(), cmds, args.with_bool(name@, Some(true)));
                lemma_help_parse_relaxes(*next, tokens.drop_first(), cmds, args.with_bool(name@, Some(false)));
            } else {
                lemma_help_parse_relaxes(*next, tokens, cmds, args.with_bool(name@, None));
            }
        },
        Selection::End => {},
    }
}

/// A successful parse of a non-empty line names at least one command.
pub proof fn lemma_parse_first_command(am: bool, sel: Selection, tokens: Seq<TokenView>)
    requires
        tokens.len() > 0,
        spec_parse(am, sel, tokens) is Ok,
    ensures
        spec_parse(am, sel, tokens)->Ok_0.0.len() > 0 || !(sel is Fixed),
{
    if let Selection::Fixed(fixed) = sel {
        if let Some(j) = first_named(fixed@, tokens[0].text) {
            if 0 <= j < fixed@.len() {
                crate::session::lemma_parse_extends(
                    am,
                    fixed@[j].1,
                    tokens.drop_first(),
                    Seq::empty().push(tokens[0].text),
                    ArgsView::empty(),
                );
            }
        }
    }
}

/// `v`, recorded in `a` for some parameter, is a word of `tokens` or was
/// already recorded in `before` for that parameter.
pub open spec fn typed_or_kept(
    v: Option<Seq<char>>,
    before: Map<Seq<char>, Option<Seq<char>>>,
    n: Seq<char>,
    tokens: Seq<TokenView>,
) -> bool {
    v is None || (before.contains_key(n) && before[n] == v) || exists|k: int|
        0 <= k < tokens.len() && v == Some(#[trigger] tokens[k].text)
}

proof fn lemma_typed_or_kept_shift(
    v: Option<Seq<char>>,
    before: Map<Seq<char>, Option<Seq<char>>>,
    n: Seq<char>,
    tokens: Seq<TokenView>,
)
    requires
        tokens.len() > 0,
        typed_or_kept(v, before, n, tokens.drop_first()),
    ensures
        typed_or_kept(v, before, n, tokens),
{
    if !(v is None || (before.contains_key(n) && before[n] == v)) {
        let k = choose|k: int| 0 <= k < tokens.drop_first().len() && v == Some(#[trigger] tokens.drop_first()[k].text);
        assert(tokens.drop_first()[k] == tokens[k + 1]);
    }
}

/// Parsing records only what was typed: every value that a successful parse
/// gives a free string or choice parameter is the text of one of the line's
/// tokens (or was recorded before parsing started).
pub proof fn lemma_parse_records_typed_values(
    am: bool,
    sel: Selection,
    tokens: Seq<TokenView>,
    cmds: Seq<Seq<char>>,
    args: ArgsView,
)
    ensures
        parse_from(am, sel, tokens, cmds, args) matches Ok((_, a)) ==> {
            &&& forall|n: Seq<char>|
                #[trigger] a.alts.contains_key(n) ==> typed_or_kept(a.alts[n], args.alts, n, tokens)
            &&& forall|n: Seq<char>|
                #[trigger] a.strings.contains_key(n) ==> typed_or_kept(a.strings[n], args.strings, n, tokens)
        },
    decreases sel,
{
    if let Ok((_, a)) = parse_from(am, sel, tokens, cmds, args) {
        match sel {
            Selection::Fixed(fixed) => {
                if tokens.len() == 0 {
                    assert(a == args);
                } else {
                    let j = first_named(fixed@, tokens[0].text)->Some_0;
                    lemma_parse_records_typed_values(am, fixed@[j].1, tokens.drop_first(), cmds.push(tokens[0].text), args);
                }
                assert forall|n: Seq<char>| #[trigger] a.alts.contains_key(n) implies typed_or_kept(
                    a.alts[n],
                    args.alts,
                    n,
                    tokens,
                ) by {
                    if tokens.len() > 0 {
                        lemma_typed_or_kept_shift(a.alts[n], args.alts, n, tokens);
                    }
                }
                assert forall|n: Seq<char>| #[trigger] a.strings.contains_key(n) implies typed_or_kept(
                    a.strings[n],
                    args.strings,
                    n,
                    tokens,
                ) by {
                    if tokens.len() > 0 {
                        lemma_typed_or_kept_shift(a.strings[n], args.strings, n, tokens);
                    }
                }
            },
            Selection::String { name, optional, next } => {
                if tokens.len() > 0 {
                    let a2 = args.with_string(name@, Some(tokens[0].text));
                    lemma_parse_records_typed_values(am, *next, tokens.drop_first(), cmds, a2);
                    assert forall|n: Seq<char>| #[trigger] a.alts.contains_key(n) implies typed_or_kept(
                        a.alts[n],
                        args.alts,
                        n,
                        tokens,
                    ) by {
                        lemma_typed_or_kept_shift(a.alts[n], args.alts, n, tokens);
                    }
                    assert forall|n: Seq<char>| #[trigger] a.strings.contains_key(n) implies typed_or_kept(
                        a.strings[n],
                        args.strings,
                        n,
                        tokens,
                    ) by {
                        if n == name@ {
                            if a2.strings.contains_key(n) && a2.strings[n] == a.strings[n] {
                                assert(a.strings[n] == Some(tokens[0].text));
                            } else {
                                lemma_typed_or_kept_shift(a.strings[n], args.strings, n, tokens);
                            }
                        } else {
                            lemma_typed_or_kept_shift(a.strings[n], args.strings, n, tokens);
                        }
                    }
                } else {
                    lemma_parse_records_typed_values(am, *next, tokens, cmds, args.with_string(name@, None));
                }
            },
            Selection::Alt { name, optional, values, next } => {
                if tokens.len() > 0 {
                    let a2 = args.with_alt(name@, Some(tokens[0].text));
                    lemma_parse_records_typed_values(am, *next, tokens.drop_first(), cmds, a2);
                    assert forall|n: Seq<char>| #[trigger] a.strings.contains_key(n) implies typed_or_kept(
                        a.strings[n],
                        args.strings,
                        n,
                        tokens,
                    ) by {
                        lemma_typed_or_kept_shift(a.strings[n], args.strings, n, tokens);
                    }
                    assert forall|n: Seq<char>| #[trigger] a.alts.contains_key(n) implies typed_or_kept(
                        a.alts[n],
                        args.alts,
                        n,
                        tokens,
                    ) by {
                        if n == name@ {
                            if a2.alts.contains_key(n) && a2.alts[n] == a.alts[n] {
                                assert(a.alts[n] == Some(tokens[0].text));
                            } else {
                                lemma_typed_or_kept_shift(a.alts[n], args.alts, n, tokens);
                            }
                        } else {
                            lemma_typed_or_kept_shift(a.alts[n], args.alts, n, tokens);
                        }
                    }
                } else {
                    lemma_parse_records_typed_values(am, *next, tokens, cmds, args.with_alt(name@, None));
                }
            },
            Selection::Bool { name, optional, values, next } => {
                if tokens.len() > 0 {
                    let b = values.0@ == tokens[0].text;
                    lemma_parse_records_typed_values(am, *next, tokens.drop_first(), cmds, args.with_bool(name@, Some(b)));
                    assert forall|n: Seq<char>| #[trigger] a.alts.contains_key(n) implies typed_or_kept(
                        a.alts[n],
                        args.alts,
                        n,
                        tokens,
                    ) by {
                        lemma_typed_or_kept_shift(a.alts[n], args.alts, n, tokens);
                    }
                    assert forall|n: Seq<char>| #[trigger] a.strings.contains_key(n) implies typed_or_kept(
                        a.strings[n],
                        args.strings,
                        n,
                        tokens,
                    ) by {
                        lemma_typed_or_kept_shift(a.strings[n], args.strings, n, tokens);
                    }
                } else {
                    lemma_parse_records_typed_values(am, *next, tokens, cmds, args.with_bool(name@, None));
                }
            },
            Selection::End => {},
        }
    }
}

/// At a choice, the word typed is the value recorded: a line whose next word
/// is one of the values goes on after it with that word recorded for the
/// parameter; any other word, or a quoted one, is an invalid parameter; a
/// line that ends there records no value if the parameter is optional, and
/// is missing a parameter otherwise.
pub proof fn lemma_parse_choice_records_word(
    am: bool,
    sel: Selection,
    tokens: Seq<TokenView>,
    cmds: Seq<Seq<char>>,
    args: ArgsView,
)
    ensures
        sel matches Selection::Alt { name, optional, values, next } ==> {
            &&& (tokens.len() > 0 && !tokens[0].quoted && exists|k: int|
                0 <= k < values@.len() && #[trigger] values@[k]@ == tokens[0].text) ==> parse_from(
                am,
                sel,
                tokens,
                cmds,
                args,
            ) == parse_from(
                am,
                *next,
                tokens.drop_first(),
                cmds,
                ArgsView { alts: args.alts.insert(name@, Some(tokens[0].text)), ..args },
            )
            &&& (tokens.len() > 0 && (tokens[0].quoted || forall|k: int|
                0 <= k < values@.len() ==> #[trigger] values@[k]@ != tokens[0].text)) ==> parse_from(
                am,
                sel,
                tokens,
                cmds,
                args,
            ) == Err::<(Seq<Seq<char>>, ArgsView), Error>(Error::InvalidParameter)
            &&& (tokens.len() == 0 && optional) ==> parse_from(am, sel, tokens, cmds, args) == parse_from(
                am,
                *next,
                tokens,
                cmds,
                ArgsView { alts: args.alts.insert(name@, None), ..args },
            )
            &&& (tokens.len() == 0 && !optional) ==> parse_from(am, sel, tokens, cmds, args) == Err::<
                (Seq<Seq<char>>, ArgsView),
                Error,
            >(Error::MissingParameter)
        },
{
    if let Selection::Alt { name, optional, values, next } = sel {
        if tokens.len() > 0 {
            if exists|k: int| 0 <= k < values@.len() && #[trigger] values@[k]@ == tokens[0].text {
                let k = choose|k: int| 0 <= k < values@.len() && #[trigger] values@[k]@ == tokens[0].text;
                assert(strings_view(values@)[k] == tokens[0].text);
            }
            if strings_view(values@).contains(tokens[0].text) {
                let k = choose|k: int| 0 <= k < strings_view(values@).len() && strings_view(values@)[k] == tokens[0].text;
                assert(values@[k]@ == tokens[0].text);
            }
        }
    }
}

/// What each other kind of node does with the line.  At a node of commands
/// and groups, an unquoted word naming a child (the first of that name) adds
/// that name to the path and goes on in that child; any other word is an
/// invalid command; a line that ends there is a missing command, unless
/// stopping there is accepted.  At a free string parameter the next word,
/// quoted or not, is recorded as its value.  At a boolean its first word
/// records `true` and its second `false`; any other word is an invalid
/// parameter.  At the end of a command the line must be over: what is left
/// is too many parameters.  At every parameter a line that ends there
/// records no value if the parameter is optional, and is missing a parameter
/// otherwise.
pub proof fn lemma_parse_node_laws(
    am: bool,
    sel: Selection,
    tokens: Seq<TokenView>,
    cmds: Seq<Seq<char>>,
    args: ArgsView,
)
    ensures
        sel matches Selection::Fixed(f) ==> {
            &&& forall|j: int|
                0 <= j < f@.len() && tokens.len() > 0 && !tokens[0].quoted && #[trigger] f@[j].0@ == tokens[0].text
                    && (forall|i: int| 0 <= i < j ==> f@[i].0@ != tokens[0].text) ==> parse_from(
                    am,
                    sel,
                    tokens,
                    cmds,
                    args,
                ) == parse_from(am, f@[j].1, tokens.drop_first(), cmds.push(tokens[0].text), args)
            &&& (tokens.len() > 0 && (tokens[0].quoted || forall|j: int|
                0 <= j < f@.len() ==> #[trigger] f@[j].0@ != tokens[0].text)) ==> parse_from(
                am,
                sel,
                tokens,
                cmds,
                args,
            ) == Err::<(Seq<Seq<char>>, ArgsView), Error>(Error::InvalidCommand)
            &&& tokens.len() == 0 ==> parse_from(am, sel, tokens, cmds, args) == if am {
                Ok::<(Seq<Seq<char>>, ArgsView), Error>((cmds, args))
            } else {
                Err(Error::MissingCommand)
            }
        },
        sel matches Selection::String { name, optional, next } ==> {
            &&& tokens.len() > 0 ==> parse_from(am, sel, tokens, cmds, args) == parse_from(
                am,
                *next,
                tokens.drop_first(),
                cmds,
                ArgsView { strings: args.strings.insert(name@, Some(tokens[0].text)), ..args },
            )
            &&& (tokens.len() == 0 && optional) ==> parse_from(am, sel, tokens, cmds, args) == parse_from(
                am,
                *next,
                tokens,
                cmds,
                ArgsView { strings: args.strings.insert(name@, None), ..args },
            )
            &&& (tokens.len() == 0 && !optional) ==> parse_from(am, sel, tokens, cmds, args) == Err::<
                (Seq<Seq<char>>, ArgsView),
                Error,
            >(Error::MissingParameter)
        },
        sel matches Selection::Bool { name, optional, values, next } ==> {
            &&& (tokens.len() > 0 && !tokens[0].quoted && tokens[0].text == values.0@) ==> parse_from(
                am,
                sel,
                tokens,
                cmds,
                args,
            ) == parse_from(
                am,
                *next,
                tokens.drop_first(),
                cmds,
                ArgsView { bools: args.bools.insert(name@, Some(true)), ..args },
            )
            &&& (tokens.len() > 0 && !tokens[0].quoted && tokens[0].text != values.0@ && tokens[0].text
                == values.1@) ==> parse_from(am, sel, tokens, cmds, args) == parse_from(
                am,
                *next,
                tokens.drop_first(),
                cmds,
                ArgsView { bools: args.bools.insert(name@, Some(false)), ..args },
            )
            &&& (tokens.len() > 0 && (tokens[0].quoted || (tokens[0].text != values.0@ && tokens[0].text
                != values.1@))) ==> parse_from(am, sel, tokens, cmds, args) == Err::<
                (Seq<Seq<char>>, ArgsView),
                Error,
            >(Error::InvalidParameter)
            &&& (tokens.len() == 0 && optional) ==> parse_from(am, sel, tokens, cmds, args) == parse_from(
                am,
                *next,
                tokens,
                cmds,
                ArgsView { bools: args.bools.insert(name@, None), ..args },
            )
            &&& (tokens.len() == 0 && !optional) ==> parse_from(am, sel, tokens, cmds, args) == Err::<
                (Seq<Seq<char>>, ArgsView),
                Error,
            >(Error::MissingParameter)
        },
        sel is End ==> parse_from(am, sel, tokens, cmds, args) == if tokens.len() == 0 {
            Ok::<(Seq<Seq<char>>, ArgsView), Error>((cmds, args))
        } else {
            Err(Error::ExtraToken)
        },
{
    if let Selection::Fixed(f) = sel {
        if tokens.len() > 0 {
            crate::repl::lemma_first_named_some(f@, tokens[0].text);
            assert forall|j: int|
                0 <= j < f@.len() && !tokens[0].quoted && #[trigger] f@[j].0@ == tokens[0].text && (forall|i: int|
                    0 <= i < j ==> f@[i].0@ != tokens[0].text) implies parse_from(am, sel, tokens, cmds, args)
                == parse_from(am, f@[j].1, tokens.drop_first(), cmds.push(tokens[0].text), args) by {
                crate::repl::lemma_first_named(f@, tokens[0].text, j);
            }
        }
    }
}

/// A command whose one parameter is a choice, given a value of it, parses
/// to that command with that value: `cmd v` gives the path `[cmd]` and the
/// choice recorded as `v`, and nothing else.
pub proof fn lemma_parse_command_with_choice(am: bool, tree: Selection, tokens: Seq<TokenView>, j: int)
    requires
        tokens.len() == 2,
        !tokens[0].quoted,
        !tokens[1].quoted,
        tree is Fixed,
        tree matches Selection::Fixed(f) ==> {
            &&& 0 <= j < f@.len()
            &&& f@[j].0@ == tokens[0].text
            &&& forall|i: int| 0 <= i < j ==> f@[i].0@ != tokens[0].text
            &&& f@[j].1 matches Selection::Alt { values, next, .. }
            &&& *next is End
            &&& exists|k: int| 0 <= k < values@.len() && #[trigger] values@[k]@ == tokens[1].text
        },
    ensures
        tree matches Selection::Fixed(f) ==> {
            &&& f@[j].1 matches Selection::Alt { name, .. }
            &&& spec_parse(am, tree, tokens) == Ok::<(Seq<Seq<char>>, ArgsView), Error>(
                (
                    seq![tokens[0].text],
                    ArgsView {
                        strings: Map::empty(),
                        alts: Map::empty().insert(name@, Some(tokens[1].text)),
                        bools: Map::empty(),
                    },
                ),
            )
        },
{
    if let Selection::Fixed(f) = tree {
        crate::repl::lemma_first_named(f@, tokens[0].text, j);
        let sel = f@[j].1;
        let rest = tokens.drop_first();
        assert(rest[0] == tokens[1]);
        lemma_parse_choice_records_word(am, sel, rest, Seq::empty().push(tokens[0].text), ArgsView::empty());
        assert(rest.drop_first().len() == 0);
        assert(Seq::<Seq<char>>::empty().push(tokens[0].text) =~= seq![tokens[0].text]);
    }
}

pub open spec fn parse_result_view(r: Result<(Vec<String>, Args), Error>) -> ParseView {
    match r {
        Ok((cmds, args)) => Ok((strings_view(cmds@), args@)),
        Err(e) => Err(e),
    }
}

/// What one step of the parser promises: from node `sel` with the state
/// `(t0, c0, a0)` it moved to the state `(t1, c1, a1)` and either went on to
/// the child `next`, finished, or failed, in each case as `parse_from` says.
pub open spec fn step_post(
    am: bool,
    sel: Selection,
    t0: Seq<TokenView>,
    c0: Seq<Seq<char>>,
    a0: ArgsView,
    t1: Seq<TokenView>,
    c1: Seq<Seq<char>>,
    a1: ArgsView,
    r: Result<Option<&Selection>, Error>,
) -> bool {
    match r {
        Ok(Some(next)) => {
            &&& parse_from(am, *next, t1, c1, a1) == parse_from(am, sel, t0, c0, a0)
            &&& decreases_to!(sel => *next)
        },
        Ok(None) => parse_from(am, sel, t0, c0, a0) == Ok::<(Seq<Seq<char>>, ArgsView), Error>((c1, a1)),
        Err(e) => parse_from(am, sel, t0, c0, a0) == Err::<(Seq<Seq<char>>, ArgsView), Error>(e),
    }
}

fn push_command(commands: &mut Vec<String>, name: String)
    ensures
        strings_view(final(commands)@) == strings_view(old(commands)@).push(name@),
{
    let ghost c0 = commands@;
    commands.push(name);
    assert(strings_view(commands@) =~= strings_view(c0).push(name@));
}

fn step_fixed<'a>(
    cfg: &ParseConfig,
    sel: &'a Selection,
    tokens: &mut TokenList,
    commands: &mut Vec<String>,
    args: &Args,
) -> (r: Result<Option<&'a Selection>, Error>)
    requires
        sel is Fixed,
    ensures
        step_post(
            cfg.accepts_missing_command(),
            *sel,
            tokens_view(old(tokens)@),
            strings_view(old(commands)@),
            args@,
            tokens_view(final(tokens)@),
            strings_view(final(commands)@),
            args@,
            r,
        ),
{
    match sel {
        Selection::Fixed(fixed) => match pop_token(tokens) {
            Some(token) => {
                if !token.quoted {
                    match find_named(fixed, &token.text) {
                        Some(j) => {
                            push_command(commands, token.text);
                            Ok(Some(&fixed[j].1))
                        },
                        None => Err(Error::InvalidCommand),
                    }
                } else {
                    Err(Error::InvalidCommand)
                }
            },
            None => {
                if cfg.accept_missing_command {
                    Ok(None)
                } else {
                    Err(Error::MissingCommand)
                }
            },
        },
        _ => Err(Error::InvalidCommand),
    }
}

fn step_param<'a>(
    am: Ghost<bool>,
    sel: &'a Selection,
    tokens: &mut TokenList,
    cmds: Ghost<Seq<Seq<char>>>,
    args: &mut Args,
) -> (r: Result<Option<&'a Selection>, Error>)
    requires
        !(sel is Fixed),
    ensures
        step_post(
            am@,
            *sel,
            tokens_view(old(tokens)@),
            cmds@,
            old(args)@,
            tokens_view(final(tokens)@),
            cmds@,
            final(args)@,
            r,
        ),
{
    match sel {
        Selection::String { name, optional, next } => match pop_token(tokens) {
            Some(token) => {
                args.add_string(name.clone(), Some(token.text));
                Ok(Some(&**next))
            },
            None => {
                if *optional {
                    args.add_string(name.clone(), None);
                    Ok(Some(&**next))
                } else {
                    Err(Error::MissingParameter)
                }
            },
        },
        Selection::Alt { name, optional, values, next } => match pop_token(tokens) {
            Some(token) => {
                if !token.quoted && contains_string(values, &token.text) {
                    args.add_alt(name.clone(), Some(token.text));
                    Ok(Some(&**next))
                } else {
                    Err(Error::InvalidParameter)
                }
            },
            None => {
                if *optional {
                    args.add_alt(name.clone(), None);
                    Ok(Some(&**next))
                } else {
                    Err(Error::MissingParameter)
                }
            },
        },
        Selection::Bool { name, optional, values, next } => match pop_token(tokens) {
            Some(token) => {
                if token.quoted {
                    Err(Error::InvalidParameter)
                } else if values.0 == token.text {
                    args.add_bool(name.clone(), Some(true));
                    Ok(Some(&**next))
                } else if values.1 == token.text {
                    args.add_bool(name.clone(), Some(false));
                    Ok(Some(&**next))
                } else {
                    Err(Error::InvalidParameter)
                }
            },
            None => {
                if *optional {
                    args.add_bool(name.clone(), None);
                    Ok(Some(&**next))
                } else {
                    Err(Error::MissingParameter)
                }
            },
        },
        _ => {
            if tokens.len() == 0 {
                Ok(None)
            } else {
                Err(Error::ExtraToken)
            }
        },
    }
}

/// Parses `tokens` against the tree `sel`: the commands named on the way
/// and the parameters' values.
pub fn parse(cfg: &ParseConfig, sel: &Selection, tokens: TokenList) -> (r: Result<
    (Vec<String>, Args),
    Error,
>)
    ensures
        parse_result_view(r) == spec_parse(cfg.accepts_missing_command(), *sel, tokens_view(tokens@)),
{
    let ghost am = cfg.accepts_missing_command();
    let ghost goal = spec_parse(am, *sel, tokens_view(tokens@));
    let mut toks = tokens;
    let mut cur = sel;
    let mut commands: Vec<String> = Vec::new();
    let mut args = Args::new();
    proof {
        assert(strings_view(commands@) =~= Seq::<Seq<char>>::empty());
    }
    loop
        invariant_except_break
            parse_from(am, *cur, tokens_view(toks@), strings_view(commands@), args@) == goal,
        invariant
            am == cfg.accepts_missing_command(),
            goal == spec_parse(am, *sel, tokens_view(tokens@)),
        ensures
            goal == Ok::<(Seq<Seq<char>>, ArgsView), Error>((strings_view(commands@), args@)),
        decreases *cur,
    {
        let ghost t0 = tokens_view(toks@);
        let ghost c0 = strings_view(commands@);
        let ghost a0 = args@;
        let step = if let Selection::Fixed(_) = cur {
            step_fixed(cfg, cur, &mut toks, &mut commands, &args)
        } else {
            step_param(Ghost(am), cur, &mut toks, Ghost(strings_view(commands@)), &mut args)
        };
        assert(step_post(am, *cur, t0, c0, a0, tokens_view(toks@), strings_view(commands@), args@, step));
        match step {
            Ok(Some(next)) => {
                cur = next;
            },
            Ok(None) => {
                break ;
            },
            Err(e) => {
                return Err(e);
            },
        }
    }
    Ok((commands, args))
}

} // verus!
