use cmdrepl::args::Args;
use cmdrepl::completion::complete;
use cmdrepl::help::param_help_name;
use cmdrepl::parser::{parse, Error as ParseError, ParseConfig};
use cmdrepl::repl::{Command, Group, Parameter, Repl};
use cmdrepl::session::{Action, Input};
use cmdrepl::tokenizer::tokenize;
use cmdrepl::Error;

fn sample() -> Repl<'static, (), u32> {
    Repl::<(), u32>::builder()
        .with_help()
        .with_prompt("$")
        .with_command(Command::new("quit", 1).with_help("leave"))
        .with_group(
            Group::new("user")
                .with_help("users")
                .with_command(
                    Command::new("add", 2)
                        .with_parameter(Parameter::string("name"))
                        .with_optional_parameter(Parameter::bool("admin", "yes", "no")),
                )
                .with_command(
                    Command::new("mode", 3)
                        .with_parameter(Parameter::alt("m", vec!["fast".to_string(), "slow".to_string()])),
                ),
        )
        .with_group(Group::new("empty"))
        .build()
}

fn line(s: &str) -> Input {
    Input::Line(s.to_string())
}

fn error_of(a: Action<'_, u32>) -> String {
    match a {
        Action::Error(m) => m,
        _ => panic!("expected an error"),
    }
}

fn spans(a: Action<'_, u32>) -> Vec<Vec<(String, bool)>> {
    match a {
        Action::Help(lines) => lines
            .into_iter()
            .map(|l| l.into_iter().map(|s| (s.text, s.bold)).collect())
            .collect(),
        _ => panic!("expected help"),
    }
}

fn b(s: &str) -> (String, bool) {
    (s.to_string(), true)
}

fn p(s: &str) -> (String, bool) {
    (s.to_string(), false)
}

#[test]
fn run_command_with_parameters() {
    let repl = sample();
    match repl.step(line("user add bob")) {
        Action::Run(cb, mut args) => {
            assert_eq!(*cb, 2);
            assert_eq!(args.get_string("name").unwrap(), Some("bob".to_string()));
            assert_eq!(args.get_bool("admin").unwrap(), None);
        }
        _ => panic!("expected a run"),
    }
    match repl.step(line("user add 'bob smith' no")) {
        Action::Run(cb, mut args) => {
            assert_eq!(*cb, 2);
            assert_eq!(args.get_string("name").unwrap(), Some("bob smith".to_string()));
            assert_eq!(args.get_bool("admin").unwrap(), Some(false));
        }
        _ => panic!("expected a run"),
    }
    match repl.step(line("user mode fast")) {
        Action::Run(cb, args) => {
            assert_eq!(*cb, 3);
            assert_eq!(args.get_alt("m").unwrap(), Some("fast"));
            assert!(matches!(args.get_alt("other"), Err(Error::ArgNotAvailable)));
        }
        _ => panic!("expected a run"),
    }
    match repl.step(line("quit")) {
        Action::Run(cb, _) => assert_eq!(*cb, 1),
        _ => panic!("expected a run"),
    }
}

#[test]
fn parse_errors_are_reported() {
    let repl = sample();
    assert_eq!(error_of(repl.step(line("user add"))), "missing parameter");
    assert_eq!(error_of(repl.step(line("user mode medium"))), "invalid parameter");
    assert_eq!(error_of(repl.step(line("user mode 'fast'"))), "invalid parameter");
    assert_eq!(error_of(repl.step(line("nothing"))), "invalid command");
    assert_eq!(error_of(repl.step(line("'quit'"))), "invalid command");
    assert_eq!(error_of(repl.step(line("quit now"))), "too many parameters");
    assert_eq!(error_of(repl.step(line("user"))), "missing command");
    assert_eq!(error_of(repl.step(line("quit 'x"))), "invalid input");
}

#[test]
fn empty_lines_and_empty_groups_do_nothing() {
    let repl = sample();
    assert!(matches!(repl.step(line("")), Action::Nothing));
    assert!(matches!(repl.step(line("   ")), Action::Nothing));
    assert!(matches!(repl.step(line("empty")), Action::Nothing));
}

#[test]
fn reading_stops() {
    let repl = sample();
    match repl.step(Input::Eof) {
        Action::Quit(m, bold) => {
            assert_eq!(m, "Bye");
            assert!(!bold);
        }
        _ => panic!("expected quit"),
    }
    assert!(matches!(repl.step(Input::Interrupted), Action::Quit(ref m, false) if m == "Bye"));
    match repl.step(Input::Failed("boom".to_string())) {
        Action::Quit(m, bold) => {
            assert_eq!(m, "readline: boom");
            assert!(bold);
        }
        _ => panic!("expected quit"),
    }
}

#[test]
fn help_screens() {
    let repl = sample();
    assert_eq!(
        spans(repl.step(line("help"))),
        vec![
            vec![b(""), b("quit "), p("        leave")],
            vec![b(""), b("user "), p(" […]    users")],
            vec![b(""), b("empty"), p(" […]")],
        ]
    );
    assert_eq!(
        spans(repl.step(line("help user"))),
        vec![
            vec![b("user "), b("add"), p(" […]")],
            vec![b("user "), b("mode"), p(" […]")],
        ]
    );
    assert_eq!(
        spans(repl.step(line("help user add"))),
        vec![vec![b("user add "), b("'name' [yes|no] ")]]
    );
    assert_eq!(
        spans(repl.step(line("help user mode"))),
        vec![vec![b("user mode "), b("m ")]]
    );
    assert_eq!(spans(repl.step(line("help quit"))), vec![vec![b("quit "), p("   leave")]]);
    assert_eq!(spans(repl.step(line("help empty"))), Vec::<Vec<(String, bool)>>::new());
    assert_eq!(error_of(repl.step(line("help nothing"))), "invalid command");
}

#[test]
fn without_help_the_word_help_is_a_plain_command_name() {
    let repl = Repl::<(), u32>::builder().with_command(Command::new("help", 7)).build();
    assert!(repl.help.is_none());
    match repl.step(line("help")) {
        Action::Run(cb, _) => assert_eq!(*cb, 7),
        _ => panic!("expected a run"),
    }
}

#[test]
fn builder_defaults() {
    let b = Repl::<(), u32>::builder();
    assert_eq!(b.prompt, ">");
    assert!(!b.help);
    assert!(b.ctx.is_none());
    let ctx = 5u8;
    let r = Repl::<u8, u32>::builder().with_context(&ctx).with_prompt("# ").build();
    assert_eq!(r.ctx, Some(&5u8));
    assert_eq!(r.prompt, "# ");
    assert!(matches!(r.step(line("x")), Action::Error(_)));
}

#[test]
fn callbacks_by_path() {
    let repl = sample();
    let path = |v: &[&str]| v.iter().map(|s| s.to_string()).collect::<Vec<String>>();
    assert_eq!(repl.callbacks.get(&path(&["quit"])), Some(&1));
    assert_eq!(repl.callbacks.get(&path(&["user", "add"])), Some(&2));
    assert_eq!(repl.callbacks.get(&path(&["user", "mode"])), Some(&3));
    assert_eq!(repl.callbacks.get(&path(&["user"])), None);
    assert_eq!(repl.callbacks.get(&path(&["empty"])), None);
}

#[test]
fn later_command_of_the_same_name_wins_the_callback() {
    let repl = Repl::<(), u32>::builder()
        .with_command(Command::new("a", 1))
        .with_command(Command::new("a", 2))
        .build();
    match repl.step(line("a")) {
        Action::Run(cb, _) => assert_eq!(*cb, 2),
        _ => panic!("expected a run"),
    }
}

#[test]
fn completion() {
    let repl = sample();
    let tree = &repl.parse_tree;
    let c = |l: &str, pos: usize| {
        let (at, v) = complete(tree, l, pos);
        (at, v.into_iter().map(|c| (c.display, c.replacement)).collect::<Vec<_>>())
    };
    let pair = |d: &str, r: &str| (d.to_string(), r.to_string());
    assert_eq!(
        c("", 0),
        (0, vec![pair("help", "help "), pair("quit", "quit "), pair("user", "user "), pair("empty", "empty ")])
    );
    assert_eq!(c("us", 2), (0, vec![pair("user", "user ")]));
    assert_eq!(c("user xyz", 2), (0, vec![pair("user", "user ")]));
    assert_eq!(c("user ", 5), (5, vec![pair("add", "add "), pair("mode", "mode ")]));
    assert_eq!(c("user m", 6), (5, vec![pair("mode", "mode ")]));
    assert_eq!(c("user add ", 9), (9, vec![pair("'name'", "'name' ")]));
    assert_eq!(c("user add bob", 12), (0, vec![]));
    assert_eq!(c("user add bob ", 13), (13, vec![pair("[yes]", "yes "), pair("[no]", "no ")]));
    assert_eq!(c("user add bob y", 14), (13, vec![pair("[yes]", "yes ")]));
    assert_eq!(c("user mode f", 11), (10, vec![pair("fast", "fast ")]));
    assert_eq!(c("user mode 'f", 12), (0, vec![]));
    assert_eq!(c("'us", 3), (0, vec![]));
    assert_eq!(c("quit ", 5), (0, vec![]));
    assert_eq!(c("help u", 6), (5, vec![pair("user", "user ")]));
}

#[test]
fn parse_against_the_tree() {
    let repl = sample();
    let tree = &repl.parse_tree;
    let (cmds, mut args) = parse(&ParseConfig::default(), tree, tokenize("user add x yes").unwrap()).unwrap();
    assert_eq!(cmds, vec!["user".to_string(), "add".to_string()]);
    assert_eq!(args.get_string("name").unwrap(), Some("x".to_string()));
    assert!(matches!(args.get_string("name"), Err(Error::ArgNotAvailable)));
    assert_eq!(args.get_bool("admin").unwrap(), Some(true));
    assert!(matches!(
        parse(&ParseConfig::default(), tree, tokenize("user").unwrap()),
        Err(ParseError::MissingCommand)
    ));
    let (cmds, _) = parse(&ParseConfig::for_help(), tree, tokenize("user").unwrap()).unwrap();
    assert_eq!(cmds, vec!["user".to_string()]);
    let (cmds, _) = parse(&ParseConfig::for_help(), tree, tokenize("help user add").unwrap()).unwrap();
    assert_eq!(cmds, vec!["help".to_string(), "user".to_string(), "add".to_string()]);
    assert!(matches!(
        parse(&ParseConfig::for_help(), tree, tokenize("help user add bob").unwrap()),
        Err(ParseError::ExtraToken)
    ));
}

#[test]
fn help_parsing_agrees_with_running_parse() {
    let repl = sample();
    let tree = &repl.parse_tree;
    for l in ["user add x", "quit", "user mode slow", "nothing", "quit x", "user add"] {
        let run = parse(&ParseConfig::default(), tree, tokenize(l).unwrap());
        let help = parse(&ParseConfig::for_help(), tree, tokenize(l).unwrap());
        match (run, help) {
            (Ok((c1, _)), Ok((c2, _))) => assert_eq!(c1, c2),
            (Err(e1), Err(e2)) => assert_eq!(e1, e2),
            _ => panic!("results differ for {l}"),
        }
    }
}

#[test]
fn error_messages() {
    assert_eq!(Error::ArgNotAvailable.to_string(), "argument not available");
    assert_eq!(ParseError::MissingCommand.to_string(), "missing command");
    assert_eq!(ParseError::InvalidCommand.to_string(), "invalid command");
    assert_eq!(ParseError::MissingParameter.to_string(), "missing parameter");
    assert_eq!(ParseError::InvalidParameter.to_string(), "invalid parameter");
    assert_eq!(ParseError::ExtraToken.to_string(), "too many parameters");
}

#[test]
fn args_tables() {
    let mut a = Args::new();
    assert!(matches!(a.get_string("x"), Err(Error::ArgNotAvailable)));
    a.add_string("x".to_string(), Some("1".to_string()));
    a.add_string("x".to_string(), Some("2".to_string()));
    a.add_string("y".to_string(), None);
    a.add_alt("k".to_string(), Some("v".to_string()));
    a.add_bool("f".to_string(), Some(true));
    a.add_bool("f".to_string(), None);
    assert_eq!(a.get_string("x").unwrap(), Some("2".to_string()));
    assert!(matches!(a.get_string("x"), Err(Error::ArgNotAvailable)));
    assert_eq!(a.get_string("y").unwrap(), None);
    assert_eq!(a.get_alt("k").unwrap(), Some("v"));
    assert_eq!(a.get_alt("k").unwrap(), Some("v"));
    assert_eq!(a.get_bool("f").unwrap(), None);
    assert!(matches!(a.get_bool("g"), Err(Error::ArgNotAvailable)));
}

#[test]
fn parameter_help_names() {
    assert_eq!(param_help_name(&Parameter::string("n")), "'n'");
    let mut o = Parameter::string("n");
    o.optional = true;
    assert_eq!(param_help_name(&o), "['n']");
    assert_eq!(param_help_name(&Parameter::bool("b", "on", "off")), "on|off");
    assert_eq!(param_help_name(&Parameter::alt("a", vec!["x".to_string()])), "a");
}

#[test]
fn completion_ignores_text_after_the_cursor() {
    let repl = sample();
    let tree = &repl.parse_tree;
    for (line, pos) in [("user add bob yes", 9), ("us whatever", 2), ("user m xyz", 6), ("'u x", 2)] {
        let (a, ca) = complete(tree, line, pos);
        let (b, cb) = complete(tree, &line[..pos], pos);
        assert_eq!(a, b);
        let ca: Vec<_> = ca.into_iter().map(|c| (c.display, c.replacement)).collect();
        let cb: Vec<_> = cb.into_iter().map(|c| (c.display, c.replacement)).collect();
        assert_eq!(ca, cb);
        assert!(a <= pos);
        assert!(ca.iter().all(|(_, r)| r.ends_with(' ')));
    }
}

#[test]
fn last_set_value_is_read() {
    let mut a = Args::new();
    a.add_bool("f".to_string(), Some(true));
    a.add_string("f".to_string(), Some("s".to_string()));
    a.add_alt("f".to_string(), None);
    a.add_bool("f".to_string(), Some(false));
    a.add_string("g".to_string(), None);
    assert_eq!(a.get_bool("f").unwrap(), Some(false));
    assert_eq!(a.get_bool("f").unwrap(), Some(false));
    assert!(matches!(a.get_bool("g"), Err(Error::ArgNotAvailable)));
    assert_eq!(a.get_alt("f").unwrap(), None);
}
