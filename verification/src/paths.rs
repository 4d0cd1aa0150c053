//! Which command lines the command tree accepts, and which of them have a
//! callback.

use vstd::prelude::*;

use crate::args::ArgsView;
use crate::callbacks::PathView;
use crate::parser::{parse_from, spec_parse};
use crate::repl::{
    chain_matches, command_callbacks, first_named, fixed_matches, prefixed, tree_callbacks, tree_matches,
    Command, Group, Selection,
};
use crate::tokenizer::TokenView;

verus! {

/// `p` is the path of a command of the tree: a command's name, or a group's
/// name followed by the path of a command inside the group.
pub open spec fn is_command_path<Cb>(grps: Seq<Group<Cb>>, cmds: Seq<Command<Cb>>, p: PathView) -> bool
    decreases grps,
{
    ||| p.len() == 1 && exists|i: int| 0 <= i < cmds.len() && #[trigger] cmds[i].name@ == p[0]
    ||| p.len() > 1 && exists|j: int|
        0 <= j < grps.len() && #[trigger] grps[j].name@ == p[0] && is_command_path(
            grps[j].grps@,
            grps[j].cmds@,
            p.drop_first(),
        )
}

/// `p` is the path of a group of the tree that holds neither commands nor
/// groups.
pub open spec fn is_empty_group_path<Cb>(grps: Seq<Group<Cb>>, p: PathView) -> bool
    decreases grps,
{
    p.len() >= 1 && exists|j: int|
        0 <= j < grps.len() && #[trigger] grps[j].name@ == p[0] && if p.len() == 1 {
            grps[j].grps@.len() + grps[j].cmds@.len() == 0
        } else {
            is_empty_group_path(grps[j].grps@, p.drop_first())
        }
}

proof fn lemma_command_callbacks_paths<Cb>(cmds: Seq<Command<Cb>>, p: PathView)
    ensures
        command_callbacks(cmds).contains_key(p) <==> (p.len() == 1 && exists|i: int|
            0 <= i < cmds.len() && #[trigger] cmds[i].name@ == p[0]),
    decreases cmds.len(),
{
    if cmds.len() > 0 {
        let d = cmds.drop_last();
        lemma_command_callbacks_paths(d, p);
        if p.len() == 1 && exists|i: int| 0 <= i < cmds.len() && #[trigger] cmds[i].name@ == p[0] {
            let i = choose|i: int| 0 <= i < cmds.len() && #[trigger] cmds[i].name@ == p[0];
            if i < cmds.len() - 1 {
                assert(d[i].name@ == p[0]);
            } else {
                assert(p =~= seq![cmds.last().name@]);
            }
        }
        if command_callbacks(cmds).contains_key(p) {
            if p == seq![cmds.last().name@] {
                assert(cmds[cmds.len() - 1].name@ == p[0]);
            } else {
                let i = choose|i: int| 0 <= i < d.len() && #[trigger] d[i].name@ == p[0];
                assert(cmds[i].name@ == p[0]);
            }
        }
    }
}

/// A tree's callbacks are registered exactly under the paths of its
/// commands.
pub proof fn lemma_callback_paths<Cb>(grps: Seq<Group<Cb>>, cmds: Seq<Command<Cb>>, p: PathView)
    ensures
        tree_callbacks(grps, cmds).contains_key(p) <==> is_command_path(grps, cmds, p),
    decreases grps,
{
    if grps.len() == 0 {
        lemma_command_callbacks_paths(cmds, p);
    } else {
        let d = grps.drop_last();
        let g = grps.last();
        lemma_callback_paths(d, cmds, p);
        lemma_command_callbacks_paths(cmds, p);
        if p.len() > 0 {
            lemma_callback_paths(g.grps@, g.cmds@, p.drop_first());
        }
        let inner = tree_callbacks(g.grps@, g.cmds@);
        if is_command_path(grps, cmds, p) {
            if p.len() > 1 && !(p.len() == 1 && exists|i: int| 0 <= i < cmds.len() && #[trigger] cmds[i].name@ == p[0]) {
                let j = choose|j: int|
                    0 <= j < grps.len() && #[trigger] grps[j].name@ == p[0] && is_command_path(
                        grps[j].grps@,
                        grps[j].cmds@,
                        p.drop_first(),
                    );
                if j < grps.len() - 1 {
                    assert(d[j] == grps[j]);
                    assert(is_command_path(d, cmds, p));
                } else {
                    assert(prefixed(g.name@, inner).contains_key(p));
                }
            } else {
                assert(is_command_path(d, cmds, p));
            }
        }
        if tree_callbacks(grps, cmds).contains_key(p) {
            if prefixed(g.name@, inner).contains_key(p) {
                lemma_path_nonempty(g.grps@, g.cmds@, p.drop_first());
                assert(grps[grps.len() - 1] == g);
                assert(is_command_path(grps, cmds, p));
            } else {
                assert(is_command_path(d, cmds, p));
                if p.len() > 1 {
                    let j = choose|j: int|
                        0 <= j < d.len() && #[trigger] d[j].name@ == p[0] && is_command_path(
                            d[j].grps@,
                            d[j].cmds@,
                            p.drop_first(),
                        );
                    assert(grps[j] == d[j]);
                }
            }
        }
    }
}

proof fn lemma_path_nonempty<Cb>(grps: Seq<Group<Cb>>, cmds: Seq<Command<Cb>>, p: PathView)
    ensures
        is_command_path(grps, cmds, p) ==> p.len() >= 1,
{
}

/// Parsing along a parameter chain adds no command.
proof fn lemma_chain_adds_nothing(
    sel: Selection,
    params: Seq<crate::repl::Parameter>,
    toks: Seq<TokenView>,
    pre: PathView,
    args: ArgsView,
)
    requires
        chain_matches(sel, params),
    ensures
        parse_from(false, sel, toks, pre, args) matches Ok((p, _)) ==> p == pre,
    decreases params.len(),
{
    if params.len() > 0 {
        match sel {
            Selection::String { name, optional, next } => {
                if toks.len() > 0 {
                    lemma_chain_adds_nothing(*next, params.drop_first(), toks.drop_first(), pre, args.with_string(name@, Some(toks[0].text)));
                } else {
                    lemma_chain_adds_nothing(*next, params.drop_first(), toks, pre, args.with_string(name@, None));
                }
            },
            Selection::Alt { name, optional, values, next } => {
                if toks.len() > 0 {
                    lemma_chain_adds_nothing(*next, params.drop_first(), toks.drop_first(), pre, args.with_alt(name@, Some(toks[0].text)));
                } else {
                    lemma_chain_adds_nothing(*next, params.drop_first(), toks, pre, args.with_alt(name@, None));
                }
            },
            Selection::Bool { name, optional, values, next } => {
                if toks.len() > 0 {
                    lemma_chain_adds_nothing(*next, params.drop_first(), toks.drop_first(), pre, args.with_bool(name@, Some(true)));
                    lemma_chain_adds_nothing(*next, params.drop_first(), toks.drop_first(), pre, args.with_bool(name@, Some(false)));
                } else {
                    lemma_chain_adds_nothing(*next, params.drop_first(), toks, pre, args.with_bool(name@, None));
                }
            },
            _ => {},
        }
    }
}

/// What parsing (for running) from the children `fixed` of a tree node adds
/// to the path: the path of a command, or of an empty group.
pub open spec fn parsed_ok<Cb>(grps: Seq<Group<Cb>>, cmds: Seq<Command<Cb>>, q: PathView) -> bool {
    ||| is_command_path(grps, cmds, q)
    ||| is_empty_group_path(grps, q)
    ||| (q.len() == 0 && grps.len() + cmds.len() == 0)
}

#[verifier::spinoff_prover]
#[verifier::rlimit(40)]
proof fn lemma_parse_fixed_paths<Cb>(
    fixed: Seq<(String, Selection)>,
    grps: Seq<Group<Cb>>,
    cmds: Seq<Command<Cb>>,
    toks: Seq<TokenView>,
    pre: PathView,
    args: ArgsView,
)
    requires
        fixed_matches(fixed, grps, cmds),
        toks.len() > 0,
        !toks[0].quoted,
        first_named(fixed, toks[0].text) is Some,
    ensures
        ({
            let j = first_named(fixed, toks[0].text)->0;
            parse_from(false, fixed[j].1, toks.drop_first(), pre.push(toks[0].text), args) matches Ok((p, _))
                ==> p.len() > pre.len() && p.take(pre.len() as int) == pre && parsed_ok(
                grps,
                cmds,
                p.skip(pre.len() as int),
            )
        }),
    decreases grps, 0int,
{
    let t = toks[0].text;
    let j = first_named(fixed, t)->0;
    let pre2 = pre.push(t);
    crate::repl::lemma_first_named_some(fixed, t);
    assert(0 <= j < fixed.len() && fixed[j].0@ == t);
    if j < cmds.len() {
        lemma_chain_adds_nothing(fixed[j].1, cmds[j].params@, toks.drop_first(), pre2, args);
        if let Ok((p, _)) = parse_from(false, fixed[j].1, toks.drop_first(), pre2, args) {
            assert(p.take(pre.len() as int) =~= pre);
            assert(p.skip(pre.len() as int) =~= seq![t]);
            assert(cmds[j].name@ == p.skip(pre.len() as int)[0]);
        }
    } else {
        let k = j - cmds.len();
        let g = grps[k];
        assert(fixed[cmds.len() + k] == fixed[j]);
        lemma_parse_tree_paths(fixed[j].1, g.grps@, g.cmds@, toks.drop_first(), pre2, args);
        if let Ok((p, _)) = parse_from(false, fixed[j].1, toks.drop_first(), pre2, args) {
            let q = p.skip(pre.len() as int);
            let q2 = p.skip(pre2.len() as int);
            assert(p.take(pre.len() as int) =~= pre2.take(pre.len() as int));
            assert(p.take(pre.len() as int) =~= pre);
            assert(q.drop_first() =~= q2);
            assert(p[pre.len() as int] == p.take(pre2.len() as int)[pre.len() as int]);
            assert(q[0] == t);
            assert(g.name@ == t);
            if is_command_path(g.grps@, g.cmds@, q2) {
                lemma_path_nonempty(g.grps@, g.cmds@, q2);
                assert(is_command_path(grps, cmds, q));
            } else if is_empty_group_path(g.grps@, q2) {
                assert(is_empty_group_path(grps, q));
            } else {
                assert(q =~= seq![t]);
                assert(is_empty_group_path(grps, q));
            }
        }
    }
}

/// Parsing (for running) against the tree of a list of groups and commands
/// adds to the path the path of a command, or of an empty group, or nothing
/// when the tree is empty.
pub proof fn lemma_parse_tree_paths<Cb>(
    sel: Selection,
    grps: Seq<Group<Cb>>,
    cmds: Seq<Command<Cb>>,
    toks: Seq<TokenView>,
    pre: PathView,
    args: ArgsView,
)
    requires
        tree_matches(sel, grps, cmds),
    ensures
        parse_from(false, sel, toks, pre, args) matches Ok((p, _)) ==> p.len() >= pre.len() && p.take(
            pre.len() as int,
        ) == pre && parsed_ok(grps, cmds, p.skip(pre.len() as int)),
    decreases grps, 1int,
{
    match sel {
        Selection::Fixed(fixed) => {
            if toks.len() > 0 && !toks[0].quoted && first_named(fixed@, toks[0].text) is Some {
                let j = first_named(fixed@, toks[0].text)->0;
                lemma_parse_fixed_paths(fixed@, grps, cmds, toks, pre, args);
            }
        },
        Selection::End => {
            if let Ok((p, _)) = parse_from(false, sel, toks, pre, args) {
                assert(p.take(pre.len() as int) =~= pre);
                assert(p.skip(pre.len() as int) =~= Seq::<Seq<char>>::empty());
            }
        },
        _ => {},
    }
}

/// Every line that parses for running against the tree of a list of groups
/// and commands names a command, whose callback is registered, or a group
/// that holds nothing (or nothing at all, when the tree is empty).
#[verifier::spinoff_prover]
pub proof fn lemma_parsed_line_has_callback<Cb>(
    sel: Selection,
    grps: Seq<Group<Cb>>,
    cmds: Seq<Command<Cb>>,
    toks: Seq<TokenView>,
)
    requires
        tree_matches(sel, grps, cmds),
    ensures
        spec_parse(false, sel, toks) matches Ok((p, _)) ==> {
            ||| tree_callbacks(grps, cmds).contains_key(p)
            ||| is_empty_group_path(grps, p)
            ||| (p.len() == 0 && grps.len() + cmds.len() == 0)
        },
{
    lemma_parse_tree_paths(sel, grps, cmds, toks, Seq::empty(), ArgsView::empty());
    if let Ok((p, _)) = spec_parse(false, sel, toks) {
        assert(p.skip(0) =~= p);
        lemma_callback_paths(grps, cmds, p);
    }
}

proof fn lemma_first_named_skip(fixed: Seq<(String, Selection)>, name: Seq<char>)
    requires
        fixed.len() > 0,
        fixed[0].0@ != name,
    ensures
        first_named(fixed, name) matches Some(j) ==> j >= 1 && first_named(fixed.drop_first(), name) == Some(
            j - 1,
        ),
        first_named(fixed, name) is None ==> first_named(fixed.drop_first(), name) is None,
{
    crate::repl::lemma_first_named_some(fixed, name);
    crate::repl::lemma_first_named_some(fixed.drop_first(), name);
    let d = fixed.drop_first();
    if let Some(j) = first_named(fixed, name) {
        crate::repl::lemma_first_named_found(fixed, name, j);
        assert(d[j - 1] == fixed[j]);
        crate::repl::lemma_first_named_found(d, name, j - 1);
        let j2 = first_named(d, name)->0;
        assert(fixed[j2 + 1] == d[j2]);
        if j2 < j - 1 {
            assert(fixed[j2 + 1].0@ != name);
        }
    } else {
        if let Some(j2) = first_named(d, name) {
            assert(fixed[j2 + 1] == d[j2]);
            crate::repl::lemma_first_named_found(fixed, name, j2 + 1);
        }
    }
}

/// The same for a tree with help enabled, whose first child is the `help`
/// entry: every line that does not start with `help` and parses for running
/// names a command with a registered callback, or an empty group.
#[verifier::spinoff_prover]
#[verifier::rlimit(40)]
pub proof fn lemma_parsed_line_has_callback_with_help<Cb>(
    sel: Selection,
    grps: Seq<Group<Cb>>,
    cmds: Seq<Command<Cb>>,
    toks: Seq<TokenView>,
)
    requires
        sel matches Selection::Fixed(f) && f@.len() > 0 && f@[0].0@ == crate::repl::help_word()
            && fixed_matches(f@.drop_first(), grps, cmds),
        toks.len() > 0,
        toks[0].text != crate::repl::help_word(),
    ensures
        spec_parse(false, sel, toks) matches Ok((p, _)) ==> {
            ||| tree_callbacks(grps, cmds).contains_key(p)
            ||| is_empty_group_path(grps, p)
        },
{
    if let Selection::Fixed(f) = sel {
        let t = toks[0].text;
        lemma_first_named_skip(f@, t);
        if !toks[0].quoted {
            if let Some(j) = first_named(f@, t) {
                crate::repl::lemma_first_named_some(f@, t);
                assert(f@.drop_first()[j - 1] == f@[j]);
                lemma_parse_fixed_paths(f@.drop_first(), grps, cmds, toks, Seq::empty(), ArgsView::empty());
                if let Ok((p, _)) = spec_parse(false, sel, toks) {
                    assert(p.skip(0) =~= p);
                    lemma_callback_paths(grps, cmds, p);
                }
            }
        }
    }
}

proof fn lemma_command_callback_last<Cb>(cmds: Seq<Command<Cb>>, i: int)
    requires
        0 <= i < cmds.len(),
        forall|k: int| 0 <= k < cmds.len() && k != i ==> #[trigger] cmds[k].name@ != cmds[i].name@,
    ensures
        command_callbacks(cmds).contains_key(seq![cmds[i].name@]),
        command_callbacks(cmds)[seq![cmds[i].name@]] == cmds[i].cb,
    decreases cmds.len(),
{
    let n = cmds[i].name@;
    if i < cmds.len() - 1 {
        let d = cmds.drop_last();
        assert forall|k: int| 0 <= k < d.len() && k != i implies #[trigger] d[k].name@ != d[i].name@ by {
            assert(d[k] == cmds[k]);
        }
        lemma_command_callback_last(d, i);
        assert(cmds.last().name@ != n);
        assert(seq![cmds.last().name@] != seq![n]) by {
            assert(seq![cmds.last().name@][0] != seq![n][0]);
        }
    }
}

proof fn lemma_single_name_paths<Cb>(grps: Seq<Group<Cb>>, cmds: Seq<Command<Cb>>, n: Seq<char>)
    ensures
        tree_callbacks(grps, cmds).contains_key(seq![n]) == command_callbacks(cmds).contains_key(seq![n]),
        command_callbacks(cmds).contains_key(seq![n]) ==> tree_callbacks(grps, cmds)[seq![n]]
            == command_callbacks(cmds)[seq![n]],
    decreases grps,
{
    if grps.len() > 0 {
        let g = grps.last();
        lemma_single_name_paths(grps.drop_last(), cmds, n);
        let q = seq![n].drop_first();
        assert(q =~= Seq::<Seq<char>>::empty());
        lemma_callback_paths(g.grps@, g.cmds@, q);
    }
}

/// A line that starts with the name of a top-level command, which no other
/// command or group at the top takes, and parses for running, runs that
/// command's own callback.
#[verifier::spinoff_prover]
pub proof fn lemma_named_command_runs_its_callback<Cb>(
    sel: Selection,
    grps: Seq<Group<Cb>>,
    cmds: Seq<Command<Cb>>,
    i: int,
    toks: Seq<TokenView>,
)
    requires
        tree_matches(sel, grps, cmds),
        0 <= i < cmds.len(),
        forall|k: int| 0 <= k < cmds.len() && k != i ==> #[trigger] cmds[k].name@ != cmds[i].name@,
        forall|j: int| 0 <= j < grps.len() ==> #[trigger] grps[j].name@ != cmds[i].name@,
        toks.len() > 0,
        toks[0].text == cmds[i].name@,
    ensures
        spec_parse(false, sel, toks) matches Ok((p, _)) ==> {
            &&& p == seq![cmds[i].name@]
            &&& tree_callbacks(grps, cmds).contains_key(p)
            &&& tree_callbacks(grps, cmds)[p] == cmds[i].cb
        },
{
    let n = cmds[i].name@;
    if let Selection::Fixed(f) = sel {
        let fixed = f@;
        assert(fixed[i].0 == cmds[i].name);
        assert forall|k: int| 0 <= k < i implies #[trigger] fixed[k].0@ != n by {
            assert(fixed[k].0 == cmds[k].name);
        }
        crate::repl::lemma_first_named(fixed, n, i);
        lemma_chain_adds_nothing(fixed[i].1, cmds[i].params@, toks.drop_first(), Seq::empty().push(n), ArgsView::empty());
        assert(Seq::<Seq<char>>::empty().push(n) =~= seq![n]);
        lemma_command_callback_last(cmds, i);
        lemma_single_name_paths(grps, cmds, n);
    }
}

} // verus!
