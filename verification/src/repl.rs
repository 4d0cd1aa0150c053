//! The command tree: parameters, commands, groups of commands, and the
//! selection tree that the parser walks.

use vstd::prelude::*;
use vstd::string::*;

use crate::callbacks::{entries_map, CallbackMap, PathView};
use crate::help::{build_help_tree, help_list_matches, help_tree_matches, HelpList};
use crate::table::{has_key, keys_distinct};

verus! {

/// The tree that a command line is parsed against.  At a `Fixed` node the
/// next token names one of the children; at a parameter node the next token
/// is the parameter's value; at `End` the line must be over.
#[allow(inconsistent_fields)]
pub enum Selection {
    Fixed(Vec<(String, Selection)>),
    String { name: String, optional: bool, next: Box<Selection> },
    Alt { name: String, optional: bool, values: Vec<String>, next: Box<Selection> },
    Bool { name: String, optional: bool, values: (String, String), next: Box<Selection> },
    End,
}

/// The views of a list of strings.
pub open spec fn strings_view(v: Seq<String>) -> Seq<Seq<char>> {
    v.map_values(|s: String| s@)
}

/// The index of the first child of a `Fixed` node that is named `name`.
pub open spec fn first_named(fixed: Seq<(String, Selection)>, name: Seq<char>) -> Option<int> {
    if exists|j: int| 0 <= j < fixed.len() && #[trigger] fixed[j].0@ == name {
        Some(
            choose|j: int|
                0 <= j < fixed.len() && #[trigger] fixed[j].0@ == name && forall|k: int|
                    0 <= k < j ==> #[trigger] fixed[k].0@ != name,
        )
    } else {
        None
    }
}

/// A child named `name`, with no child of that name before it, is the one
/// found.
pub proof fn lemma_first_named(fixed: Seq<(String, Selection)>, name: Seq<char>, i: int)
    requires
        0 <= i < fixed.len(),
        fixed[i].0@ == name,
        forall|k: int| 0 <= k < i ==> #[trigger] fixed[k].0@ != name,
    ensures
        first_named(fixed, name) == Some(i),
{
    assert(fixed[i].0@ == name);
    let j = choose|j: int|
        0 <= j < fixed.len() && #[trigger] fixed[j].0@ == name && forall|k: int|
            0 <= k < j ==> #[trigger] fixed[k].0@ != name;
    assert(0 <= j < fixed.len() && fixed[j].0@ == name && forall|k: int|
            0 <= k < j ==> #[trigger] fixed[k].0@ != name) by {
        assert(forall|k: int| 0 <= k < i ==> #[trigger] fixed[k].0@ != name);
    }
    if j < i {
        assert(fixed[j].0@ != name);
    } else if j > i {
        assert(fixed[i].0@ != name);
    }
}

/// If some child is named `name`, the first such child is found.
pub proof fn lemma_first_named_found(fixed: Seq<(String, Selection)>, name: Seq<char>, i: int)
    requires
        0 <= i < fixed.len(),
        fixed[i].0@ == name,
    ensures
        first_named(fixed, name) matches Some(j) && 0 <= j <= i && fixed[j].0@ == name && forall|k: int|
            0 <= k < j ==> #[trigger] fixed[k].0@ != name,
    decreases i,
{
    if exists|k: int| 0 <= k < i && #[trigger] fixed[k].0@ == name {
        let k = choose|k: int| 0 <= k < i && #[trigger] fixed[k].0@ == name;
        lemma_first_named_found(fixed, name, k);
    } else {
        lemma_first_named(fixed, name, i);
    }
}

/// The child that `first_named` gives is a child named `name`.
pub proof fn lemma_first_named_some(fixed: Seq<(String, Selection)>, name: Seq<char>)
    ensures
        first_named(fixed, name) matches Some(j) ==> 0 <= j < fixed.len() && fixed[j].0@ == name,
{
    if exists|j: int| 0 <= j < fixed.len() && #[trigger] fixed[j].0@ == name {
        let i = choose|j: int| 0 <= j < fixed.len() && #[trigger] fixed[j].0@ == name;
        lemma_first_named_found(fixed, name, i);
    }
}

/// Finds the first child of a `Fixed` node named `name`.
pub fn find_named(fixed: &Vec<(String, Selection)>, name: &String) -> (r: Option<usize>)
    ensures
        match r {
            Some(i) => first_named(fixed@, name@) == Some(i as int) && i < fixed@.len(),
            None => first_named(fixed@, name@) is None,
        },
{
    let mut i: usize = 0;
    while i < fixed.len()
        invariant
            0 <= i <= fixed@.len(),
            forall|k: int| 0 <= k < i ==> #[trigger] fixed@[k].0@ != name@,
        decreases fixed.len() - i,
    {
        if fixed[i].0 == *name {
            proof {
                lemma_first_named(fixed@, name@, i as int);
            }
            return Some(i);
        }
        i = i + 1;
    }
    None
}

/// Whether `value` is among `values`.
pub fn contains_string(values: &Vec<String>, value: &String) -> (r: bool)
    ensures
        r == strings_view(values@).contains(value@),
{
    let mut i: usize = 0;
    while i < values.len()
        invariant
            0 <= i <= values@.len(),
            forall|k: int| 0 <= k < i ==> #[trigger] values@[k]@ != value@,
        decreases values.len() - i,
    {
        if values[i] == *value {
            assert(strings_view(values@)[i as int] == value@);
            return true;
        }
        i = i + 1;
    }
    assert forall|k: int| 0 <= k < strings_view(values@).len() implies strings_view(values@)[k] != value@ by {
        assert(values@[k]@ != value@);
    }
    false
}

/// What a parameter accepts.
pub enum ParamType {
    /// Any token.
    String,
    /// One of the given words.
    Alt(Vec<String>),
    /// One of two words, standing for `true` and `false`.
    Bool(String, String),
}

/// A parameter of a command.
pub struct Parameter {
    pub ptype: ParamType,
    pub name: String,
    pub optional: bool,
}

/// A command: a name, a help text, its parameters and the callback that
/// runs it.
pub struct Command<Cb> {
    pub name: String,
    pub help: Option<String>,
    pub params: Vec<Parameter>,
    pub cb: Cb,
}

/// A named group of commands and further groups.
pub struct Group<Cb> {
    pub name: String,
    pub help: Option<String>,
    pub grps: Vec<Group<Cb>>,
    pub cmds: Vec<Command<Cb>>,
}

pub open spec fn opt_view(o: Option<String>) -> Option<Seq<char>> {
    match o {
        Some(s) => Some(s@),
        None => None,
    }
}

/// Whether a parameter list has an optional parameter followed by a
/// required one.
pub open spec fn optional_before_required(params: Seq<Parameter>) -> bool {
    exists|i: int, j: int| 0 <= i < j < params.len() && #[trigger] params[i].optional && !#[trigger] params[j].optional
}

impl Parameter {
    /// A parameter that takes any token.
    pub fn string(name: &str) -> (p: Self)
        ensures
            p.ptype is String,
            p.name@ == name@,
            !p.optional,
    {
        Parameter { ptype: ParamType::String, name: String::from_str(name), optional: false }
    }

    /// A parameter that takes one of `values`.
    pub fn alt(name: &str, values: Vec<String>) -> (p: Self)
        ensures
            p.ptype == ParamType::Alt(values),
            p.name@ == name@,
            !p.optional,
    {
        Parameter { ptype: ParamType::Alt(values), name: String::from_str(name), optional: false }
    }

    /// A parameter that takes `true_name` (for `true`) or `false_name`.
    pub fn bool(name: &str, true_name: &str, false_name: &str) -> (p: Self)
        ensures
            p.ptype matches ParamType::Bool(t, f) && t@ == true_name@ && f@ == false_name@,
            p.name@ == name@,
            !p.optional,
    {
        Parameter {
            ptype: ParamType::Bool(String::from_str(true_name), String::from_str(false_name)),
            name: String::from_str(name),
            optional: false,
        }
    }
}

impl<Cb> Command<Cb> {
    /// A command without help text or parameters, run by `cb`.
    pub fn new(name: &str, cb: Cb) -> (c: Self)
        ensures
            c.name@ == name@,
            c.help is None,
            c.params@.len() == 0,
            !optional_before_required(c.params@),
            c.cb == cb,
    {
        Command { name: String::from_str(name), help: None, params: Vec::new(), cb }
    }

    /// Sets the help text.
    pub fn with_help(self, text: &str) -> (c: Self)
        ensures
            c.name == self.name,
            opt_view(c.help) == Some(text@),
            c.params == self.params,
            c.cb == self.cb,
    {
        let mut c = self;
        c.help = Some(String::from_str(text));
        c
    }

    /// Adds a required parameter.  A required parameter cannot follow an
    /// optional one.
    pub fn with_parameter(self, param: Parameter) -> (c: Self)
        requires
            self.params@.len() == 0 || !self.params@.last().optional,
        ensures
            c.name == self.name,
            c.help == self.help,
            c.params@ == self.params@.push(param),
            c.cb == self.cb,
            !optional_before_required(self.params@) ==> !optional_before_required(c.params@),
    {
        let ghost old_params = self.params@;
        let mut c = self;
        c.params.push(param);
        proof {
            if !optional_before_required(old_params) && optional_before_required(c.params@) {
                let (i, j) = choose|i: int, j: int|
                    0 <= i < j < c.params@.len() && #[trigger] c.params@[i].optional && !#[trigger] c.params@[j].optional;
                if j < old_params.len() {
                    assert(old_params[i].optional && !old_params[j].optional);
                } else {
                    let l = old_params.len() - 1;
                    assert(!old_params[l].optional);
                    if i < l {
                        assert(old_params[i].optional);
                    }
                }
            }
        }
        c
    }

    /// Adds a parameter and makes it optional.
    pub fn with_optional_parameter(self, param: Parameter) -> (c: Self)
        ensures
            c.name == self.name,
            c.help == self.help,
            c.params@ == self.params@.push(Parameter { optional: true, ..param }),
            c.cb == self.cb,
            !optional_before_required(self.params@) ==> !optional_before_required(c.params@),
    {
        let mut c = self;
        let mut p = param;
        p.optional = true;
        let ghost old_params = c.params@;
        c.params.push(p);
        proof {
            if !optional_before_required(old_params) && optional_before_required(c.params@) {
                let (i, j) = choose|i: int, j: int|
                    0 <= i < j < c.params@.len() && #[trigger] c.params@[i].optional && !#[trigger] c.params@[j].optional;
                assert(old_params[i].optional && !old_params[j].optional);
            }
        }
        c
    }
}

impl<Cb> Group<Cb> {
    /// An empty group.
    pub fn new(name: &str) -> (g: Self)
        ensures
            g.name@ == name@,
            g.help is None,
            g.grps@.len() == 0,
            g.cmds@.len() == 0,
    {
        Group { name: String::from_str(name), help: None, grps: Vec::new(), cmds: Vec::new() }
    }

    /// Sets the help text.
    pub fn with_help(self, text: &str) -> (g: Self)
        ensures
            g.name == self.name,
            opt_view(g.help) == Some(text@),
            g.grps == self.grps,
            g.cmds == self.cmds,
    {
        let mut g = self;
        g.help = Some(String::from_str(text));
        g
    }

    /// Adds a subgroup.
    pub fn with_group(self, grp: Group<Cb>) -> (g: Self)
        ensures
            g.name == self.name,
            g.help == self.help,
            g.grps@ == self.grps@.push(grp),
            g.cmds == self.cmds,
    {
        let mut g = self;
        g.grps.push(grp);
        g
    }

    /// Adds a command.
    pub fn with_command(self, cmd: Command<Cb>) -> (g: Self)
        ensures
            g.name == self.name,
            g.help == self.help,
            g.grps == self.grps,
            g.cmds@ == self.cmds@.push(cmd),
    {
        let mut g = self;
        g.cmds.push(cmd);
        g
    }
}

/// `sel` is the chain of nodes that the parameter list `params` gives:
/// one node per parameter, in order, ending in `End`.
pub open spec fn chain_matches(sel: Selection, params: Seq<Parameter>) -> bool
    decreases params.len(),
{
    if params.len() == 0 {
        sel is End
    } else {
        let p = params[0];
        match sel {
            Selection::String { name, optional, next } => {
                &&& p.ptype is String
                &&& name == p.name
                &&& optional == p.optional
                &&& chain_matches(*next, params.drop_first())
            },
            Selection::Alt { name, optional, values, next } => {
                &&& p.ptype == ParamType::Alt(values)
                &&& name == p.name
                &&& optional == p.optional
                &&& chain_matches(*next, params.drop_first())
            },
            Selection::Bool { name, optional, values, next } => {
                &&& p.ptype == ParamType::Bool(values.0, values.1)
                &&& name == p.name
                &&& optional == p.optional
                &&& chain_matches(*next, params.drop_first())
            },
            _ => false,
        }
    }
}

/// `fixed` lists the children of the selection tree of the commands `cmds`
/// and groups `grps`: the commands, each with its parameter chain, then the
/// groups, each with its own tree.
pub open spec fn fixed_matches<Cb>(
    fixed: Seq<(String, Selection)>,
    grps: Seq<Group<Cb>>,
    cmds: Seq<Command<Cb>>,
) -> bool
    decreases grps, 1int,
{
    &&& fixed.len() == cmds.len() + grps.len()
    &&& forall|i: int|
        0 <= i < cmds.len() ==> (#[trigger] fixed[i]).0 == cmds[i].name && chain_matches(
            fixed[i].1,
            cmds[i].params@,
        )
    &&& forall|j: int|
        0 <= j < grps.len() ==> {
            &&& (#[trigger] fixed[cmds.len() + j]).0 == grps[j].name
            &&& tree_matches(fixed[cmds.len() + j].1, grps[j].grps@, grps[j].cmds@)
        }
}

/// `sel` is the selection tree of the commands `cmds` and groups `grps`: a
/// `Fixed` node with the children that `fixed_matches` describes, or `End`
/// when there are neither commands nor groups.
pub open spec fn tree_matches<Cb>(sel: Selection, grps: Seq<Group<Cb>>, cmds: Seq<Command<Cb>>) -> bool
    decreases grps, 2int,
{
    if cmds.len() + grps.len() == 0 {
        sel is End
    } else {
        match sel {
            Selection::Fixed(fixed) => fixed_matches(fixed@, grps, cmds),
            _ => false,
        }
    }
}

/// The callbacks of the commands `cmds`, each under the path made of its
/// name; a later command replaces an earlier one of the same name.
pub open spec fn command_callbacks<Cb>(cmds: Seq<Command<Cb>>) -> Map<PathView, Cb>
    decreases cmds.len(),
{
    if cmds.len() == 0 {
        Map::empty()
    } else {
        command_callbacks(cmds.drop_last()).insert(seq![cmds.last().name@], cmds.last().cb)
    }
}

/// The entries of `m`, each path put after `name`.
pub open spec fn prefixed<Cb>(name: Seq<char>, m: Map<PathView, Cb>) -> Map<PathView, Cb> {
    Map::new(
        |p: PathView| p.len() > 0 && p[0] == name && m.contains_key(p.drop_first()),
        |p: PathView| m[p.drop_first()],
    )
}

/// The callbacks of a tree: those of its commands, then those of each group
/// under the group's name, a later entry replacing an earlier one of the same
/// path.
pub open spec fn tree_callbacks<Cb>(grps: Seq<Group<Cb>>, cmds: Seq<Command<Cb>>) -> Map<PathView, Cb>
    decreases grps,
{
    if grps.len() == 0 {
        command_callbacks(cmds)
    } else {
        let g = grps.last();
        tree_callbacks(grps.drop_last(), cmds).union_prefer_right(
            prefixed(g.name@, tree_callbacks(g.grps@, g.cmds@)),
        )
    }
}

/// The chain of selection nodes for a parameter list.
fn build_chain(params: Vec<Parameter>) -> (s: Selection)
    ensures
        chain_matches(s, params@),
{
    let ghost orig = params@;
    let mut params = params;
    let mut s = Selection::End;
    assert(orig.skip(orig.len() as int) =~= Seq::<Parameter>::empty());
    assert(orig.take(orig.len() as int) =~= orig);
    loop
        invariant
            params@ == orig.take(params@.len() as int),
            params@.len() <= orig.len(),
            chain_matches(s, orig.skip(params@.len() as int)),
        ensures
            chain_matches(s, orig),
        decreases params@.len(),
    {
        let ghost k = params@.len() as int;
        match params.pop() {
            Some(p) => {
                proof {
                    assert(orig.skip(k - 1).drop_first() =~= orig.skip(k));
                    assert(orig.skip(k - 1)[0] == p);
                    assert(params@ =~= orig.take(k - 1));
                }
                s = match p {
                    Parameter { ptype: ParamType::String, name, optional } => Selection::String {
                        name,
                        optional,
                        next: Box::new(s),
                    },
                    Parameter { ptype: ParamType::Alt(v), name, optional } => Selection::Alt {
                        name,
                        optional,
                        values: v,
                        next: Box::new(s),
                    },
                    Parameter { ptype: ParamType::Bool(t, f), name, optional } => Selection::Bool {
                        name,
                        optional,
                        values: (t, f),
                        next: Box::new(s),
                    },
                };
            },
            None => {
                assert(orig.skip(0) =~= orig);
                break ;
            },
        }
    }
    s
}

proof fn lemma_prefixed_insert<Cb>(
    base: Map<PathView, Cb>,
    name: Seq<char>,
    m: Map<PathView, Cb>,
    k: PathView,
    v: Cb,
)
    ensures
        base.union_prefer_right(prefixed(name, m.insert(k, v))) == base.union_prefer_right(
            prefixed(name, m),
        ).insert(seq![name] + k, v),
{
    let p = seq![name] + k;
    assert(p.drop_first() =~= k);
    assert(prefixed(name, m.insert(k, v)) =~= prefixed(name, m).insert(p, v)) by {
        assert forall|q: PathView| #[trigger] prefixed(name, m.insert(k, v)).contains_key(q) implies prefixed(
            name,
            m.insert(k, v),
        )[q] == prefixed(name, m).insert(p, v)[q] by {
            if q.drop_first() == k {
                assert(q =~= p);
            }
        }
        assert forall|q: PathView| #[trigger] prefixed(name, m.insert(k, v)).contains_key(q) <==> prefixed(
            name,
            m,
        ).insert(p, v).contains_key(q) by {
            if q.len() > 0 && q[0] == name && q.drop_first() == k {
                assert(q =~= p);
            }
        }
    }
    assert(base.union_prefer_right(prefixed(name, m.insert(k, v))) =~= base.union_prefer_right(
        prefixed(name, m),
    ).insert(p, v));
}

/// Registers each entry of `entries` under `name` followed by its path.
fn add_prefixed<Cb>(cbs: &mut CallbackMap<Cb>, name: &String, entries: Vec<(Vec<String>, Cb)>)
    requires
        keys_distinct(entries@),
    ensures
        final(cbs)@ == old(cbs)@.union_prefer_right(prefixed(name@, entries_map(entries@))),
{
    let ghost base = cbs@;
    let ghost e0 = entries@;
    let mut entries = entries;
    let mut m: usize = 0;
    assert(entries_map(e0.take(0)) =~= Map::<PathView, Cb>::empty());
    assert(base.union_prefer_right(prefixed(name@, entries_map(e0.take(0)))) =~= base);
    assert(e0.len() == entries.len());
    while entries.len() > 0
        invariant
            e0.len() <= usize::MAX,
            keys_distinct(e0),
            m <= e0.len(),
            entries@ == e0.skip(m as int),
            cbs@ == base.union_prefer_right(prefixed(name@, entries_map(e0.take(m as int)))),
        decreases entries@.len(),
    {
        let (path, cb) = entries.remove(0);
        proof {
            assert(e0[m as int] == (path, cb));
            assert(e0.skip(m as int).remove(0) =~= e0.skip(m + 1));
            let pre = e0.take(m as int);
            assert(e0.take(m + 1) =~= pre.push((path, cb)));
            assert(keys_distinct(pre));
            assert(!has_key(pre, path.deep_view())) by {
                if has_key(pre, path.deep_view()) {
                    let i = choose|i: int| 0 <= i < pre.len() && #[trigger] pre[i].0.deep_view() == path.deep_view();
                    assert(e0[i].0.deep_view() == e0[m as int].0.deep_view());
                }
            }
            crate::table::lemma_push_key(pre, (path, cb));
            assert(entries_map(pre.push((path, cb))) =~= entries_map(pre).insert(path.deep_view(), cb));
            lemma_prefixed_insert(base, name@, entries_map(pre), path.deep_view(), cb);
        }
        let mut p: Vec<String> = Vec::new();
        p.push(name.clone());
        let mut rest = path;
        let ghost restv = rest.deep_view();
        p.append(&mut rest);
        assert(p.deep_view() =~= seq![name@] + restv);
        cbs.insert(p, cb);
        m = m + 1;
    }
    assert(e0.take(m as int) =~= e0);
}

/// The selection tree and the callbacks of a tree of commands.
pub fn build_parse_tree<Cb>(grps: Vec<Group<Cb>>, cmds: Vec<Command<Cb>>) -> (r: (
    Selection,
    CallbackMap<Cb>,
))
    ensures
        tree_matches(r.0, grps@, cmds@),
        r.1@ == tree_callbacks(grps@, cmds@),
    decreases grps@,
{
    let ghost cmds0 = cmds@;
    let ghost grps0 = grps@;
    let mut cs = cmds;
    let mut gs = grps;
    let mut fixed: Vec<(String, Selection)> = Vec::new();
    let mut cbs: CallbackMap<Cb> = CallbackMap::new();
    let mut k: usize = 0;
    assert(cmds0.len() == cs.len() && grps0.len() == gs.len());
    assert(command_callbacks(cmds0.take(0)) =~= Map::<PathView, Cb>::empty());
    while cs.len() > 0
        invariant
            cmds0.len() <= usize::MAX,
            grps0.len() <= usize::MAX,
            k <= cmds0.len(),
            cs@ == cmds0.skip(k as int),
            fixed@.len() == k,
            forall|i: int|
                0 <= i < k ==> (#[trigger] fixed@[i]).0 == cmds0[i].name && chain_matches(
                    fixed@[i].1,
                    cmds0[i].params@,
                ),
            cbs@ == command_callbacks(cmds0.take(k as int)),
        decreases cs@.len(),
    {
        let c = cs.remove(0);
        proof {
            assert(cmds0[k as int] == c);
            assert(cmds0.skip(k as int).remove(0) =~= cmds0.skip(k + 1));
            assert(cmds0.take(k + 1).drop_last() =~= cmds0.take(k as int));
        }
        let Command { name, help: _, params, cb } = c;
        let s = build_chain(params);
        let mut key: Vec<String> = Vec::new();
        key.push(name.clone());
        assert(key.deep_view() =~= seq![name@]);
        cbs.insert(key, cb);
        fixed.push((name, s));
        k = k + 1;
    }
    assert(cmds0.take(k as int) =~= cmds0);
    let mut j: usize = 0;
    assert(grps0.take(0) =~= Seq::<Group<Cb>>::empty());
    while gs.len() > 0
        invariant
            grps0 == grps@,
            grps0.len() <= usize::MAX,
            k == cmds0.len(),
            j <= grps0.len(),
            gs@ == grps0.skip(j as int),
            fixed@.len() == k + j,
            forall|i: int|
                0 <= i < k ==> (#[trigger] fixed@[i]).0 == cmds0[i].name && chain_matches(
                    fixed@[i].1,
                    cmds0[i].params@,
                ),
            forall|i: int|
                0 <= i < j ==> {
                    &&& (#[trigger] fixed@[k + i]).0 == grps0[i].name
                    &&& tree_matches(fixed@[k + i].1, grps0[i].grps@, grps0[i].cmds@)
                },
            cbs@ == tree_callbacks(grps0.take(j as int), cmds0),
        decreases gs@.len(),
    {
        let g = gs.remove(0);
        proof {
            assert(grps0[j as int] == g);
            assert(grps0.skip(j as int).remove(0) =~= grps0.skip(j + 1));
            assert(grps0.take(j + 1).drop_last() =~= grps0.take(j as int));
            assert(grps0.take(j + 1).last() == g);
            assert(decreases_to!(grps0 => g.grps@));
        }
        let Group { name, help: _, grps: sub_g, cmds: sub_c } = g;
        assert(decreases_to!(grps0 => sub_g@));
        let (s, c) = build_parse_tree(sub_g, sub_c);
        let entries = c.into_entries();
        add_prefixed(&mut cbs, &name, entries);
        fixed.push((name, s));
        j = j + 1;
    }
    assert(grps0.take(j as int) =~= grps0);
    if fixed.len() == 0 {
        (Selection::End, cbs)
    } else {
        (Selection::Fixed(fixed), cbs)
    }
}

/// The word that asks for help, when help is enabled.
pub open spec fn help_word() -> Seq<char> {
    "help"@
}

/// Collects the settings and the command tree of a REPL.
pub struct ReplBuilder<'a, Ctx, Cb> {
    pub ctx: Option<&'a Ctx>,
    pub prompt: String,
    pub help: bool,
    pub grps: Vec<Group<Cb>>,
    pub cmds: Vec<Command<Cb>>,
}

/// A REPL ready to run: the context handed to callbacks, the prompt, the
/// help list (when help is enabled), the selection tree that lines are
/// parsed against, and the callbacks by command path.
pub struct Repl<'a, Ctx, Cb> {
    pub ctx: Option<&'a Ctx>,
    pub prompt: String,
    pub help: Option<HelpList>,
    pub parse_tree: Selection,
    pub callbacks: CallbackMap<Cb>,
}

impl<'a, Ctx, Cb> Repl<'a, Ctx, Cb> {
    /// A builder with no context, the prompt `>`, help disabled and no
    /// commands.
    pub fn builder() -> (b: ReplBuilder<'a, Ctx, Cb>)
        ensures
            b.ctx is None,
            b.prompt@ == ">"@,
            !b.help,
            b.grps@.len() == 0,
            b.cmds@.len() == 0,
    {
        ReplBuilder::new()
    }
}

impl<'a, Ctx, Cb> ReplBuilder<'a, Ctx, Cb> {
    /// A builder with no context, the prompt `>`, help disabled and no
    /// commands.
    pub fn new() -> (b: Self)
        ensures
            b.ctx is None,
            b.prompt@ == ">"@,
            !b.help,
            b.grps@.len() == 0,
            b.cmds@.len() == 0,
    {
        ReplBuilder {
            ctx: None,
            prompt: String::from_str(">"),
            help: false,
            grps: Vec::new(),
            cmds: Vec::new(),
        }
    }

    /// Sets the context that callbacks get.
    pub fn with_context(self, ctx: &'a Ctx) -> (b: Self)
        ensures
            b == (ReplBuilder { ctx: Some(ctx), ..self }),
    {
        let mut b = self;
        b.ctx = Some(ctx);
        b
    }

    /// Sets the prompt.
    pub fn with_prompt(self, prompt: &str) -> (b: Self)
        ensures
            b.prompt@ == prompt@,
            b.ctx == self.ctx,
            b.help == self.help,
            b.grps == self.grps,
            b.cmds == self.cmds,
    {
        let mut b = self;
        b.prompt = String::from_str(prompt);
        b
    }

    /// Enables the `help` command.
    pub fn with_help(self) -> (b: Self)
        ensures
            b == (ReplBuilder { help: true, ..self }),
    {
        let mut b = self;
        b.help = true;
        b
    }

    /// Adds a group of commands.
    pub fn with_group(self, grp: Group<Cb>) -> (b: Self)
        ensures
            b.grps@ == self.grps@.push(grp),
            b.ctx == self.ctx,
            b.prompt == self.prompt,
            b.help == self.help,
            b.cmds == self.cmds,
    {
        let mut b = self;
        b.grps.push(grp);
        b
    }

    /// Adds a command.
    pub fn with_command(self, cmd: Command<Cb>) -> (b: Self)
        ensures
            b.cmds@ == self.cmds@.push(cmd),
            b.ctx == self.ctx,
            b.prompt == self.prompt,
            b.help == self.help,
            b.grps == self.grps,
    {
        let mut b = self;
        b.cmds.push(cmd);
        b
    }

    /// Builds the REPL.  The selection tree has a child per command and per
    /// group; with help enabled it also has, in front, a `help` child whose
    /// tree names the same commands and groups (without their parameters),
    /// unless there are no commands at all.
    pub fn build(self) -> (r: Repl<'a, Ctx, Cb>)
        ensures
            r.ctx == self.ctx,
            r.prompt == self.prompt,
            r.callbacks@ == tree_callbacks(self.grps@, self.cmds@),
            r.parse_tree is Fixed || r.parse_tree is End,
            !self.help ==> r.help is None && tree_matches(r.parse_tree, self.grps@, self.cmds@),
            self.help ==> (r.help matches Some(h) && help_list_matches(h, self.grps@, self.cmds@)),
            self.help && self.cmds@.len() + self.grps@.len() == 0 ==> r.parse_tree is End,
            self.help && self.cmds@.len() + self.grps@.len() > 0 ==> (r.parse_tree matches Selection::Fixed(
                f,
            ) && f@.len() > 0 && f@[0].0@ == help_word() && help_tree_matches(
                f@[0].1,
                self.grps@,
                self.cmds@,
            ) && fixed_matches(f@.drop_first(), self.grps@, self.cmds@)),
    {
        let ReplBuilder { ctx, prompt, help, grps, cmds } = self;
        if help {
            let (help_tree, help_items) = build_help_tree(&grps, &cmds);
            let (parse_tree, cb_map) = build_parse_tree(grps, cmds);
            let parse_tree = match parse_tree {
                Selection::Fixed(mut fixed) => {
                    let ghost f0 = fixed@;
                    fixed.insert(0, (String::from_str("help"), help_tree));
                    assert(fixed@.drop_first() =~= f0);
                    Selection::Fixed(fixed)
                },
                other => other,
            };
            Repl { ctx, prompt, help: Some(help_items), parse_tree, callbacks: cb_map }
        } else {
            let (parse_tree, cb_map) = build_parse_tree(grps, cmds);
            Repl { ctx, prompt, help: None, parse_tree, callbacks: cb_map }
        }
    }
}

} // verus!
