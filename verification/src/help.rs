//! Help texts: the help list built from the command tree, the selection tree
//! that a `help ...` line is parsed against, and the lines of a help screen.

use vstd::prelude::*;
use vstd::string::*;

use crate::repl::{opt_view, Command, Group, ParamType, Parameter, Selection};
use crate::text::{byte_len, byte_length, chars_of, push_char};

verus! {

/// A list of help entries: the commands and groups at one level, or the
/// parameters of one command.
pub enum HelpList {
    GrpCmd(Vec<HelpItem>),
    Param(Vec<HelpItem>),
}

/// One help entry, with what lies below it.
pub struct HelpItem {
    pub name: String,
    pub help: Option<String>,
    pub next: Option<HelpList>,
}

/// How a parameter is shown in help: `'name'` for a string, `['name']` when
/// optional; the name for a choice of words; `t|f` for a boolean, `[t|f]` when
/// optional.
pub open spec fn param_label(p: Parameter) -> Seq<char> {
    match p.ptype {
        ParamType::String => if p.optional {
            "['"@ + p.name@ + "']"@
        } else {
            "'"@ + p.name@ + "'"@
        },
        ParamType::Alt(_) => p.name@,
        ParamType::Bool(t, f) => if p.optional {
            "["@ + t@ + "|"@ + f@ + "]"@
        } else {
            t@ + "|"@ + f@
        },
    }
}

/// `items` are the help entries of the parameters `params`.
pub open spec fn param_items_match(items: Seq<HelpItem>, params: Seq<Parameter>) -> bool {
    &&& items.len() == params.len()
    &&& forall|k: int|
        0 <= k < params.len() ==> {
            &&& (#[trigger] items[k]).name@ == param_label(params[k])
            &&& items[k].help is None
            &&& items[k].next is None
        }
}

/// `item` is the help entry of the command `c`: its name and help text, and
/// below it the list of its parameters if it has any.
pub open spec fn command_item_matches<Cb>(item: HelpItem, c: Command<Cb>) -> bool {
    &&& item.name@ == c.name@
    &&& opt_view(item.help) == opt_view(c.help)
    &&& if c.params@.len() == 0 {
        item.next is None
    } else {
        item.next matches Some(HelpList::Param(ps)) && param_items_match(ps@, c.params@)
    }
}

/// `list` is the help list of the commands `cmds` and groups `grps`: an
/// entry per command, then an entry per group with the group's own list
/// below it.
pub open spec fn help_list_matches<Cb>(list: HelpList, grps: Seq<Group<Cb>>, cmds: Seq<Command<Cb>>) -> bool
    decreases grps,
{
    match list {
        HelpList::GrpCmd(items) => {
            &&& items@.len() == cmds.len() + grps.len()
            &&& forall|i: int| 0 <= i < cmds.len() ==> command_item_matches(#[trigger] items@[i], cmds[i])
            &&& forall|j: int|
                0 <= j < grps.len() ==> {
                    &&& (#[trigger] items@[cmds.len() + j]).name@ == grps[j].name@
                    &&& opt_view(items@[cmds.len() + j].help) == opt_view(grps[j].help)
                    &&& match items@[cmds.len() + j].next {
                        Some(h) => help_list_matches(h, grps[j].grps@, grps[j].cmds@),
                        None => false,
                    }
                }
        },
        HelpList::Param(_) => false,
    }
}

/// `fixed` lists the children of the selection tree for help requests: the
/// commands, each ending there, then the groups with their own trees.
pub open spec fn help_fixed_matches<Cb>(
    fixed: Seq<(String, Selection)>,
    grps: Seq<Group<Cb>>,
    cmds: Seq<Command<Cb>>,
) -> bool
    decreases grps, 1int,
{
    &&& fixed.len() == cmds.len() + grps.len()
    &&& forall|i: int|
        0 <= i < cmds.len() ==> (#[trigger] fixed[i]).0@ == cmds[i].name@ && fixed[i].1 is End
    &&& forall|j: int|
        0 <= j < grps.len() ==> {
            &&& (#[trigger] fixed[cmds.len() + j]).0@ == grps[j].name@
            &&& help_tree_matches(fixed[cmds.len() + j].1, grps[j].grps@, grps[j].cmds@)
        }
}

/// `sel` is the selection tree for help requests about the commands `cmds`
/// and groups `grps`.
pub open spec fn help_tree_matches<Cb>(sel: Selection, grps: Seq<Group<Cb>>, cmds: Seq<Command<Cb>>) -> bool
    decreases grps, 2int,
{
    if cmds.len() + grps.len() == 0 {
        sel is End
    } else {
        match sel {
            Selection::Fixed(fixed) => help_fixed_matches(fixed@, grps, cmds),
            _ => false,
        }
    }
}

fn clone_opt(o: &Option<String>) -> (r: Option<String>)
    ensures
        opt_view(r) == opt_view(*o),
{
    match o {
        Some(s) => Some(s.clone()),
        None => None,
    }
}

/// How a parameter is shown in help.
pub fn param_help_name(p: &Parameter) -> (s: String)
    ensures
        s@ == param_label(*p),
{
    match &p.ptype {
        ParamType::String => {
            if p.optional {
                let mut s = String::from_str("['");
                s.append(p.name.as_str());
                s.append("']");
                s
            } else {
                let mut s = String::from_str("'");
                s.append(p.name.as_str());
                s.append("'");
                s
            }
        },
        ParamType::Alt(_) => p.name.clone(),
        ParamType::Bool(t, f) => {
            if p.optional {
                let mut s = String::from_str("[");
                s.append(t.as_str());
                s.append("|");
                s.append(f.as_str());
                s.append("]");
                s
            } else {
                let mut s = t.clone();
                s.append("|");
                s.append(f.as_str());
                s
            }
        },
    }
}

fn command_item<Cb>(c: &Command<Cb>) -> (item: HelpItem)
    ensures
        command_item_matches(item, *c),
{
    let mut param_vec: Vec<HelpItem> = Vec::new();
    let mut k: usize = 0;
    while k < c.params.len()
        invariant
            0 <= k <= c.params@.len(),
            param_vec@.len() == k,
            forall|m: int|
                0 <= m < k ==> {
                    &&& (#[trigger] param_vec@[m]).name@ == param_label(c.params@[m])
                    &&& param_vec@[m].help is None
                    &&& param_vec@[m].next is None
                },
        decreases c.params@.len() - k,
    {
        let name = param_help_name(&c.params[k]);
        param_vec.push(HelpItem { name, help: None, next: None });
        k = k + 1;
    }
    let params = if param_vec.len() != 0 {
        Some(HelpList::Param(param_vec))
    } else {
        None
    };
    HelpItem { name: c.name.clone(), help: clone_opt(&c.help), next: params }
}

/// The selection tree for help requests and the help list of a tree of
/// commands.
pub fn build_help_tree<Cb>(grps: &Vec<Group<Cb>>, cmds: &Vec<Command<Cb>>) -> (r: (Selection, HelpList))
    ensures
        help_tree_matches(r.0, grps@, cmds@),
        help_list_matches(r.1, grps@, cmds@),
    decreases grps@,
{
    let mut fixed: Vec<(String, Selection)> = Vec::new();
    let mut items: Vec<HelpItem> = Vec::new();
    let mut i: usize = 0;
    while i < cmds.len()
        invariant
            0 <= i <= cmds@.len(),
            fixed@.len() == i,
            items@.len() == i,
            forall|m: int|
                0 <= m < i ==> (#[trigger] fixed@[m]).0@ == cmds@[m].name@ && fixed@[m].1 is End,
            forall|m: int| 0 <= m < i ==> command_item_matches(#[trigger] items@[m], cmds@[m]),
        decreases cmds@.len() - i,
    {
        let c = &cmds[i];
        items.push(command_item(c));
        fixed.push((c.name.clone(), Selection::End));
        i = i + 1;
    }
    let n = cmds.len();
    let mut j: usize = 0;
    while j < grps.len()
        invariant
            n == cmds@.len(),
            0 <= j <= grps@.len(),
            fixed@.len() == n + j,
            items@.len() == n + j,
            forall|m: int|
                0 <= m < n ==> (#[trigger] fixed@[m]).0@ == cmds@[m].name@ && fixed@[m].1 is End,
            forall|m: int| 0 <= m < n ==> command_item_matches(#[trigger] items@[m], cmds@[m]),
            forall|m: int|
                0 <= m < j ==> {
                    &&& (#[trigger] fixed@[n + m]).0@ == grps@[m].name@
                    &&& help_tree_matches(fixed@[n + m].1, grps@[m].grps@, grps@[m].cmds@)
                },
            forall|m: int|
                0 <= m < j ==> {
                    &&& (#[trigger] items@[n + m]).name@ == grps@[m].name@
                    &&& opt_view(items@[n + m].help) == opt_view(grps@[m].help)
                    &&& match items@[n + m].next {
                        Some(h) => help_list_matches(h, grps@[m].grps@, grps@[m].cmds@),
                        None => false,
                    }
                },
        decreases grps@.len() - j,
    {
        let g = &grps[j];
        assert(decreases_to!(grps@ => g.grps@));
        let (s, h) = build_help_tree(&g.grps, &g.cmds);
        items.push(HelpItem { name: g.name.clone(), help: clone_opt(&g.help), next: Some(h) });
        fixed.push((g.name.clone(), s));
        j = j + 1;
    }
    if fixed.len() == 0 {
        (Selection::End, HelpList::GrpCmd(items))
    } else {
        (Selection::Fixed(fixed), HelpList::GrpCmd(items))
    }
}

/// A piece of a help line, printed in bold or plain.
pub struct Span {
    pub text: String,
    pub bold: bool,
}

impl DeepView for Span {
    type V = (Seq<char>, bool);

    open spec fn deep_view(&self) -> (Seq<char>, bool) {
        (self.text@, self.bold)
    }
}

/// Where following the word `t` through the entries `items` leads: each
/// entry named `t` is added to the path `hier`, and the list below it becomes
/// the current one.
pub open spec fn scan_items(
    t: Seq<char>,
    items: Seq<HelpItem>,
    help: Option<HelpList>,
    hier: Seq<HelpItem>,
) -> (Option<HelpList>, Seq<HelpItem>)
    decreases items.len(),
{
    if items.len() == 0 {
        (help, hier)
    } else if items[0].name@ == t {
        scan_items(t, items.drop_first(), items[0].next, hier.push(items[0]))
    } else {
        scan_items(t, items.drop_first(), help, hier)
    }
}

/// Where following the words `words` from the list `help` leads: the list
/// reached and the entries passed on the way.  A word is looked up only while
/// the current list is one of commands and groups.
pub open spec fn walk_help(words: Seq<Seq<char>>, help: Option<HelpList>, hier: Seq<HelpItem>) -> (
    Option<HelpList>,
    Seq<HelpItem>,
)
    decreases words.len(),
{
    if words.len() == 0 {
        (help, hier)
    } else {
        let next = match help {
            Some(HelpList::GrpCmd(l)) => scan_items(words[0], l@, help, hier),
            _ => (help, hier),
        };
        walk_help(words.drop_first(), next.0, next.1)
    }
}

/// The names of `items`, each followed by a space.
pub open spec fn join_names(items: Seq<HelpItem>) -> Seq<char>
    decreases items.len(),
{
    if items.len() == 0 {
        Seq::empty()
    } else {
        join_names(items.drop_last()) + items.last().name@ + " "@
    }
}

/// The largest length in bytes of the names of `items`.
pub open spec fn max_name_bytes(items: Seq<HelpItem>) -> nat
    decreases items.len(),
{
    if items.len() == 0 {
        0
    } else {
        let m = max_name_bytes(items.drop_last());
        let b = byte_len(items.last().name@);
        if m < b {
            b
        } else {
            m
        }
    }
}

pub open spec fn spaces(n: nat) -> Seq<char> {
    Seq::new(n, |i: int| ' ')
}

/// `s` padded with spaces on the right to `w` characters.
pub open spec fn pad_right(s: Seq<char>, w: nat) -> Seq<char> {
    if s.len() < w {
        s + spaces((w - s.len()) as nat)
    } else {
        s
    }
}

pub type LineView = Seq<(Seq<char>, bool)>;

/// The line of an entry in a list of commands and groups: the path so far
/// and the name in bold, a marker for entries with something below them, and
/// the help text.  With a help text the name is padded to the width `w`.
pub open spec fn item_line(path: Seq<char>, w: nat, item: HelpItem) -> LineView {
    let marker = if item.next is Some {
        "[…]"@
    } else {
        "   "@
    };
    match item.help {
        Some(h) => seq![
            (path, true),
            (pad_right(item.name@, w), true),
            (" "@ + marker + "    "@ + h@, false),
        ],
        None => seq![(path, true), (item.name@, true), (" "@ + marker, false)],
    }
}

/// The help screen for the words `words`: walk the help list along them,
/// then show the list reached (a line per entry), or a command's parameters
/// with its help text, or the help text of the entry reached.
pub open spec fn help_screen(help: Option<HelpList>, words: Seq<Seq<char>>) -> Seq<LineView> {
    let (reached, hier) = walk_help(words, help, Seq::empty());
    let path = join_names(hier);
    match reached {
        Some(HelpList::GrpCmd(l)) => Seq::new(
            l@.len(),
            |i: int| item_line(path, max_name_bytes(l@), l@[i]),
        ),
        Some(HelpList::Param(l)) => {
            if hier.len() > 0 {
                match hier.last().help {
                    Some(h) => seq![
                        seq![(path, true), (join_names(l@), true), ("   "@ + h@, false)],
                    ],
                    None => seq![seq![(path, true), (join_names(l@), true)]],
                }
            } else {
                Seq::empty()
            }
        },
        None => {
            if hier.len() > 0 {
                match hier.last().help {
                    Some(h) => seq![seq![(path, true), ("   "@ + h@, false)]],
                    None => seq![seq![(path, true)]],
                }
            } else {
                Seq::empty()
            }
        },
    }
}

/// `help` alone lists the top level: one line per command and per group, in
/// the order they were added, each showing its name.
pub proof fn lemma_top_level_help<Cb>(list: HelpList, grps: Seq<Group<Cb>>, cmds: Seq<Command<Cb>>)
    requires
        help_list_matches(list, grps, cmds),
    ensures
        help_screen(Some(list), Seq::empty()).len() == cmds.len() + grps.len(),
        forall|i: int|
            0 <= i < cmds.len() ==> #[trigger] help_screen(Some(list), Seq::empty())[i][1].0.take(
                cmds[i].name@.len() as int,
            ) == cmds[i].name@,
        forall|j: int|
            0 <= j < grps.len() ==> #[trigger] help_screen(Some(list), Seq::empty())[cmds.len() + j][1].0.take(
                grps[j].name@.len() as int,
            ) == grps[j].name@,
{
    if let HelpList::GrpCmd(items) = list {
        let scr = help_screen(Some(list), Seq::empty());
        let w = max_name_bytes(items@);
        assert(walk_help(Seq::empty(), Some(list), Seq::empty()) == (Some(list), Seq::<HelpItem>::empty()));
        assert forall|i: int| 0 <= i < items@.len() implies #[trigger] scr[i][1].0.take(items@[i].name@.len() as int)
            == items@[i].name@ by {
            let n = items@[i].name@;
            assert(scr[i] == item_line(join_names(Seq::empty()), w, items@[i]));
            assert(pad_right(n, w).take(n.len() as int) =~= n);
            assert(n.take(n.len() as int) =~= n);
        }
        assert forall|i: int| 0 <= i < cmds.len() implies #[trigger] scr[i][1].0.take(cmds[i].name@.len() as int)
            == cmds[i].name@ by {
            assert(command_item_matches(items@[i], cmds[i]));
        }
        assert forall|j: int| 0 <= j < grps.len() implies #[trigger] scr[cmds.len() + j][1].0.take(
            grps[j].name@.len() as int,
        ) == grps[j].name@ by {
            assert(items@[cmds.len() + j].name@ == grps[j].name@);
        }
    }
}

proof fn lemma_scan_items_none(t: Seq<char>, items: Seq<HelpItem>, help: Option<HelpList>, hier: Seq<HelpItem>)
    requires
        forall|j: int| 0 <= j < items.len() ==> (#[trigger] items[j]).name@ != t,
    ensures
        scan_items(t, items, help, hier) == (help, hier),
    decreases items.len(),
{
    if items.len() > 0 {
        assert(items[0].name@ != t);
        assert forall|j: int| 0 <= j < items.drop_first().len() implies (#[trigger] items.drop_first()[j]).name@ != t by {
            assert(items.drop_first()[j] == items[j + 1]);
        }
        lemma_scan_items_none(t, items.drop_first(), help, hier);
    }
}

proof fn lemma_scan_items_unique(t: Seq<char>, items: Seq<HelpItem>, help: Option<HelpList>, hier: Seq<HelpItem>, i: int)
    requires
        0 <= i < items.len(),
        items[i].name@ == t,
        forall|j: int| 0 <= j < items.len() && j != i ==> (#[trigger] items[j]).name@ != t,
    ensures
        scan_items(t, items, help, hier) == (items[i].next, hier.push(items[i])),
    decreases items.len(),
{
    let d = items.drop_first();
    if i == 0 {
        assert forall|j: int| 0 <= j < d.len() implies (#[trigger] d[j]).name@ != t by {
            assert(d[j] == items[j + 1]);
        }
        lemma_scan_items_none(t, d, items[0].next, hier.push(items[0]));
    } else {
        assert(items[0].name@ != t);
        assert(d[i - 1] == items[i]);
        assert forall|j: int| 0 <= j < d.len() && j != i - 1 implies (#[trigger] d[j]).name@ != t by {
            assert(d[j] == items[j + 1]);
        }
        lemma_scan_items_unique(t, d, help, hier, i - 1);
    }
}

/// `help c`, for a command `c` named once among the entries of the top
/// level, shows one line: the command's name in bold, then its parameters in
/// bold if it has any, then its help text if it has one, set off by three
/// spaces and not in bold.  A command without a help text shows nothing that
/// is not bold.
pub proof fn lemma_help_for_command(items: Vec<HelpItem>, i: int, w: Seq<char>)
    requires
        0 <= i < items@.len(),
        items@[i].name@ == w,
        forall|j: int| 0 <= j < items@.len() && j != i ==> (#[trigger] items@[j]).name@ != w,
        items@[i].next is None || items@[i].next matches Some(HelpList::Param(_)),
    ensures
        help_screen(Some(HelpList::GrpCmd(items)), seq![w]).len() == 1,
        help_screen(Some(HelpList::GrpCmd(items)), seq![w])[0][0] == (w + " "@, true),
        items@[i].help matches Some(h) ==> help_screen(Some(HelpList::GrpCmd(items)), seq![w])[0].last() == (
            "   "@ + h@,
            false,
        ),
        items@[i].help is None ==> forall|k: int|
            0 <= k < help_screen(Some(HelpList::GrpCmd(items)), seq![w])[0].len() ==> (#[trigger] help_screen(
                Some(HelpList::GrpCmd(items)),
                seq![w],
            )[0][k]).1,
        items@[i].next matches Some(HelpList::Param(ps)) ==> help_screen(Some(HelpList::GrpCmd(items)), seq![w])[0][1]
            == (join_names(ps@), true),
        items@[i].next is None ==> help_screen(Some(HelpList::GrpCmd(items)), seq![w])[0].len() == if items@[i].help is Some {
            2int
        } else {
            1int
        },
{
    let help = Some(HelpList::GrpCmd(items));
    lemma_scan_items_unique(w, items@, help, Seq::empty(), i);
    let words = seq![w];
    assert(words.drop_first() =~= Seq::<Seq<char>>::empty());
    let hier = Seq::<HelpItem>::empty().push(items@[i]);
    assert(words[0] == w);
    assert(walk_help(Seq::empty(), items@[i].next, hier) == (items@[i].next, hier));
    assert(walk_help(words, help, Seq::empty()) == (items@[i].next, hier));
    assert(hier.drop_last() =~= Seq::<HelpItem>::empty());
    assert(join_names(hier) == join_names(Seq::<HelpItem>::empty()) + w + " "@);
    assert(join_names(Seq::<HelpItem>::empty()) + w + " "@ =~= w + " "@);
}

/// `help g`, for a group `g` named once among the entries of the top level,
/// lists the group's entries, one line each and in order: the path `g ` in
/// bold, the entry's name in bold, a marker `[…]` for an entry with
/// something below it, and the entry's help text if it has one, not in bold.
pub proof fn lemma_help_for_group(items: Vec<HelpItem>, i: int, w: Seq<char>)
    requires
        0 <= i < items@.len(),
        items@[i].name@ == w,
        forall|j: int| 0 <= j < items@.len() && j != i ==> (#[trigger] items@[j]).name@ != w,
        items@[i].next matches Some(HelpList::GrpCmd(_)),
    ensures
        items@[i].next matches Some(HelpList::GrpCmd(sub)) ==> {
            let scr = help_screen(Some(HelpList::GrpCmd(items)), seq![w]);
            &&& scr.len() == sub@.len()
            &&& forall|k: int|
                #![trigger scr[k]]
                0 <= k < sub@.len() ==> {
                    &&& scr[k].len() == 3
                    &&& scr[k][0] == (w + " "@, true)
                    &&& scr[k][1].1
                    &&& scr[k][1].0.take(sub@[k].name@.len() as int) == sub@[k].name@
                    &&& !scr[k][2].1
                    &&& scr[k][2].0.take(4) == " "@ + if sub@[k].next is Some {
                        "[…]"@
                    } else {
                        "   "@
                    }
                    &&& sub@[k].help matches Some(h) ==> scr[k][2].0.skip(scr[k][2].0.len() - h@.len()) == h@
                }
        },
{
    reveal_strlit("[…]");
    reveal_strlit("   ");
    reveal_strlit(" ");
    reveal_strlit("    ");
    let help = Some(HelpList::GrpCmd(items));
    lemma_scan_items_unique(w, items@, help, Seq::empty(), i);
    let words = seq![w];
    assert(words.drop_first() =~= Seq::<Seq<char>>::empty());
    let hier = Seq::<HelpItem>::empty().push(items@[i]);
    assert(words[0] == w);
    assert(walk_help(Seq::empty(), items@[i].next, hier) == (items@[i].next, hier));
    assert(walk_help(words, help, Seq::empty()) == (items@[i].next, hier));
    assert(hier.drop_last() =~= Seq::<HelpItem>::empty());
    assert(join_names(hier) == join_names(Seq::<HelpItem>::empty()) + w + " "@);
    assert(join_names(Seq::<HelpItem>::empty()) + w + " "@ =~= w + " "@);
    if let Some(HelpList::GrpCmd(sub)) = items@[i].next {
        let scr = help_screen(help, words);
        let mw = max_name_bytes(sub@);
        assert forall|k: int| #![trigger scr[k]] 0 <= k < sub@.len() implies {
            &&& scr[k].len() == 3
            &&& scr[k][0] == (w + " "@, true)
            &&& scr[k][1].1
            &&& scr[k][1].0.take(sub@[k].name@.len() as int) == sub@[k].name@
            &&& !scr[k][2].1
            &&& scr[k][2].0.take(4) == " "@ + if sub@[k].next is Some {
                "[…]"@
            } else {
                "   "@
            }
            &&& sub@[k].help matches Some(h) ==> scr[k][2].0.skip(scr[k][2].0.len() - h@.len()) == h@
        } by {
            let it = sub@[k];
            let n = it.name@;
            assert(scr[k] == item_line(w + " "@, mw, it));
            let marker = if it.next is Some {
                "[…]"@
            } else {
                "   "@
            };
            assert(n.take(n.len() as int) =~= n);
            assert(pad_right(n, mw).take(n.len() as int) =~= n);
            match it.help {
                Some(h) => {
                    let t = " "@ + marker + "    "@ + h@;
                    assert(t.take(4) =~= " "@ + marker);
                    assert(t.skip(t.len() - h@.len()) =~= h@);
                },
                None => {
                    assert((" "@ + marker).take(4) =~= " "@ + marker);
                },
            }
        }
    }
}

/// In the help list built from commands and groups, `help c` for a command
/// `c` whose name no other top-level command or group has shows one line,
/// starting with `c ` in bold and ending with the command's help text, set
/// off by three spaces and not in bold, whether or not `c` has parameters.
pub proof fn lemma_command_help_shows_its_text<Cb>(
    list: HelpList,
    grps: Seq<Group<Cb>>,
    cmds: Seq<Command<Cb>>,
    i: int,
    h: Seq<char>,
)
    requires
        help_list_matches(list, grps, cmds),
        0 <= i < cmds.len(),
        opt_view(cmds[i].help) == Some(h),
        forall|j: int| 0 <= j < cmds.len() && j != i ==> (#[trigger] cmds[j]).name@ != cmds[i].name@,
        forall|j: int| 0 <= j < grps.len() ==> (#[trigger] grps[j]).name@ != cmds[i].name@,
    ensures
        help_screen(Some(list), seq![cmds[i].name@]).len() == 1,
        help_screen(Some(list), seq![cmds[i].name@])[0][0] == (cmds[i].name@ + " "@, true),
        help_screen(Some(list), seq![cmds[i].name@])[0].last() == ("   "@ + h, false),
{
    if let HelpList::GrpCmd(items) = list {
        let w = cmds[i].name@;
        assert(command_item_matches(items@[i], cmds[i]));
        assert forall|j: int| 0 <= j < items@.len() && j != i implies (#[trigger] items@[j]).name@ != w by {
            if j < cmds.len() {
                assert(command_item_matches(items@[j], cmds[j]));
                assert(cmds[j].name@ != w);
            } else {
                let g = j - cmds.len();
                assert(items@[cmds.len() + g].name@ == grps[g].name@);
                assert(grps[g].name@ != w);
            }
        }
        lemma_help_for_command(items, i, w);
    }
}

/// `help` alone lists the entries of the top level, one line each and in
/// order: an empty path, the entry's name in bold, a marker `[…]` for an
/// entry with something below it, and the entry's help text if it has one,
/// not in bold.
pub proof fn lemma_top_level_help_lines(items: Vec<HelpItem>)
    ensures
        ({
            let scr = help_screen(Some(HelpList::GrpCmd(items)), Seq::empty());
            &&& scr.len() == items@.len()
            &&& forall|k: int|
                #![trigger scr[k]]
                0 <= k < items@.len() ==> {
                    &&& scr[k].len() == 3
                    &&& scr[k][0] == (Seq::<char>::empty(), true)
                    &&& scr[k][1].1
                    &&& scr[k][1].0.take(items@[k].name@.len() as int) == items@[k].name@
                    &&& !scr[k][2].1
                    &&& scr[k][2].0.take(4) == " "@ + if items@[k].next is Some {
                        "[…]"@
                    } else {
                        "   "@
                    }
                    &&& items@[k].help matches Some(h) ==> scr[k][2].0.skip(scr[k][2].0.len() - h@.len()) == h@
                }
        }),
{
    reveal_strlit("[…]");
    reveal_strlit("   ");
    reveal_strlit(" ");
    reveal_strlit("    ");
    let help = Some(HelpList::GrpCmd(items));
    assert(walk_help(Seq::empty(), help, Seq::empty()) == (help, Seq::<HelpItem>::empty()));
    let scr = help_screen(help, Seq::empty());
    let mw = max_name_bytes(items@);
    assert forall|k: int| #![trigger scr[k]] 0 <= k < items@.len() implies {
        &&& scr[k].len() == 3
        &&& scr[k][0] == (Seq::<char>::empty(), true)
        &&& scr[k][1].1
        &&& scr[k][1].0.take(items@[k].name@.len() as int) == items@[k].name@
        &&& !scr[k][2].1
        &&& scr[k][2].0.take(4) == " "@ + if items@[k].next is Some {
            "[…]"@
        } else {
            "   "@
        }
        &&& items@[k].help matches Some(h) ==> scr[k][2].0.skip(scr[k][2].0.len() - h@.len()) == h@
    } by {
        let it = items@[k];
        let n = it.name@;
        assert(scr[k] == item_line(join_names(Seq::empty()), mw, it));
        let marker = if it.next is Some {
            "[…]"@
        } else {
            "   "@
        };
        assert(n.take(n.len() as int) =~= n);
        assert(pad_right(n, mw).take(n.len() as int) =~= n);
        match it.help {
            Some(h) => {
                let t = " "@ + marker + "    "@ + h@;
                assert(t.take(4) =~= " "@ + marker);
                assert(t.skip(t.len() - h@.len()) =~= h@);
            },
            None => {
                assert((" "@ + marker).take(4) =~= " "@ + marker);
            },
        }
    }
}

pub open spec fn opt_list(o: Option<&HelpList>) -> Option<HelpList> {
    match o {
        Some(l) => Some(*l),
        None => None,
    }
}

pub open spec fn deref_items(v: Seq<&HelpItem>) -> Seq<HelpItem> {
    v.map_values(|r: &HelpItem| *r)
}

fn join_item_names(items: &Vec<&HelpItem>) -> (s: String)
    ensures
        s@ == join_names(deref_items(items@)),
{
    let mut s = String::new();
    let mut k: usize = 0;
    while k < items.len()
        invariant
            0 <= k <= items@.len(),
            s@ == join_names(deref_items(items@).take(k as int)),
        decreases items@.len() - k,
    {
        proof {
            assert(deref_items(items@).take(k + 1).drop_last() =~= deref_items(items@).take(k as int));
        }
        s.append(items[k].name.as_str());
        s.append(" ");
        k = k + 1;
    }
    assert(deref_items(items@).take(k as int) =~= deref_items(items@));
    s
}

fn join_list_names(items: &Vec<HelpItem>) -> (s: String)
    ensures
        s@ == join_names(items@),
{
    let mut refs: Vec<&HelpItem> = Vec::new();
    let mut k: usize = 0;
    assert(deref_items(refs@) =~= items@.take(0));
    while k < items.len()
        invariant
            0 <= k <= items@.len(),
            deref_items(refs@) == items@.take(k as int),
        decreases items@.len() - k,
    {
        proof {
            let r = &items@[k as int];
            assert(deref_items(refs@.push(r)) =~= deref_items(refs@).push(items@[k as int]));
            assert(items@.take(k + 1) =~= items@.take(k as int).push(items@[k as int]));
        }
        refs.push(&items[k]);
        k = k + 1;
    }
    assert(items@.take(k as int) =~= items@);
    join_item_names(&refs)
}

fn max_name_len(items: &Vec<HelpItem>) -> (m: usize)
    ensures
        m == max_name_bytes(items@),
{
    let mut m: usize = 0;
    let mut k: usize = 0;
    while k < items.len()
        invariant
            0 <= k <= items@.len(),
            m == max_name_bytes(items@.take(k as int)),
        decreases items@.len() - k,
    {
        proof {
            assert(items@.take(k + 1).drop_last() =~= items@.take(k as int));
        }
        let b = byte_length(items[k].name.as_str());
        if m < b {
            m = b;
        }
        k = k + 1;
    }
    assert(items@.take(k as int) =~= items@);
    m
}

fn padded(s: &String, w: usize) -> (r: String)
    ensures
        r@ == pad_right(s@, w as nat),
{
    let n = chars_of(s.as_str()).len();
    let mut r = s.clone();
    if n < w {
        let mut k: usize = n;
        while k < w
            invariant
                n <= k <= w,
                n == s@.len(),
                r@ == s@ + spaces((k - n) as nat),
            decreases w - k,
        {
            push_char(&mut r, ' ');
            k = k + 1;
            assert(r@ =~= s@ + spaces((k - n) as nat));
        }
    } else {
        assert(r@ == pad_right(s@, w as nat));
    }
    r
}

fn span(text: String, bold: bool) -> (s: Span)
    ensures
        s.deep_view() == (text@, bold),
{
    Span { text, bold }
}

fn item_spans(path: &String, w: usize, item: &HelpItem) -> (line: Vec<Span>)
    ensures
        line.deep_view() == item_line(path@, w as nat, *item),
{
    let mut rest = String::from_str(" ");
    if item.next.is_some() {
        rest.append("[…]");
    } else {
        rest.append("   ");
    }
    let mut line: Vec<Span> = Vec::new();
    line.push(span(path.clone(), true));
    match &item.help {
        Some(h) => {
            line.push(span(padded(&item.name, w), true));
            rest.append("    ");
            rest.append(h.as_str());
            line.push(span(rest, false));
        },
        None => {
            line.push(span(item.name.clone(), true));
            line.push(span(rest, false));
        },
    }
    assert(line.deep_view() =~= item_line(path@, w as nat, *item));
    line
}

/// The lines of the help screen for the words `words`.
pub fn help_lines(help: &Option<HelpList>, words: &[String]) -> (lines: Vec<Vec<Span>>)
    ensures
        lines.deep_view() == help_screen(*help, words.deep_view()),
{
    let ghost ws = words.deep_view();
    let mut cur: Option<&HelpList> = help.as_ref();
    let mut hierarchy: Vec<&HelpItem> = Vec::new();
    let mut ti: usize = 0;
    assert(deref_items(hierarchy@) =~= Seq::<HelpItem>::empty());
    assert(ws.skip(0) =~= ws);
    assert(opt_list(cur) == *help);
    while ti < words.len()
        invariant
            ws == words.deep_view(),
            0 <= ti <= words@.len(),
            walk_help(ws.skip(ti as int), opt_list(cur), deref_items(hierarchy@)) == walk_help(
                ws,
                *help,
                Seq::empty(),
            ),
        decreases words@.len() - ti,
    {
        let t = &words[ti];
        proof {
            assert(ws.skip(ti as int).drop_first() =~= ws.skip(ti + 1));
            assert(ws.skip(ti as int)[0] == t@);
        }
        if let Some(HelpList::GrpCmd(l)) = cur {
            let ghost start = (opt_list(cur), deref_items(hierarchy@));
            let mut k: usize = 0;
            assert(l@.skip(0) =~= l@);
            while k < l.len()
                invariant
                    0 <= k <= l@.len(),
                    scan_items(t@, l@.skip(k as int), opt_list(cur), deref_items(hierarchy@))
                        == scan_items(t@, l@, start.0, start.1),
                decreases l@.len() - k,
            {
                let h = &l[k];
                proof {
                    assert(l@.skip(k as int).drop_first() =~= l@.skip(k + 1));
                }
                if *t == h.name {
                    proof {
                        assert(deref_items(hierarchy@.push(h)) =~= deref_items(hierarchy@).push(*h));
                    }
                    hierarchy.push(h);
                    cur = h.next.as_ref();
                }
                k = k + 1;
            }
            assert(l@.skip(k as int) =~= Seq::<HelpItem>::empty());
        }
        ti = ti + 1;
    }
    assert(ws.skip(ti as int) =~= Seq::<Seq<char>>::empty());
    let ghost hier = deref_items(hierarchy@);
    assert(walk_help(ws, *help, Seq::empty()) == (opt_list(cur), hier));
    let path = join_item_names(&hierarchy);
    let mut lines: Vec<Vec<Span>> = Vec::new();
    match cur {
        Some(HelpList::GrpCmd(l)) => {
            let w = max_name_len(l);
            let mut k: usize = 0;
            while k < l.len()
                invariant
                    0 <= k <= l@.len(),
                    w == max_name_bytes(l@),
                    lines@.len() == k,
                    forall|m: int| 0 <= m < k ==> (#[trigger] lines@[m]).deep_view() == item_line(path@, w as nat, l@[m]),
                decreases l@.len() - k,
            {
                lines.push(item_spans(&path, w, &l[k]));
                k = k + 1;
            }
            assert(opt_list(cur) == Some(HelpList::GrpCmd(*l)));
            assert(lines.deep_view() =~= help_screen(*help, ws)) by {
                assert(forall|m: int| 0 <= m < l@.len() ==> lines.deep_view()[m] == (#[trigger] lines@[m]).deep_view());
            }
        },
        Some(HelpList::Param(l)) => {
            assert(opt_list(cur) == Some(HelpList::Param(*l)));
            if hierarchy.len() > 0 {
                let p = hierarchy[hierarchy.len() - 1];
                assert(*p == hier.last());
                let ghost pv = path@;
                let names = join_list_names(l);
                let ghost nv = names@;
                let mut line: Vec<Span> = Vec::new();
                line.push(span(path, true));
                line.push(span(names, true));
                match &p.help {
                    Some(h) => {
                        let mut rest = String::from_str("   ");
                        rest.append(h.as_str());
                        line.push(span(rest, false));
                        assert(line.deep_view() =~= seq![(pv, true), (nv, true), ("   "@ + h@, false)]);
                    },
                    None => {
                        assert(line.deep_view() =~= seq![(pv, true), (nv, true)]);
                    },
                }
                lines.push(line);
            }
            assert(lines.deep_view() =~= help_screen(*help, ws));
        },
        None => {
            assert(opt_list(cur) is None);
            if hierarchy.len() > 0 {
                let p = hierarchy[hierarchy.len() - 1];
                assert(*p == hier.last());
                let ghost pv = path@;
                let mut line: Vec<Span> = Vec::new();
                line.push(span(path, true));
                match &p.help {
                    Some(h) => {
                        let mut rest = String::from_str("   ");
                        rest.append(h.as_str());
                        line.push(span(rest, false));
                        assert(line.deep_view() =~= seq![(pv, true), ("   "@ + h@, false)]);
                    },
                    None => {
                        assert(line.deep_view() =~= seq![(pv, true)]);
                    },
                }
                lines.push(line);
            }
            assert(lines.deep_view() =~= help_screen(*help, ws));
        },
    }
    lines
}

} // verus!
