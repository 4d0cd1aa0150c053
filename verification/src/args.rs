//! The arguments that parsing a command line collects, by parameter name.

use vstd::prelude::*;
use vstd::string::*;

use crate::table::{has_key, key_index, keys_distinct, lemma_key_index, lemma_push_key, lemma_remove_key, lemma_set_key};
use crate::text::str_eq;
use crate::Error;

verus! {

/// The values given to a command's parameters.  Each kind of parameter
/// (free string, one of a list of alternatives, boolean) has its own table,
/// and each table holds a parameter name at most once.  A value of `None`
/// stands for an optional parameter that was left out.
pub struct Args {
    strings: Vec<(String, Option<String>)>,
    alts: Vec<(String, Option<String>)>,
    bools: Vec<(String, Option<bool>)>,
}

/// What an `Args` holds: one map per kind of parameter.
#[verifier::ext_equal]
pub struct ArgsView {
    pub strings: Map<Seq<char>, Option<Seq<char>>>,
    pub alts: Map<Seq<char>, Option<Seq<char>>>,
    pub bools: Map<Seq<char>, Option<bool>>,
}

impl ArgsView {
    pub open spec fn empty() -> ArgsView {
        ArgsView { strings: Map::empty(), alts: Map::empty(), bools: Map::empty() }
    }

    pub open spec fn with_string(self, name: Seq<char>, v: Option<Seq<char>>) -> ArgsView {
        ArgsView { strings: self.strings.insert(name, v), ..self }
    }

    pub open spec fn with_alt(self, name: Seq<char>, v: Option<Seq<char>>) -> ArgsView {
        ArgsView { alts: self.alts.insert(name, v), ..self }
    }

    pub open spec fn with_bool(self, name: Seq<char>, v: Option<bool>) -> ArgsView {
        ArgsView { bools: self.bools.insert(name, v), ..self }
    }
}

pub open spec fn opt_str_view(o: Option<String>) -> Option<Seq<char>> {
    match o {
        Some(s) => Some(s@),
        None => None,
    }
}

pub open spec fn opt_ref_view(o: Option<&str>) -> Option<Seq<char>> {
    match o {
        Some(s) => Some(s@),
        None => None,
    }
}

/// The map that a table of string values stands for.
pub open spec fn str_table_map(s: Seq<(String, Option<String>)>) -> Map<Seq<char>, Option<Seq<char>>> {
    Map::new(|k: Seq<char>| has_key(s, k), |k: Seq<char>| opt_str_view(s[key_index(s, k)].1))
}

/// The map that a table of boolean values stands for.
pub open spec fn bool_table_map(s: Seq<(String, Option<bool>)>) -> Map<Seq<char>, Option<bool>> {
    Map::new(|k: Seq<char>| has_key(s, k), |k: Seq<char>| s[key_index(s, k)].1)
}

/// Index of the entry named `name`, if there is one.
fn find_key<V>(s: &Vec<(String, V)>, name: &str) -> (r: Option<usize>)
    requires
        keys_distinct(s@),
    ensures
        match r {
            Some(i) => i < s@.len() && s@[i as int].0@ == name@ && key_index(s@, name@) == i
                && has_key(s@, name@),
            None => !has_key(s@, name@),
        },
{
    let mut i: usize = 0;
    while i < s.len()
        invariant
            keys_distinct(s@),
            0 <= i <= s@.len(),
            forall|k: int| 0 <= k < i ==> #[trigger] s@[k].0@ != name@,
        decreases s.len() - i,
    {
        if str_eq(s[i].0.as_str(), name) {
            proof {
                lemma_key_index(s@, i as int);
            }
            return Some(i);
        }
        i = i + 1;
    }
    None
}

/// What is set is what is read back: after setting a parameter, reading it
/// gives the value set, and the other parameters keep theirs.
pub proof fn lemma_set_then_get(a: ArgsView, name: Seq<char>, s: Option<Seq<char>>, b: Option<bool>, other: Seq<char>)
    requires
        other != name,
    ensures
        a.with_string(name, s).strings.contains_key(name) && a.with_string(name, s).strings[name] == s,
        a.with_alt(name, s).alts.contains_key(name) && a.with_alt(name, s).alts[name] == s,
        a.with_bool(name, b).bools.contains_key(name) && a.with_bool(name, b).bools[name] == b,
        a.with_string(name, s).strings.contains_key(other) == a.strings.contains_key(other),
        a.strings.contains_key(other) ==> a.with_string(name, s).strings[other] == a.strings[other],
        a.with_alt(name, s).alts.contains_key(other) == a.alts.contains_key(other),
        a.alts.contains_key(other) ==> a.with_alt(name, s).alts[other] == a.alts[other],
        a.with_bool(name, b).bools.contains_key(other) == a.bools.contains_key(other),
        a.bools.contains_key(other) ==> a.with_bool(name, b).bools[other] == a.bools[other],
{
}

/// A string argument can be taken once: once taken, it counts as not
/// available, and nothing else changes.
pub proof fn lemma_taken_once(a: ArgsView, name: Seq<char>)
    ensures
        !(ArgsView { strings: a.strings.remove(name), ..a }).strings.contains_key(name),
        (ArgsView { strings: a.strings.remove(name), ..a }).alts == a.alts,
        (ArgsView { strings: a.strings.remove(name), ..a }).bools == a.bools,
{
}

/// A call that sets an argument: `add_string`, `add_alt` or `add_bool`, by
/// the views of its arguments.
pub enum ArgSet {
    Str(Seq<char>, Option<Seq<char>>),
    Alt(Seq<char>, Option<Seq<char>>),
    Bool(Seq<char>, Option<bool>),
}

/// The arguments after the calls `sets`, in order, starting from `a`.
pub open spec fn apply_sets(a: ArgsView, sets: Seq<ArgSet>) -> ArgsView
    decreases sets.len(),
{
    if sets.len() == 0 {
        a
    } else {
        let b = apply_sets(a, sets.drop_last());
        match sets.last() {
            ArgSet::Str(n, v) => b.with_string(n, v),
            ArgSet::Alt(n, v) => b.with_alt(n, v),
            ArgSet::Bool(n, v) => b.with_bool(n, v),
        }
    }
}

/// The value of the last of `sets` that sets the string parameter `n`.
pub open spec fn last_string_set(sets: Seq<ArgSet>, n: Seq<char>) -> Option<Option<Seq<char>>>
    decreases sets.len(),
{
    if sets.len() == 0 {
        None
    } else {
        match sets.last() {
            ArgSet::Str(m, v) if m == n => Some(v),
            _ => last_string_set(sets.drop_last(), n),
        }
    }
}

/// The value of the last of `sets` that sets the alternative parameter `n`.
pub open spec fn last_alt_set(sets: Seq<ArgSet>, n: Seq<char>) -> Option<Option<Seq<char>>>
    decreases sets.len(),
{
    if sets.len() == 0 {
        None
    } else {
        match sets.last() {
            ArgSet::Alt(m, v) if m == n => Some(v),
            _ => last_alt_set(sets.drop_last(), n),
        }
    }
}

/// The value of the last of `sets` that sets the boolean parameter `n`.
pub open spec fn last_bool_set(sets: Seq<ArgSet>, n: Seq<char>) -> Option<Option<bool>>
    decreases sets.len(),
{
    if sets.len() == 0 {
        None
    } else {
        match sets.last() {
            ArgSet::Bool(m, v) if m == n => Some(v),
            _ => last_bool_set(sets.drop_last(), n),
        }
    }
}

/// After any sequence of calls that set arguments, starting from no
/// arguments, reading a parameter gives the value of the last call that set
/// it, of its own kind; a parameter that no call of its kind set is not
/// available.
pub proof fn lemma_reads_give_last_set(sets: Seq<ArgSet>, n: Seq<char>)
    ensures
        ({
            let a = apply_sets(ArgsView::empty(), sets);
            &&& (a.strings.contains_key(n) <==> last_string_set(sets, n) is Some)
            &&& (a.strings.contains_key(n) ==> last_string_set(sets, n) == Some(a.strings[n]))
            &&& (a.alts.contains_key(n) <==> last_alt_set(sets, n) is Some)
            &&& (a.alts.contains_key(n) ==> last_alt_set(sets, n) == Some(a.alts[n]))
            &&& (a.bools.contains_key(n) <==> last_bool_set(sets, n) is Some)
            &&& (a.bools.contains_key(n) ==> last_bool_set(sets, n) == Some(a.bools[n]))
        }),
    decreases sets.len(),
{
    if sets.len() > 0 {
        lemma_reads_give_last_set(sets.drop_last(), n);
    }
}

impl View for Args {
    type V = ArgsView;

    closed spec fn view(&self) -> ArgsView {
        ArgsView {
            strings: str_table_map(self.strings@),
            alts: str_table_map(self.alts@),
            bools: bool_table_map(self.bools@),
        }
    }
}

impl Args {
    #[verifier::type_invariant]
    spec fn tables_distinct(self) -> bool {
        &&& keys_distinct(self.strings@)
        &&& keys_distinct(self.alts@)
        &&& keys_distinct(self.bools@)
    }

    /// Takes the value of the string parameter `name`.  A value can be taken
    /// once: after that the parameter counts as not available.
    pub fn get_string(&mut self, name: &str) -> (r: Result<Option<String>, Error>)
        ensures
            match r {
                Ok(v) => {
                    &&& old(self)@.strings.contains_key(name@)
                    &&& opt_str_view(v) == old(self)@.strings[name@]
                    &&& final(self)@ == (ArgsView { strings: old(self)@.strings.remove(name@), ..old(self)@ })
                },
                Err(e) => {
                    &&& e == Error::ArgNotAvailable
                    &&& !old(self)@.strings.contains_key(name@)
                    &&& final(self)@ == old(self)@
                },
            },
    {
        proof {
            use_type_invariant(&*self);
        }
        match find_key(&self.strings, name) {
            Some(i) => {
                let ghost s = self.strings@;
                let mut tbl: Vec<(String, Option<String>)> = Vec::new();
                std::mem::swap(&mut tbl, &mut self.strings);
                let (_, v) = tbl.remove(i);
                proof {
                    lemma_remove_key(s, i as int);
                }
                self.strings = tbl;
                proof {
                    assert(str_table_map(self.strings@) =~= str_table_map(s).remove(name@));
                    assert(self@ =~= (ArgsView { strings: old(self)@.strings.remove(name@), ..old(self)@ }));
                }
                Ok(v)
            },
            None => Err(Error::ArgNotAvailable),
        }
    }

    /// The value of the parameter `name` that takes one of a list of
    /// alternatives.
    pub fn get_alt(&self, name: &str) -> (r: Result<Option<&str>, Error>)
        ensures
            match r {
                Ok(v) => self@.alts.contains_key(name@) && opt_ref_view(v) == self@.alts[name@],
                Err(e) => e == Error::ArgNotAvailable && !self@.alts.contains_key(name@),
            },
    {
        proof {
            use_type_invariant(self);
        }
        match find_key(&self.alts, name) {
            Some(i) => match &self.alts[i].1 {
                Some(s) => Ok(Some(s.as_str())),
                None => Ok(None),
            },
            None => Err(Error::ArgNotAvailable),
        }
    }

    /// The value of the boolean parameter `name`.
    pub fn get_bool(&self, name: &str) -> (r: Result<Option<bool>, Error>)
        ensures
            match r {
                Ok(v) => self@.bools.contains_key(name@) && v == self@.bools[name@],
                Err(e) => e == Error::ArgNotAvailable && !self@.bools.contains_key(name@),
            },
    {
        proof {
            use_type_invariant(self);
        }
        match find_key(&self.bools, name) {
            Some(i) => Ok(self.bools[i].1),
            None => Err(Error::ArgNotAvailable),
        }
    }

    /// No arguments.
    pub fn new() -> (a: Self)
        ensures
            a@ == ArgsView::empty(),
    {
        let a = Args { strings: Vec::new(), alts: Vec::new(), bools: Vec::new() };
        proof {
            assert(str_table_map(a.strings@) =~= Map::empty());
            assert(str_table_map(a.alts@) =~= Map::empty());
            assert(bool_table_map(a.bools@) =~= Map::empty());
        }
        a
    }

    /// Sets the string parameter `name` to `val`, replacing an earlier value.
    pub fn add_string(&mut self, name: String, val: Option<String>)
        ensures
            final(self)@ == old(self)@.with_string(name@, opt_str_view(val)),
    {
        proof {
            use_type_invariant(&*self);
        }
        let ghost s = self.strings@;
        let ghost e = (name, val);
        let ghost k = name@;
        match find_key(&self.strings, name.as_str()) {
            Some(i) => {
                let mut tbl: Vec<(String, Option<String>)> = Vec::new();
                std::mem::swap(&mut tbl, &mut self.strings);
                tbl.set(i, (name, val));
                proof {
                    lemma_set_key(s, i as int, e);
                }
                self.strings = tbl;
                proof {
                    assert(str_table_map(self.strings@) =~= str_table_map(s).insert(k, opt_str_view(e.1)));
                }
            },
            None => {
                let mut tbl: Vec<(String, Option<String>)> = Vec::new();
                std::mem::swap(&mut tbl, &mut self.strings);
                tbl.push((name, val));
                proof {
                    lemma_push_key(s, e);
                }
                self.strings = tbl;
                proof {
                    assert(str_table_map(self.strings@) =~= str_table_map(s).insert(k, opt_str_view(e.1)));
                }
            },
        }
        proof {
            assert(self@ =~= old(self)@.with_string(k, opt_str_view(e.1)));
        }
    }

    /// Sets the alternative parameter `name` to `val`, replacing an earlier value.
    pub fn add_alt(&mut self, name: String, val: Option<String>)
        ensures
            final(self)@ == old(self)@.with_alt(name@, opt_str_view(val)),
    {
        proof {
            use_type_invariant(&*self);
        }
        let ghost s = self.alts@;
        let ghost e = (name, val);
        let ghost k = name@;
        match find_key(&self.alts, name.as_str()) {
            Some(i) => {
                let mut tbl: Vec<(String, Option<String>)> = Vec::new();
                std::mem::swap(&mut tbl, &mut self.alts);
                tbl.set(i, (name, val));
                proof {
                    lemma_set_key(s, i as int, e);
                }
                self.alts = tbl;
                proof {
                    assert(str_table_map(self.alts@) =~= str_table_map(s).insert(k, opt_str_view(e.1)));
                }
            },
            None => {
                let mut tbl: Vec<(String, Option<String>)> = Vec::new();
                std::mem::swap(&mut tbl, &mut self.alts);
                tbl.push((name, val));
                proof {
                    lemma_push_key(s, e);
                }
                self.alts = tbl;
                proof {
                    assert(str_table_map(self.alts@) =~= str_table_map(s).insert(k, opt_str_view(e.1)));
                }
            },
        }
        proof {
            assert(self@ =~= old(self)@.with_alt(k, opt_str_view(e.1)));
        }
    }

    /// Sets the boolean parameter `name` to `val`, replacing an earlier value.
    pub fn add_bool(&mut self, name: String, val: Option<bool>)
        ensures
            final(self)@ == old(self)@.with_bool(name@, val),
    {
        proof {
            use_type_invariant(&*self);
        }
        let ghost s = self.bools@;
        let ghost e = (name, val);
        let ghost k = name@;
        match find_key(&self.bools, name.as_str()) {
            Some(i) => {
                let mut tbl: Vec<(String, Option<bool>)> = Vec::new();
                std::mem::swap(&mut tbl, &mut self.bools);
                tbl.set(i, (name, val));
                proof {
                    lemma_set_key(s, i as int, e);
                }
                self.bools = tbl;
                proof {
                    assert(bool_table_map(self.bools@) =~= bool_table_map(s).insert(k, e.1));
                }
            },
            None => {
                let mut tbl: Vec<(String, Option<bool>)> = Vec::new();
                std::mem::swap(&mut tbl, &mut self.bools);
                tbl.push((name, val));
                proof {
                    lemma_push_key(s, e);
                }
                self.bools = tbl;
                proof {
                    assert(bool_table_map(self.bools@) =~= bool_table_map(s).insert(k, e.1));
                }
            },
        }
        proof {
            assert(self@ =~= old(self)@.with_bool(k, e.1));
        }
    }
}

} // verus!
