//! The table that maps a command's path (its name, after the names of the
//! groups that hold it) to the callback that runs it.

use vstd::prelude::*;

use crate::table::{has_key, key_index, keys_distinct, lemma_key_index, lemma_push_key, lemma_set_key};
use crate::text::str_eq;

verus! {

/// A path of command names.
pub type PathView = Seq<Seq<char>>;

/// Callbacks by command path; no path occurs twice.
pub struct CallbackMap<Cb> {
    entries: Vec<(Vec<String>, Cb)>,
}

/// The map that a table of callbacks stands for.
pub open spec fn entries_map<Cb>(s: Seq<(Vec<String>, Cb)>) -> Map<PathView, Cb> {
    Map::new(|k: PathView| has_key(s, k), |k: PathView| s[key_index(s, k)].1)
}

/// Whether two paths hold the same names.
pub fn paths_eq(a: &Vec<String>, b: &Vec<String>) -> (r: bool)
    ensures
        r == (a.deep_view() == b.deep_view()),
{
    if a.len() != b.len() {
        assert(a.deep_view().len() != b.deep_view().len());
        return false;
    }
    let mut i: usize = 0;
    while i < a.len()
        invariant
            a.len() == b.len(),
            0 <= i <= a.len(),
            forall|k: int| 0 <= k < i ==> a@[k]@ == b@[k]@,
        decreases a.len() - i,
    {
        if !str_eq(a[i].as_str(), b[i].as_str()) {
            assert(a.deep_view()[i as int] != b.deep_view()[i as int]);
            return false;
        }
        i = i + 1;
    }
    assert(a.deep_view() =~= b.deep_view());
    true
}

fn find_path<Cb>(s: &Vec<(Vec<String>, Cb)>, path: &Vec<String>) -> (r: Option<usize>)
    requires
        keys_distinct(s@),
    ensures
        match r {
            Some(i) => i < s@.len() && s@[i as int].0.deep_view() == path.deep_view() && key_index(
                s@,
                path.deep_view(),
            ) == i && has_key(s@, path.deep_view()),
            None => !has_key(s@, path.deep_view()),
        },
{
    let mut i: usize = 0;
    while i < s.len()
        invariant
            keys_distinct(s@),
            0 <= i <= s@.len(),
            forall|k: int| 0 <= k < i ==> #[trigger] s@[k].0.deep_view() != path.deep_view(),
        decreases s.len() - i,
    {
        if paths_eq(&s[i].0, path) {
            proof {
                lemma_key_index(s@, i as int);
            }
            return Some(i);
        }
        i = i + 1;
    }
    None
}

/// What is registered is what is found: after registering a callback for a
/// path, looking the path up gives that callback, and other paths keep theirs.
pub proof fn lemma_register_then_find<Cb>(m: Map<PathView, Cb>, path: PathView, cb: Cb, other: PathView)
    requires
        other != path,
    ensures
        m.insert(path, cb).contains_key(path) && m.insert(path, cb)[path] == cb,
        m.insert(path, cb).contains_key(other) == m.contains_key(other),
        m.contains_key(other) ==> m.insert(path, cb)[other] == m[other],
{
}

impl<Cb> View for CallbackMap<Cb> {
    type V = Map<PathView, Cb>;

    closed spec fn view(&self) -> Map<PathView, Cb> {
        entries_map(self.entries@)
    }
}

impl<Cb> CallbackMap<Cb> {
    #[verifier::type_invariant]
    spec fn paths_distinct(self) -> bool {
        keys_distinct(self.entries@)
    }

    /// No callbacks.
    pub fn new() -> (m: Self)
        ensures
            m@ == Map::<PathView, Cb>::empty(),
    {
        let m = CallbackMap { entries: Vec::new() };
        assert(entries_map(m.entries@) =~= Map::<PathView, Cb>::empty());
        m
    }

    /// Registers `cb` for `path`, replacing an earlier callback of that path.
    pub fn insert(&mut self, path: Vec<String>, cb: Cb)
        ensures
            final(self)@ == old(self)@.insert(path.deep_view(), cb),
    {
        proof {
            use_type_invariant(&*self);
        }
        let ghost s = self.entries@;
        let ghost e = (path, cb);
        let ghost k = path.deep_view();
        let mut tbl: Vec<(Vec<String>, Cb)> = Vec::new();
        std::mem::swap(&mut tbl, &mut self.entries);
        match find_path(&tbl, &path) {
            Some(i) => {
                tbl.set(i, (path, cb));
                proof {
                    lemma_set_key(s, i as int, e);
                    assert(entries_map(tbl@) =~= entries_map(s).insert(k, e.1));
                }
            },
            None => {
                tbl.push((path, cb));
                proof {
                    lemma_push_key(s, e);
                    assert(entries_map(tbl@) =~= entries_map(s).insert(k, e.1));
                }
            },
        }
        self.entries = tbl;
    }

    /// The callback registered for `path`.
    pub fn get(&self, path: &Vec<String>) -> (r: Option<&Cb>)
        ensures
            match r {
                Some(cb) => self@.contains_key(path.deep_view()) && *cb == self@[path.deep_view()],
                None => !self@.contains_key(path.deep_view()),
            },
    {
        proof {
            use_type_invariant(self);
        }
        match find_path(&self.entries, path) {
            Some(i) => Some(&self.entries[i].1),
            None => None,
        }
    }

    /// Takes the table apart into its entries, which hold each path once.
    pub fn into_entries(self) -> (v: Vec<(Vec<String>, Cb)>)
        ensures
            keys_distinct(v@),
            entries_map(v@) == self@,
    {
        proof {
            use_type_invariant(&self);
        }
        self.entries
    }
}

} // verus!
