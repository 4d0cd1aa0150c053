//! Tables of key/value pairs in which no key occurs twice, and the maps
//! they stand for.

use vstd::prelude::*;

verus! {

/// No name occurs twice in the table.
pub open spec fn keys_distinct<K: DeepView, V>(s: Seq<(K, V)>) -> bool {
    forall|i: int, j: int|
        0 <= i < s.len() && 0 <= j < s.len() && i != j ==> #[trigger] s[i].0.deep_view() != #[trigger] s[j].0.deep_view()
}

pub open spec fn has_key<K: DeepView, V>(s: Seq<(K, V)>, k: K::V) -> bool {
    exists|i: int| 0 <= i < s.len() && #[trigger] s[i].0.deep_view() == k
}

pub open spec fn key_index<K: DeepView, V>(s: Seq<(K, V)>, k: K::V) -> int {
    choose|i: int| 0 <= i < s.len() && #[trigger] s[i].0.deep_view() == k
}

/// In a table without repeated names, the entry of a name is the one found.
pub proof fn lemma_key_index<K: DeepView, V>(s: Seq<(K, V)>, i: int)
    requires
        keys_distinct(s),
        0 <= i < s.len(),
    ensures
        has_key(s, s[i].0.deep_view()),
        key_index(s, s[i].0.deep_view()) == i,
{
    assert(s[i].0.deep_view() == s[i].0.deep_view());
    let j = key_index(s, s[i].0.deep_view());
    assert(0 <= j < s.len() && s[j].0.deep_view() == s[i].0.deep_view());
}

pub proof fn lemma_remove_key<K: DeepView, V>(s: Seq<(K, V)>, i: int)
    requires
        keys_distinct(s),
        0 <= i < s.len(),
    ensures
        keys_distinct(s.remove(i)),
        forall|k: K::V| #[trigger] has_key(s.remove(i), k) <==> (has_key(s, k) && k != s[i].0.deep_view()),
        forall|k: K::V|
            has_key(s.remove(i), k) ==> s.remove(i)[key_index(s.remove(i), k)] == s[key_index(s, k)],
{
    let r = s.remove(i);
    assert forall|k: K::V| #[trigger] has_key(r, k) <==> (has_key(s, k) && k != s[i].0.deep_view()) by {
        if has_key(r, k) {
            let j = choose|j: int| 0 <= j < r.len() && #[trigger] r[j].0.deep_view() == k;
            if j < i {
                assert(s[j].0.deep_view() == k);
            } else {
                assert(s[j + 1].0.deep_view() == k);
            }
        }
        if has_key(s, k) && k != s[i].0.deep_view() {
            let j = choose|j: int| 0 <= j < s.len() && #[trigger] s[j].0.deep_view() == k;
            if j < i {
                assert(r[j].0.deep_view() == k);
            } else {
                assert(r[j - 1].0.deep_view() == k);
            }
        }
    }
    assert forall|k: K::V| has_key(r, k) implies r[key_index(r, k)] == s[key_index(s, k)] by {
        let j = key_index(r, k);
        if j < i {
            lemma_key_index(s, j);
        } else {
            lemma_key_index(s, j + 1);
        }
    }
}

pub proof fn lemma_set_key<K: DeepView, V>(s: Seq<(K, V)>, i: int, e: (K, V))
    requires
        keys_distinct(s),
        0 <= i < s.len(),
        e.0.deep_view() == s[i].0.deep_view(),
    ensures
        keys_distinct(s.update(i, e)),
        forall|k: K::V| #[trigger] has_key(s.update(i, e), k) <==> has_key(s, k),
        forall|k: K::V|
            has_key(s, k) && k != e.0.deep_view() ==> s.update(i, e)[key_index(s.update(i, e), k)] == s[key_index(s, k)],
        key_index(s.update(i, e), e.0.deep_view()) == i,
{
    let r = s.update(i, e);
    assert forall|k: K::V| #[trigger] has_key(r, k) <==> has_key(s, k) by {
        if has_key(r, k) {
            let j = choose|j: int| 0 <= j < r.len() && #[trigger] r[j].0.deep_view() == k;
            assert(s[j].0.deep_view() == k);
        }
        if has_key(s, k) {
            let j = choose|j: int| 0 <= j < s.len() && #[trigger] s[j].0.deep_view() == k;
            assert(r[j].0.deep_view() == k);
        }
    }
    assert forall|k: K::V| has_key(s, k) && k != e.0.deep_view() implies r[key_index(r, k)] == s[key_index(s, k)] by {
        let j = key_index(s, k);
        assert(r[j].0.deep_view() == k);
        lemma_key_index(r, j);
    }
    lemma_key_index(r, i);
}

pub proof fn lemma_push_key<K: DeepView, V>(s: Seq<(K, V)>, e: (K, V))
    requires
        keys_distinct(s),
        !has_key(s, e.0.deep_view()),
    ensures
        keys_distinct(s.push(e)),
        forall|k: K::V| #[trigger] has_key(s.push(e), k) <==> (has_key(s, k) || k == e.0.deep_view()),
        forall|k: K::V|
            has_key(s, k) ==> s.push(e)[key_index(s.push(e), k)] == s[key_index(s, k)],
        key_index(s.push(e), e.0.deep_view()) == s.len(),
{
    let r = s.push(e);
    assert forall|i: int, j: int|
        0 <= i < r.len() && 0 <= j < r.len() && i != j implies #[trigger] r[i].0.deep_view() != #[trigger] r[j].0.deep_view() by {
        if i == s.len() {
            assert(s[j].0.deep_view() == r[j].0.deep_view());
        } else if j == s.len() {
            assert(s[i].0.deep_view() == r[i].0.deep_view());
        }
    }
    assert forall|k: K::V| #[trigger] has_key(r, k) <==> (has_key(s, k) || k == e.0.deep_view()) by {
        if has_key(r, k) {
            let j = choose|j: int| 0 <= j < r.len() && #[trigger] r[j].0.deep_view() == k;
            if j < s.len() {
                assert(s[j].0.deep_view() == k);
            }
        }
        if has_key(s, k) {
            let j = choose|j: int| 0 <= j < s.len() && #[trigger] s[j].0.deep_view() == k;
            assert(r[j].0.deep_view() == k);
        }
        if k == e.0.deep_view() {
            assert(r[s.len() as int].0.deep_view() == k);
        }
    }
    assert forall|k: K::V| has_key(s, k) implies r[key_index(r, k)] == s[key_index(s, k)] by {
        let j = key_index(s, k);
        assert(r[j].0.deep_view() == k);
        lemma_key_index(r, j);
    }
    lemma_key_index(r, s.len() as int);
}

} // verus!
