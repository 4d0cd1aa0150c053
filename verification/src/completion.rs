//! Tab completion: what may follow the part of a line before the cursor.

use vstd::prelude::*;
use vstd::string::*;

use crate::repl::{contains_string, find_named, first_named, strings_view, Selection};
use crate::text::{byte_len, byte_offset, chars_of, lemma_byte_offset_step, lemma_byte_offset_strict, push_char, starts_with, utf8_width};
use crate::tokenizer::{pop_token, spec_tokenize, tokenize, tokens_view, TokenList, TokenView};

verus! {

/// A completion candidate: what to show, and what to put in the line.
pub struct Candidate {
    pub display: String,
    pub replacement: String,
}

impl DeepView for Candidate {
    type V = (Seq<char>, Seq<char>);

    open spec fn deep_view(&self) -> (Seq<char>, Seq<char>) {
        (self.display@, self.replacement@)
    }
}

pub type CandidateView = (Seq<char>, Seq<char>);

/// Whether `w` begins with `prefix`.
pub open spec fn has_prefix(w: Seq<char>, prefix: Seq<char>) -> bool {
    prefix.len() <= w.len() && w.take(prefix.len() as int) == prefix
}

/// The candidate for the word `w`: shown as `[w]` when it fills an optional
/// parameter, and put in the line followed by a space.
pub open spec fn word_candidate(w: Seq<char>, optional: bool) -> CandidateView {
    if optional {
        ("["@ + w + "]"@, w + " "@)
    } else {
        (w, w + " "@)
    }
}

/// The candidates for those of `words` that begin with `prefix`, in order.
pub open spec fn candidates(words: Seq<Seq<char>>, prefix: Seq<char>, optional: bool) -> Seq<CandidateView>
    decreases words.len(),
{
    if words.len() == 0 {
        Seq::empty()
    } else {
        let rest = candidates(words.drop_last(), prefix, optional);
        if has_prefix(words.last(), prefix) {
            rest.push(word_candidate(words.last(), optional))
        } else {
            rest
        }
    }
}

/// Every candidate offered for a word completes it: what it puts in the line
/// is one of the words that begin with what was typed, followed by a space.
pub proof fn lemma_candidates_complete_prefix(words: Seq<Seq<char>>, prefix: Seq<char>, optional: bool)
    ensures
        forall|k: int|
            #![trigger candidates(words, prefix, optional)[k]]
            0 <= k < candidates(words, prefix, optional).len() ==> {
                let r = candidates(words, prefix, optional)[k].1;
                &&& r.len() > 0
                &&& r.last() == ' '
                &&& words.contains(r.drop_last())
                &&& has_prefix(r.drop_last(), prefix)
            },
    decreases words.len(),
{
    reveal_strlit(" ");
    if words.len() > 0 {
        let d = words.drop_last();
        lemma_candidates_complete_prefix(d, prefix, optional);
        let c = candidates(words, prefix, optional);
        let r = candidates(d, prefix, optional);
        assert forall|k: int| #![trigger c[k]] 0 <= k < c.len() implies {
            let x = c[k].1;
            &&& x.len() > 0
            &&& x.last() == ' '
            &&& words.contains(x.drop_last())
            &&& has_prefix(x.drop_last(), prefix)
        } by {
            if k < r.len() {
                assert(c[k] == r[k]);
                let x = r[k].1;
                let i = choose|i: int| 0 <= i < d.len() && d[i] == x.drop_last();
                assert(words[i] == x.drop_last());
            } else {
                let w = words.last();
                assert(words[words.len() - 1] == w);
                assert(c[k] == word_candidate(w, optional));
                assert((w + " "@).drop_last() =~= w);
            }
        }
    }
}

/// The candidate for a free string parameter named `name`: `'name'`, or
/// `['name']` when optional, followed by a space in the line.
pub open spec fn string_candidate(name: Seq<char>, optional: bool) -> CandidateView {
    let d = if optional {
        "['"@ + name + "']"@
    } else {
        "'"@ + name + "'"@
    };
    (d, d + " "@)
}

pub open spec fn child_names(fixed: Seq<(String, Selection)>) -> Seq<Seq<char>> {
    fixed.map_values(|e: (String, Selection)| e.0@)
}

/// The completion of the tokens `tokens` of a line of `pos` bytes from the
/// node `sel`: where the completed word starts, and the candidates.  Tokens
/// that end before the end of the line are followed through the tree; the
/// first token that reaches the end of the line, or the place where the
/// tokens run out, is completed.
pub open spec fn complete_from(sel: Selection, tokens: Seq<TokenView>, pos: nat) -> (nat, Seq<CandidateView>)
    decreases sel,
{
    match sel {
        Selection::Fixed(fixed) => {
            if tokens.len() == 0 {
                (pos, candidates(child_names(fixed@), Seq::empty(), false))
            } else if tokens[0].quoted {
                (0, Seq::empty())
            } else {
                match first_named(fixed@, tokens[0].text) {
                    Some(j) => {
                        if 0 <= j < fixed@.len() && pos > tokens[0].end {
                            complete_from(fixed@[j].1, tokens.drop_first(), pos)
                        } else {
                            (tokens[0].begin, candidates(child_names(fixed@), tokens[0].text, false))
                        }
                    },
                    None => (tokens[0].begin, candidates(child_names(fixed@), tokens[0].text, false)),
                }
            }
        },
        Selection::String { name, optional, next } => {
            if tokens.len() == 0 {
                (pos, seq![string_candidate(name@, optional)])
            } else if pos > tokens[0].end {
                complete_from(*next, tokens.drop_first(), pos)
            } else {
                (0, Seq::empty())
            }
        },
        Selection::Alt { name, optional, values, next } => {
            if tokens.len() == 0 {
                (pos, candidates(strings_view(values@), Seq::empty(), optional))
            } else if tokens[0].quoted {
                (0, Seq::empty())
            } else if strings_view(values@).contains(tokens[0].text) && pos > tokens[0].end {
                complete_from(*next, tokens.drop_first(), pos)
            } else {
                (tokens[0].begin, candidates(strings_view(values@), tokens[0].text, optional))
            }
        },
        Selection::Bool { name, optional, values, next } => {
            let words = seq![values.0@, values.1@];
            if tokens.len() == 0 {
                (pos, candidates(words, Seq::empty(), optional))
            } else if tokens[0].quoted {
                (0, Seq::empty())
            } else if (values.0@ == tokens[0].text || values.1@ == tokens[0].text) && pos > tokens[0].end {
                complete_from(*next, tokens.drop_first(), pos)
            } else {
                (tokens[0].begin, candidates(words, tokens[0].text, optional))
            }
        },
        Selection::End => (0, Seq::empty()),
    }
}

/// The part of `line` before the byte offset `pos`.
pub open spec fn prefix_at(line: Seq<char>, pos: nat) -> Seq<char> {
    line.take(choose|k: int| 0 <= k <= line.len() && byte_offset(line, k) == pos)
}

/// Whether `pos` is the byte offset of a character of `line`, or its length.
pub open spec fn is_boundary(line: Seq<char>, pos: nat) -> bool {
    exists|k: int| 0 <= k <= line.len() && byte_offset(line, k) == pos
}

/// The completion at byte `pos` of `line` from the tree `tree`: nothing when
/// the part before `pos` does not tokenize.
pub open spec fn spec_complete(tree: Selection, line: Seq<char>, pos: nat) -> (nat, Seq<CandidateView>) {
    match spec_tokenize(prefix_at(line, pos)) {
        Some(tokens) => complete_from(tree, tokens, pos),
        None => (0, Seq::empty()),
    }
}

fn word_cand(w: &String, optional: bool) -> (c: Candidate)
    ensures
        c.deep_view() == word_candidate(w@, optional),
{
    let mut replacement = w.clone();
    replacement.append(" ");
    if optional {
        let mut display = String::from_str("[");
        display.append(w.as_str());
        display.append("]");
        Candidate { display, replacement }
    } else {
        Candidate { display: w.clone(), replacement }
    }
}

fn push_if_prefix(out: &mut Vec<Candidate>, w: &String, prefix: &String, optional: bool)
    ensures
        final(out).deep_view() == if has_prefix(w@, prefix@) {
            old(out).deep_view().push(word_candidate(w@, optional))
        } else {
            old(out).deep_view()
        },
{
    let ghost o = out.deep_view();
    if starts_with(w.as_str(), prefix.as_str()) {
        out.push(word_cand(w, optional));
        assert(out.deep_view() =~= o.push(word_candidate(w@, optional)));
    }
}

fn child_candidates(fixed: &Vec<(String, Selection)>, prefix: &String) -> (out: Vec<Candidate>)
    ensures
        out.deep_view() == candidates(child_names(fixed@), prefix@, false),
{
    let mut out: Vec<Candidate> = Vec::new();
    let mut k: usize = 0;
    assert(out.deep_view() =~= Seq::<CandidateView>::empty());
    assert(child_names(fixed@).take(0) =~= Seq::<Seq<char>>::empty());
    while k < fixed.len()
        invariant
            0 <= k <= fixed@.len(),
            out.deep_view() == candidates(child_names(fixed@).take(k as int), prefix@, false),
        decreases fixed@.len() - k,
    {
        proof {
            assert(child_names(fixed@).take(k + 1).drop_last() =~= child_names(fixed@).take(k as int));
        }
        push_if_prefix(&mut out, &fixed[k].0, prefix, false);
        k = k + 1;
    }
    assert(child_names(fixed@).take(k as int) =~= child_names(fixed@));
    out
}

fn value_candidates(values: &Vec<String>, prefix: &String, optional: bool) -> (out: Vec<Candidate>)
    ensures
        out.deep_view() == candidates(strings_view(values@), prefix@, optional),
{
    let mut out: Vec<Candidate> = Vec::new();
    let mut k: usize = 0;
    assert(out.deep_view() =~= Seq::<CandidateView>::empty());
    assert(strings_view(values@).take(0) =~= Seq::<Seq<char>>::empty());
    while k < values.len()
        invariant
            0 <= k <= values@.len(),
            out.deep_view() == candidates(strings_view(values@).take(k as int), prefix@, optional),
        decreases values@.len() - k,
    {
        proof {
            assert(strings_view(values@).take(k + 1).drop_last() =~= strings_view(values@).take(k as int));
        }
        push_if_prefix(&mut out, &values[k], prefix, optional);
        k = k + 1;
    }
    assert(strings_view(values@).take(k as int) =~= strings_view(values@));
    out
}

fn bool_candidates(t: &String, f: &String, prefix: &String, optional: bool) -> (out: Vec<Candidate>)
    ensures
        out.deep_view() == candidates(seq![t@, f@], prefix@, optional),
{
    let mut out: Vec<Candidate> = Vec::new();
    assert(out.deep_view() =~= Seq::<CandidateView>::empty());
    push_if_prefix(&mut out, t, prefix, optional);
    push_if_prefix(&mut out, f, prefix, optional);
    assert(seq![t@, f@].drop_last() =~= seq![t@]);
    assert(seq![t@].drop_last() =~= Seq::<Seq<char>>::empty());
    assert(seq![t@, f@].last() == f@);
    assert(seq![t@].last() == t@);
    proof {
        reveal_with_fuel(candidates, 3);
    }
    out
}

fn string_cand(name: &String, optional: bool) -> (c: Candidate)
    ensures
        c.deep_view() == string_candidate(name@, optional),
{
    let mut display = if optional {
        String::from_str("['")
    } else {
        String::from_str("'")
    };
    display.append(name.as_str());
    if optional {
        display.append("']");
    } else {
        display.append("'");
    }
    let mut replacement = display.clone();
    replacement.append(" ");
    Candidate { display, replacement }
}

/// One step of completion from a node.
pub enum CompletionStep<'a> {
    /// Go on from this node with the remaining tokens.
    Next(&'a Selection),
    /// The completion is this position and these candidates.
    Done(usize, Vec<Candidate>),
}

pub open spec fn completion_step_post(
    sel: Selection,
    t0: Seq<TokenView>,
    t1: Seq<TokenView>,
    pos: nat,
    r: CompletionStep,
) -> bool {
    match r {
        CompletionStep::Next(next) => {
            &&& complete_from(*next, t1, pos) == complete_from(sel, t0, pos)
            &&& decreases_to!(sel => *next)
        },
        CompletionStep::Done(rpos, c) => complete_from(sel, t0, pos) == (rpos as nat, c.deep_view()),
    }
}

fn empty_cands() -> (v: Vec<Candidate>)
    ensures
        v.deep_view() == Seq::<CandidateView>::empty(),
{
    let v: Vec<Candidate> = Vec::new();
    assert(v.deep_view() =~= Seq::<CandidateView>::empty());
    v
}

fn completion_step<'a>(sel: &'a Selection, tokens: &mut TokenList, pos: usize) -> (r: CompletionStep<'a>)
    ensures
        completion_step_post(*sel, tokens_view(old(tokens)@), tokens_view(final(tokens)@), pos as nat, r),
{
    match sel {
        Selection::Fixed(fixed) => match pop_token(tokens) {
            Some(token) => {
                if !token.quoted {
                    match find_named(fixed, &token.text) {
                        Some(j) => {
                            if pos > token.end {
                                return CompletionStep::Next(&fixed[j].1);
                            }
                        },
                        None => {},
                    }
                    CompletionStep::Done(token.begin, child_candidates(fixed, &token.text))
                } else {
                    CompletionStep::Done(0, empty_cands())
                }
            },
            None => {
                let empty = String::new();
                CompletionStep::Done(pos, child_candidates(fixed, &empty))
            },
        },
        Selection::String { name, optional, next } => match pop_token(tokens) {
            Some(token) => {
                if pos > token.end {
                    CompletionStep::Next(&**next)
                } else {
                    CompletionStep::Done(0, empty_cands())
                }
            },
            None => {
                let mut v: Vec<Candidate> = Vec::new();
                v.push(string_cand(name, *optional));
                assert(v.deep_view() =~= seq![string_candidate(name@, *optional)]);
                CompletionStep::Done(pos, v)
            },
        },
        Selection::Alt { name: _, optional, values, next } => match pop_token(tokens) {
            Some(token) => {
                if !token.quoted {
                    if contains_string(values, &token.text) && pos > token.end {
                        CompletionStep::Next(&**next)
                    } else {
                        CompletionStep::Done(token.begin, value_candidates(values, &token.text, *optional))
                    }
                } else {
                    CompletionStep::Done(0, empty_cands())
                }
            },
            None => {
                let empty = String::new();
                CompletionStep::Done(pos, value_candidates(values, &empty, *optional))
            },
        },
        Selection::Bool { name: _, optional, values, next } => match pop_token(tokens) {
            Some(token) => {
                if !token.quoted {
                    if (values.0 == token.text || values.1 == token.text) && pos > token.end {
                        CompletionStep::Next(&**next)
                    } else {
                        CompletionStep::Done(
                            token.begin,
                            bool_candidates(&values.0, &values.1, &token.text, *optional),
                        )
                    }
                } else {
                    CompletionStep::Done(0, empty_cands())
                }
            },
            None => {
                let empty = String::new();
                CompletionStep::Done(pos, bool_candidates(&values.0, &values.1, &empty, *optional))
            },
        },
        Selection::End => CompletionStep::Done(0, empty_cands()),
    }
}

/// Completion of the tokens of a line of `pos` bytes from the node `tree`.
pub fn complete_tokens(tree: &Selection, tokens: TokenList, pos: usize) -> (r: (usize, Vec<Candidate>))
    ensures
        (r.0 as nat, r.1.deep_view()) == complete_from(*tree, tokens_view(tokens@), pos as nat),
{
    let ghost goal = complete_from(*tree, tokens_view(tokens@), pos as nat);
    let mut toks = tokens;
    let mut cur = tree;
    loop
        invariant
            complete_from(*cur, tokens_view(toks@), pos as nat) == goal,
            goal == complete_from(*tree, tokens_view(tokens@), pos as nat),
        decreases *cur,
    {
        match completion_step(cur, &mut toks, pos) {
            CompletionStep::Next(next) => {
                cur = next;
            },
            CompletionStep::Done(rpos, c) => {
                return (rpos, c);
            },
        }
    }
}

proof fn lemma_complete_from_bounds(sel: Selection, tokens: Seq<TokenView>, pos: nat)
    requires
        forall|k: int| 0 <= k < tokens.len() ==> #[trigger] tokens[k].begin <= pos,
    ensures
        complete_from(sel, tokens, pos).0 <= pos,
        forall|k: int|
            #![trigger complete_from(sel, tokens, pos).1[k]]
            0 <= k < complete_from(sel, tokens, pos).1.len() ==> complete_from(sel, tokens, pos).1[k].1.len() > 0
                && complete_from(sel, tokens, pos).1[k].1.last() == ' ',
    decreases sel,
{
    reveal_strlit(" ");
    if tokens.len() > 0 {
        assert(tokens[0].begin <= pos);
        assert forall|k: int| 0 <= k < tokens.drop_first().len() implies #[trigger] tokens.drop_first()[k].begin <= pos by {
            assert(tokens.drop_first()[k] == tokens[k + 1]);
        }
    }
    match sel {
        Selection::Fixed(fixed) => {
            lemma_candidates_complete_prefix(child_names(fixed@), Seq::empty(), false);
            if tokens.len() > 0 {
                lemma_candidates_complete_prefix(child_names(fixed@), tokens[0].text, false);
                if let Some(j) = first_named(fixed@, tokens[0].text) {
                    if 0 <= j < fixed@.len() {
                        lemma_complete_from_bounds(fixed@[j].1, tokens.drop_first(), pos);
                    }
                }
            }
        },
        Selection::String { name, optional, next } => {
            let c = string_candidate(name@, optional);
            assert(c.1.last() == ' ');
            if tokens.len() > 0 {
                lemma_complete_from_bounds(*next, tokens.drop_first(), pos);
            }
        },
        Selection::Alt { name, optional, values, next } => {
            lemma_candidates_complete_prefix(strings_view(values@), Seq::empty(), optional);
            if tokens.len() > 0 {
                lemma_candidates_complete_prefix(strings_view(values@), tokens[0].text, optional);
                lemma_complete_from_bounds(*next, tokens.drop_first(), pos);
            }
        },
        Selection::Bool { name, optional, values, next } => {
            lemma_candidates_complete_prefix(seq![values.0@, values.1@], Seq::empty(), optional);
            if tokens.len() > 0 {
                lemma_candidates_complete_prefix(seq![values.0@, values.1@], tokens[0].text, optional);
                lemma_complete_from_bounds(*next, tokens.drop_first(), pos);
            }
        },
        Selection::End => {},
    }
}

/// Completion looks only at the part of the line before the cursor:
/// completing the whole line or only that part gives the same.  The word
/// completed never starts after the cursor, every candidate puts a word in the
/// line followed by a space, and when that part does not tokenize there is no
/// completion.
pub proof fn lemma_completion_before_cursor(tree: Selection, line: Seq<char>, pos: nat)
    requires
        is_boundary(line, pos),
    ensures
        is_boundary(prefix_at(line, pos), pos),
        spec_complete(tree, prefix_at(line, pos), pos) == spec_complete(tree, line, pos),
        spec_complete(tree, line, pos).0 <= pos,
        forall|k: int|
            #![trigger spec_complete(tree, line, pos).1[k]]
            0 <= k < spec_complete(tree, line, pos).1.len() ==> spec_complete(tree, line, pos).1[k].1.len() > 0
                && spec_complete(tree, line, pos).1[k].1.last() == ' ',
        spec_tokenize(prefix_at(line, pos)) is None ==> spec_complete(tree, line, pos) == (
            0nat,
            Seq::<CandidateView>::empty(),
        ),
{
    let k = choose|k: int| 0 <= k <= line.len() && byte_offset(line, k) == pos;
    let p = line.take(k);
    assert(p == prefix_at(line, pos));
    assert(p.take(k) =~= p);
    assert(byte_offset(p, k) == pos);
    assert(is_boundary(p, pos));
    let k2 = choose|k2: int| 0 <= k2 <= p.len() && byte_offset(p, k2) == pos;
    if k2 < k {
        lemma_byte_offset_strict(p, k2, k);
    } else if k2 > k {
        lemma_byte_offset_strict(p, k, k2);
    }
    assert(prefix_at(p, pos) == p);
    crate::tokenizer::lemma_tokens_come_from_line(p);
    if let Some(toks) = spec_tokenize(p) {
        assert(byte_len(p) == pos);
        lemma_complete_from_bounds(tree, toks, pos);
    }
}

/// The candidates offered for a word are exactly the words that begin with
/// what was typed, in their order, each shown as itself (as `[w]` where it
/// fills an optional parameter) and put in the line followed by a space.
pub proof fn lemma_candidates_are_matching_words(words: Seq<Seq<char>>, prefix: Seq<char>, optional: bool)
    ensures
        candidates(words, prefix, optional) == words.filter(|w: Seq<char>| has_prefix(w, prefix)).map_values(
            |w: Seq<char>| word_candidate(w, optional),
        ),
    decreases words.len(),
{
    reveal(Seq::filter);
    let p = |w: Seq<char>| has_prefix(w, prefix);
    let m = |w: Seq<char>| word_candidate(w, optional);
    if words.len() == 0 {
        assert(words.filter(p).map_values(m) =~= Seq::<CandidateView>::empty());
    } else {
        lemma_candidates_are_matching_words(words.drop_last(), prefix, optional);
        let f = words.drop_last().filter(p);
        assert(f.push(words.last()).map_values(m) =~= f.map_values(m).push(m(words.last())));
    }
}

/// With nothing typed, every word is offered.
proof fn lemma_candidates_all(words: Seq<Seq<char>>, optional: bool)
    ensures
        candidates(words, Seq::empty(), optional) == words.map_values(|w: Seq<char>| word_candidate(w, optional)),
    decreases words.len(),
{
    let m = |w: Seq<char>| word_candidate(w, optional);
    if words.len() == 0 {
        assert(words.map_values(m) =~= Seq::<CandidateView>::empty());
    } else {
        lemma_candidates_all(words.drop_last(), optional);
        assert(words.last().take(0) =~= Seq::<char>::empty());
        assert(words.map_values(m) =~= words.drop_last().map_values(m).push(m(words.last())));
    }
}

/// Where the tokens before the cursor run out, completion offers, at the
/// cursor, everything that may come next: at a node of commands and groups
/// every child's name; at a choice every value; at a boolean both words; at a
/// free string parameter its name in quotes; and nothing after the end of a
/// command.  Each offer is put in the line followed by a space, and a value
/// that fills an optional parameter is shown in brackets.
pub proof fn lemma_completion_where_tokens_run_out(sel: Selection, pos: nat)
    ensures
        sel matches Selection::Fixed(f) ==> {
            let r = complete_from(sel, Seq::empty(), pos);
            &&& r.0 == pos
            &&& r.1.len() == f@.len()
            &&& forall|k: int| 0 <= k < f@.len() ==> #[trigger] r.1[k] == (f@[k].0@, f@[k].0@ + " "@)
        },
        sel matches Selection::Alt { optional, values, .. } ==> {
            let r = complete_from(sel, Seq::empty(), pos);
            &&& r.0 == pos
            &&& r.1.len() == values@.len()
            &&& forall|k: int|
                0 <= k < values@.len() ==> #[trigger] r.1[k] == (
                    if optional {
                        "["@ + values@[k]@ + "]"@
                    } else {
                        values@[k]@
                    },
                    values@[k]@ + " "@,
                )
        },
        sel matches Selection::Bool { optional, values, .. } ==> {
            let r = complete_from(sel, Seq::empty(), pos);
            &&& r.0 == pos
            &&& r.1 == if optional {
                seq![("["@ + values.0@ + "]"@, values.0@ + " "@), ("["@ + values.1@ + "]"@, values.1@ + " "@)]
            } else {
                seq![(values.0@, values.0@ + " "@), (values.1@, values.1@ + " "@)]
            }
        },
        sel matches Selection::String { name, optional, .. } ==> {
            let d = if optional {
                "['"@ + name@ + "']"@
            } else {
                "'"@ + name@ + "'"@
            };
            complete_from(sel, Seq::empty(), pos) == (pos, seq![(d, d + " "@)])
        },
        sel is End ==> complete_from(sel, Seq::empty(), pos) == (0nat, Seq::<CandidateView>::empty()),
{
    match sel {
        Selection::Fixed(f) => {
            lemma_candidates_all(child_names(f@), false);
            let r = complete_from(sel, Seq::empty(), pos);
            assert forall|k: int| 0 <= k < f@.len() implies #[trigger] r.1[k] == (f@[k].0@, f@[k].0@ + " "@) by {
                assert(child_names(f@)[k] == f@[k].0@);
            }
        },
        Selection::Alt { optional, values, .. } => {
            lemma_candidates_all(strings_view(values@), optional);
            let r = complete_from(sel, Seq::empty(), pos);
            assert forall|k: int| 0 <= k < values@.len() implies #[trigger] r.1[k] == (
                if optional {
                    "["@ + values@[k]@ + "]"@
                } else {
                    values@[k]@
                },
                values@[k]@ + " "@,
            ) by {
                assert(strings_view(values@)[k] == values@[k]@);
            }
        },
        Selection::Bool { optional, values, .. } => {
            let ws = seq![values.0@, values.1@];
            lemma_candidates_all(ws, optional);
            let m = |w: Seq<char>| word_candidate(w, optional);
            assert(ws.map_values(m) =~= seq![m(values.0@), m(values.1@)]);
        },
        _ => {},
    }
}

/// A word that is complete and ends before the cursor is passed over:
/// completion goes on from what follows it, exactly as if the line had
/// started after it.  At a choice this is a word that is one of the values,
/// at a boolean one of its two words, at a node of commands and groups the
/// name of a child (the first one of that name), and at a free string
/// parameter any word.
pub proof fn lemma_completion_moves_past_complete_words(sel: Selection, tokens: Seq<TokenView>, pos: nat)
    requires
        tokens.len() > 0,
        tokens[0].end < pos,
    ensures
        sel matches Selection::Alt { values, next, .. } ==> (!tokens[0].quoted && exists|k: int|
            0 <= k < values@.len() && #[trigger] values@[k]@ == tokens[0].text) ==> complete_from(sel, tokens, pos)
            == complete_from(*next, tokens.drop_first(), pos),
        sel matches Selection::Bool { values, next, .. } ==> (!tokens[0].quoted && (values.0@ == tokens[0].text
            || values.1@ == tokens[0].text)) ==> complete_from(sel, tokens, pos) == complete_from(
            *next,
            tokens.drop_first(),
            pos,
        ),
        sel matches Selection::String { next, .. } ==> complete_from(sel, tokens, pos) == complete_from(
            *next,
            tokens.drop_first(),
            pos,
        ),
        sel matches Selection::Fixed(f) ==> forall|j: int|
            0 <= j < f@.len() && !tokens[0].quoted && #[trigger] f@[j].0@ == tokens[0].text && (forall|i: int|
                0 <= i < j ==> f@[i].0@ != tokens[0].text) ==> complete_from(sel, tokens, pos) == complete_from(
                f@[j].1,
                tokens.drop_first(),
                pos,
            ),
{
    match sel {
        Selection::Alt { values, .. } => {
            if exists|k: int| 0 <= k < values@.len() && #[trigger] values@[k]@ == tokens[0].text {
                let k = choose|k: int| 0 <= k < values@.len() && #[trigger] values@[k]@ == tokens[0].text;
                assert(strings_view(values@)[k] == tokens[0].text);
            }
        },
        Selection::Fixed(f) => {
            assert forall|j: int|
                0 <= j < f@.len() && !tokens[0].quoted && #[trigger] f@[j].0@ == tokens[0].text && (forall|i: int|
                    0 <= i < j ==> f@[i].0@ != tokens[0].text) implies complete_from(sel, tokens, pos)
                == complete_from(f@[j].1, tokens.drop_first(), pos) by {
                crate::repl::lemma_first_named(f@, tokens[0].text, j);
            }
        },
        _ => {},
    }
}

/// The word at the cursor, at a choice, is completed from where it starts:
/// the candidates are the values that begin with it, in order.  This is so
/// when the word is not one of the values, or reaches the cursor.
pub proof fn lemma_completion_of_word_at_choice(sel: Selection, tokens: Seq<TokenView>, pos: nat)
    requires
        tokens.len() > 0,
        !tokens[0].quoted,
    ensures
        sel matches Selection::Alt { optional, values, .. } ==> (pos <= tokens[0].end || forall|k: int|
            0 <= k < values@.len() ==> #[trigger] values@[k]@ != tokens[0].text) ==> complete_from(sel, tokens, pos)
            == (
            tokens[0].begin,
            values@.map_values(|v: String| v@).filter(|w: Seq<char>| has_prefix(w, tokens[0].text)).map_values(
                |w: Seq<char>| word_candidate(w, optional),
            ),
        ),
{
    if let Selection::Alt { optional, values, .. } = sel {
        lemma_candidates_are_matching_words(strings_view(values@), tokens[0].text, optional);
        if strings_view(values@).contains(tokens[0].text) {
            let k = choose|k: int| 0 <= k < strings_view(values@).len() && strings_view(values@)[k] == tokens[0].text;
            assert(values@[k]@ == tokens[0].text);
        }
    }
}

/// The word at the cursor at a node of commands and groups, or at a
/// boolean, is completed from where it starts, with the names (or the two
/// words) that begin with it, in order; this is so when the word is not a
/// complete name (or word), or reaches the cursor.  A quoted word is never
/// completed where a command or a value from a list is expected, and a word
/// that reaches the cursor where a free string is expected gets no candidate.
pub proof fn lemma_completion_of_word_at_cursor(sel: Selection, tokens: Seq<TokenView>, pos: nat)
    requires
        tokens.len() > 0,
    ensures
        sel matches Selection::Fixed(f) ==> (!tokens[0].quoted && (pos <= tokens[0].end || forall|j: int|
            0 <= j < f@.len() ==> #[trigger] f@[j].0@ != tokens[0].text)) ==> complete_from(sel, tokens, pos) == (
            tokens[0].begin,
            f@.map_values(|e: (String, Selection)| e.0@).filter(|w: Seq<char>| has_prefix(w, tokens[0].text)).map_values(
                |w: Seq<char>| (w, w + " "@),
            ),
        ),
        sel matches Selection::Bool { optional, values, .. } ==> (!tokens[0].quoted && (pos <= tokens[0].end || (
        values.0@ != tokens[0].text && values.1@ != tokens[0].text))) ==> complete_from(sel, tokens, pos) == (
            tokens[0].begin,
            seq![values.0@, values.1@].filter(|w: Seq<char>| has_prefix(w, tokens[0].text)).map_values(
                |w: Seq<char>| word_candidate(w, optional),
            ),
        ),
        tokens[0].quoted && (sel is Fixed || sel is Alt || sel is Bool) ==> complete_from(sel, tokens, pos) == (
            0nat,
            Seq::<CandidateView>::empty(),
        ),
        sel is String && pos <= tokens[0].end ==> complete_from(sel, tokens, pos) == (
            0nat,
            Seq::<CandidateView>::empty(),
        ),
        sel is End ==> complete_from(sel, tokens, pos) == (0nat, Seq::<CandidateView>::empty()),
{
    match sel {
        Selection::Fixed(f) => {
            let t = tokens[0].text;
            lemma_candidates_are_matching_words(child_names(f@), t, false);
            let m1 = |w: Seq<char>| word_candidate(w, false);
            let m2 = |w: Seq<char>| (w, w + " "@);
            let fl = child_names(f@).filter(|w: Seq<char>| has_prefix(w, t));
            assert(fl.map_values(m1) =~= fl.map_values(m2));
            crate::repl::lemma_first_named_some(f@, t);
        },
        Selection::Bool { optional, values, .. } => {
            lemma_candidates_are_matching_words(seq![values.0@, values.1@], tokens[0].text, optional);
        },
        _ => {},
    }
}

/// The part of `line` before the byte offset `pos`.
fn prefix_string(line: &str, pos: usize) -> (p: String)
    requires
        is_boundary(line@, pos as nat),
    ensures
        p@ == prefix_at(line@, pos as nat),
{
    let ghost l = line@;
    let ghost k = choose|k: int| 0 <= k <= l.len() && byte_offset(l, k) == pos;
    let chars = chars_of(line);
    let mut p = String::new();
    let mut b: usize = 0;
    let mut i: usize = 0;
    assert(l.take(0) =~= Seq::<char>::empty());
    while b < pos
        invariant
            l == line@,
            chars@ == l,
            0 <= k <= l.len(),
            byte_offset(l, k) == pos,
            0 <= i <= k,
            b == byte_offset(l, i as int),
            p@ == l.take(i as int),
        decreases k - i,
    {
        assert(i < k) by {
            if i > k {
                lemma_byte_offset_strict(l, k, i as int);
            }
        }
        assert(i < chars.len());
        let c = chars[i];
        proof {
            lemma_byte_offset_step(l, i as int);
            if i + 1 < k {
                lemma_byte_offset_strict(l, i + 1, k);
            }
            assert(l.take(i + 1) =~= l.take(i as int).push(c));
        }
        push_char(&mut p, c);
        b = b + utf8_width(c);
        i = i + 1;
    }
    proof {
        if (i as int) < k {
            lemma_byte_offset_strict(l, i as int, k);
        }
        let j = choose|j: int| 0 <= j <= l.len() && byte_offset(l, j) == pos;
        if j < i {
            lemma_byte_offset_strict(l, j, i as int);
        } else if j > i {
            lemma_byte_offset_strict(l, i as int, j);
        }
    }
    p
}

/// Completion at byte `pos` of `line` from the tree `tree`: where the word
/// being completed starts, and the candidates.
pub fn complete(tree: &Selection, line: &str, pos: usize) -> (r: (usize, Vec<Candidate>))
    requires
        is_boundary(line@, pos as nat),
    ensures
        (r.0 as nat, r.1.deep_view()) == spec_complete(*tree, line@, pos as nat),
{
    let prefix = prefix_string(line, pos);
    match tokenize(prefix.as_str()) {
        Ok(tokens) => complete_tokens(tree, tokens, pos),
        Err(()) => (0, empty_cands()),
    }
}

} // verus!
