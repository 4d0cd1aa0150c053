//! Splitting a command line into tokens.
//!
//! Tokens are separated by spaces.  A token may be quoted with `"` or `'`; a
//! quoted token runs up to the next occurrence of the same quote character and
//! may hold spaces and the other quote character.  A quote character inside an
//! unquoted token, or a quote that is never closed, makes the line invalid.
//!
//! Each token records where it stands in the line: `begin` is the byte offset
//! of its first character and `end` the byte offset just past its last one.
//! A plain token that reaches the end of the line gets the line's length in
//! characters as its `end` (the two agree on ASCII input).

use std::collections::VecDeque;
use vstd::prelude::*;
use vstd::string::*;

use crate::text::{all_ascii, byte_len, byte_offset, chars_of, lemma_ascii_byte_offset, push_char, utf8_width};
use crate::text::{lemma_byte_len_encode, lemma_byte_offset_bounds, lemma_byte_offset_step, lemma_byte_offset_strict};

verus! {

/// One token of a command line.
#[derive(Debug, PartialEq)]
pub struct Token {
    pub text: String,
    pub begin: usize,
    pub end: usize,
    pub quoted: bool,
}

pub type TokenList = VecDeque<Token>;

/// The mathematical content of a token.
pub struct TokenView {
    pub text: Seq<char>,
    pub begin: nat,
    pub end: nat,
    pub quoted: bool,
}

impl View for Token {
    type V = TokenView;

    open spec fn view(&self) -> TokenView {
        TokenView {
            text: self.text@,
            begin: self.begin as nat,
            end: self.end as nat,
            quoted: self.quoted,
        }
    }
}

/// The tokens of a list, by view.
pub open spec fn tokens_view(l: Seq<Token>) -> Seq<TokenView> {
    l.map_values(|t: Token| t@)
}

impl Token {
    /// An unquoted token.
    pub fn plain(text: &str, begin: usize, end: usize) -> (t: Self)
        ensures
            t@ == (TokenView { text: text@, begin: begin as nat, end: end as nat, quoted: false }),
    {
        Token { text: String::from_str(text), begin, end, quoted: false }
    }

    /// A quoted token; `text` is what stood between the quotes.
    pub fn quoted(text: &str, begin: usize, end: usize) -> (t: Self)
        ensures
            t@ == (TokenView { text: text@, begin: begin as nat, end: end as nat, quoted: true }),
    {
        Token { text: String::from_str(text), begin, end, quoted: true }
    }

    pub fn begin(&self) -> (b: usize)
        ensures
            b == self@.begin,
    {
        self.begin
    }

    pub fn end(&self) -> (e: usize)
        ensures
            e == self@.end,
    {
        self.end
    }

    pub fn is_quoted(&self) -> (q: bool)
        ensures
            q == self@.quoted,
    {
        self.quoted
    }
}

/// Where the tokenizer stands between two characters.
#[derive(Clone, Copy, PartialEq, Eq, Structural)]
pub enum TokState {
    /// Between tokens.
    Idle,
    /// Inside an unquoted token.
    Word,
    /// Inside a token quoted by the given character.
    Quote(char),
}

pub open spec fn is_quote(c: char) -> bool {
    c == '"' || c == '\''
}

pub open spec fn mk_token(text: Seq<char>, begin: nat, end: nat, quoted: bool) -> TokenView {
    TokenView { text, begin, end, quoted }
}

/// What the tokenizer gives once it has read `line` up to character `i`,
/// standing in `st` with the current token `cur` begun at byte `begin`, and
/// having produced `acc` so far.
pub open spec fn tokenize_from(
    line: Seq<char>,
    i: nat,
    st: TokState,
    cur: Seq<char>,
    begin: nat,
    acc: Seq<TokenView>,
) -> Option<Seq<TokenView>>
    decreases line.len() - i,
{
    if i >= line.len() {
        match st {
            TokState::Idle => Some(acc),
            TokState::Word => Some(acc.push(mk_token(cur, begin, line.len(), false))),
            TokState::Quote(_) => None,
        }
    } else {
        let c = line[i as int];
        let b = byte_offset(line, i as int);
        match st {
            TokState::Idle => {
                if is_quote(c) {
                    tokenize_from(line, i + 1, TokState::Quote(c), cur, b + 1, acc)
                } else if c != ' ' {
                    tokenize_from(line, i + 1, TokState::Word, cur.push(c), b, acc)
                } else {
                    tokenize_from(line, i + 1, TokState::Idle, cur, begin, acc)
                }
            },
            TokState::Word => {
                if is_quote(c) {
                    None
                } else if c == ' ' {
                    tokenize_from(
                        line,
                        i + 1,
                        TokState::Idle,
                        Seq::empty(),
                        begin,
                        acc.push(mk_token(cur, begin, b, false)),
                    )
                } else {
                    tokenize_from(line, i + 1, TokState::Word, cur.push(c), begin, acc)
                }
            },
            TokState::Quote(q) => {
                if c == q {
                    tokenize_from(
                        line,
                        i + 1,
                        TokState::Idle,
                        Seq::empty(),
                        begin,
                        acc.push(mk_token(cur, begin, b, true)),
                    )
                } else {
                    tokenize_from(line, i + 1, TokState::Quote(q), cur.push(c), begin, acc)
                }
            },
        }
    }
}

/// The tokens of `line`, or `None` where its quoting is invalid.
pub open spec fn spec_tokenize(line: Seq<char>) -> Option<Seq<TokenView>> {
    tokenize_from(line, 0, TokState::Idle, Seq::empty(), 0, Seq::empty())
}

/// A token stands where it says: its text is the part of `line` from
/// `begin` to `end` (taking offsets as character indices, which they are on
/// ASCII lines).
pub open spec fn located(line: Seq<char>, t: TokenView) -> bool {
    &&& t.begin <= t.end <= line.len()
    &&& t.text == line.subrange(t.begin as int, t.end as int)
}

/// An unquoted token is a non-empty run of characters other than spaces
/// and quotes.
pub open spec fn plain_word(t: TokenView) -> bool {
    !t.quoted ==> t.text.len() > 0 && forall|k: int|
        0 <= k < t.text.len() ==> #[trigger] t.text[k] != ' ' && !is_quote(t.text[k])
}

/// The token `t` is the characters `s..e` of `line`: it begins at the byte
/// offset of character `s`.  A quoted token stands between two equal quote
/// characters and ends at the byte offset of the closing one; an unquoted one
/// ends at the byte offset of the space after it, or, when it reaches the end
/// of the line, at the line's length in characters.
pub open spec fn spans(line: Seq<char>, t: TokenView, s: int, e: int) -> bool {
    &&& 0 <= s <= e <= line.len()
    &&& t.begin == byte_offset(line, s)
    &&& t.text == line.subrange(s, e)
    &&& if t.quoted {
        &&& s >= 1
        &&& is_quote(line[s - 1])
        &&& e < line.len()
        &&& line[e] == line[s - 1]
        &&& t.end == byte_offset(line, e)
    } else {
        ||| e < line.len() && line[e] == ' ' && t.end == byte_offset(line, e)
        ||| e == line.len() && t.end == line.len()
    }
}

pub open spec fn in_line(line: Seq<char>, t: TokenView) -> bool {
    exists|s: int, e: int| spans(line, t, s, e)
}

/// What tokenizing promises of its tokens: unquoted tokens are words, every
/// token stands in the line where `spans` says, and each token ends before the
/// next one begins.
pub open spec fn tokens_ok(line: Seq<char>, acc: Seq<TokenView>) -> bool {
    &&& forall|k: int| 0 <= k < acc.len() ==> plain_word(#[trigger] acc[k])
    &&& forall|k: int| 0 <= k < acc.len() ==> in_line(line, #[trigger] acc[k])
    &&& forall|k: int, l: int| 0 <= k < l < acc.len() ==> #[trigger] acc[k].end < #[trigger] acc[l].begin
}

pub open spec fn ends_before(acc: Seq<TokenView>, b: nat) -> bool {
    forall|k: int| 0 <= k < acc.len() ==> #[trigger] acc[k].end < b
}

/// Where the tokenizer stands at character `i`, with the current token
/// begun at character `s`.
pub open spec fn state_ok(
    line: Seq<char>,
    i: nat,
    st: TokState,
    cur: Seq<char>,
    begin: nat,
    s: int,
    acc: Seq<TokenView>,
) -> bool {
    match st {
        TokState::Idle => cur.len() == 0 && ends_before(acc, byte_offset(line, i as int)),
        TokState::Word => {
            &&& cur.len() > 0
            &&& forall|k: int| 0 <= k < cur.len() ==> #[trigger] cur[k] != ' ' && !is_quote(cur[k])
            &&& 0 <= s <= i
            &&& begin == byte_offset(line, s)
            &&& cur == line.subrange(s, i as int)
            &&& ends_before(acc, begin)
        },
        TokState::Quote(q) => {
            &&& 1 <= s <= i
            &&& line[s - 1] == q
            &&& is_quote(q)
            &&& begin == byte_offset(line, s)
            &&& cur == line.subrange(s, i as int)
            &&& ends_before(acc, begin)
        },
    }
}

proof fn lemma_push_ok(line: Seq<char>, acc: Seq<TokenView>, t: TokenView, s: int, e: int)
    requires
        tokens_ok(line, acc),
        ends_before(acc, t.begin),
        plain_word(t),
        spans(line, t, s, e),
    ensures
        tokens_ok(line, acc.push(t)),
{
    let r = acc.push(t);
    assert forall|k: int| 0 <= k < r.len() implies plain_word(#[trigger] r[k]) by {
        if k < acc.len() {
            assert(r[k] == acc[k]);
        }
    }
    assert forall|k: int| 0 <= k < r.len() implies in_line(line, #[trigger] r[k]) by {
        if k < acc.len() {
            assert(r[k] == acc[k]);
        } else {
            assert(spans(line, r[k], s, e));
        }
    }
    assert forall|k: int, l: int| 0 <= k < l < r.len() implies #[trigger] r[k].end < #[trigger] r[l].begin by {
        assert(r[k] == acc[k]);
        if l < acc.len() {
            assert(r[l] == acc[l]);
        }
    }
}

proof fn lemma_tokenize_from_ok(
    line: Seq<char>,
    i: nat,
    st: TokState,
    cur: Seq<char>,
    begin: nat,
    s: int,
    acc: Seq<TokenView>,
)
    requires
        i <= line.len(),
        tokens_ok(line, acc),
        state_ok(line, i, st, cur, begin, s, acc),
    ensures
        tokenize_from(line, i, st, cur, begin, acc) matches Some(r) ==> tokens_ok(line, r),
    decreases line.len() - i,
{
    if i >= line.len() {
        if st == TokState::Word {
            let t = mk_token(cur, begin, line.len(), false);
            lemma_push_ok(line, acc, t, s, i as int);
        }
    } else {
        let c = line[i as int];
        let b = byte_offset(line, i as int);
        lemma_byte_offset_step(line, i as int);
        if 0 <= s <= i {
            assert(line.subrange(s, i + 1int) =~= line.subrange(s, i as int).push(c));
        }
        match st {
            TokState::Idle => {
                if is_quote(c) {
                    assert(cur =~= line.subrange(i + 1int, i + 1int));
                    lemma_tokenize_from_ok(line, i + 1, TokState::Quote(c), cur, b + 1, i + 1int, acc);
                } else if c != ' ' {
                    let cur2 = cur.push(c);
                    assert(cur2 =~= line.subrange(i as int, i + 1int));
                    lemma_tokenize_from_ok(line, i + 1, TokState::Word, cur2, b, i as int, acc);
                } else {
                    lemma_tokenize_from_ok(line, i + 1, TokState::Idle, cur, begin, s, acc);
                }
            },
            TokState::Word => {
                if is_quote(c) {
                } else if c == ' ' {
                    let t = mk_token(cur, begin, b, false);
                    lemma_push_ok(line, acc, t, s, i as int);
                    lemma_byte_offset_strict(line, s, i as int + 1);
                    lemma_tokenize_from_ok(line, i + 1, TokState::Idle, Seq::empty(), begin, s, acc.push(t));
                } else {
                    let cur2 = cur.push(c);
                    assert forall|k: int| 0 <= k < cur2.len() implies #[trigger] cur2[k] != ' ' && !is_quote(cur2[k]) by {
                        if k < cur.len() {
                            assert(cur2[k] == cur[k]);
                        }
                    }
                    lemma_tokenize_from_ok(line, i + 1, TokState::Word, cur2, begin, s, acc);
                }
            },
            TokState::Quote(q) => {
                if c == q {
                    let t = mk_token(cur, begin, b, true);
                    lemma_push_ok(line, acc, t, s, i as int);
                    lemma_byte_offset_strict(line, s, i as int + 1);
                    lemma_tokenize_from_ok(line, i + 1, TokState::Idle, Seq::empty(), begin, s, acc.push(t));
                } else {
                    let cur2 = cur.push(c);
                    lemma_tokenize_from_ok(line, i + 1, TokState::Quote(q), cur2, begin, s, acc);
                }
            },
        }
    }
}

/// What tokenizing gives back of the line, whatever the line: an unquoted
/// token is a non-empty run of characters other than spaces and quotes; every
/// token is a run of the line's characters, beginning at its byte offset; a
/// quoted token stands between two equal quote characters; tokens come in
/// order, each ending before the next begins; and no position lies beyond the
/// line's length in bytes.  On an ASCII line every token's text is the part of
/// the line between its `begin` and `end`.
pub proof fn lemma_tokens_come_from_line(line: Seq<char>)
    ensures
        spec_tokenize(line) matches Some(toks) ==> {
            &&& tokens_ok(line, toks)
            &&& forall|k: int|
                0 <= k < toks.len() ==> #[trigger] toks[k].begin <= byte_len(line) && toks[k].end <= byte_len(line)
            &&& all_ascii(line) ==> forall|k: int| 0 <= k < toks.len() ==> located(line, #[trigger] toks[k])
        },
{
    assert(ends_before(Seq::<TokenView>::empty(), 0));
    lemma_tokenize_from_ok(line, 0, TokState::Idle, Seq::empty(), 0, 0, Seq::empty());
    if let Some(toks) = spec_tokenize(line) {
        assert forall|k: int| 0 <= k < toks.len() implies #[trigger] toks[k].begin <= byte_len(line)
            && toks[k].end <= byte_len(line) && (all_ascii(line) ==> located(line, toks[k])) by {
            assert(in_line(line, toks[k]));
            let (s, e) = choose|s: int, e: int| spans(line, toks[k], s, e);
            lemma_byte_offset_bounds(line, s);
            lemma_byte_offset_bounds(line, e);
            lemma_byte_offset_bounds(line, line.len() as int);
            assert(line.take(line.len() as int) =~= line);
            if all_ascii(line) {
                lemma_ascii_byte_offset(line, s);
                lemma_ascii_byte_offset(line, e);
            }
        }
    }
}

/// Character `j` of `line` belongs to the token `t`, standing at characters
/// `s..e`: it is one of its characters, or one of the quotes around it.
pub open spec fn covers(line: Seq<char>, t: TokenView, s: int, e: int, j: int) -> bool {
    &&& spans(line, t, s, e)
    &&& (s <= j < e || (t.quoted && (j == s - 1 || j == e)))
}

pub open spec fn covered(line: Seq<char>, acc: Seq<TokenView>, j: int) -> bool {
    exists|k: int, s: int, e: int| 0 <= k < acc.len() && #[trigger] covers(line, acc[k], s, e, j)
}

/// Every character of `line` before `n` is a space or belongs to a token.
pub open spec fn covered_upto(line: Seq<char>, acc: Seq<TokenView>, n: int) -> bool {
    forall|j: int| 0 <= j < n ==> line[j] == ' ' || #[trigger] covered(line, acc, j)
}

proof fn lemma_covered_push(line: Seq<char>, acc: Seq<TokenView>, t: TokenView, n: int)
    requires
        covered_upto(line, acc, n),
    ensures
        covered_upto(line, acc.push(t), n),
{
    assert forall|j: int| 0 <= j < n implies line[j] == ' ' || #[trigger] covered(line, acc.push(t), j) by {
        if line[j] != ' ' {
            assert(covered(line, acc, j));
            let (k, s, e) = choose|k: int, s: int, e: int| 0 <= k < acc.len() && #[trigger] covers(line, acc[k], s, e, j);
            assert(acc.push(t)[k] == acc[k]);
            assert(covers(line, acc.push(t)[k], s, e, j));
        }
    }
}

proof fn lemma_covered_new(line: Seq<char>, acc: Seq<TokenView>, t: TokenView, s: int, e: int, j: int)
    requires
        covers(line, t, s, e, j),
    ensures
        covered(line, acc.push(t), j),
{
    let k = acc.len() as int;
    assert(acc.push(t)[k] == t);
    assert(covers(line, acc.push(t)[k], s, e, j));
}

pub open spec fn cover_state_ok(line: Seq<char>, i: nat, st: TokState, s: int, acc: Seq<TokenView>) -> bool {
    match st {
        TokState::Idle => covered_upto(line, acc, i as int),
        TokState::Word => covered_upto(line, acc, s),
        TokState::Quote(_) => covered_upto(line, acc, s - 1),
    }
}

proof fn lemma_tokenize_from_covers(
    line: Seq<char>,
    i: nat,
    st: TokState,
    cur: Seq<char>,
    begin: nat,
    s: int,
    acc: Seq<TokenView>,
)
    requires
        i <= line.len(),
        state_ok(line, i, st, cur, begin, s, acc),
        cover_state_ok(line, i, st, s, acc),
    ensures
        tokenize_from(line, i, st, cur, begin, acc) matches Some(r) ==> covered_upto(line, r, line.len() as int),
    decreases line.len() - i,
{
    if i >= line.len() {
        if st == TokState::Word {
            let t = mk_token(cur, begin, line.len(), false);
            let r = acc.push(t);
            lemma_covered_push(line, acc, t, s);
            assert forall|j: int| 0 <= j < line.len() implies line[j] == ' ' || #[trigger] covered(line, r, j) by {
                if j >= s {
                    lemma_covered_new(line, acc, t, s, i as int, j);
                }
            }
        }
    } else {
        let c = line[i as int];
        let b = byte_offset(line, i as int);
        lemma_byte_offset_step(line, i as int);
        if 0 <= s <= i {
            assert(line.subrange(s, i + 1int) =~= line.subrange(s, i as int).push(c));
        }
        match st {
            TokState::Idle => {
                if is_quote(c) {
                    assert(cur =~= line.subrange(i + 1int, i + 1int));
                    lemma_tokenize_from_covers(line, i + 1, TokState::Quote(c), cur, b + 1, i + 1int, acc);
                } else if c != ' ' {
                    let cur2 = cur.push(c);
                    assert(cur2 =~= line.subrange(i as int, i + 1int));
                    lemma_tokenize_from_covers(line, i + 1, TokState::Word, cur2, b, i as int, acc);
                } else {
                    lemma_tokenize_from_covers(line, i + 1, TokState::Idle, cur, begin, s, acc);
                }
            },
            TokState::Word => {
                if is_quote(c) {
                } else if c == ' ' {
                    let t = mk_token(cur, begin, b, false);
                    let r = acc.push(t);
                    lemma_byte_offset_strict(line, s, i as int + 1);
                    lemma_covered_push(line, acc, t, s);
                    assert(spans(line, t, s, i as int));
                    assert forall|j: int| 0 <= j < i + 1 implies line[j] == ' ' || #[trigger] covered(line, r, j) by {
                        if s <= j < i {
                            lemma_covered_new(line, acc, t, s, i as int, j);
                        }
                    }
                    lemma_tokenize_from_covers(line, i + 1, TokState::Idle, Seq::empty(), begin, s, r);
                } else {
                    let cur2 = cur.push(c);
                    assert forall|k: int| 0 <= k < cur2.len() implies #[trigger] cur2[k] != ' ' && !is_quote(cur2[k]) by {
                        if k < cur.len() {
                            assert(cur2[k] == cur[k]);
                        }
                    }
                    lemma_tokenize_from_covers(line, i + 1, TokState::Word, cur2, begin, s, acc);
                }
            },
            TokState::Quote(q) => {
                if c == q {
                    let t = mk_token(cur, begin, b, true);
                    let r = acc.push(t);
                    lemma_byte_offset_strict(line, s, i as int + 1);
                    lemma_covered_push(line, acc, t, s - 1);
                    assert(spans(line, t, s, i as int));
                    assert forall|j: int| 0 <= j < i + 1 implies line[j] == ' ' || #[trigger] covered(line, r, j) by {
                        if s - 1 <= j <= i {
                            lemma_covered_new(line, acc, t, s, i as int, j);
                        }
                    }
                    lemma_tokenize_from_covers(line, i + 1, TokState::Idle, Seq::empty(), begin, s, r);
                } else {
                    let cur2 = cur.push(c);
                    lemma_tokenize_from_covers(line, i + 1, TokState::Quote(q), cur2, begin, s, acc);
                }
            },
        }
    }
}

/// Tokens leave out only spaces: every character of a line that tokenizes is
/// a space, a character of a token, or a quote around a quoted token.
pub proof fn lemma_tokens_cover_line(line: Seq<char>)
    ensures
        spec_tokenize(line) matches Some(toks) ==> covered_upto(line, toks, line.len() as int),
{
    assert(ends_before(Seq::<TokenView>::empty(), 0));
    lemma_tokenize_from_covers(line, 0, TokState::Idle, Seq::empty(), 0, 0, Seq::empty());
}

/// `ts` with every position moved `k` bytes on.
pub open spec fn shift_tokens(ts: Seq<TokenView>, k: nat) -> Seq<TokenView> {
    Seq::new(ts.len(), |i: int| TokenView { begin: ts[i].begin + k, end: ts[i].end + k, ..ts[i] })
}

pub open spec fn shift_result(r: Option<Seq<TokenView>>, k: nat) -> Option<Seq<TokenView>> {
    match r {
        Some(ts) => Some(shift_tokens(ts, k)),
        None => None,
    }
}

/// `k` spaces, then `line`, then one space.
pub open spec fn padded_line(line: Seq<char>, k: nat) -> Seq<char> {
    Seq::new(k, |i: int| ' ') + line + seq![' ']
}

proof fn lemma_shift_push(acc: Seq<TokenView>, t: TokenView, k: nat)
    ensures
        shift_tokens(acc.push(t), k) == shift_tokens(acc, k).push(
            TokenView { begin: t.begin + k, end: t.end + k, ..t },
        ),
{
    assert(shift_tokens(acc.push(t), k) =~= shift_tokens(acc, k).push(
        TokenView { begin: t.begin + k, end: t.end + k, ..t },
    ));
}

proof fn lemma_shift_run(
    line: Seq<char>,
    k: nat,
    i: nat,
    st: TokState,
    cur: Seq<char>,
    begin: nat,
    begin2: nat,
    acc: Seq<TokenView>,
)
    requires
        all_ascii(line),
        i <= line.len(),
        st is Idle || begin2 == begin + k,
        st matches TokState::Quote(q) ==> is_quote(q),
    ensures
        tokenize_from(padded_line(line, k), i + k, st, cur, begin2, shift_tokens(acc, k)) == shift_result(
            tokenize_from(line, i, st, cur, begin, acc),
            k,
        ),
    decreases line.len() - i,
{
    let l2 = padded_line(line, k);
    assert(all_ascii(l2)) by {
        assert forall|j: int| 0 <= j < l2.len() implies (#[trigger] l2[j] as u32) <= 0x7F by {
            if k <= j < k + line.len() {
                assert(l2[j] == line[j - k]);
            }
        }
    }
    lemma_ascii_byte_offset(l2, (i + k) as int);
    if i < line.len() {
        lemma_ascii_byte_offset(line, i as int);
        let c = line[i as int];
        assert(l2[(i + k) as int] == c);
        match st {
            TokState::Idle => {
                if is_quote(c) {
                    lemma_shift_run(line, k, i + 1, TokState::Quote(c), cur, i + 1, i + k + 1, acc);
                } else if c != ' ' {
                    lemma_shift_run(line, k, i + 1, TokState::Word, cur.push(c), i, i + k, acc);
                } else {
                    lemma_shift_run(line, k, i + 1, TokState::Idle, cur, begin, begin2, acc);
                }
            },
            TokState::Word => {
                if is_quote(c) {
                } else if c == ' ' {
                    let t = mk_token(cur, begin, i, false);
                    lemma_shift_push(acc, t, k);
                    lemma_shift_run(line, k, i + 1, TokState::Idle, Seq::empty(), begin, begin2, acc.push(t));
                } else {
                    lemma_shift_run(line, k, i + 1, TokState::Word, cur.push(c), begin, begin2, acc);
                }
            },
            TokState::Quote(q) => {
                if c == q {
                    let t = mk_token(cur, begin, i, true);
                    lemma_shift_push(acc, t, k);
                    lemma_shift_run(line, k, i + 1, TokState::Idle, Seq::empty(), begin, begin2, acc.push(t));
                } else {
                    lemma_shift_run(line, k, i + 1, TokState::Quote(q), cur.push(c), begin, begin2, acc);
                }
            },
        }
    } else {
        let n = l2.len();
        assert(n == i + k + 1);
        assert(l2[(i + k) as int] == ' ');
        let sacc = shift_tokens(acc, k);
        let j = (i + k + 1) as nat;
        match st {
            TokState::Idle => {
                assert(tokenize_from(l2, j, TokState::Idle, cur, begin2, sacc) == Some(sacc));
            },
            TokState::Word => {
                let t = mk_token(cur, begin, line.len(), false);
                lemma_shift_push(acc, t, k);
                let t2 = mk_token(cur, begin2, (i + k) as nat, false);
                assert(tokenize_from(l2, j, TokState::Idle, Seq::empty(), begin2, sacc.push(t2)) == Some(
                    sacc.push(t2),
                ));
            },
            TokState::Quote(q) => {
                assert(' ' != q);
                assert(tokenize_from(l2, j, TokState::Quote(q), cur.push(' '), begin2, sacc) is None);
            },
        }
    }
}

proof fn lemma_leading_spaces(line: Seq<char>, k: nat, j: nat)
    requires
        j <= k,
    ensures
        tokenize_from(padded_line(line, k), j, TokState::Idle, Seq::empty(), 0, Seq::empty())
            == tokenize_from(padded_line(line, k), k, TokState::Idle, Seq::empty(), 0, Seq::empty()),
    decreases k - j,
{
    if j < k {
        assert(padded_line(line, k)[j as int] == ' ');
        lemma_leading_spaces(line, k, j + 1);
    }
}

/// On an ASCII line, putting `k` spaces in front and one space after changes
/// nothing but the positions, which all move `k` bytes on: the padded line is
/// invalid exactly when the line is.
pub proof fn lemma_tokenize_padded(line: Seq<char>, k: nat)
    requires
        all_ascii(line),
    ensures
        spec_tokenize(padded_line(line, k)) == shift_result(spec_tokenize(line), k),
{
    lemma_leading_spaces(line, k, 0);
    assert(shift_tokens(Seq::<TokenView>::empty(), k) =~= Seq::<TokenView>::empty());
    lemma_shift_run(line, k, 0, TokState::Idle, Seq::empty(), 0, 0, Seq::empty());
}

/// `words` joined by single spaces.
pub open spec fn join_words(words: Seq<Seq<char>>) -> Seq<char>
    decreases words.len(),
{
    if words.len() == 0 {
        Seq::empty()
    } else if words.len() == 1 {
        words[0]
    } else {
        words[0] + seq![' '] + join_words(words.drop_first())
    }
}

/// A word: non-empty, without spaces or quotes.
pub open spec fn is_word(w: Seq<char>) -> bool {
    w.len() > 0 && forall|k: int| 0 <= k < w.len() ==> #[trigger] w[k] != ' ' && !is_quote(w[k])
}

proof fn lemma_scan_word(line: Seq<char>, i0: nat, w: Seq<char>, j: nat, b: nat, acc: Seq<TokenView>)
    requires
        is_word(w),
        1 <= j <= w.len(),
        i0 + w.len() <= line.len(),
        line.subrange(i0 as int, (i0 + w.len()) as int) == w,
    ensures
        tokenize_from(line, i0 + j, TokState::Word, w.take(j as int), b, acc) == tokenize_from(
            line,
            i0 + w.len(),
            TokState::Word,
            w,
            b,
            acc,
        ),
    decreases w.len() - j,
{
    if j < w.len() {
        let c = line[(i0 + j) as int];
        assert(c == w[j as int]);
        assert(w.take(j as int).push(c) =~= w.take((j + 1) as int));
        lemma_scan_word(line, i0, w, j + 1, b, acc);
    } else {
        assert(w.take(j as int) =~= w);
    }
}

proof fn lemma_tokenize_words_from(p: Seq<char>, words: Seq<Seq<char>>, b: nat, acc: Seq<TokenView>)
    requires
        forall|k: int| 0 <= k < words.len() ==> is_word(#[trigger] words[k]),
    ensures
        tokenize_from(p + join_words(words), p.len(), TokState::Idle, Seq::empty(), b, acc) matches Some(r)
            && r.len() == acc.len() + words.len() && r.take(acc.len() as int) == acc && forall|k: int|
            0 <= k < words.len() ==> !(#[trigger] r[acc.len() + k]).quoted && r[acc.len() + k].text
                == words[k],
    decreases words.len(),
{
    let line = p + join_words(words);
    if words.len() == 0 {
        assert(line =~= p);
        assert(acc.take(acc.len() as int) =~= acc);
    } else {
        let w = words[0];
        assert(is_word(w));
        let i0 = p.len();
        let rest = words.drop_first();
        assert(line.subrange(i0 as int, (i0 + w.len()) as int) =~= w) by {
            if words.len() > 1 {
                assert(join_words(words) == w + seq![' '] + join_words(rest));
            }
        }
        let b0 = byte_offset(line, i0 as int);
        assert(line[i0 as int] == w[0]);
        assert(Seq::<char>::empty().push(w[0]) =~= w.take(1));
        lemma_scan_word(line, i0, w, 1, b0, acc);
        let t = mk_token(w, b0, if words.len() == 1 {
            line.len()
        } else {
            byte_offset(line, (i0 + w.len()) as int)
        }, false);
        assert forall|k: int| 0 <= k < rest.len() implies is_word(#[trigger] rest[k]) by {
            assert(rest[k] == words[k + 1]);
        }
        if words.len() == 1 {
            assert(line.len() == i0 + w.len());
            let r = acc.push(t);
            assert(r.take(acc.len() as int) =~= acc);
        } else {
            let p2 = p + w + seq![' '];
            assert(join_words(words) == w + seq![' '] + join_words(rest));
            assert(line =~= p2 + join_words(rest));
            assert(line[(i0 + w.len()) as int] == ' ');
            lemma_tokenize_words_from(p2, rest, b0, acc.push(t));
            if let Some(r) = tokenize_from(p2 + join_words(rest), p2.len(), TokState::Idle, Seq::empty(), b0, acc.push(t)) {
                assert(r.take(acc.len() as int) =~= r.take((acc.len() + 1) as int).take(acc.len() as int));
                assert(acc.push(t).take(acc.len() as int) =~= acc);
                assert(r[acc.len() as int] == acc.push(t)[acc.len() as int]);
                assert forall|k: int| 0 <= k < words.len() implies !(#[trigger] r[acc.len() + k]).quoted && r[acc.len()
                    + k].text == words[k] by {
                    if k > 0 {
                        assert(r[acc.push(t).len() + (k - 1)] == r[acc.len() + k]);
                        assert(rest[k - 1] == words[k]);
                    }
                }
            }
        }
    }
}

/// Words joined by single spaces come back as those words: one unquoted
/// token per word, with the word as its text.
pub proof fn lemma_tokenize_joined_words(words: Seq<Seq<char>>)
    requires
        forall|k: int| 0 <= k < words.len() ==> is_word(#[trigger] words[k]),
    ensures
        spec_tokenize(join_words(words)) matches Some(ts) && ts.len() == words.len() && forall|k: int|
            0 <= k < words.len() ==> !(#[trigger] ts[k]).quoted && ts[k].text == words[k],
{
    lemma_tokenize_words_from(Seq::empty(), words, 0, Seq::empty());
    assert(Seq::<char>::empty() + join_words(words) =~= join_words(words));
    if let Some(ts) = spec_tokenize(join_words(words)) {
        assert forall|k: int| 0 <= k < words.len() implies !(#[trigger] ts[k]).quoted && ts[k].text == words[k] by {
            assert(ts[0 + k] == ts[k]);
        }
    }
}

/// Whether `line` holds no quote character from character `i` on.
pub open spec fn no_quotes_from(line: Seq<char>, i: int) -> bool {
    forall|j: int| i <= j < line.len() ==> !is_quote(#[trigger] line[j])
}

proof fn lemma_no_quotes_tokenize_from(line: Seq<char>, i: nat, st: TokState, cur: Seq<char>, begin: nat, acc: Seq<TokenView>)
    requires
        i <= line.len(),
        no_quotes_from(line, i as int),
        !(st is Quote),
    ensures
        tokenize_from(line, i, st, cur, begin, acc) is Some,
    decreases line.len() - i,
{
    if i < line.len() {
        let c = line[i as int];
        let b = byte_offset(line, i as int);
        assert(!is_quote(c));
        match st {
            TokState::Idle => {
                if c != ' ' {
                    lemma_no_quotes_tokenize_from(line, i + 1, TokState::Word, cur.push(c), b, acc);
                } else {
                    lemma_no_quotes_tokenize_from(line, i + 1, TokState::Idle, cur, begin, acc);
                }
            },
            _ => {
                if c == ' ' {
                    lemma_no_quotes_tokenize_from(
                        line,
                        i + 1,
                        TokState::Idle,
                        Seq::empty(),
                        begin,
                        acc.push(mk_token(cur, begin, b, false)),
                    );
                } else {
                    lemma_no_quotes_tokenize_from(line, i + 1, TokState::Word, cur.push(c), begin, acc);
                }
            },
        }
    }
}

/// Only quoting makes a line invalid: a line without quote characters always
/// tokenizes, whatever other characters it holds.
pub proof fn lemma_tokenize_fails_only_on_quotes(line: Seq<char>)
    ensures
        spec_tokenize(line) is None ==> exists|j: int| 0 <= j < line.len() && is_quote(#[trigger] line[j]),
{
    if !exists|j: int| 0 <= j < line.len() && is_quote(#[trigger] line[j]) {
        lemma_no_quotes_tokenize_from(line, 0, TokState::Idle, Seq::empty(), 0, Seq::empty());
    }
}

/// An item of a command line: a word, or (with `Some(q)`) a text put between
/// two quote characters `q`.
pub type LineItem = (Seq<char>, Option<char>);

/// A well-formed item: a word, or a text that does not hold its own quote
/// character (it may hold spaces, the other quote and any other character).
pub open spec fn is_item(it: LineItem) -> bool {
    match it.1 {
        Some(q) => is_quote(q) && !it.0.contains(q),
        None => is_word(it.0),
    }
}

/// How an item is written in a line.
pub open spec fn render_item(it: LineItem) -> Seq<char> {
    match it.1 {
        Some(q) => seq![q] + it.0 + seq![q],
        None => it.0,
    }
}

/// `items` written one after the other, separated by single spaces.
pub open spec fn join_items(items: Seq<LineItem>) -> Seq<char>
    decreases items.len(),
{
    if items.len() == 0 {
        Seq::empty()
    } else if items.len() == 1 {
        render_item(items[0])
    } else {
        render_item(items[0]) + seq![' '] + join_items(items.drop_first())
    }
}

proof fn lemma_scan_quoted(line: Seq<char>, i0: nat, body: Seq<char>, q: char, j: nat, b: nat, acc: Seq<TokenView>)
    requires
        !body.contains(q),
        j <= body.len(),
        i0 + body.len() <= line.len(),
        line.subrange(i0 as int, (i0 + body.len()) as int) == body,
    ensures
        tokenize_from(line, i0 + j, TokState::Quote(q), body.take(j as int), b, acc) == tokenize_from(
            line,
            i0 + body.len(),
            TokState::Quote(q),
            body,
            b,
            acc,
        ),
    decreases body.len() - j,
{
    if j < body.len() {
        let c = line[(i0 + j) as int];
        assert(c == body[j as int]);
        assert(c != q) by {
            if c == q {
                assert(body.contains(q));
            }
        }
        assert(body.take(j as int).push(c) =~= body.take((j + 1) as int));
        lemma_scan_quoted(line, i0, body, q, j + 1, b, acc);
    } else {
        assert(body.take(j as int) =~= body);
    }
}

proof fn lemma_tokenize_items_from(p: Seq<char>, items: Seq<LineItem>, b: nat, acc: Seq<TokenView>)
    requires
        forall|k: int| 0 <= k < items.len() ==> is_item(#[trigger] items[k]),
    ensures
        tokenize_from(p + join_items(items), p.len(), TokState::Idle, Seq::empty(), b, acc) matches Some(r)
            && r.len() == acc.len() + items.len() && r.take(acc.len() as int) == acc && forall|k: int|
            0 <= k < items.len() ==> (#[trigger] r[acc.len() + k]).quoted == items[k].1 is Some && r[acc.len()
                + k].text == items[k].0,
    decreases items.len(),
{
    let line = p + join_items(items);
    if items.len() == 0 {
        assert(line =~= p);
        assert(acc.take(acc.len() as int) =~= acc);
    } else {
        let it = items[0];
        assert(is_item(it));
        let w = render_item(it);
        let i0 = p.len();
        let rest = items.drop_first();
        assert(line.subrange(i0 as int, (i0 + w.len()) as int) =~= w) by {
            if items.len() > 1 {
                assert(join_items(items) == w + seq![' '] + join_items(rest));
            }
        }
        assert(line.len() >= i0 + w.len());
        let b0 = byte_offset(line, i0 as int);
        let endb = if items.len() == 1 && it.1 is None {
            line.len()
        } else if it.1 is None {
            byte_offset(line, (i0 + w.len()) as int)
        } else {
            byte_offset(line, (i0 + w.len() - 1) as int)
        };
        let t = match it.1 {
            Some(q) => mk_token(it.0, b0 + 1, endb, true),
            None => mk_token(it.0, b0, endb, false),
        };
        // After the item, the tokenizer is between tokens with `t` produced.
        let after = (i0 + w.len()) as nat;
        let goal = tokenize_from(line, i0, TokState::Idle, Seq::empty(), b, acc);
        let next_b = match it.1 {
            Some(_) => b0 + 1,
            None => b0,
        };
        match it.1 {
            Some(q) => {
                let body = it.0;
                assert(line[i0 as int] == q);
                assert(line.subrange((i0 + 1) as int, (i0 + 1 + body.len()) as int) =~= body) by {
                    assert forall|m: int| 0 <= m < body.len() implies line[i0 + 1 + m] == body[m] by {
                        assert(line.subrange(i0 as int, (i0 + w.len()) as int)[1 + m] == w[1 + m]);
                    }
                }
                assert(body.take(0) =~= Seq::<char>::empty());
                lemma_scan_quoted(line, i0 + 1, body, q, 0, b0 + 1, acc);
                assert(line[(i0 + 1 + body.len()) as int] == q) by {
                    assert(line.subrange(i0 as int, (i0 + w.len()) as int)[w.len() - 1] == w[w.len() - 1]);
                }
                assert(goal == tokenize_from(line, after, TokState::Idle, Seq::empty(), next_b, acc.push(t)));
            },
            None => {
                assert(line[i0 as int] == it.0[0]);
                assert(!is_quote(it.0[0]) && it.0[0] != ' ');
                assert(Seq::<char>::empty().push(it.0[0]) =~= it.0.take(1));
                lemma_scan_word(line, i0, it.0, 1, b0, acc);
            },
        }
        assert forall|k: int| 0 <= k < rest.len() implies is_item(#[trigger] rest[k]) by {
            assert(rest[k] == items[k + 1]);
        }
        if items.len() == 1 {
            assert(line.len() == i0 + w.len());
            let r = acc.push(t);
            assert(r.take(acc.len() as int) =~= acc);
            assert(goal == Some(r));
        } else {
            let p2 = p + w + seq![' '];
            assert(join_items(items) == w + seq![' '] + join_items(rest));
            assert(line =~= p2 + join_items(rest));
            assert(line[after as int] == ' ');
            assert(goal == tokenize_from(line, after + 1, TokState::Idle, Seq::empty(), next_b, acc.push(t)));
            lemma_tokenize_items_from(p2, rest, next_b, acc.push(t));
            if let Some(r) = tokenize_from(p2 + join_items(rest), p2.len(), TokState::Idle, Seq::empty(), next_b, acc.push(t)) {
                assert(r.take(acc.len() as int) =~= r.take((acc.len() + 1) as int).take(acc.len() as int));
                assert(acc.push(t).take(acc.len() as int) =~= acc);
                assert(r[acc.len() as int] == acc.push(t)[acc.len() as int]);
                assert forall|k: int| 0 <= k < items.len() implies (#[trigger] r[acc.len() + k]).quoted == items[k].1 is Some
                    && r[acc.len() + k].text == items[k].0 by {
                    if k > 0 {
                        assert(r[acc.push(t).len() + (k - 1)] == r[acc.len() + k]);
                        assert(rest[k - 1] == items[k]);
                    }
                }
            }
        }
    }
}

/// Words and quoted texts written one after the other, separated by single
/// spaces, come back as those items, in order: one token per item, quoted
/// exactly where the item was, with the item's text (for a quoted item, what
/// stood between the quotes, whatever characters it holds).
pub proof fn lemma_tokenize_joined_items(items: Seq<LineItem>)
    requires
        forall|k: int| 0 <= k < items.len() ==> is_item(#[trigger] items[k]),
    ensures
        spec_tokenize(join_items(items)) matches Some(ts) && ts.len() == items.len() && forall|k: int|
            0 <= k < items.len() ==> (#[trigger] ts[k]).quoted == items[k].1 is Some && ts[k].text == items[k].0,
{
    lemma_tokenize_items_from(Seq::empty(), items, 0, Seq::empty());
    assert(Seq::<char>::empty() + join_items(items) =~= join_items(items));
    if let Some(ts) = spec_tokenize(join_items(items)) {
        assert forall|k: int| 0 <= k < items.len() implies (#[trigger] ts[k]).quoted == items[k].1 is Some && ts[k].text
            == items[k].0 by {
            assert(ts[0 + k] == ts[k]);
        }
    }
}

/// Takes the first token of the list.
pub fn pop_token(tokens: &mut TokenList) -> (t: Option<Token>)
    ensures
        match t {
            Some(t) => tokens_view(old(tokens)@).len() > 0 && t@ == tokens_view(old(tokens)@)[0]
                && tokens_view(final(tokens)@) == tokens_view(old(tokens)@).drop_first(),
            None => tokens_view(old(tokens)@).len() == 0 && final(tokens)@ == old(tokens)@,
        },
{
    let ghost t0 = tokens_view(tokens@);
    let t = tokens.pop_front();
    proof {
        if t is Some {
            assert(tokens_view(tokens@) =~= t0.drop_first());
        }
    }
    t
}

/// Splits `line` into tokens.
pub fn tokenize(line: &str) -> (res: Result<TokenList, ()>)
    ensures
        match res {
            Ok(l) => spec_tokenize(line@) == Some(tokens_view(l@)),
            Err(()) => spec_tokenize(line@) is None,
        },
{
    let chars = chars_of(line);
    let nbytes = line.as_bytes().len();
    proof {
        lemma_byte_len_encode(line@);
        assert(nbytes == byte_len(line@));
    }
    let ghost l = line@;
    let mut status = TokState::Idle;
    let mut tokens: TokenList = VecDeque::new();
    let mut token = String::new();
    let mut begin: usize = 0;
    let mut b: usize = 0;
    let mut i: usize = 0;
    assert(tokens_view(tokens@) =~= Seq::<TokenView>::empty());
    while i < chars.len()
        invariant
            l == line@,
            chars@ == l,
            nbytes == byte_len(l),
            0 <= i <= chars.len(),
            b == byte_offset(l, i as int),
            tokenize_from(l, i as nat, status, token@, begin as nat, tokens_view(tokens@))
                == spec_tokenize(l),
        decreases chars.len() - i,
    {
        let c = chars[i];
        proof {
            lemma_byte_offset_step(l, i as int);
            lemma_byte_offset_bounds(l, i + 1);
        }
        match status {
            TokState::Idle => {
                if c == '"' || c == '\'' {
                    begin = b + 1;
                    status = TokState::Quote(c);
                } else if c != ' ' {
                    begin = b;
                    push_char(&mut token, c);
                    status = TokState::Word;
                }
            },
            TokState::Word => {
                if c == '"' || c == '\'' {
                    assert(tokenize_from(l, i as nat, status, token@, begin as nat, tokens_view(tokens@)) is None);
                    return Err(());
                } else if c == ' ' {
                    let t = Token::plain(token.as_str(), begin, b);
                    proof {
                        assert(tokens_view(tokens@.push(t)) =~= tokens_view(tokens@).push(t@));
                    }
                    tokens.push_back(t);
                    token = String::new();
                    status = TokState::Idle;
                } else {
                    push_char(&mut token, c);
                }
            },
            TokState::Quote(q) => {
                if c == q {
                    let t = Token::quoted(token.as_str(), begin, b);
                    proof {
                        assert(tokens_view(tokens@.push(t)) =~= tokens_view(tokens@).push(t@));
                    }
                    tokens.push_back(t);
                    token = String::new();
                    status = TokState::Idle;
                } else {
                    push_char(&mut token, c);
                }
            },
        }
        b = b + utf8_width(c);
        i = i + 1;
    }
    match status {
        TokState::Word => {
            let t = Token::plain(token.as_str(), begin, chars.len());
            proof {
                assert(tokens_view(tokens@.push(t)) =~= tokens_view(tokens@).push(t@));
            }
            tokens.push_back(t);
        },
        TokState::Quote(_) => {
            return Err(());
        },
        TokState::Idle => {},
    }
    Ok(tokens)
}

} // verus!
