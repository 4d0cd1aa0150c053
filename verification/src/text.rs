//! Character and UTF-8 helpers shared by the tokenizer, the parser and the
//! completer.

use vstd::prelude::*;

verus! {

/// Number of bytes that the UTF-8 encoding of `c` takes.
pub open spec fn char_width(c: char) -> nat {
    if (c as u32) <= 0x7F {
        1
    } else if (c as u32) <= 0x7FF {
        2
    } else if (c as u32) <= 0xFFFF {
        3
    } else {
        4
    }
}

/// Number of bytes that the UTF-8 encoding of `s` takes.
pub open spec fn byte_len(s: Seq<char>) -> nat
    decreases s.len(),
{
    if s.len() == 0 {
        0
    } else {
        byte_len(s.drop_last()) + char_width(s.last())
    }
}

/// Byte offset, inside `s`, of the character with index `k`.
pub open spec fn byte_offset(s: Seq<char>, k: int) -> nat {
    byte_len(s.take(k))
}

pub fn utf8_width(c: char) -> (w: usize)
    ensures
        w == char_width(c),
        1 <= w <= 4,
{
    let u: u32 = c as u32;
    if u <= 0x7F {
        1
    } else if u <= 0x7FF {
        2
    } else if u <= 0xFFFF {
        3
    } else {
        4
    }
}

/// The characters of `s`, in order.
pub fn chars_of(s: &str) -> (v: Vec<char>)
    ensures
        v@ == s@,
{
    let mut v: Vec<char> = Vec::new();
    for c in it: s.chars()
        invariant
            v@ == it.seq().take(it.index()),
            it.seq() == s@,
    {
        v.push(c);
    }
    v
}


/// Whether two strings hold the same characters.
pub fn str_eq(a: &str, b: &str) -> (r: bool)
    ensures
        r == (a@ == b@),
{
    let x = chars_of(a);
    let y = chars_of(b);
    if x.len() != y.len() {
        return false;
    }
    let mut i: usize = 0;
    while i < x.len()
        invariant
            x@ == a@,
            y@ == b@,
            x.len() == y.len(),
            0 <= i <= x.len(),
            forall|k: int| 0 <= k < i ==> x@[k] == y@[k],
        decreases x.len() - i,
    {
        if x[i] != y[i] {
            return false;
        }
        i = i + 1;
    }
    assert(a@ =~= b@);
    true
}

/// Whether `s` begins with `prefix`.
pub fn starts_with(s: &str, prefix: &str) -> (r: bool)
    ensures
        r == (prefix@.len() <= s@.len() && s@.take(prefix@.len() as int) == prefix@),
{
    let x = chars_of(s);
    let y = chars_of(prefix);
    if y.len() > x.len() {
        return false;
    }
    let mut i: usize = 0;
    while i < y.len()
        invariant
            x@ == s@,
            y@ == prefix@,
            y.len() <= x.len(),
            0 <= i <= y.len(),
            forall|k: int| 0 <= k < i ==> x@[k] == y@[k],
        decreases y.len() - i,
    {
        if x[i] != y[i] {
            assert(s@.take(prefix@.len() as int)[i as int] != prefix@[i as int]);
            return false;
        }
        i = i + 1;
    }
    assert(s@.take(prefix@.len() as int) =~= prefix@);
    true
}

/// Number of bytes of the UTF-8 encoding of `s` (`str::len`).
pub fn byte_length(s: &str) -> (n: usize)
    ensures
        n == byte_len(s@),
{
    let n = s.as_bytes().len();
    proof {
        lemma_byte_len_encode(s@);
    }
    n
}

/// Appends `c` to `s`.  Trusted: it calls `String::push`, which std
/// documents as appending the given char to the end of the string.
#[verifier::external_body]
pub(crate) fn push_char(s: &mut String, c: char)
    ensures
        final(s)@ == old(s)@.push(c),
{
    s.push(c);
}

pub proof fn lemma_byte_len_concat(a: Seq<char>, b: Seq<char>)
    ensures
        byte_len(a + b) == byte_len(a) + byte_len(b),
    decreases b.len(),
{
    if b.len() == 0 {
        assert(a + b =~= a);
    } else {
        lemma_byte_len_concat(a, b.drop_last());
        assert((a + b).drop_last() =~= a + b.drop_last());
    }
}

pub proof fn lemma_byte_offset_step(s: Seq<char>, k: int)
    requires
        0 <= k < s.len(),
    ensures
        byte_offset(s, k + 1) == byte_offset(s, k) + char_width(s[k]),
{
    assert(s.take(k + 1).drop_last() =~= s.take(k));
}

pub proof fn lemma_byte_offset_bounds(s: Seq<char>, k: int)
    requires
        0 <= k <= s.len(),
    ensures
        k <= byte_offset(s, k) <= byte_len(s),
    decreases s.len() - k,
{
    lemma_byte_offset_lower(s, k);
    if k == s.len() {
        assert(s.take(k) =~= s);
    } else {
        lemma_byte_offset_bounds(s, k + 1);
        lemma_byte_offset_step(s, k);
    }
}

proof fn lemma_byte_offset_lower(s: Seq<char>, k: int)
    requires
        0 <= k <= s.len(),
    ensures
        k <= byte_offset(s, k),
    decreases k,
{
    if k > 0 {
        lemma_byte_offset_lower(s, k - 1);
        lemma_byte_offset_step(s, k - 1);
    }
}

/// `byte_len` agrees with vstd's UTF-8 encoding, which is what `str::len` reports.
pub proof fn lemma_byte_len_encode(s: Seq<char>)
    ensures
        byte_len(s) == vstd::utf8::encode_utf8(s).len(),
    decreases s.len(),
{
    broadcast use vstd::utf8::char_is_scalar;

    if s.len() > 0 {
        let c = s[0];
        lemma_byte_len_encode(s.drop_first());
        assert(s =~= seq![c] + s.drop_first());
        lemma_byte_len_concat(seq![c], s.drop_first());
        assert(seq![c].drop_last() =~= Seq::<char>::empty());
        assert(byte_len(Seq::<char>::empty()) == 0);
        assert(byte_len(seq![c]) == char_width(c));
        vstd::utf8::char_is_scalar(c);
        assert(vstd::utf8::encode_scalar(c as u32).len() == char_width(c));
    }
}

/// Byte offsets grow with the character index.
pub proof fn lemma_byte_offset_strict(s: Seq<char>, k1: int, k2: int)
    requires
        0 <= k1 < k2 <= s.len(),
    ensures
        byte_offset(s, k1) < byte_offset(s, k2),
    decreases k2 - k1,
{
    lemma_byte_offset_step(s, k2 - 1);
    if k1 < k2 - 1 {
        lemma_byte_offset_strict(s, k1, k2 - 1);
    }
}

/// Whether every character of `s` is ASCII.
pub open spec fn all_ascii(s: Seq<char>) -> bool {
    forall|i: int| 0 <= i < s.len() ==> (#[trigger] s[i] as u32) <= 0x7F
}

/// In an ASCII string a character's byte offset is its index.
pub proof fn lemma_ascii_byte_offset(s: Seq<char>, k: int)
    requires
        all_ascii(s),
        0 <= k <= s.len(),
    ensures
        byte_offset(s, k) == k,
    decreases k,
{
    if k > 0 {
        lemma_ascii_byte_offset(s, k - 1);
        lemma_byte_offset_step(s, k - 1);
        assert((s[k - 1] as u32) <= 0x7F);
    }
}

} // verus!
