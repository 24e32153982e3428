//! Character sequences: tokens, separators and encoded length.
//!
//! Text is modelled as `Seq<char>`, the view of `str` and `String`. Sizes on
//! the wire are counted in bytes of the UTF-8 encoding.

use vstd::prelude::*;
use vstd::utf8::encode_utf8;

verus! {

/// Length of the longest prefix of `s` in which `stop` does not occur.
pub open spec fn prefix_len<T>(s: Seq<T>, stop: T) -> nat
    decreases s.len(),
{
    if s.len() == 0 || s[0] == stop {
        0
    } else {
        1 + prefix_len(s.drop_first(), stop)
    }
}

/// `prefix_len` is the index of the first `stop`, or the length where there is none.
pub proof fn lemma_prefix_len<T>(s: Seq<T>, stop: T)
    ensures
        prefix_len(s, stop) <= s.len(),
        forall|i: int| 0 <= i < prefix_len(s, stop) ==> s[i] != stop,
        prefix_len(s, stop) < s.len() ==> s[prefix_len(s, stop) as int] == stop,
        prefix_len(s, stop) == s.len() <==> !s.contains(stop),
    decreases s.len(),
{
    if s.len() > 0 && s[0] != stop {
        let t = s.drop_first();
        lemma_prefix_len(t, stop);
        assert forall|i: int| 0 <= i < prefix_len(s, stop) implies s[i] != stop by {
            if i > 0 {
                assert(s[i] == t[i - 1]);
            }
        }
    }
}

/// The only index that is preceded by no `stop` and holds one, or is the end.
pub proof fn lemma_prefix_len_is<T>(s: Seq<T>, stop: T, n: int)
    requires
        0 <= n <= s.len(),
        forall|i: int| 0 <= i < n ==> s[i] != stop,
        n < s.len() ==> s[n] == stop,
    ensures
        prefix_len(s, stop) == n,
{
    lemma_prefix_len(s, stop);
}

/// The pieces of `s` between occurrences of `sep`. There is always at least
/// one piece; two adjacent separators enclose an empty piece.
pub open spec fn split(s: Seq<char>, sep: char) -> Seq<Seq<char>>
    decreases s.len(),
{
    let k = prefix_len(s, sep) as int;
    if k >= s.len() {
        seq![s]
    } else {
        seq![s.take(k)] + split(s.skip(k + 1), sep)
    }
}

/// The pieces written one after the other with `sep` between neighbours.
pub open spec fn join(pieces: Seq<Seq<char>>, sep: char) -> Seq<char>
    decreases pieces.len(),
{
    if pieces.len() == 0 {
        Seq::empty()
    } else if pieces.len() == 1 {
        pieces[0]
    } else {
        pieces[0] + seq![sep] + join(pieces.drop_first(), sep)
    }
}

/// No piece holds the separator.
pub open spec fn free_of(pieces: Seq<Seq<char>>, sep: char) -> bool {
    forall|i: int| 0 <= i < pieces.len() ==> !(#[trigger] pieces[i]).contains(sep)
}

/// Splitting `head`, a separator and `tail`, where `head` holds no separator,
/// gives `head` and then the pieces of `tail`.
pub proof fn lemma_split_step(head: Seq<char>, tail: Seq<char>, sep: char)
    requires
        !head.contains(sep),
    ensures
        split(head + seq![sep] + tail, sep) == seq![head] + split(tail, sep),
        split(head, sep) == seq![head],
{
    let s = head + seq![sep] + tail;
    assert forall|i: int| 0 <= i < head.len() implies s[i] != sep by {
    }
    lemma_prefix_len_is(s, sep, head.len() as int);
    assert(s.take(head.len() as int) =~= head);
    assert(s.skip(head.len() as int + 1) =~= tail);
    lemma_prefix_len(head, sep);
}

/// Every text has a first piece, and no piece holds the separator.
pub proof fn lemma_split_pieces(s: Seq<char>, sep: char)
    ensures
        split(s, sep).len() >= 1,
        split(s, sep)[0] == s.take(prefix_len(s, sep) as int),
        free_of(split(s, sep), sep),
    decreases s.len(),
{
    lemma_prefix_len(s, sep);
    let k = prefix_len(s, sep) as int;
    let head = s.take(k);
    assert(!head.contains(sep));
    if k < s.len() {
        lemma_split_pieces(s.skip(k + 1), sep);
        let all = split(s, sep);
        assert forall|i: int| 0 <= i < all.len() implies !(#[trigger] all[i]).contains(sep) by {
        }
    }
}

/// Joining the pieces of a text gives the text back.
pub proof fn lemma_join_split(s: Seq<char>, sep: char)
    ensures
        join(split(s, sep), sep) == s,
    decreases s.len(),
{
    lemma_prefix_len(s, sep);
    let k = prefix_len(s, sep) as int;
    if k < s.len() {
        let tail = s.skip(k + 1);
        lemma_join_split(tail, sep);
        let pieces = split(s, sep);
        assert(pieces.drop_first() =~= split(tail, sep));
    }
}

/// Number of bytes that `text` takes in UTF-8.
pub open spec fn byte_len(text: Seq<char>) -> nat {
    encode_utf8(text).len()
}

/// The encoding of a concatenation is the concatenation of the encodings.
pub proof fn lemma_encode_concat(a: Seq<char>, b: Seq<char>)
    ensures
        encode_utf8(a + b) == encode_utf8(a) + encode_utf8(b),
        byte_len(a + b) == byte_len(a) + byte_len(b),
    decreases a.len(),
{
    if a.len() > 0 {
        lemma_encode_concat(a.drop_first(), b);
        assert((a + b).drop_first() =~= a.drop_first() + b);
    }
}

/// `String::push` of std: the character is appended at the end and the rest
/// of the string stays as it was.
pub assume_specification[ String::push ](s: &mut String, c: char)
    ensures
        final(s)@ == old(s)@.push(c),
;

/// The characters of `s`, in order.
pub(crate) fn chars_of(s: &str) -> (chars: Vec<char>)
    ensures
        chars@ == s@,
{
    let mut chars: Vec<char> = Vec::new();
    for c in it: s.chars()
        invariant
            it.seq() == s@,
            chars@ == s@.take(it.index()),
    {
        chars.push(c);
    }
    chars
}

/// The characters of `chars` from `from` up to `to`, as a string.
pub(crate) fn string_of(chars: &Vec<char>, from: usize, to: usize) -> (s: String)
    requires
        from <= to <= chars.len(),
    ensures
        s@ == chars@.subrange(from as int, to as int),
{
    let mut s = String::new();
    let mut i: usize = from;
    while i < to
        invariant
            from <= i <= to <= chars.len(),
            s@ == chars@.subrange(from as int, i as int),
        decreases to - i,
    {
        s.push(chars[i]);
        i += 1;
    }
    s
}

/// The first index from `from` on, below `to`, that holds `stop`; `to` where
/// there is none.
pub(crate) fn find(chars: &Vec<char>, from: usize, to: usize, stop: char) -> (end: usize)
    requires
        from <= to <= chars.len(),
    ensures
        from <= end <= to,
        end == from + prefix_len(chars@.subrange(from as int, to as int), stop),
{
    let mut end: usize = from;
    while end < to && chars[end] != stop
        invariant
            from <= end <= to <= chars.len(),
            forall|i: int| from <= i < end ==> chars@[i] != stop,
        decreases to - end,
    {
        end += 1;
    }
    proof {
        lemma_prefix_len_is(chars@.subrange(from as int, to as int), stop, end - from);
    }
    end
}

/// True when `s` holds `c`.
pub(crate) fn holds(s: &str, c: char) -> (found: bool)
    ensures
        found == s@.contains(c),
{
    let mut found = false;
    for x in it: s.chars()
        invariant
            it.seq() == s@,
            found == s@.take(it.index()).contains(c),
    {
        let ghost after = s@.take(it.index() + 1);
        proof {
            if x == c {
                assert(after[it.index()] == c);
            }
        }
        if x == c {
            found = true;
        }
    }
    assert(s@.take(s@.len() as int) =~= s@);
    found
}

} // verus!
