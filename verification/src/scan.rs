//! The mathematical model of a text scan.
//!
//! A buffer is a `Seq<char>`; a cursor position is an index into it, and
//! [`byte_pos`] maps it to the byte offset where the character's UTF-8
//! encoding starts.  The functions here say, for each scanning primitive,
//! where a scan started at a given position comes to rest, and which
//! delimiter occurrences it finds.

use vstd::prelude::*;
use vstd::utf8::{encode_scalar, encode_utf8};

verus! {

/// The sentinel character a cursor exposes once end of input is reached.
pub open spec fn sentinel() -> char {
    ' '
}

/// The whitespace characters a scan skips: space, tab, newline, carriage return.
pub open spec fn is_space_char(c: char) -> bool {
    c == ' ' || c == '\t' || c == '\n' || c == '\r'
}

/// The character a cursor at position `p` of buffer `b` exposes: the character
/// at `p`, or the sentinel once the whole buffer is consumed.
pub open spec fn char_at(b: Seq<char>, p: int) -> char {
    if 0 <= p < b.len() {
        b[p]
    } else {
        sentinel()
    }
}

/// The number of bytes of the UTF-8 encoding of one character.
pub open spec fn char_width(c: char) -> int {
    encode_scalar(c as u32).len() as int
}

/// The byte offset of the character with index `i` of buffer `b`: the number
/// of bytes that encode the characters before it.
pub open spec fn byte_pos(b: Seq<char>, i: int) -> int {
    encode_utf8(b.take(i)).len() as int
}

/// The byte length of the whole buffer.
pub open spec fn byte_len(b: Seq<char>) -> int {
    byte_pos(b, b.len() as int)
}

/// UTF-8 encodes each character independently, so encoding a concatenation
/// yields the concatenated encodings.
pub proof fn lemma_encode_utf8_concat(s: Seq<char>, t: Seq<char>)
    ensures
        encode_utf8(s + t) == encode_utf8(s) + encode_utf8(t),
    decreases s.len(),
{
    if s.len() == 0 {
        assert(s + t =~= t);
        assert(encode_utf8(s) + encode_utf8(t) =~= encode_utf8(t));
    } else {
        assert((s + t).drop_first() =~= s.drop_first() + t);
        lemma_encode_utf8_concat(s.drop_first(), t);
        assert(encode_utf8(s + t) =~= encode_utf8(s) + encode_utf8(t));
    }
}

/// Consuming one character advances the byte offset by exactly the width of
/// that character's encoding: multi-byte characters are never split.
pub proof fn lemma_byte_pos_step(b: Seq<char>, i: int)
    requires
        0 <= i < b.len(),
    ensures
        byte_pos(b, i + 1) == byte_pos(b, i) + char_width(b[i]),
{
    let c = b[i];
    assert(b.take(i + 1) =~= b.take(i) + seq![c]);
    lemma_encode_utf8_concat(b.take(i), seq![c]);
    assert(seq![c].drop_first() =~= Seq::<char>::empty());
    assert(encode_utf8(Seq::<char>::empty()) =~= Seq::<u8>::empty());
    assert(seq![c][0] == c);
    assert(encode_utf8(seq![c]) =~= encode_scalar(c as u32) + Seq::<u8>::empty());
    assert(encode_scalar(c as u32) + Seq::<u8>::empty() =~= encode_scalar(c as u32));
}

/// Byte offsets grow strictly with the character index: each character
/// contributes at least one and at most four bytes.  In particular the byte
/// offset of a position equals the buffer's byte length exactly at the end.
pub proof fn lemma_byte_pos_bounds(b: Seq<char>, i: int, j: int)
    requires
        0 <= i <= j <= b.len(),
    ensures
        byte_pos(b, i) + (j - i) <= byte_pos(b, j) <= byte_pos(b, i) + 4 * (j - i),
    decreases j - i,
{
    if i < j {
        lemma_byte_pos_bounds(b, i, j - 1);
        lemma_byte_pos_step(b, j - 1);
        vstd::utf8::char_is_scalar(b[j - 1]);
    }
}

/// Where a whitespace skip started at `i` comes to rest: the first position at
/// or after `i` holding a non-whitespace character, or the buffer length if
/// only whitespace remains.
pub open spec fn skip_spaces_from(b: Seq<char>, i: int) -> int
    decreases b.len() - i,
{
    if 0 <= i < b.len() && is_space_char(b[i]) {
        skip_spaces_from(b, i + 1)
    } else {
        i
    }
}

/// Where a word scan started at `i` comes to rest: the first position at or
/// after `i` holding a whitespace character, or the buffer length.
pub open spec fn word_end_from(b: Seq<char>, i: int) -> int
    decreases b.len() - i,
{
    if 0 <= i < b.len() && !is_space_char(b[i]) {
        word_end_from(b, i + 1)
    } else {
        i
    }
}

/// Where a scan for the character `d` started at `i` comes to rest: the first
/// position at or after `i` holding `d`, or the buffer length if `d` does not
/// occur.
pub open spec fn stop_at_char(b: Seq<char>, i: int, d: char) -> int
    decreases b.len() - i,
{
    if 0 <= i < b.len() && b[i] != d {
        stop_at_char(b, i + 1, d)
    } else {
        i
    }
}

/// Where a scan for any character of `ds` started at `i` comes to rest: the
/// first position at or after `i` holding a character of `ds`, or the buffer
/// length if none occurs.
pub open spec fn stop_at_chars(b: Seq<char>, i: int, ds: Seq<char>) -> int
    decreases b.len() - i,
{
    if 0 <= i < b.len() && !ds.contains(b[i]) {
        stop_at_chars(b, i + 1, ds)
    } else {
        i
    }
}

/// An occurrence of the delimiter `d` inside the region scanned from `start`,
/// ending exactly at position `p`: the `d.len()` characters before `p` equal
/// `d`, and they lie entirely at or after `start`.
pub open spec fn delim_match_at(b: Seq<char>, start: int, p: int, d: Seq<char>) -> bool {
    &&& 0 <= start
    &&& start + d.len() <= p <= b.len()
    &&& b.subrange(p - d.len(), p) == d
}

/// Some occurrence of `d` ends in the region scanned from `start`.
pub open spec fn has_delim_match(b: Seq<char>, start: int, d: Seq<char>) -> bool {
    exists|p: int| delim_match_at(b, start, p, d)
}

/// An occurrence of some delimiter of the list `ds` ends exactly at `p` in the
/// region scanned from `start`.
pub open spec fn delims_match_at(b: Seq<char>, start: int, p: int, ds: Seq<Seq<char>>) -> bool {
    exists|k: int| 0 <= k < ds.len() && delim_match_at(b, start, p, ds[k])
}

/// Some occurrence of some delimiter of `ds` ends in the region scanned from
/// `start`.
pub open spec fn has_delims_match(b: Seq<char>, start: int, ds: Seq<Seq<char>>) -> bool {
    exists|p: int| delims_match_at(b, start, p, ds)
}

/// A whitespace skip never moves backwards, stays inside the buffer, passes
/// only whitespace, and stops on a non-whitespace character where one exists.
pub proof fn lemma_skip_spaces_from_props(b: Seq<char>, i: int)
    requires
        0 <= i <= b.len(),
    ensures
        i <= skip_spaces_from(b, i) <= b.len(),
        forall|q: int| i <= q < skip_spaces_from(b, i) ==> is_space_char(b[q]),
        skip_spaces_from(b, i) < b.len() ==> !is_space_char(b[skip_spaces_from(b, i)]),
    decreases b.len() - i,
{
    if i < b.len() && is_space_char(b[i]) {
        lemma_skip_spaces_from_props(b, i + 1);
    }
}

/// Skipping whitespace is idempotent: a second skip, started where the first
/// came to rest, does not move.
pub proof fn lemma_skip_idempotent(b: Seq<char>, i: int)
    requires
        0 <= i <= b.len(),
    ensures
        skip_spaces_from(b, skip_spaces_from(b, i)) == skip_spaces_from(b, i),
{
    lemma_skip_spaces_from_props(b, i);
}

/// No character is lost or duplicated by advancing: the characters a cursor
/// exposes at positions `0, 1, ..., k - 1` of `b`, collected in order, are
/// exactly the first `k` characters of `b`.  Each advance returns the exposed
/// character and moves to the next position, so the characters returned by `k`
/// successive advances from the start concatenate to the consumed prefix.
pub proof fn lemma_advance_round_trip(b: Seq<char>, k: int)
    requires
        0 <= k <= b.len(),
    ensures
        Seq::new(k as nat, |j: int| char_at(b, j)) == b.take(k),
{
    assert(Seq::new(k as nat, |j: int| char_at(b, j)) =~= b.take(k));
}

} // verus!
