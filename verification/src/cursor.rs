//! The cursor itself: a borrowed text buffer and a scanning position.

use vstd::prelude::*;
use vstd::string::StrSliceExecFns;
use vstd::utf8::encode_utf8;
use crate::scan::{byte_len, byte_pos, char_at, char_width, delim_match_at, delims_match_at,
    has_delim_match, has_delims_match, is_space_char, sentinel, skip_spaces_from, stop_at_char,
    stop_at_chars, word_end_from};

verus! {

/// A text cursor over a borrowed, immutable buffer.
///
/// The buffer is fixed at construction and never mutated; the cursor tracks
/// the current character's index and byte offset, caches the character, and
/// records whether end of input has been reached.  The exposed position is
/// the byte offset where the character's UTF-8 encoding starts, so it is
/// always a character boundary: a multi-byte character is consumed whole,
/// advancing the position by its full encoded width in one step.
pub struct Parser<'a> {
    data: &'a str,
    len: usize,
    blen: usize,
    pos: usize,
    bpos: usize,
    current: char,
    is_end: bool,
}

impl<'a> Parser<'a> {
    /// The buffer under scan, as a sequence of characters.
    pub closed spec fn buf(&self) -> Seq<char> {
        self.data@
    }

    /// The index of the current character, equal to the buffer length once
    /// end of input is reached.
    pub closed spec fn cursor(&self) -> int {
        self.pos as int
    }

    /// Internal consistency: the position lies inside the buffer or just past
    /// it, the end flag holds exactly at the buffer length, the cached
    /// character is the one at the position (or the sentinel at end of
    /// input), and the byte offset is the one of the position's character.
    pub closed spec fn inv(&self) -> bool {
        &&& self.len == self.buf().len()
        &&& self.blen as int == byte_len(self.buf())
        &&& self.pos <= self.len
        &&& self.bpos as int == byte_pos(self.buf(), self.pos as int)
        &&& self.is_end <==> self.pos == self.len
        &&& self.current == char_at(self.buf(), self.pos as int)
    }

    /// A well-formed cursor sits between the start of the buffer and one past
    /// its last character; its byte offset lies within the buffer's byte
    /// length.
    pub proof fn lemma_cursor_in_bounds(&self)
        requires
            self.inv(),
        ensures
            0 <= self.cursor() <= self.buf().len(),
            0 <= byte_pos(self.buf(), self.cursor()) <= byte_len(self.buf()),
    {
        assert(self.buf().take(0) =~= Seq::<char>::empty());
        assert(encode_utf8(Seq::<char>::empty()) =~= Seq::<u8>::empty());
        crate::scan::lemma_byte_pos_bounds(self.buf(), 0, self.cursor());
        crate::scan::lemma_byte_pos_bounds(self.buf(), self.cursor(), self.buf().len() as int);
    }

    /// Builds a cursor over `data`, positioned on its first character; an
    /// empty buffer starts at end of input with the sentinel exposed.
    pub fn from(data: &'a str) -> (p: Parser<'a>)
        ensures
            p.inv(),
            p.buf() == data@,
            p.cursor() == 0,
    {
        let len = data.unicode_len();
        let blen = data.as_bytes().len();
        proof {
            assert(data@.take(0) =~= Seq::<char>::empty());
            assert(encode_utf8(Seq::<char>::empty()) =~= Seq::<u8>::empty());
            assert(data@.take(data@.len() as int) =~= data@);
        }
        if len == 0 {
            Parser { data, len, blen, pos: 0, bpos: 0, current: ' ', is_end: true }
        } else {
            let current = data.get_char(0);
            Parser { data, len, blen, pos: 0, bpos: 0, current, is_end: false }
        }
    }

    /// The current character, or the sentinel at end of input.
    pub fn get_char(&self) -> (c: char)
        requires
            self.inv(),
        ensures
            c == char_at(self.buf(), self.cursor()),
    {
        self.current
    }

    /// The byte offset where the current character's encoding starts: the
    /// number of bytes that encode the consumed prefix of the buffer.  It is
    /// always a character boundary, never exceeds the buffer's byte length,
    /// and reaches it exactly at end of input.
    pub fn get_position(&self) -> (p: usize)
        requires
            self.inv(),
        ensures
            p as int == byte_pos(self.buf(), self.cursor()),
            p as int <= byte_len(self.buf()),
            (p as int == byte_len(self.buf())) == (self.cursor() == self.buf().len()),
    {
        proof {
            crate::scan::lemma_byte_pos_bounds(self.buf(), self.pos as int, self.buf().len() as int);
        }
        self.bpos
    }

    /// True exactly when the whole buffer has been consumed; there the current
    /// character is the sentinel.
    pub fn finished(&self) -> (r: bool)
        requires
            self.inv(),
        ensures
            r == (self.cursor() == self.buf().len()),
            r == (byte_pos(self.buf(), self.cursor()) == byte_len(self.buf())),
            r ==> char_at(self.buf(), self.cursor()) == sentinel(),
    {
        proof {
            crate::scan::lemma_byte_pos_bounds(self.buf(), self.pos as int, self.buf().len() as int);
        }
        self.is_end
    }

    /// True exactly when the current character is whitespace: space, tab,
    /// newline or carriage return.  The sentinel is a space, so this also
    /// holds at end of input.
    pub fn is_space(&self) -> (r: bool)
        requires
            self.inv(),
        ensures
            r == is_space_char(char_at(self.buf(), self.cursor())),
    {
        let c = self.current;
        c == ' ' || c == '\t' || c == '\n' || c == '\r'
    }

    /// Consumes the current character and returns it.  At end of input this
    /// is a no-op that returns the sentinel, however often it is called: the
    /// position does not move.
    pub fn next(&mut self) -> (c: char)
        requires
            old(self).inv(),
        ensures
            final(self).inv(),
            final(self).buf() == old(self).buf(),
            c == char_at(old(self).buf(), old(self).cursor()),
            old(self).cursor() < old(self).buf().len() ==> final(self).cursor() == old(self).cursor() + 1,
            old(self).cursor() < old(self).buf().len() ==> byte_pos(
                old(self).buf(),
                final(self).cursor(),
            ) == byte_pos(old(self).buf(), old(self).cursor()) + char_width(c),
            old(self).cursor() == old(self).buf().len() ==> final(self).cursor() == old(self).cursor()
                && c == sentinel(),
    {
        if self.is_end {
            return self.current;
        }
        let previous = self.current;
        let width = utf8_width(self.current);
        proof {
            crate::scan::lemma_byte_pos_step(self.buf(), self.pos as int);
            crate::scan::lemma_byte_pos_bounds(self.buf(), self.pos as int + 1, self.buf().len() as int);
        }
        self.bpos = self.bpos + width;
        self.pos = self.pos + 1;
        if self.pos == self.len {
            self.is_end = true;
            self.current = ' ';
        } else {
            self.current = self.data.get_char(self.pos);
        }
        previous
    }

    /// Consumes up to `count` characters, stopping early only at end of input.
    pub fn next_count(&mut self, count: usize)
        requires
            old(self).inv(),
        ensures
            final(self).inv(),
            final(self).buf() == old(self).buf(),
            final(self).cursor() == if old(self).cursor() + count <= old(self).buf().len() {
                old(self).cursor() + count
            } else {
                old(self).buf().len() as int
            },
    {
        let mut i: usize = 0;
        while i < count
            invariant
                i <= count,
                self.inv(),
                self.buf() == old(self).buf(),
                self.cursor() == if old(self).cursor() + i <= old(self).buf().len() {
                    old(self).cursor() + i
                } else {
                    old(self).buf().len() as int
                },
            decreases count - i,
        {
            self.next();
            i = i + 1;
        }
    }

    /// Consumes whitespace characters, leaving the cursor on the first
    /// non-whitespace character at or after its old position, or at end of
    /// input if only whitespace remains.
    pub fn skip(&mut self)
        requires
            old(self).inv(),
        ensures
            final(self).inv(),
            final(self).buf() == old(self).buf(),
            final(self).cursor() == skip_spaces_from(old(self).buf(), old(self).cursor()),
    {
        while !self.is_end && (self.current == ' ' || self.current == '\t' || self.current == '\n'
            || self.current == '\r')
            invariant
                self.inv(),
                self.buf() == old(self).buf(),
                old(self).cursor() <= self.cursor(),
                skip_spaces_from(self.buf(), self.cursor()) == skip_spaces_from(
                    old(self).buf(),
                    old(self).cursor(),
                ),
            decreases self.buf().len() - self.cursor(),
        {
            self.next();
        }
    }

    /// Skips leading whitespace, then consumes and returns the following run
    /// of non-whitespace characters, leaving the cursor on the whitespace
    /// character (or end of input) that bounds the word.  The result is empty
    /// when only whitespace remains.
    pub fn get_word(&mut self) -> (r: &'a str)
        requires
            old(self).inv(),
        ensures
            final(self).inv(),
            final(self).buf() == old(self).buf(),
            final(self).cursor() == word_end_from(
                old(self).buf(),
                skip_spaces_from(old(self).buf(), old(self).cursor()),
            ),
            r@ == old(self).buf().subrange(
                skip_spaces_from(old(self).buf(), old(self).cursor()),
                final(self).cursor(),
            ),
    {
        self.skip();
        let start = self.pos;
        while !self.is_end && !(self.current == ' ' || self.current == '\t' || self.current == '\n'
            || self.current == '\r')
            invariant
                self.inv(),
                self.buf() == old(self).buf(),
                start as int <= self.cursor(),
                word_end_from(self.buf(), self.cursor()) == word_end_from(self.buf(), start as int),
            decreases self.buf().len() - self.cursor(),
        {
            self.next();
        }
        self.data.substring_char(start, self.pos)
    }

    /// Consumes and returns the characters before the first occurrence of
    /// `break_char`, leaving the cursor on `break_char` itself — the delimiter
    /// is not consumed.  Without an occurrence, consumes to end of input.
    pub fn get_to_char(&mut self, break_char: char) -> (r: &'a str)
        requires
            old(self).inv(),
        ensures
            final(self).inv(),
            final(self).buf() == old(self).buf(),
            final(self).cursor() == stop_at_char(old(self).buf(), old(self).cursor(), break_char),
            r@ == old(self).buf().subrange(old(self).cursor(), final(self).cursor()),
    {
        let start = self.pos;
        while !self.is_end && self.current != break_char
            invariant
                self.inv(),
                self.buf() == old(self).buf(),
                start as int <= self.cursor(),
                start == old(self).cursor(),
                stop_at_char(self.buf(), self.cursor(), break_char) == stop_at_char(
                    self.buf(),
                    start as int,
                    break_char,
                ),
            decreases self.buf().len() - self.cursor(),
        {
            self.next();
        }
        self.data.substring_char(start, self.pos)
    }

    /// Consumes and returns the characters before the first occurrence of any
    /// character of `break_chars`, leaving the cursor on that character — the
    /// delimiter is not consumed.  Without an occurrence, consumes to end of
    /// input.
    pub fn get_to_chars(&mut self, break_chars: &[char]) -> (r: &'a str)
        requires
            old(self).inv(),
        ensures
            final(self).inv(),
            final(self).buf() == old(self).buf(),
            final(self).cursor() == stop_at_chars(old(self).buf(), old(self).cursor(), break_chars@),
            r@ == old(self).buf().subrange(old(self).cursor(), final(self).cursor()),
    {
        let start = self.pos;
        let mut stop = self.is_end || contains_char(break_chars, self.current);
        while !stop
            invariant
                self.inv(),
                self.buf() == old(self).buf(),
                start as int <= self.cursor(),
                start == old(self).cursor(),
                stop == (self.cursor() == self.buf().len() || break_chars@.contains(
                    char_at(self.buf(), self.cursor()),
                )),
                stop_at_chars(self.buf(), self.cursor(), break_chars@) == stop_at_chars(
                    self.buf(),
                    start as int,
                    break_chars@,
                ),
            decreases self.buf().len() - self.cursor(),
        {
            self.next();
            stop = self.is_end || contains_char(break_chars, self.current);
        }
        self.data.substring_char(start, self.pos)
    }

    /// Repositions the cursor to the character index `from_pos`, re-deriving
    /// the cached character and the end flag from the buffer.
    fn new_iter(&mut self, from_pos: usize)
        requires
            old(self).inv(),
            from_pos as int <= old(self).buf().len(),
        ensures
            final(self).inv(),
            final(self).buf() == old(self).buf(),
            final(self).cursor() == from_pos as int,
    {
        self.bpos = byte_offset_of(self.data, from_pos);
        self.pos = from_pos;
        if from_pos == self.len {
            self.is_end = true;
            self.current = ' ';
        } else {
            self.is_end = false;
            self.current = self.data.get_char(from_pos);
        }
    }

    /// Consumes characters until the consumed region ends with `break_str`,
    /// and returns the consumed region without that final occurrence; the
    /// cursor is left immediately after the consumed delimiter, so the next
    /// read starts right past it.  Without an occurrence the whole remainder
    /// is returned and the cursor is left at end of input.
    pub fn get_to_str(&mut self, break_str: &str) -> (r: &'a str)
        requires
            old(self).inv(),
        ensures
            final(self).inv(),
            final(self).buf() == old(self).buf(),
            old(self).cursor() <= final(self).cursor() <= old(self).buf().len(),
            has_delim_match(old(self).buf(), old(self).cursor(), break_str@) ==> delim_match_at(
                old(self).buf(),
                old(self).cursor(),
                final(self).cursor(),
                break_str@,
            ),
            has_delim_match(old(self).buf(), old(self).cursor(), break_str@) ==> forall|q: int|
                old(self).cursor() <= q < final(self).cursor() ==> !delim_match_at(
                    old(self).buf(),
                    old(self).cursor(),
                    q,
                    break_str@,
                ),
            has_delim_match(old(self).buf(), old(self).cursor(), break_str@) ==> r@ == old(self).buf().subrange(
                old(self).cursor(),
                final(self).cursor() - break_str@.len(),
            ),
            !has_delim_match(old(self).buf(), old(self).cursor(), break_str@) ==> final(self).cursor() == old(self).buf().len(),
            !has_delim_match(old(self).buf(), old(self).cursor(), break_str@) ==> r@ == old(self).buf().subrange(old(self).cursor(), old(self).buf().len() as int),
    {
        let start = self.pos;
        let dlen = break_str.unicode_len();
        let found = self.scan_to_delim(break_str, dlen);
        if found {
            let cut = self.pos - dlen;
            self.data.substring_char(start, cut)
        } else {
            self.data.substring_char(start, self.pos)
        }
    }

    /// Consumes characters until the consumed region ends with `break_str`,
    /// then repositions the cursor to the start of that occurrence, so the
    /// following reads yield the delimiter itself and then the rest.  Without
    /// an occurrence the cursor is left at end of input.
    pub fn skip_to_str(&mut self, break_str: &str)
        requires
            old(self).inv(),
        ensures
            final(self).inv(),
            final(self).buf() == old(self).buf(),
            old(self).cursor() <= final(self).cursor() <= old(self).buf().len(),
            has_delim_match(old(self).buf(), old(self).cursor(), break_str@) ==> delim_match_at(
                old(self).buf(),
                old(self).cursor(),
                final(self).cursor() + break_str@.len(),
                break_str@,
            ),
            has_delim_match(old(self).buf(), old(self).cursor(), break_str@) ==> forall|q: int|
                old(self).cursor() <= q < final(self).cursor() + break_str@.len()
                    ==> !delim_match_at(old(self).buf(), old(self).cursor(), q, break_str@),
            !has_delim_match(old(self).buf(), old(self).cursor(), break_str@) ==> final(self).cursor() == old(self).buf().len(),
    {
        let dlen = break_str.unicode_len();
        let found = self.scan_to_delim(break_str, dlen);
        if found {
            let cut = self.pos - dlen;
            self.new_iter(cut);
        }
    }

    /// Advances until the region consumed since `start` ends with `break_str`
    /// or input runs out; reports whether the delimiter was found.  On success
    /// the cursor rests immediately after the found occurrence, which is the
    /// first one; on failure at end of input, with no occurrence anywhere.
    fn scan_to_delim(&mut self, break_str: &str, dlen: usize) -> (found: bool)
        requires
            old(self).inv(),
            dlen as int == break_str@.len(),
        ensures
            final(self).inv(),
            final(self).buf() == old(self).buf(),
            old(self).cursor() <= final(self).cursor() <= old(self).buf().len(),
            found == has_delim_match(old(self).buf(), old(self).cursor(), break_str@),
            found ==> delim_match_at(
                old(self).buf(),
                old(self).cursor(),
                final(self).cursor(),
                break_str@,
            ),
            found ==> forall|q: int|
                old(self).cursor() <= q < final(self).cursor() ==> !delim_match_at(
                    old(self).buf(),
                    old(self).cursor(),
                    q,
                    break_str@,
                ),
            !found ==> final(self).cursor() == old(self).buf().len(),
    {
        let start = self.pos;
        let mut found = tail_matches(self.data, start, self.pos, break_str, dlen);
        while !found && !self.is_end
            invariant
                self.inv(),
                self.buf() == old(self).buf(),
                start == old(self).cursor(),
                start as int <= self.cursor(),
                dlen as int == break_str@.len(),
                found == delim_match_at(self.buf(), start as int, self.cursor(), break_str@),
                forall|q: int|
                    start as int <= q < self.cursor() ==> !delim_match_at(
                        self.buf(),
                        start as int,
                        q,
                        break_str@,
                    ),
            decreases self.buf().len() - self.cursor(),
        {
            self.next();
            found = tail_matches(self.data, start, self.pos, break_str, dlen);
        }
        proof {
            let b = self.buf();
            let s = start as int;
            let d = break_str@;
            if found {
                assert(has_delim_match(b, s, d));
            } else {
                assert forall|p: int| !delim_match_at(b, s, p, d) by {
                    if s <= p < self.cursor() {
                    } else if p == self.cursor() {
                    }
                }
                assert(!has_delim_match(b, s, d));
            }
        }
        found
    }

    /// Consumes characters until the consumed region ends with one of the
    /// strings of `break_strs`, and returns the consumed region without that
    /// final occurrence; the cursor is left immediately after the consumed
    /// delimiter.  The occurrence found is the first in scan order; where
    /// several of the strings end at that same place, the earliest in the
    /// list decides the length cut off.  Without any occurrence the whole
    /// remainder is returned and the cursor is left at end of input.
    pub fn get_to_strs(&mut self, break_strs: &[&str]) -> (r: &'a str)
        requires
            old(self).inv(),
        ensures
            final(self).inv(),
            final(self).buf() == old(self).buf(),
            old(self).cursor() <= final(self).cursor() <= old(self).buf().len(),
            has_delims_match(old(self).buf(), old(self).cursor(), break_strs.deep_view())
                ==> delims_match_at(
                old(self).buf(),
                old(self).cursor(),
                final(self).cursor(),
                break_strs.deep_view(),
            ),
            has_delims_match(old(self).buf(), old(self).cursor(), break_strs.deep_view())
                ==> forall|q: int|
                old(self).cursor() <= q < final(self).cursor() ==> !delims_match_at(
                    old(self).buf(),
                    old(self).cursor(),
                    q,
                    break_strs.deep_view(),
                ),
            has_delims_match(old(self).buf(), old(self).cursor(), break_strs.deep_view())
                ==> exists|k: int|
                0 <= k < break_strs.deep_view().len() && delim_match_at(
                    old(self).buf(),
                    old(self).cursor(),
                    final(self).cursor(),
                    break_strs.deep_view()[k],
                ) && (forall|j: int|
                    0 <= j < k ==> !delim_match_at(
                        old(self).buf(),
                        old(self).cursor(),
                        final(self).cursor(),
                        break_strs.deep_view()[j],
                    )) && r@ == old(self).buf().subrange(
                    old(self).cursor(),
                    final(self).cursor() - break_strs.deep_view()[k].len(),
                ),
            !has_delims_match(old(self).buf(), old(self).cursor(), break_strs.deep_view())
                ==> final(self).cursor() == old(self).buf().len(),
            !has_delims_match(old(self).buf(), old(self).cursor(), break_strs.deep_view()) ==> r@
                == old(self).buf().subrange(old(self).cursor(), old(self).buf().len() as int),
    {
        let ghost b = self.buf();
        let ghost ds = break_strs.deep_view();
        let start = self.pos;
        let mut hit = first_tail_match(self.data, start, self.pos, break_strs);
        while hit.is_none() && !self.is_end
            invariant
                self.inv(),
                self.buf() == b,
                b == old(self).buf(),
                ds == break_strs.deep_view(),
                start == old(self).cursor(),
                start as int <= self.cursor(),
                match hit {
                    Option::Some(k) => 0 <= k < ds.len() && delim_match_at(
                        b,
                        start as int,
                        self.cursor(),
                        ds[k as int],
                    ) && forall|j: int|
                        0 <= j < k ==> !delim_match_at(b, start as int, self.cursor(), ds[j]),
                    Option::None => !delims_match_at(b, start as int, self.cursor(), ds),
                },
                forall|q: int|
                    start as int <= q < self.cursor() ==> !delims_match_at(b, start as int, q, ds),
            decreases self.buf().len() - self.cursor(),
        {
            self.next();
            hit = first_tail_match(self.data, start, self.pos, break_strs);
        }
        match hit {
            Option::Some(k) => {
                proof {
                    assert(delims_match_at(b, start as int, self.cursor(), ds));
                    assert(has_delims_match(b, start as int, ds));
                }
                let d: &str = *vstd::slice::slice_index_get(break_strs, k);
                let dlen = d.unicode_len();
                proof {
                    assert(d@ == ds[k as int]);
                }
                let cut = self.pos - dlen;
                let r = self.data.substring_char(start, cut);
                proof {
                    assert(r@ == b.subrange(start as int, self.cursor() - ds[k as int].len()));
                }
                r
            },
            Option::None => {
                proof {
                    assert forall|p: int| !delims_match_at(b, start as int, p, ds) by {
                        if start as int <= p < self.cursor() {
                        } else if p == self.cursor() {
                        } else {
                            assert forall|k: int| 0 <= k < ds.len() implies !delim_match_at(
                                b,
                                start as int,
                                p,
                                ds[k],
                            ) by {}
                        }
                    }
                    assert(!has_delims_match(b, start as int, ds));
                }
                self.data.substring_char(start, self.pos)
            },
        }
    }

    /// Consumes all remaining characters and returns them, leaving the cursor
    /// at end of input.
    pub fn get_to_end(&mut self) -> (r: &'a str)
        requires
            old(self).inv(),
        ensures
            final(self).inv(),
            final(self).buf() == old(self).buf(),
            final(self).cursor() == old(self).buf().len(),
            r@ == old(self).buf().subrange(old(self).cursor(), old(self).buf().len() as int),
    {
        let start = self.pos;
        while !self.is_end
            invariant
                self.inv(),
                self.buf() == old(self).buf(),
                start as int <= self.cursor(),
                start == old(self).cursor(),
            decreases self.buf().len() - self.cursor(),
        {
            self.next();
        }
        self.data.substring_char(start, self.pos)
    }
}

/// The byte width of one character's UTF-8 encoding, read off its code point.
fn utf8_width(c: char) -> (w: usize)
    ensures
        w as int == char_width(c),
{
    proof {
        vstd::utf8::char_is_scalar(c);
    }
    let u = c as u32;
    if u < 0x80 {
        1
    } else if u < 0x800 {
        2
    } else if u < 0x10000 {
        3
    } else {
        4
    }
}

/// The byte offset of the character with index `i` of `data`: the widths of
/// the encodings of the characters before it, summed.
fn byte_offset_of(data: &str, i: usize) -> (r: usize)
    requires
        i as int <= data@.len(),
    ensures
        r as int == byte_pos(data@, i as int),
{
    let total = data.as_bytes().len();
    proof {
        assert(data@.take(0) =~= Seq::<char>::empty());
        assert(encode_utf8(Seq::<char>::empty()) =~= Seq::<u8>::empty());
        assert(data@.take(data@.len() as int) =~= data@);
    }
    let mut j: usize = 0;
    let mut acc: usize = 0;
    while j < i
        invariant
            j <= i,
            i as int <= data@.len(),
            acc as int == byte_pos(data@, j as int),
            total as int == byte_len(data@),
        decreases i - j,
    {
        let c = data.get_char(j);
        let w = utf8_width(c);
        proof {
            crate::scan::lemma_byte_pos_step(data@, j as int);
            crate::scan::lemma_byte_pos_bounds(data@, j as int + 1, data@.len() as int);
        }
        acc = acc + w;
        j = j + 1;
    }
    acc
}

/// True exactly when an occurrence of `delim` lies inside the region scanned
/// from `start` and ends exactly at position `p`.
fn tail_matches(data: &str, start: usize, p: usize, delim: &str, dlen: usize) -> (r: bool)
    requires
        start <= p,
        p as int <= data@.len(),
        dlen as int == delim@.len(),
    ensures
        r == delim_match_at(data@, start as int, p as int, delim@),
{
    if p - start < dlen {
        return false;
    }
    let mut j: usize = 0;
    while j < dlen
        invariant
            j <= dlen,
            start <= p,
            p as int <= data@.len(),
            dlen as int == delim@.len(),
            dlen <= p - start,
            forall|q: int|
                0 <= q < j ==> data@[p as int - dlen as int + q] == delim@[q],
        decreases dlen - j,
    {
        if data.get_char(p - dlen + j) != delim.get_char(j) {
            proof {
                assert(data@.subrange(p as int - dlen as int, p as int)[j as int] == data@[p as int
                    - dlen as int + j as int]);
            }
            return false;
        }
        j = j + 1;
    }
    proof {
        assert(data@.subrange(p as int - dlen as int, p as int) =~= delim@);
    }
    true
}

/// The least index of a string of `delims` with an occurrence inside the
/// region scanned from `start` ending exactly at position `p`, if any string
/// of the list has one there.
fn first_tail_match(data: &str, start: usize, p: usize, delims: &[&str]) -> (r: Option<usize>)
    requires
        start <= p,
        p as int <= data@.len(),
    ensures
        match r {
            Option::Some(k) => 0 <= k < delims.deep_view().len() && delim_match_at(
                data@,
                start as int,
                p as int,
                delims.deep_view()[k as int],
            ) && forall|j: int|
                0 <= j < k ==> !delim_match_at(data@, start as int, p as int, delims.deep_view()[j]),
            Option::None => forall|j: int|
                0 <= j < delims.deep_view().len() ==> !delim_match_at(
                    data@,
                    start as int,
                    p as int,
                    delims.deep_view()[j],
                ),
        },
{
    let n = delims.len();
    let mut k: usize = 0;
    while k < n
        invariant
            k <= n,
            start <= p,
            p as int <= data@.len(),
            n == delims@.len(),
            forall|j: int|
                0 <= j < k ==> !delim_match_at(data@, start as int, p as int, delims.deep_view()[j]),
        decreases n - k,
    {
        let d: &str = *vstd::slice::slice_index_get(delims, k);
        let dlen = d.unicode_len();
        proof {
            assert(d@ == delims.deep_view()[k as int]);
        }
        if tail_matches(data, start, p, d, dlen) {
            return Some(k);
        }
        k = k + 1;
    }
    None
}

/// True exactly when `c` occurs among `chars`.
fn contains_char(chars: &[char], c: char) -> (r: bool)
    ensures
        r == chars@.contains(c),
{
    let n = chars.len();
    let mut j: usize = 0;
    while j < n
        invariant
            j <= n,
            n == chars@.len(),
            forall|q: int| 0 <= q < j ==> chars@[q] != c,
        decreases n - j,
    {
        if *vstd::slice::slice_index_get(chars, j) == c {
            return true;
        }
        j = j + 1;
    }
    false
}

} // verus!
