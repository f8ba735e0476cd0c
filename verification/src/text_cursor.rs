//! A cursor into UTF-8 text, at a byte position, as text inputs use it.
use vstd::prelude::*;
use vstd::string::*;
use vstd::utf8::*;

verus! {

broadcast use {group_utf8_lib, vstd::string::group_string_axioms};

/// The UTF-8 bytes of a text.
pub open spec fn bytes_of(s: Seq<char>) -> Seq<u8> {
    encode_utf8(s)
}

/// The characters that follow byte position `p`.
pub open spec fn chars_from(b: Seq<u8>, p: int) -> Seq<char> {
    decode_utf8(b.subrange(p, b.len() as int))
}

/// `q` is the first character boundary after `p`.
pub open spec fn is_next_boundary(b: Seq<u8>, p: int, q: int) -> bool {
    &&& p < q
    &&& is_char_boundary(b, q)
    &&& forall|r: int| p < r < q ==> !is_char_boundary(b, r)
}

/// `q` is the last character boundary before `p`.
pub open spec fn is_prev_boundary(b: Seq<u8>, p: int, q: int) -> bool {
    &&& q < p
    &&& is_char_boundary(b, q)
    &&& forall|r: int| q < r < p ==> !is_char_boundary(b, r)
}

/// The bytes left after removing the character that starts at `q`.
pub open spec fn remove_char_at(b: Seq<u8>, q: int) -> Seq<u8> {
    b.subrange(0, q) + b.subrange(q + length_of_first_scalar(b.subrange(q, b.len() as int)), b.len() as int)
}

/// `String::insert_str`: puts `s` at byte position `idx`, which must be a
/// character boundary (std panics otherwise).
#[verifier::external_body]
fn string_insert_str(text: &mut String, idx: usize, s: &str)
    requires
        is_char_boundary(bytes_of(old(text)@), idx as int),
    ensures
        bytes_of(final(text)@) == bytes_of(old(text)@).subrange(0, idx as int) + s.spec_bytes()
            + bytes_of(old(text)@).subrange(idx as int, bytes_of(old(text)@).len() as int),
{
    text.insert_str(idx, s)
}

/// `String::remove`: takes out the character that starts at byte position
/// `idx`, which must be a character boundary before the end (std panics
/// otherwise), and returns it.
#[verifier::external_body]
fn string_remove(text: &mut String, idx: usize) -> (c: char)
    requires
        (idx as int) < bytes_of(old(text)@).len(),
        is_char_boundary(bytes_of(old(text)@), idx as int),
    ensures
        bytes_of(final(text)@) == remove_char_at(bytes_of(old(text)@), idx as int),
        c == decode_first_scalar(
            bytes_of(old(text)@).subrange(idx as int, bytes_of(old(text)@).len() as int),
        ) as char,
{
    text.remove(idx)
}

/// A position in a text, counted in bytes.
#[derive(Copy, Clone, Debug)]
pub struct TextCursor {
    pub byte_pos: usize,
}

impl TextCursor {
    /// Moves over the character after the cursor; at the end of the text it
    /// stays.
    pub fn move_right(&mut self, text: &str)
        requires
            is_char_boundary(text.spec_bytes(), old(self).byte_pos as int),
        ensures
            (old(self).byte_pos as int) < text.spec_bytes().len() ==> is_next_boundary(
                text.spec_bytes(),
                old(self).byte_pos as int,
                final(self).byte_pos as int,
            ),
            old(self).byte_pos as int == text.spec_bytes().len() ==> final(self).byte_pos
                == old(self).byte_pos,
    {
        let ghost b = text.spec_bytes();
        proof {
            is_char_boundary_start_end_of_seq(b);
        }
        let len = text.as_bytes().len();
        if self.byte_pos < len {
            let mut p = self.byte_pos + 1;
            while !text.is_char_boundary(p)
                invariant
                    b == text.spec_bytes(),
                    len == b.len(),
                    is_char_boundary(b, len as int),
                    old(self).byte_pos < p <= len,
                    forall|r: int| old(self).byte_pos < r < p ==> !is_char_boundary(b, r),
                decreases len - p,
            {
                p = p + 1;
            }
            self.byte_pos = p;
        }
    }

    /// Moves to the last character boundary before the cursor; at the start
    /// it stays.
    pub fn move_left(&mut self, text: &str)
        ensures
            old(self).byte_pos == 0 ==> final(self).byte_pos == 0,
            old(self).byte_pos > 0 ==> is_prev_boundary(
                text.spec_bytes(),
                old(self).byte_pos as int,
                final(self).byte_pos as int,
            ),
    {
        let ghost b = text.spec_bytes();
        proof {
            is_char_boundary_start_end_of_seq(b);
        }
        if self.byte_pos == 0 {
            return;
        }
        self.byte_pos = self.byte_pos - 1;
        while !text.is_char_boundary(self.byte_pos)
            invariant
                b == text.spec_bytes(),
                is_char_boundary(b, 0),
                self.byte_pos < old(self).byte_pos,
                forall|r: int| self.byte_pos < r < old(self).byte_pos ==> !is_char_boundary(b, r),
            decreases self.byte_pos,
        {
            self.byte_pos = self.byte_pos - 1;
        }
    }

    /// Inserts `str` at the cursor and moves the cursor behind it.
    pub fn insert(&mut self, text: &mut String, str: &str)
        requires
            is_char_boundary(bytes_of(old(text)@), old(self).byte_pos as int),
            old(self).byte_pos + str.spec_bytes().len() <= usize::MAX,
        ensures
            bytes_of(final(text)@) == bytes_of(old(text)@).subrange(0, old(self).byte_pos as int)
                + str.spec_bytes() + bytes_of(old(text)@).subrange(
                old(self).byte_pos as int,
                bytes_of(old(text)@).len() as int,
            ),
            final(self).byte_pos == old(self).byte_pos + str.spec_bytes().len(),
    {
        string_insert_str(text, self.byte_pos, str);
        self.byte_pos = self.byte_pos + str.len();
    }

    /// Deletes the character before the cursor, which moves onto its start;
    /// at the start of the text nothing happens.
    pub fn delete_before(&mut self, text: &mut String)
        requires
            old(self).byte_pos <= bytes_of(old(text)@).len(),
        ensures
            old(self).byte_pos == 0 ==> final(self).byte_pos == 0 && final(text)@ == old(text)@,
            old(self).byte_pos > 0 ==> is_prev_boundary(
                bytes_of(old(text)@),
                old(self).byte_pos as int,
                final(self).byte_pos as int,
            ) && bytes_of(final(text)@) == remove_char_at(
                bytes_of(old(text)@),
                final(self).byte_pos as int,
            ),
    {
        if self.byte_pos == 0 {
            return;
        }
        self.move_left(text.as_str());
        string_remove(text, self.byte_pos);
    }

    /// Deletes the character after the cursor; at the end of the text nothing
    /// happens.
    pub fn delete_after(&mut self, text: &mut String)
        requires
            (old(self).byte_pos as int) < bytes_of(old(text)@).len() ==> is_char_boundary(
                bytes_of(old(text)@),
                old(self).byte_pos as int,
            ),
        ensures
            final(self).byte_pos == old(self).byte_pos,
            (old(self).byte_pos as int) < bytes_of(old(text)@).len() ==> bytes_of(final(text)@)
                == remove_char_at(bytes_of(old(text)@), old(self).byte_pos as int),
            (old(self).byte_pos as int) >= bytes_of(old(text)@).len() ==> final(text)@ == old(
                text,
            )@,
    {
        if self.byte_pos < text.as_str().as_bytes().len() {
            string_remove(text, self.byte_pos);
        }
    }

    /// The character after the cursor, if any.
    pub fn ch(&self, text: &str) -> (c: Option<char>)
        requires
            is_char_boundary(text.spec_bytes(), self.byte_pos as int),
        ensures
            c == (if (self.byte_pos as int) < text.spec_bytes().len() {
                Some(chars_from(text.spec_bytes(), self.byte_pos as int)[0])
            } else {
                None
            }),
    {
        char_at_boundary(text, self.byte_pos)
    }

    /// The character that starts one byte before the cursor, if the cursor
    /// is not at the start; that byte must start a character (std panics
    /// otherwise).
    pub fn ch_before(&self, text: &str) -> (c: Option<char>)
        requires
            self.byte_pos > 0 ==> is_char_boundary(text.spec_bytes(), self.byte_pos - 1),
        ensures
            self.byte_pos == 0 ==> c is None,
            self.byte_pos > 0 ==> c == (if self.byte_pos - 1 < text.spec_bytes().len() {
                Some(chars_from(text.spec_bytes(), self.byte_pos - 1)[0])
            } else {
                None
            }),
    {
        if self.byte_pos == 0 {
            None
        } else {
            char_at_boundary(text, self.byte_pos - 1)
        }
    }
}

/// The first character of `text[pos..]`.
fn char_at_boundary(text: &str, pos: usize) -> (c: Option<char>)
    requires
        is_char_boundary(text.spec_bytes(), pos as int),
    ensures
        c == (if (pos as int) < text.spec_bytes().len() {
            Some(chars_from(text.spec_bytes(), pos as int)[0])
        } else {
            None
        }),
{
    let ghost b = text.spec_bytes();
    let (_, rest) = text.split_at(pos);
    proof {
        valid_utf8_split(b, pos as int);
        decode_utf8_encode_utf8(rest.spec_bytes());
        encode_utf8_decode_utf8(rest@);
        assert(rest@ == chars_from(b, pos as int));
    }
    let mut it = rest.chars();
    it.next()
}

} // verus!
