//! Pull-based sources of characters.

use vstd::prelude::*;
use vstd::utf8::*;
use vstd::string::*;
use crate::xml::span::{lemma_width_sum_first, width_sum};

verus! {

/// A source of code points with one character of lookahead.
///
/// The stream keeps its read position in a separate `State` value, which
/// starts out as `State::default()`. What the stream still has to deliver is
/// described by [`Stream::pending`]: the code points in order, each paired
/// with the number of bytes that it occupies in the underlying encoding.
pub trait Stream {
    type State: Default;

    /// Whether `state` is a read position of this stream.
    spec fn inv(&self, state: Self::State) -> bool;

    /// The code points that have not been consumed yet, each with its
    /// length in bytes.
    spec fn pending(&self, state: Self::State) -> Seq<(char, usize)>;

    /// Every code point occupies at least one byte.
    proof fn pending_widths(&self, state: Self::State)
        requires
            self.inv(state),
        ensures
            forall|i: int|
                0 <= i < self.pending(state).len() ==> (#[trigger] self.pending(state)[i]).1 >= 1,
    ;

    /// Returns the next code point without consuming it, or `None` at the
    /// end of the input.
    fn peek_char(&mut self, state: &mut Self::State) -> (r: Option<char>)
        requires
            old(self).inv(*old(state)),
        ensures
            final(self).inv(*final(state)),
            final(self).pending(*final(state)) == old(self).pending(*old(state)),
            r == if old(self).pending(*old(state)).len() > 0 {
                Some(old(self).pending(*old(state))[0].0)
            } else {
                None
            },
    ;

    /// Consumes the next code point and returns it with its length in
    /// bytes, or returns `None` at the end of the input.
    fn read_char(&mut self, state: &mut Self::State) -> (r: Option<(char, usize)>)
        requires
            old(self).inv(*old(state)),
        ensures
            final(self).inv(*final(state)),
            final(self).pending(*final(state)) == if old(self).pending(*old(state)).len() > 0 {
                old(self).pending(*old(state)).drop_first()
            } else {
                old(self).pending(*old(state))
            },
            r == if old(self).pending(*old(state)).len() > 0 {
                Some(old(self).pending(*old(state))[0])
            } else {
                None
            },
    ;
}

/// The number of bytes that UTF-8 takes for the code point `c`.
pub open spec fn utf8_width(c: char) -> int {
    if (c as u32) < 0x80 {
        1
    } else if (c as u32) < 0x800 {
        2
    } else if (c as u32) < 0x10000 {
        3
    } else {
        4
    }
}

/// The characters of a text, each with its length in UTF-8.
pub open spec fn utf8_items(chars: Seq<char>) -> Seq<(char, usize)> {
    chars.map_values(|c: char| (c, utf8_width(c) as usize))
}

/// The number of bytes that UTF-8 takes for the code point `c`.
pub fn char_width(c: char) -> (w: usize)
    ensures
        w == utf8_width(c),
{
    let n: u32 = c as u32;
    if n < 0x80 {
        1
    } else if n < 0x800 {
        2
    } else if n < 0x10000 {
        3
    } else {
        4
    }
}

/// The UTF-8 width of a character is the length of its encoding.
pub proof fn lemma_width_is_encoded_len(c: char)
    ensures
        1 <= utf8_width(c) <= 4,
        utf8_width(c) == encode_scalar(c as u32).len(),
{
}

/// The bytes from a character boundary on are themselves valid UTF-8, and the
/// end of the character that starts there is the next boundary.
proof fn lemma_next_boundary(bytes: Seq<u8>, i: int)
    requires
        valid_utf8(bytes),
        is_char_boundary(bytes, i),
        0 <= i < bytes.len(),
    ensures
        valid_utf8(bytes.subrange(i, bytes.len() as int)),
        valid_first_scalar(bytes.subrange(i, bytes.len() as int)),
        i + length_of_first_scalar(bytes.subrange(i, bytes.len() as int)) <= bytes.len(),
        is_char_boundary(
            bytes,
            i + length_of_first_scalar(bytes.subrange(i, bytes.len() as int)),
        ),
    decreases bytes.len(),
{
    let n = bytes.len() as int;
    let first = length_of_first_scalar(bytes);
    let rest = pop_first_scalar(bytes);
    reveal_with_fuel(is_char_boundary, 2);
    if i == 0 {
        assert(bytes.subrange(0, n) =~= bytes);
        assert(is_char_boundary(rest, 0));
    } else {
        assert(is_char_boundary(rest, i - first));
        assert(i - first >= 0);
        lemma_next_boundary(rest, i - first);
        assert(rest.subrange(i - first, rest.len() as int) =~= bytes.subrange(i, n));
    }
}

impl<'a> Stream for &'a str {
    type State = usize;

    /// The read position is a byte offset on a character boundary.
    open spec fn inv(&self, state: usize) -> bool {
        is_char_boundary(self.spec_bytes(), state as int)
    }

    /// What remains is the text from the read position on.
    open spec fn pending(&self, state: usize) -> Seq<(char, usize)> {
        utf8_items(decode_utf8(self.spec_bytes().subrange(state as int, self.spec_bytes().len() as int)))
    }

    proof fn pending_widths(&self, state: usize) {
    }

    fn peek_char(&mut self, state: &mut usize) -> (r: Option<char>)
        ensures
            *final(self) == *old(self),
            *final(state) == *old(state),
    {
        broadcast use {group_utf8_lib, group_string_axioms};

        let (_, rest) = self.split_at(*state);
        let mut chars = rest.chars();
        chars.next()
    }

    fn read_char(&mut self, state: &mut usize) -> (r: Option<(char, usize)>)
        ensures
            *final(self) == *old(self),
            *final(state) == *old(state) + match r {
                Some((_, width)) => width as int,
                None => 0,
            },
    {
        broadcast use {group_utf8_lib, group_string_axioms};

        let (_, rest) = self.split_at(*state);
        let mut chars = rest.chars();
        match chars.next() {
            None => None,
            Some(c) => {
                let width = char_width(c);
                // seen as a slice, the text has a length that fits a machine word
                let raw = self.as_bytes();
                proof {
                    let bytes = self.spec_bytes();
                    let tail = bytes.subrange(*state as int, bytes.len() as int);
                    assert(bytes.len() == vstd::slice::spec_slice_len(raw));
                    assert(rest.spec_bytes() == tail);
                    assert(rest@ == decode_utf8(tail));
                    assert(tail.len() > 0);
                    lemma_next_boundary(bytes, *state as int);
                    assert(c == decode_first_scalar(tail) as char);
                    decode_utf8_first_scalar(tail);
                    lemma_width_is_encoded_len(c);
                    assert(width == length_of_first_scalar(tail));
                    assert(pop_first_scalar(tail) == bytes.subrange(
                        *state + width,
                        bytes.len() as int,
                    ));
                    assert(decode_utf8(tail).drop_first() == decode_utf8(pop_first_scalar(tail)));
                }
                *state += width;
                Some((c, width))
            },
        }
    }
}

/// A text read from its first byte still has all its characters pending.
pub proof fn lemma_str_start(text: &str)
    ensures
        text.inv(0),
        text.pending(0) == utf8_items(text@),
{
    broadcast use group_utf8_lib;
    let bytes = text.spec_bytes();
    assert(bytes.subrange(0, bytes.len() as int) =~= bytes);
}

/// A text has no more characters than bytes, and its items occupy exactly
/// its bytes.
pub proof fn lemma_str_size(text: Seq<char>)
    ensures
        utf8_items(text).len() == text.len(),
        text.len() <= encode_utf8(text).len(),
        width_sum(utf8_items(text)) == encode_utf8(text).len(),
    decreases text.len(),
{
    if text.len() > 0 {
        lemma_str_size(text.drop_first());
        lemma_width_sum_first(utf8_items(text));
        lemma_width_is_encoded_len(text[0]);
        assert(utf8_items(text).skip(1) =~= utf8_items(text.drop_first()));
    }
}

} // verus!
