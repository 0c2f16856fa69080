//! Source positions: spans of input text and the cursor that tracks them.

use vstd::prelude::*;

verus! {

/// A contiguous run of input text: where it starts and how many bytes it
/// covers. A span of length zero is a *point*: a position with no extent.
#[derive(Clone, Copy, Debug, PartialEq, Eq, Structural)]
pub struct Span {
    /// Line number, starting at 1, for the beginning of the span.
    pub row: usize,
    /// Column number, starting at 1, for the beginning of the span.
    pub col: usize,
    /// Offset in bytes for the beginning of the span in the input.
    pub pos: usize,
    /// Total length in bytes for the span.
    pub len: usize,
}

impl Span {
    /// Rows and columns are counted from 1.
    pub open spec fn wf(self) -> bool {
        self.row >= 1 && self.col >= 1
    }

    /// Whether the span has no extent.
    pub open spec fn is_point(self) -> bool {
        self.len == 0
    }

    /// The first byte offset past the span.
    pub open spec fn end(self) -> int {
        self.pos + self.len
    }

    /// Returns a cursor helper to modify the span position based on input
    /// characters.
    pub fn cursor(self) -> (c: Cursor)
        ensures
            c.position() == self,
            !c.after_cr(),
    {
        Cursor { span: self, last_was_cr: false }
    }
}

impl Default for Span {
    /// The first position of any input: row 1, column 1, offset 0.
    fn default() -> (s: Span)
        ensures
            s == (Span { row: 1, col: 1, pos: 0, len: 0 }),
    {
        Span { row: 1, col: 1, pos: 0, len: 0 }
    }
}

/// The mathematical state of a cursor: an unbounded position together with
/// the one bit that remembers a carriage return.
pub struct Place {
    pub row: int,
    pub col: int,
    pub pos: int,
    /// Whether the character consumed last was a carriage return.
    pub after_cr: bool,
}

impl Place {
    /// The place reached by consuming the character `c`, which occupies
    /// `len` bytes.
    ///
    /// A carriage return starts a new line. So does a line feed, unless it
    /// directly follows a carriage return: that pair is one line break.
    /// Any other character moves one column to the right.
    pub open spec fn step(self, c: char, len: int) -> Place {
        if c == '\r' {
            Place { row: self.row + 1, col: 1, pos: self.pos + len, after_cr: true }
        } else if c == '\n' && !self.after_cr {
            Place { row: self.row + 1, col: 1, pos: self.pos + len, after_cr: false }
        } else if c == '\n' {
            Place { row: self.row, col: self.col, pos: self.pos + len, after_cr: false }
        } else {
            Place { row: self.row, col: self.col + 1, pos: self.pos + len, after_cr: false }
        }
    }

    /// Rows and columns are counted from 1.
    pub open spec fn wf(self) -> bool {
        self.row >= 1 && self.col >= 1
    }

    /// Whether this place can be held in machine words.
    pub open spec fn fits(self) -> bool {
        &&& 0 <= self.row <= usize::MAX
        &&& 0 <= self.col <= usize::MAX
        &&& 0 <= self.pos <= usize::MAX
    }

    /// The place reached by consuming `items` in order, each a character
    /// with its length in bytes.
    pub open spec fn advance_all(self, items: Seq<(char, usize)>) -> Place
        decreases items.len(),
    {
        if items.len() == 0 {
            self
        } else {
            self.advance_all(items.drop_last()).step(items.last().0, items.last().1 as int)
        }
    }
}

/// The number of bytes that `items` occupy together.
pub open spec fn width_sum(items: Seq<(char, usize)>) -> int
    decreases items.len(),
{
    if items.len() == 0 {
        0
    } else {
        width_sum(items.drop_last()) + items.last().1
    }
}

/// Consuming one more item is one more step.
pub proof fn lemma_advance_next(start: Place, items: Seq<(char, usize)>, k: int)
    requires
        0 <= k < items.len(),
    ensures
        start.advance_all(items.take(k + 1)) == start.advance_all(items.take(k)).step(
            items[k].0,
            items[k].1 as int,
        ),
        width_sum(items.take(k + 1)) == width_sum(items.take(k)) + items[k].1,
{
    assert(items.take(k + 1).drop_last() =~= items.take(k));
}

/// The byte offset moves by the bytes consumed, whatever the characters.
pub proof fn lemma_advance_pos(start: Place, items: Seq<(char, usize)>)
    ensures
        start.advance_all(items).pos == start.pos + width_sum(items),
        width_sum(items) >= 0,
    decreases items.len(),
{
    if items.len() > 0 {
        lemma_advance_pos(start, items.drop_last());
    }
}

/// Items of at least one byte each occupy at least as many bytes as they
/// are.
pub proof fn lemma_width_sum_counts(items: Seq<(char, usize)>)
    requires
        forall|i: int| 0 <= i < items.len() ==> (#[trigger] items[i]).1 >= 1,
    ensures
        width_sum(items) >= items.len(),
    decreases items.len(),
{
    if items.len() > 0 {
        lemma_width_sum_counts(items.drop_last());
    }
}

/// Each step moves the row and the column by at most one, and leaves both
/// at 1 or more if they were.
pub proof fn lemma_advance_bounds(start: Place, items: Seq<(char, usize)>)
    ensures
        start.row <= start.advance_all(items).row <= start.row + items.len(),
        start.col >= 0 ==> 0 <= start.advance_all(items).col <= start.col + items.len(),
        start.wf() ==> start.advance_all(items).wf(),
    decreases items.len(),
{
    if items.len() > 0 {
        lemma_advance_bounds(start, items.drop_last());
    }
}

/// The bytes of a prefix are among the bytes of the whole.
pub proof fn lemma_width_sum_split(items: Seq<(char, usize)>, n: int)
    requires
        0 <= n <= items.len(),
    ensures
        width_sum(items) == width_sum(items.take(n)) + width_sum(items.skip(n)),
        width_sum(items.take(n)) >= 0,
        width_sum(items.skip(n)) >= 0,
    decreases items.len() - n,
{
    lemma_advance_pos(Place { row: 0, col: 0, pos: 0, after_cr: false }, items.take(n));
    lemma_advance_pos(Place { row: 0, col: 0, pos: 0, after_cr: false }, items.skip(n));
    if n == items.len() {
        assert(items.take(n) =~= items);
        assert(items.skip(n) =~= Seq::empty());
    } else {
        lemma_width_sum_split(items, n + 1);
        lemma_advance_next(Place { row: 0, col: 0, pos: 0, after_cr: false }, items, n);
        let tail = items.skip(n);
        assert(tail.skip(1) =~= items.skip(n + 1));
        lemma_width_sum_first(tail);
    }
}

/// The bytes of a run are those of its first item and those of the rest.
pub proof fn lemma_width_sum_first(items: Seq<(char, usize)>)
    requires
        items.len() > 0,
    ensures
        width_sum(items) == items[0].1 + width_sum(items.skip(1)),
    decreases items.len(),
{
    if items.len() == 1 {
        assert(items.skip(1) =~= Seq::empty());
        assert(items.drop_last() =~= Seq::empty());
    } else {
        lemma_width_sum_first(items.drop_last());
        assert(items.drop_last().skip(1) =~= items.skip(1).drop_last());
    }
}

/// The bytes of two runs, one after the other, add up.
pub proof fn lemma_width_sum_concat(a: Seq<(char, usize)>, b: Seq<(char, usize)>)
    ensures
        width_sum(a + b) == width_sum(a) + width_sum(b),
    decreases b.len(),
{
    if b.len() == 0 {
        assert(a + b =~= a);
    } else {
        lemma_width_sum_concat(a, b.drop_last());
        assert((a + b).drop_last() =~= a + b.drop_last());
    }
}

/// Consuming two runs, one after the other, is consuming them as one.
pub proof fn lemma_advance_concat(start: Place, a: Seq<(char, usize)>, b: Seq<(char, usize)>)
    ensures
        start.advance_all(a + b) == start.advance_all(a).advance_all(b),
    decreases b.len(),
{
    if b.len() == 0 {
        assert(a + b =~= a);
    } else {
        lemma_advance_concat(start, a, b.drop_last());
        assert((a + b).drop_last() =~= a + b.drop_last());
    }
}

/// Helper to track a span position based on input characters.
pub struct Cursor {
    pub span: Span,
    last_was_cr: bool,
}

impl View for Cursor {
    type V = Place;

    open spec fn view(&self) -> Place {
        Place {
            row: self.position().row as int,
            col: self.position().col as int,
            pos: self.position().pos as int,
            after_cr: self.after_cr(),
        }
    }
}

impl Cursor {
    /// Whether the character consumed last was a carriage return.
    pub closed spec fn after_cr(&self) -> bool {
        self.last_was_cr
    }

    /// The span that the cursor holds.
    pub closed spec fn spec_position(&self) -> Span {
        self.span
    }

    /// The span that the cursor holds.
    #[verifier::when_used_as_spec(spec_position)]
    pub fn position(&self) -> (s: Span)
        ensures
            s == self.position(),
    {
        self.span
    }

    /// Replaces the span that the cursor holds. What the cursor remembers
    /// of the character consumed last stays as it is.
    pub fn move_to(&mut self, span: Span)
        ensures
            final(self).position() == span,
            final(self).after_cr() == old(self).after_cr(),
    {
        self.span = span;
    }

    /// Consumes one character that occupies `len` bytes of the input.
    pub fn advance(&mut self, input: char, len: usize)
        requires
            old(self)@.step(input, len as int).fits(),
        ensures
            final(self)@ == old(self)@.step(input, len as int),
            final(self).position().len == old(self).position().len,
            old(self).position().wf() ==> final(self).position().wf(),
    {
        if input == '\r' {
            self.span.col = 1;
            self.span.row += 1;
            self.last_was_cr = true;
        } else if input == '\n' {
            if !self.last_was_cr {
                self.span.col = 1;
                self.span.row += 1;
            }
            self.last_was_cr = false;
        } else {
            self.span.col += 1;
            self.last_was_cr = false;
        }
        self.span.pos += len;
    }
}

} // verus!
