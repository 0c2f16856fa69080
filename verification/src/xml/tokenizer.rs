//! The tokenizer: recognition primitives over a character stream.

use vstd::prelude::*;
use crate::xml::chars;
use crate::xml::span::{
    lemma_advance_bounds, lemma_advance_next, lemma_advance_pos, lemma_width_sum_counts,
    lemma_width_sum_split, width_sum, Cursor, Place, Span,
};
use crate::xml::stream::Stream;

verus! {

/// Whether a scan with `predicate` may consume `c`: the character is valid
/// XML and the predicate can answer `true` for it.
pub open spec fn accepted<P: Fn(char) -> bool>(predicate: P, c: char) -> bool {
    chars::is_valid(c) && call_ensures(predicate, (c,), true)
}

/// Whether a scan with `predicate` may stop in front of `c`: the character
/// is not valid XML, or the predicate can answer `false` for it.
pub open spec fn refused<P: Fn(char) -> bool>(predicate: P, c: char) -> bool {
    !chars::is_valid(c) || call_ensures(predicate, (c,), false)
}

/// Whether each of the first `n` items is accepted.
pub open spec fn all_accepted<P: Fn(char) -> bool>(
    predicate: P,
    items: Seq<(char, usize)>,
    n: int,
) -> bool {
    &&& 0 <= n <= items.len()
    &&& forall|i: int| 0 <= i < n ==> accepted(predicate, (#[trigger] items[i]).0)
}

/// Whether a scan of `items` with `predicate` consumes exactly the first `n`
/// of them: each is accepted, and the next one, if there is one, is refused.
pub open spec fn run_of<P: Fn(char) -> bool>(
    predicate: P,
    items: Seq<(char, usize)>,
    n: int,
) -> bool {
    &&& all_accepted(predicate, items, n)
    &&& n < items.len() ==> refused(predicate, items[n].0)
}

/// Whether `predicate` may be called on every valid character of `items`.
pub open spec fn callable_on<P: Fn(char) -> bool>(predicate: P, items: Seq<(char, usize)>) -> bool {
    forall|i: int|
        0 <= i < items.len() && chars::is_valid((#[trigger] items[i]).0) ==> call_requires(
            predicate,
            (items[i].0,),
        )
}

/// Whether the cursor can follow a scan of `items` with `predicate` without
/// leaving the range of machine words, however far the scan goes.
pub open spec fn scan_fits<P: Fn(char) -> bool>(
    predicate: P,
    start: Place,
    items: Seq<(char, usize)>,
) -> bool {
    forall|n: int|
        all_accepted(predicate, items, n) ==> (#[trigger] start.advance_all(items.take(n))).fits()
}

/// Whether a scan of `items` that starts only if `first` accepts the first
/// item, and then goes on with `rest`, consumes exactly `n` items.
pub open spec fn guarded_run_of<PI: Fn(char) -> bool, PW: Fn(char) -> bool>(
    first: PI,
    rest: PW,
    items: Seq<(char, usize)>,
    n: int,
) -> bool {
    ||| n == 0 && (items.len() == 0 || refused(first, items[0].0))
    ||| items.len() > 0 && accepted(first, items[0].0) && run_of(rest, items, n)
}

/// Whether the first `n` of `items` are the longest prefix of valid XML
/// characters that satisfy `ok`.
pub open spec fn run_while(ok: spec_fn(char) -> bool, items: Seq<(char, usize)>, n: int) -> bool {
    &&& 0 <= n <= items.len()
    &&& forall|i: int|
        0 <= i < n ==> chars::is_valid((#[trigger] items[i]).0) && ok(items[i].0)
    &&& n < items.len() ==> !(chars::is_valid(items[n].0) && ok(items[n].0))
}

/// Whether the cursor can follow the valid XML characters of `items` that
/// satisfy `ok` without leaving the range of machine words.
pub open spec fn run_fits(ok: spec_fn(char) -> bool, start: Place, items: Seq<(char, usize)>) -> bool {
    forall|n: int|
        0 <= n <= items.len() && (forall|i: int|
            0 <= i < n ==> chars::is_valid((#[trigger] items[i]).0) && ok(items[i].0)) ==> (
        #[trigger] start.advance_all(items.take(n))).fits()
}

/// Whether `items` begin with a character that can start a name.
pub open spec fn starts_name(items: Seq<(char, usize)>) -> bool {
    items.len() > 0 && chars::is_valid(items[0].0) && chars::is_name_start(items[0].0)
}

/// Whether a scan for a name consumes exactly the first `n` of `items`:
/// nothing unless a name starts there, else the longest run of name
/// characters.
pub open spec fn name_run(items: Seq<(char, usize)>, n: int) -> bool {
    if starts_name(items) {
        run_while(|c: char| chars::is_name(c), items, n)
    } else {
        n == 0
    }
}

/// Whether `items` spell a name and nothing else: a character that can start
/// a name, followed only by characters that can continue one.
pub open spec fn is_name_text(items: Seq<(char, usize)>) -> bool {
    &&& items.len() > 0
    &&& chars::is_name_start(items[0].0)
    &&& forall|i: int| 0 <= i < items.len() ==> chars::is_name((#[trigger] items[i]).0)
}

/// Whether a cursor at `start` has room in machine words for all of
/// `items`, whatever characters they are.
pub open spec fn has_room(start: Place, items: Seq<(char, usize)>) -> bool {
    &&& start.fits()
    &&& start.row + items.len() <= usize::MAX
    &&& start.col + items.len() <= usize::MAX
    &&& start.pos + width_sum(items) <= usize::MAX
}

/// Whether `c` is read as part of a chunk of a quoted literal: anything but
/// the two quotation marks, `<`, `%` and `&`.
pub open spec fn is_literal_char(c: char) -> bool {
    c != '"' && c != '\'' && c != '<' && c != '%' && c != '&'
}

/// The span that a recognition reports: none for an empty run, else the run
/// from the point `start` over the bytes of `consumed`.
pub open spec fn covering(start: Span, consumed: Seq<(char, usize)>) -> Option<Span> {
    if consumed.len() == 0 {
        None
    } else {
        Some(Span { row: start.row, col: start.col, pos: start.pos, len: width_sum(consumed) as usize })
    }
}

/// Low-level XML tokenizer.
///
/// Provides support for consuming an input stream by XML tokens and tracking
/// the [`Span`] for the token.
pub struct Tokenizer<T: Stream> {
    cursor: Cursor,
    input: T,
    state: T::State,
}

impl<T: Stream> Tokenizer<T> {
    /// The cursor that tracks the current position.
    pub closed spec fn cursor(&self) -> Cursor {
        self.cursor
    }

    /// The stream that the characters come from.
    pub closed spec fn source(&self) -> T {
        self.input
    }

    /// The read position of the stream.
    pub closed spec fn state(&self) -> T::State {
        self.state
    }

    /// The stream is at one of its read positions, and the cursor holds a
    /// point.
    pub open spec fn wf(&self) -> bool {
        &&& self.source().inv(self.state())
        &&& self.cursor().position().is_point()
    }

    /// The code points that have not been consumed yet, each with its
    /// length in bytes.
    pub open spec fn pending(&self) -> Seq<(char, usize)> {
        self.source().pending(self.state())
    }

    /// The current position as a mathematical value.
    pub open spec fn place(&self) -> Place {
        self.cursor()@
    }

    /// The current position.
    pub open spec fn spec_span(&self) -> Span {
        self.cursor().position()
    }

    /// A tokenizer at the first position of `input`.
    ///
    /// The stream is read from its default state on, so that state has to be
    /// one of the read positions of `input`.
    pub fn new(input: T) -> (t: Self)
        requires
            forall|s: T::State| call_ensures(T::State::default, (), s) ==> input.inv(s),
        ensures
            t.wf(),
            t.source() == input,
            call_ensures(T::State::default, (), t.state()),
            t.span() == (Span { row: 1, col: 1, pos: 0, len: 0 }),
            !t.cursor().after_cr(),
    {
        let cursor = Span::default().cursor();
        Tokenizer { cursor: cursor, input: input, state: T::State::default() }
    }

    /// The current position: a span of length zero.
    #[verifier::when_used_as_spec(spec_span)]
    pub fn span(&self) -> (s: Span)
        ensures
            s == self.span(),
            self.wf() ==> s.is_point(),
    {
        self.cursor.position()
    }

    /// Moves the cursor to the point `span`. The stream is not moved.
    pub fn set_span(&mut self, span: Span)
        requires
            old(self).wf(),
            span.is_point(),
        ensures
            final(self).wf(),
            final(self).span() == span,
            final(self).cursor().after_cr() == old(self).cursor().after_cr(),
            final(self).source() == old(self).source(),
            final(self).state() == old(self).state(),
    {
        self.cursor.move_to(span);
    }

    /// Returns the next code point without consuming it.
    pub fn peek_char(&mut self) -> (r: Option<char>)
        requires
            old(self).wf(),
        ensures
            final(self).wf(),
            final(self).cursor() == old(self).cursor(),
            final(self).pending() == old(self).pending(),
            r == if old(self).pending().len() > 0 {
                Some(old(self).pending()[0].0)
            } else {
                None
            },
    {
        self.input.peek_char(&mut self.state)
    }

    /// Consumes the next code point and moves the cursor over it.
    fn read_char(&mut self) -> (r: Option<char>)
        requires
            old(self).wf(),
            old(self).pending().len() > 0 ==> old(self).place().step(
                old(self).pending()[0].0,
                old(self).pending()[0].1 as int,
            ).fits(),
        ensures
            final(self).wf(),
            old(self).pending().len() == 0 ==> {
                &&& r is None
                &&& final(self).cursor() == old(self).cursor()
                &&& final(self).pending() == old(self).pending()
            },
            old(self).pending().len() > 0 ==> {
                &&& r == Some(old(self).pending()[0].0)
                &&& final(self).pending() == old(self).pending().drop_first()
                &&& final(self).place() == old(self).place().step(
                    old(self).pending()[0].0,
                    old(self).pending()[0].1 as int,
                )
            },
    {
        if let Some((char, length)) = self.input.read_char(&mut self.state) {
            self.cursor.advance(char, length);
            Some(char)
        } else {
            None
        }
    }

    /// Read a valid XML name.
    ///
    /// Without a name at the current position, nothing is consumed.
    pub fn read_name(&mut self) -> (r: Option<Span>)
        requires
            old(self).wf(),
            starts_name(old(self).pending()) ==> run_fits(
                |c: char| chars::is_name(c),
                old(self).place(),
                old(self).pending(),
            ),
        ensures
            final(self).wf(),
            ({
                let items = old(self).pending();
                let n = items.len() - final(self).pending().len();
                &&& name_run(items, n)
                &&& final(self).pending() == items.skip(n)
                &&& final(self).place() == old(self).place().advance_all(items.take(n))
                &&& r == covering(old(self).span(), items.take(n))
            }),
            match r {
                Some(span) => span.end() == final(self).span().pos,
                None => final(self).span() == old(self).span(),
            },
            !starts_name(old(self).pending()) ==> {
                &&& r is None
                &&& final(self).pending() == old(self).pending()
            },
    {
        proof {
            let items = self.pending();
            let start = self.place();
            if starts_name(items) {
                assert forall|n: int| all_accepted(chars::is_name, items, n) implies (
                #[trigger] start.advance_all(items.take(n))).fits() by {
                    assert forall|i: int| 0 <= i < n implies chars::is_valid(
                        (#[trigger] items[i]).0,
                    ) && chars::is_name(items[i].0) by {
                        assert(accepted(chars::is_name, items[i].0));
                    }
                }
            }
            assert(items.skip(0) =~= items);
            assert(items.take(0) =~= Seq::empty());
        }
        self.read_if_while(chars::is_name_start, chars::is_name)
    }

    /// Read a chunk of a quoted XML literal value (i.e., the value between
    /// either `"` or `'`).
    ///
    /// This method is meant for incremental parsing of a literal, so it will
    /// not read some special characters, even if they are allowed in some
    /// literal contexts. Characters that are not read by this:
    ///
    /// - Quotation marks, since those depend on the opening quotation mark
    ///   that was used.
    /// - The `<` character which is not allowed on attributes.
    /// - The `%` and `&` characters which are part of entity references.
    pub fn read_literal_value_chunk(&mut self) -> (r: Option<Span>)
        requires
            old(self).wf(),
            run_fits(|c: char| is_literal_char(c), old(self).place(), old(self).pending()),
        ensures
            final(self).wf(),
            ({
                let items = old(self).pending();
                let n = items.len() - final(self).pending().len();
                &&& run_while(|c: char| is_literal_char(c), items, n)
                &&& final(self).pending() == items.skip(n)
                &&& final(self).place() == old(self).place().advance_all(items.take(n))
                &&& r == covering(old(self).span(), items.take(n))
            }),
            match r {
                Some(span) => span.end() == final(self).span().pos,
                None => final(self).span() == old(self).span(),
            },
    {
        let plain = |c: char| -> (b: bool)
            ensures
                b == is_literal_char(c),
            { !matches!(c, '"' | '\'' | '<' | '%' | '&') };
        proof {
            let items = self.pending();
            let start = self.place();
            assert forall|n: int| all_accepted(plain, items, n) implies (
            #[trigger] start.advance_all(items.take(n))).fits() by {
                assert forall|i: int| 0 <= i < n implies chars::is_valid((#[trigger] items[i]).0)
                    && is_literal_char(items[i].0) by {
                    assert(accepted(plain, items[i].0));
                }
            }
        }
        self.read_if(plain)
    }

    /// Reads the longest run of valid XML characters that satisfy
    /// `predicate`. Returns the span of the run, or `None` if it is empty.
    pub fn read_if<P>(&mut self, predicate: P) -> (r: Option<Span>) where P: Fn(char) -> bool
        requires
            old(self).wf(),
            callable_on(predicate, old(self).pending()),
            scan_fits(predicate, old(self).place(), old(self).pending()),
        ensures
            final(self).wf(),
            ({
                let items = old(self).pending();
                let n = items.len() - final(self).pending().len();
                &&& run_of(predicate, items, n)
                &&& final(self).pending() == items.skip(n)
                &&& final(self).place() == old(self).place().advance_all(items.take(n))
                &&& r == covering(old(self).span(), items.take(n))
            }),
            match r {
                Some(span) => span.end() == final(self).span().pos,
                None => final(self).span() == old(self).span(),
            },
    {
        let ghost items = self.pending();
        let ghost start = self.place();
        proof {
            self.input.pending_widths(self.state);
        }
        let mut span = self.cursor.position();
        self.skip_chars(predicate);
        proof {
            let n = items.len() - self.pending().len();
            lemma_advance_pos(start, items.take(n));
            lemma_width_sum_counts(items.take(n));
        }
        span.len = self.cursor.position().pos - span.pos;
        if span.len > 0 {
            Some(span)
        } else {
            None
        }
    }

    /// Reads a run of valid XML characters that satisfy `predicate_while`,
    /// provided that the first character is valid XML and satisfies
    /// `predicate_if`. Otherwise nothing is consumed.
    pub fn read_if_while<PI, PW>(&mut self, predicate_if: PI, predicate_while: PW) -> (r: Option<
        Span,
    >) where PI: Fn(char) -> bool, PW: Fn(char) -> bool
        requires
            old(self).wf(),
            old(self).pending().len() > 0 && chars::is_valid(old(self).pending()[0].0)
                ==> call_requires(predicate_if, (old(self).pending()[0].0,)),
            old(self).pending().len() > 0 && accepted(predicate_if, old(self).pending()[0].0) ==> {
                &&& callable_on(predicate_while, old(self).pending())
                &&& scan_fits(predicate_while, old(self).place(), old(self).pending())
            },
        ensures
            final(self).wf(),
            ({
                let items = old(self).pending();
                let n = items.len() - final(self).pending().len();
                &&& guarded_run_of(predicate_if, predicate_while, items, n)
                &&& final(self).pending() == items.skip(n)
                &&& final(self).place() == old(self).place().advance_all(items.take(n))
                &&& r == covering(old(self).span(), items.take(n))
            }),
            match r {
                Some(span) => span.end() == final(self).span().pos,
                None => final(self).span() == old(self).span(),
            },
    {
        proof {
            let items = self.pending();
            assert(items.skip(0) =~= items);
            assert(items.take(0) =~= Seq::empty());
        }
        if let Some(char) = self.peek_char() {
            if chars::is_valid(char) && predicate_if(char) {
                return self.read_if(predicate_while);
            }
        }
        None
    }

    /// Consumes characters for as long as they are valid XML and satisfy
    /// `predicate`.
    fn skip_chars<P>(&mut self, predicate: P) where P: Fn(char) -> bool
        requires
            old(self).wf(),
            callable_on(predicate, old(self).pending()),
            scan_fits(predicate, old(self).place(), old(self).pending()),
        ensures
            final(self).wf(),
            ({
                let items = old(self).pending();
                let n = items.len() - final(self).pending().len();
                &&& run_of(predicate, items, n)
                &&& final(self).pending() == items.skip(n)
                &&& final(self).place() == old(self).place().advance_all(items.take(n))
            }),
    {
        let ghost items = self.pending();
        let ghost start = self.place();
        let ghost mut k: int = 0;
        proof {
            assert(items.skip(0) =~= items);
            assert(items.take(0) =~= Seq::empty());
        }
        loop
            invariant
                self.wf(),
                self.pending() == items.skip(k),
                self.place() == start.advance_all(items.take(k)),
                all_accepted(predicate, items, k),
                callable_on(predicate, items),
                scan_fits(predicate, start, items),
            ensures
                k < items.len() ==> refused(predicate, items[k].0),
            decreases items.len() - k,
        {
            match self.peek_char() {
                None => {
                    break ;
                },
                Some(c) => {
                    assert(c == items[k].0);
                    if chars::is_valid(c) && predicate(c) {
                        proof {
                            assert(all_accepted(predicate, items, k + 1));
                            lemma_advance_next(start, items, k);
                            assert(start.advance_all(items.take(k + 1)).fits());
                        }
                        self.read_char();
                        proof {
                            assert(items.skip(k).drop_first() =~= items.skip(k + 1));
                            k = k + 1;
                        }
                    } else {
                        break ;
                    }
                },
            }
        }
    }
}

/// A run is determined by the input: two scans of the same items with the
/// same test consume the same number of them.
pub proof fn lemma_run_unique(ok: spec_fn(char) -> bool, items: Seq<(char, usize)>, n: int, m: int)
    requires
        run_while(ok, items, n),
        run_while(ok, items, m),
    ensures
        n == m,
{
    if n < m {
        assert(chars::is_valid(items[n].0) && ok(items[n].0));
    }
    if m < n {
        assert(chars::is_valid(items[m].0) && ok(items[m].0));
    }
}

/// A text that is a name and nothing else is read whole by a scan for a
/// name: the span covers all its bytes, and the cursor ends where stepping
/// over every character of the text leads.
pub proof fn lemma_name_read_whole(start: Span, place: Place, items: Seq<(char, usize)>, n: int)
    requires
        is_name_text(items),
        name_run(items, n),
    ensures
        n == items.len(),
        covering(start, items.take(n)) matches Some(s) && s.len == width_sum(items) as usize,
        place.advance_all(items.take(n)) == place.advance_all(items),
{
    chars::lemma_class_inclusions(items[0].0);
    if n < items.len() {
        chars::lemma_class_inclusions(items[n].0);
    }
    assert(items.take(n) =~= items);
}

/// A scan never passes a character that is not valid XML, whatever the test
/// would say of it or of the characters behind it. If every character in
/// front of it passes, the scan stops exactly there.
pub proof fn lemma_run_stops_at_invalid(
    ok: spec_fn(char) -> bool,
    items: Seq<(char, usize)>,
    n: int,
    k: int,
)
    requires
        run_while(ok, items, n),
        0 <= k < items.len(),
        !chars::is_valid(items[k].0),
    ensures
        n <= k,
        (forall|i: int| 0 <= i < k ==> chars::is_valid((#[trigger] items[i]).0) && ok(items[i].0))
            ==> n == k,
{
    if n > k {
        assert(chars::is_valid(items[k].0));
    }
}

/// The same for a scan with an executable predicate: it never passes a
/// character that is not valid XML.
pub proof fn lemma_scan_stops_at_invalid<P: Fn(char) -> bool>(
    predicate: P,
    items: Seq<(char, usize)>,
    n: int,
    k: int,
)
    requires
        run_of(predicate, items, n),
        0 <= k < items.len(),
        !chars::is_valid(items[k].0),
    ensures
        n <= k,
        (forall|i: int| 0 <= i < k ==> !refused(predicate, (#[trigger] items[i]).0)) ==> n == k,
{
    if n > k {
        assert(accepted(predicate, items[k].0));
    }
}

/// A cursor with room for all that is pending has room at every step, and
/// after any number of steps still has room for the rest.
pub proof fn lemma_room_suffices(start: Place, items: Seq<(char, usize)>, n: int)
    requires
        has_room(start, items),
        0 <= n <= items.len(),
    ensures
        start.advance_all(items.take(n)).fits(),
        has_room(start.advance_all(items.take(n)), items.skip(n)),
{
    lemma_advance_bounds(start, items.take(n));
    lemma_advance_pos(start, items.take(n));
    lemma_width_sum_split(items, n);
}

/// A cursor with room for all that is pending can follow any scan for the
/// characters that satisfy `ok`.
pub proof fn lemma_room_for_run(ok: spec_fn(char) -> bool, start: Place, items: Seq<(char, usize)>)
    requires
        has_room(start, items),
    ensures
        run_fits(ok, start, items),
{
    assert forall|n: int| 0 <= n <= items.len() implies (#[trigger] start.advance_all(
        items.take(n),
    )).fits() by {
        lemma_room_suffices(start, items, n);
    }
}

/// A cursor with room for all that is pending can follow any scan with an
/// executable predicate.
pub proof fn lemma_room_for_scan<P: Fn(char) -> bool>(
    predicate: P,
    start: Place,
    items: Seq<(char, usize)>,
)
    requires
        has_room(start, items),
    ensures
        scan_fits(predicate, start, items),
{
    assert forall|n: int| 0 <= n <= items.len() implies (#[trigger] start.advance_all(
        items.take(n),
    )).fits() by {
        lemma_room_suffices(start, items, n);
    }
}

} // verus!
