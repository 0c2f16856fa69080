//! What a sequence of reads reports: the spans of successive reads lie end
//! to end, and together they give back the input that was consumed.

use vstd::prelude::*;
use vstd::utf8::encode_utf8;
use crate::xml::span::{
    lemma_advance_concat, lemma_advance_pos, lemma_width_sum_concat, width_sum, Place, Span,
};
use crate::xml::stream::{lemma_str_size, utf8_items, Stream};
use crate::xml::tokenizer::{covering, has_room, Tokenizer};

verus! {

/// The point at which a cursor at `place` stands.
pub open spec fn point_at(place: Place) -> Span {
    Span { row: place.row as usize, col: place.col as usize, pos: place.pos as usize, len: 0 }
}

/// What the first `k` of a sequence of reads have consumed together, where
/// read number `i` consumes `chunks[i]`.
pub open spec fn joined(chunks: Seq<Seq<(char, usize)>>, k: int) -> Seq<(char, usize)>
    decreases k,
{
    if k <= 0 {
        Seq::empty()
    } else {
        joined(chunks, k - 1) + chunks[k - 1]
    }
}

/// The span that read number `k` reports, for a cursor that was at `start`
/// before the first read.
pub open spec fn reported(start: Place, chunks: Seq<Seq<(char, usize)>>, k: int) -> Option<Span> {
    covering(point_at(start.advance_all(joined(chunks, k))), chunks[k])
}

/// The byte ranges of the spans that the first `k` reads report, taken out
/// of `bytes` and put one after the other.
pub open spec fn gathered(
    bytes: Seq<u8>,
    start: Place,
    chunks: Seq<Seq<(char, usize)>>,
    k: int,
) -> Seq<u8>
    decreases k,
{
    if k <= 0 {
        Seq::empty()
    } else {
        let last = reported(start, chunks, k - 1).unwrap();
        gathered(bytes, start, chunks, k - 1) + bytes.subrange(last.pos as int, last.end())
    }
}

/// The span of a tokenizer is the point at which its cursor stands.
pub proof fn lemma_span_is_point<T: Stream>(tokenizer: &Tokenizer<T>)
    requires
        tokenizer.wf(),
    ensures
        tokenizer.span() == point_at(tokenizer.place()),
{
}

/// Reads follow one another: the cursor stands after `k + 1` reads where
/// read number `k` leaves a cursor that stood where the first `k` reads
/// left it.
pub proof fn lemma_reads_compose(start: Place, chunks: Seq<Seq<(char, usize)>>, k: int)
    requires
        0 <= k,
    ensures
        start.advance_all(joined(chunks, k + 1)) == start.advance_all(
            joined(chunks, k),
        ).advance_all(chunks[k]),
{
    lemma_advance_concat(start, joined(chunks, k), chunks[k]);
}

/// What more reads consume together begins with what fewer consume.
proof fn lemma_joined_grows(chunks: Seq<Seq<(char, usize)>>, k: int, n: int)
    requires
        0 <= k <= n,
    ensures
        joined(chunks, k).len() <= joined(chunks, n).len(),
        joined(chunks, k) == joined(chunks, n).take(joined(chunks, k).len() as int),
    decreases n - k,
{
    if k < n {
        lemma_joined_grows(chunks, k, n - 1);
        assert(joined(chunks, k) =~= joined(chunks, n).take(joined(chunks, k).len() as int));
    } else {
        assert(joined(chunks, k) =~= joined(chunks, n).take(joined(chunks, k).len() as int));
    }
}

/// A prefix of a run occupies no more bytes than the run.
proof fn lemma_width_sum_take(items: Seq<(char, usize)>, n: int)
    requires
        0 <= n <= items.len(),
    ensures
        0 <= width_sum(items.take(n)) <= width_sum(items),
{
    assert(items =~= items.take(n) + items.skip(n));
    lemma_width_sum_concat(items.take(n), items.skip(n));
    lemma_advance_pos(Place { row: 0, col: 0, pos: 0, after_cr: false }, items.take(n));
    lemma_advance_pos(Place { row: 0, col: 0, pos: 0, after_cr: false }, items.skip(n));
}

/// Successful reads report spans that lie end to end: the first starts where
/// the cursor was, each covers exactly the bytes that its read consumed, and
/// each ends where the next one starts.
pub proof fn lemma_spans_lie_end_to_end(start: Place, chunks: Seq<Seq<(char, usize)>>, k: int)
    requires
        0 <= k < chunks.len(),
        forall|i: int| 0 <= i < chunks.len() ==> (#[trigger] chunks[i]).len() > 0,
        has_room(start, joined(chunks, chunks.len() as int)),
    ensures
        reported(start, chunks, k) matches Some(span) && {
            &&& span.pos == start.pos + width_sum(joined(chunks, k))
            &&& span.len == width_sum(chunks[k])
            &&& span.end() == start.pos + width_sum(joined(chunks, k + 1))
        },
        k == 0 ==> reported(start, chunks, k).unwrap().pos == start.pos,
        k + 1 < chunks.len() ==> reported(start, chunks, k + 1).unwrap().pos == reported(
            start,
            chunks,
            k,
        ).unwrap().end(),
{
    let all = joined(chunks, chunks.len() as int);
    lemma_joined_grows(chunks, k, chunks.len() as int);
    lemma_joined_grows(chunks, k + 1, chunks.len() as int);
    lemma_width_sum_take(all, joined(chunks, k).len() as int);
    lemma_width_sum_take(all, joined(chunks, k + 1).len() as int);
    lemma_width_sum_concat(joined(chunks, k), chunks[k]);
    lemma_advance_pos(start, joined(chunks, k));
    lemma_advance_pos(start, joined(chunks, k + 1));
    lemma_advance_pos(start, chunks[k]);
    if k + 1 < chunks.len() {
        lemma_joined_grows(chunks, k + 2, chunks.len() as int);
        lemma_width_sum_take(all, joined(chunks, k + 2).len() as int);
        lemma_width_sum_concat(joined(chunks, k + 1), chunks[k + 1]);
        lemma_advance_pos(start, chunks[k + 1]);
    }
}

/// The spans of the first `k` reads cover the bytes from the start to the
/// end of the last of them, with no gap and no overlap.
proof fn lemma_gathered_is_prefix(
    bytes: Seq<u8>,
    start: Place,
    chunks: Seq<Seq<(char, usize)>>,
    k: int,
)
    requires
        0 <= k <= chunks.len(),
        start.pos == 0,
        forall|i: int| 0 <= i < chunks.len() ==> (#[trigger] chunks[i]).len() > 0,
        has_room(start, joined(chunks, chunks.len() as int)),
        width_sum(joined(chunks, chunks.len() as int)) <= bytes.len(),
    ensures
        0 <= width_sum(joined(chunks, k)) <= bytes.len(),
        gathered(bytes, start, chunks, k) == bytes.subrange(0, width_sum(joined(chunks, k))),
    decreases k,
{
    let all = joined(chunks, chunks.len() as int);
    lemma_joined_grows(chunks, k, chunks.len() as int);
    lemma_width_sum_take(all, joined(chunks, k).len() as int);
    if k > 0 {
        lemma_gathered_is_prefix(bytes, start, chunks, k - 1);
        lemma_spans_lie_end_to_end(start, chunks, k - 1);
        assert(gathered(bytes, start, chunks, k) =~= bytes.subrange(
            0,
            width_sum(joined(chunks, k)),
        ));
    } else {
        assert(gathered(bytes, start, chunks, k) =~= bytes.subrange(
            0,
            width_sum(joined(chunks, k)),
        ));
    }
}

/// The encoding of two texts, one after the other, is the two encodings one
/// after the other.
proof fn lemma_encode_concat(a: Seq<char>, b: Seq<char>)
    ensures
        encode_utf8(a + b) == encode_utf8(a) + encode_utf8(b),
    decreases a.len(),
{
    if a.len() == 0 {
        assert(a + b =~= b);
        assert(encode_utf8(a) + encode_utf8(b) =~= encode_utf8(b));
    } else {
        lemma_encode_concat(a.drop_first(), b);
        assert((a + b).drop_first() =~= a.drop_first() + b);
        assert(encode_utf8(a + b) =~= encode_utf8(a) + encode_utf8(b));
    }
}

/// Round trip. Reads that start at the first byte of a text and consume a
/// prefix of it, each read some characters, report spans whose byte ranges,
/// put one after the other, are exactly the encoding of that prefix.
pub proof fn lemma_spans_give_back_input(
    text: Seq<char>,
    start: Place,
    chunks: Seq<Seq<(char, usize)>>,
    m: int,
)
    requires
        start.pos == 0,
        forall|i: int| 0 <= i < chunks.len() ==> (#[trigger] chunks[i]).len() > 0,
        0 <= m <= text.len(),
        joined(chunks, chunks.len() as int) == utf8_items(text.take(m)),
        has_room(start, joined(chunks, chunks.len() as int)),
    ensures
        gathered(encode_utf8(text), start, chunks, chunks.len() as int) == encode_utf8(
            text.take(m),
        ),
{
    let bytes = encode_utf8(text);
    let all = joined(chunks, chunks.len() as int);
    lemma_str_size(text.take(m));
    assert(text =~= text.take(m) + text.skip(m));
    lemma_encode_concat(text.take(m), text.skip(m));
    lemma_gathered_is_prefix(bytes, start, chunks, chunks.len() as int);
    assert(bytes.subrange(0, width_sum(all)) =~= encode_utf8(text.take(m)));
}

} // verus!
