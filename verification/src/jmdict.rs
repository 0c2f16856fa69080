//! Finding the entries of a JMdict dictionary in the lines of its file.

use vstd::prelude::*;
use vstd::std_specs::iter::IteratorSpec;
use vstd::string::group_string_axioms;

verus! {

/// `regex::Regex`, a compiled pattern. Nothing inside it is visible here.
#[verifier::external_type_specification]
#[verifier::external_body]
pub struct ExRegex(regex::Regex);

/// `regex::Error`, the reason why a pattern was not compiled. Nothing inside
/// it is visible here.
#[verifier::external_type_specification]
#[verifier::external_body]
pub struct ExRegexError(regex::Error);

/// One entry of the dictionary.
#[derive(Clone, Copy, Debug, PartialEq, Eq, Structural)]
pub struct Entry {
    /// The sequence number that identifies the entry.
    pub seq: u64,
}

/// Whether `c` is one of the digits `0` to `9`.
pub open spec fn is_ascii_digit(c: char) -> bool {
    '0' <= c <= '9'
}

/// Whether `digits` holds nothing but the digits `0` to `9`.
pub open spec fn all_ascii_digits(digits: Seq<char>) -> bool {
    forall|i: int| 0 <= i < digits.len() ==> is_ascii_digit(#[trigger] digits[i])
}

/// The number that `digits` spell in base ten.
pub open spec fn decimal(digits: Seq<char>) -> nat
    decreases digits.len(),
{
    if digits.len() == 0 {
        0
    } else {
        decimal(digits.drop_last()) * 10 + (digits.last() as nat - '0' as nat) as nat
    }
}

/// The text without the plus sign that may stand in front of a number.
pub open spec fn unsigned_part(text: Seq<char>) -> Seq<char> {
    if text.len() > 0 && text[0] == '+' {
        text.skip(1)
    } else {
        text
    }
}

/// The number that `text` denotes: an optional plus sign and then one or
/// more digits `0` to `9`, spelling a number that fits in 64 bits. Any other
/// text denotes no number.
pub open spec fn parsed_u64(text: Seq<char>) -> Option<u64> {
    let digits = unsigned_part(text);
    if digits.len() > 0 && all_ascii_digits(digits) && decimal(digits) <= u64::MAX {
        Some(decimal(digits) as u64)
    } else {
        None
    }
}

/// More digits spell a number that is no smaller.
proof fn lemma_decimal_grows(digits: Seq<char>, k: int)
    requires
        0 <= k <= digits.len(),
        all_ascii_digits(digits),
    ensures
        decimal(digits.take(k)) <= decimal(digits),
    decreases digits.len() - k,
{
    if k < digits.len() {
        lemma_decimal_grows(digits, k + 1);
        assert(digits.take(k + 1).drop_last() =~= digits.take(k));
    } else {
        assert(digits.take(k) =~= digits);
    }
}

/// Reads an unsigned number in base ten, as `str::parse::<u64>` does.
pub fn parse_u64(text: &str) -> (r: Option<u64>)
    ensures
        r == parsed_u64(text@),
{
    broadcast use group_string_axioms;

    let ghost digits = unsigned_part(text@);
    let mut chars = text.chars();
    let mut current = chars.next();
    if let Some('+') = current {
        current = chars.next();
    }
    if current.is_none() {
        return None;
    }
    let ghost mut k: int = 0;
    let mut value: u64 = 0;
    proof {
        assert(digits.take(0) =~= Seq::empty());
    }
    loop
        invariant
            0 <= k <= digits.len(),
            digits == unsigned_part(text@),
            digits.len() > 0,
            current == if k < digits.len() {
                Some(digits[k])
            } else {
                None
            },
            k < digits.len() ==> chars.remaining() == digits.skip(k + 1),
            all_ascii_digits(digits.take(k)),
            value == decimal(digits.take(k)),
            chars.obeys_prophetic_iter_laws(),
        ensures
            k == digits.len(),
        decreases digits.len() - k,
    {
        match current {
            None => {
                break ;
            },
            Some(c) => {
                proof {
                    assert(digits.take(k + 1).drop_last() =~= digits.take(k));
                }
                if !(c >= '0' && c <= '9') {
                    assert(!is_ascii_digit(digits[k]));
                    return None;
                }
                let digit: u64 = (c as u32 - '0' as u32) as u64;
                let next_value = match value.checked_mul(10) {
                    Some(tens) => tens.checked_add(digit),
                    None => None,
                };
                match next_value {
                    Some(v) => {
                        value = v;
                    },
                    None => {
                        proof {
                            if all_ascii_digits(digits) {
                                lemma_decimal_grows(digits, k + 1);
                            }
                        }
                        return None;
                    },
                }
                current = chars.next();
                proof {
                    k = k + 1;
                    if k < digits.len() {
                        assert(digits.skip(k).drop_first() =~= digits.skip(k + 1));
                    }
                }
            },
        }
    }
    proof {
        assert(digits.take(k) =~= digits);
    }
    Some(value)
}

/// What a line of the dictionary file holds.
#[derive(Clone, Copy, Debug, PartialEq, Eq, Structural)]
pub enum LineScan {
    /// The line does not open an entry.
    NoEntry,
    /// The line opens this entry.
    Entry(Entry),
    /// The line opens an entry, but what stands for its sequence number is
    /// not a number of 64 bits.
    Malformed,
}

/// The pattern of the element that holds an entry's sequence number. Its
/// one group is the number.
pub const SEQUENCE_PATTERN: &'static str = r"<ent_seq>(\d+)";

/// Whether `regex::Regex::new` accepts `pattern`.
pub uninterp spec fn regex_compiles(pattern: Seq<char>) -> bool;

/// What `regex::Regex::captures` finds for group `index` of `pattern` in
/// `haystack`: the text that the group matched in the leftmost match of the
/// pattern, or `None` where the pattern does not match or the group takes no
/// part in the match.
pub uninterp spec fn regex_group(
    pattern: Seq<char>,
    haystack: Seq<char>,
    index: nat,
) -> Option<Seq<char>>;

/// Whether `part` is a contiguous piece of `whole`.
pub open spec fn is_part_of(part: Seq<char>, whole: Seq<char>) -> bool {
    exists|i: int, j: int| 0 <= i <= j <= whole.len() && part == #[trigger] whole.subrange(i, j)
}

/// What a line holds, given the text that stands for a sequence number in
/// it, if any does.
pub open spec fn scan_of(number: Option<Seq<char>>) -> LineScan {
    match number {
        None => LineScan::NoEntry,
        Some(text) => match parsed_u64(text) {
            Some(seq) => LineScan::Entry(Entry { seq }),
            None => LineScan::Malformed,
        },
    }
}

/// Finds the entries in the lines of a dictionary file.
///
/// A finder holds [`SEQUENCE_PATTERN`] in compiled form. Its only source is
/// [`EntryFinder::new`].
pub struct EntryFinder {
    pattern: regex::Regex,
}

/// `regex::Regex::new`: compiles `pattern` with the default options, or
/// reports why it cannot. Whether it succeeds is named
/// [`regex_compiles`]; nothing else is claimed.
#[verifier::external_body]
fn compile(pattern: &str) -> (r: Result<regex::Regex, regex::Error>)
    ensures
        r is Ok <==> regex_compiles(pattern@),
{
    regex::Regex::new(pattern)
}

/// `regex::Regex::captures` on the pattern of `finder`, with `Captures::get`
/// and `Match::as_str` to take the text of group `index` out of the match.
/// The result is named [`regex_group`], for the pattern that every finder
/// holds. A match is a slice of the haystack, so the text is a piece of it.
#[verifier::external_body]
fn captured<'h>(finder: &EntryFinder, haystack: &'h str, index: usize) -> (r: Option<&'h str>)
    ensures
        regex_group(SEQUENCE_PATTERN@, haystack@, index as nat) == match r {
            Some(part) => Some(part@),
            None => None,
        },
        r matches Some(part) ==> is_part_of(part@, haystack@),
{
    match finder.pattern.captures(haystack) {
        Some(found) => match found.get(index) {
            Some(group) => Some(group.as_str()),
            None => None,
        },
        None => None,
    }
}

/// Says what a line holds, given the text that stands for a sequence number
/// in it, if any does.
pub fn scan_number(number: Option<&str>) -> (r: LineScan)
    ensures
        r == scan_of(
            match number {
                Some(text) => Some(text@),
                None => None,
            },
        ),
{
    match number {
        None => LineScan::NoEntry,
        Some(text) => match parse_u64(text) {
            Some(seq) => LineScan::Entry(Entry { seq }),
            None => LineScan::Malformed,
        },
    }
}

impl EntryFinder {
    /// A finder, or `None` if [`SEQUENCE_PATTERN`] cannot be compiled.
    pub fn new() -> (r: Option<EntryFinder>)
        ensures
            r is Some <==> regex_compiles(SEQUENCE_PATTERN@),
    {
        match compile(SEQUENCE_PATTERN) {
            Ok(pattern) => Some(EntryFinder { pattern }),
            Err(_) => None,
        }
    }

    /// Says what `line` holds: the entry whose sequence number is the first
    /// group of [`SEQUENCE_PATTERN`] in the line, if the pattern matches.
    pub fn scan(&self, line: &str) -> (r: LineScan)
        ensures
            r == scan_of(regex_group(SEQUENCE_PATTERN@, line@, 1)),
            regex_group(SEQUENCE_PATTERN@, line@, 1) matches Some(number) ==> is_part_of(
                number,
                line@,
            ),
    {
        scan_number(captured(self, line, 1))
    }
}

} // verus!
