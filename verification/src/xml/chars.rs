//! The character classes of the XML 1.0 grammar, as exact code point ranges.

use vstd::prelude::*;

verus! {

/// The `Char` production: TAB, LF, CR and every code point that is neither a
/// C0 control, a surrogate, `U+FFFE` nor `U+FFFF`.
pub open spec fn valid_code(n: int) -> bool {
    ||| n == 0x9
    ||| n == 0xA
    ||| n == 0xD
    ||| 0x20 <= n <= 0xD7FF
    ||| 0xE000 <= n <= 0xFFFD
    ||| 0x10000 <= n <= 0x10FFFF
}

/// The `S` production: space, TAB, CR, LF.
pub open spec fn whitespace_code(n: int) -> bool {
    n == 0x20 || n == 0x9 || n == 0xD || n == 0xA
}

/// The `NameStartChar` production.
pub open spec fn name_start_code(n: int) -> bool {
    ||| n == 0x3A
    ||| 0x41 <= n <= 0x5A
    ||| n == 0x5F
    ||| 0x61 <= n <= 0x7A
    ||| 0xC0 <= n <= 0xD6
    ||| 0xD8 <= n <= 0xF6
    ||| 0xF8 <= n <= 0x2FF
    ||| 0x370 <= n <= 0x37D
    ||| 0x37F <= n <= 0x1FFF
    ||| 0x200C <= n <= 0x200D
    ||| 0x2070 <= n <= 0x218F
    ||| 0x2C00 <= n <= 0x2FEF
    ||| 0x3001 <= n <= 0xD7FF
    ||| 0xF900 <= n <= 0xFDCF
    ||| 0xFDF0 <= n <= 0xFFFD
    ||| 0x10000 <= n <= 0xEFFFF
}

/// The `NameChar` production: a `NameStartChar`, or `-`, `.`, a decimal
/// digit, `U+00B7`, a combining mark or one of the two undertie characters.
pub open spec fn name_code(n: int) -> bool {
    ||| name_start_code(n)
    ||| n == 0x2D
    ||| n == 0x2E
    ||| 0x30 <= n <= 0x39
    ||| n == 0xB7
    ||| 0x300 <= n <= 0x36F
    ||| 0x203F <= n <= 0x2040
}

pub open spec fn spec_is_valid(c: char) -> bool {
    valid_code(c as int)
}

pub open spec fn spec_is_whitespace(c: char) -> bool {
    whitespace_code(c as int)
}

pub open spec fn spec_is_name_start(c: char) -> bool {
    name_start_code(c as int)
}

pub open spec fn spec_is_name(c: char) -> bool {
    name_code(c as int)
}

/// Whether `c` may appear in an XML document at all.
#[verifier::when_used_as_spec(spec_is_valid)]
pub fn is_valid(c: char) -> (r: bool)
    ensures
        r == valid_code(c as int),
{
    match c {
        '\u{0009}'
        | '\u{000A}'
        | '\u{000D}'
        | '\u{0020}'..='\u{D7FF}'
        | '\u{E000}'..='\u{FFFD}'
        | '\u{10000}'..='\u{10FFFF}' => true,
        _ => false,
    }
}

/// Whether `c` is XML white space.
#[verifier::when_used_as_spec(spec_is_whitespace)]
pub fn is_whitespace(c: char) -> (r: bool)
    ensures
        r == whitespace_code(c as int),
{
    matches!(c, '\x20' | '\x09' | '\x0D' | '\x0A')
}

/// Whether `c` may begin an XML name.
#[verifier::when_used_as_spec(spec_is_name_start)]
pub fn is_name_start(c: char) -> (r: bool)
    ensures
        r == name_start_code(c as int),
{
    match c {
        ':'
        | 'A'..='Z'
        | '_'
        | 'a'..='z'
        | '\u{C0}'..='\u{D6}'
        | '\u{D8}'..='\u{F6}'
        | '\u{F8}'..='\u{2FF}'
        | '\u{370}'..='\u{37D}'
        | '\u{37F}'..='\u{1FFF}'
        | '\u{200C}'..='\u{200D}'
        | '\u{2070}'..='\u{218F}'
        | '\u{2C00}'..='\u{2FEF}'
        | '\u{3001}'..='\u{D7FF}'
        | '\u{F900}'..='\u{FDCF}'
        | '\u{FDF0}'..='\u{FFFD}'
        | '\u{10000}'..='\u{EFFFF}' => true,
        _ => false,
    }
}

/// Whether `c` may continue an XML name.
#[verifier::when_used_as_spec(spec_is_name)]
pub fn is_name(c: char) -> (r: bool)
    ensures
        r == name_code(c as int),
{
    matches!(c, '-' | '.' | '0'..='9' | '\u{B7}' | '\u{0300}'..='\u{036F}' | '\u{203F}'..='\u{2040}')
        || is_name_start(c)
}

/// Every character that may start a name may also continue one, every name
/// character is a valid XML character, and so is white space. No white
/// space character can stand in a name.
pub proof fn lemma_class_inclusions(c: char)
    ensures
        is_name_start(c) ==> is_name(c),
        is_name(c) ==> is_valid(c),
        is_whitespace(c) ==> is_valid(c),
        is_whitespace(c) ==> !is_name(c),
{
}

} // verus!
