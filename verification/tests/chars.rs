use import_data::xml::chars::{is_name, is_name_start, is_valid, is_whitespace};

fn check_char<F: Fn(char) -> bool>(chr: char, check: F, name: &'static str) {
    assert!(
        check(chr),
        "checking `{}` (U+{:04X}) {}",
        chr,
        chr as u32,
        name
    );
}

fn check_range<F: Fn(char) -> bool>(a: char, b: char, check: F, name: &'static str) {
    for chr in a..=b {
        check_char(chr, &check, name);
    }
}

fn check_name_start<F: Fn(char) -> bool>(check: F, name: &'static str) {
    check_char(':', &check, name);
    check_char('_', &check, name);
    check_range('A', 'Z', &check, name);
    check_range('a', 'z', &check, name);
    check_range('\u{C0}', '\u{D6}', &check, name);
    check_range('\u{D8}', '\u{F6}', &check, name);
    check_range('\u{F8}', '\u{2FF}', &check, name);
    check_range('\u{370}', '\u{37D}', &check, name);
    check_range('\u{37F}', '\u{1FFF}', &check, name);
    check_range('\u{200C}', '\u{200D}', &check, name);
    check_range('\u{2070}', '\u{218F}', &check, name);
    check_range('\u{2C00}', '\u{2FEF}', &check, name);
    check_range('\u{3001}', '\u{D7FF}', &check, name);
    check_range('\u{F900}', '\u{FDCF}', &check, name);
    check_range('\u{FDF0}', '\u{FFFD}', &check, name);
    check_range('\u{10000}', '\u{10100}', &check, name);
    check_range('\u{EFF00}', '\u{EFFFF}', &check, name);
}

#[test]
fn valid() {
    check_range(' ', '\u{00FF}', is_valid, "is valid");
    check_char('\t', is_valid, "is valid");
    check_char('\r', is_valid, "is valid");
    check_char('\n', is_valid, "is valid");
    check_char('\u{D7FF}', is_valid, "is valid");
    check_char('\u{E000}', is_valid, "is valid");
    check_char('\u{FFFD}', is_valid, "is valid");
    check_char('\u{10000}', is_valid, "is valid");
    check_char('\u{10FFFF}', is_valid, "is valid");

    let invalid = |c: char| !is_valid(c);

    check_char('\u{000B}', invalid, "is not valid");
    check_char('\u{000C}', invalid, "is not valid");
    check_char('\u{000E}', invalid, "is not valid");
    check_char('\u{000F}', invalid, "is not valid");

    check_char('\u{FFFE}', invalid, "is not valid");
    check_char('\u{FFFF}', invalid, "is not valid");

    check_range('\u{0000}', '\u{0008}', invalid, "is not valid");
    check_range('\u{0010}', '\u{001F}', invalid, "is not valid");
}

#[test]
fn whitespace() {
    check_char(' ', is_whitespace, "is whitespace");
    check_char('\t', is_whitespace, "is whitespace");
    check_char('\r', is_whitespace, "is whitespace");
    check_char('\n', is_whitespace, "is whitespace");
    check_range('a', 'z', |c| !is_whitespace(c), "is not whitespace");
}

#[test]
fn name_start() {
    check_name_start(is_name_start, "is name start");
    check_char(' ', |c| !is_name_start(c), "is not name start");
}

#[test]
fn name() {
    check_char('-', is_name, "is name");
    check_char('-', is_name, "is name");
    check_char('·', is_name, "is name");
    check_range('0', '9', is_name, "is name");
    check_range('\u{0300}', '\u{036F}', is_name, "is name");
    check_range('\u{203F}', '\u{2040}', is_name, "is name");
    check_name_start(is_name, "is name");
    check_char(' ', |c| !is_name(c), "is not name");
}

/// The reference ranges of the four character classes, written out once more
/// as closed intervals of code points.
const VALID: &[(u32, u32)] = &[
    (0x9, 0xA),
    (0xD, 0xD),
    (0x20, 0xD7FF),
    (0xE000, 0xFFFD),
    (0x10000, 0x10FFFF),
];

const NAME_START: &[(u32, u32)] = &[
    (0x3A, 0x3A),
    (0x41, 0x5A),
    (0x5F, 0x5F),
    (0x61, 0x7A),
    (0xC0, 0xD6),
    (0xD8, 0xF6),
    (0xF8, 0x2FF),
    (0x370, 0x37D),
    (0x37F, 0x1FFF),
    (0x200C, 0x200D),
    (0x2070, 0x218F),
    (0x2C00, 0x2FEF),
    (0x3001, 0xD7FF),
    (0xF900, 0xFDCF),
    (0xFDF0, 0xFFFD),
    (0x10000, 0xEFFFF),
];

const NAME_ONLY: &[(u32, u32)] = &[
    (0x2D, 0x2E),
    (0x30, 0x39),
    (0xB7, 0xB7),
    (0x300, 0x36F),
    (0x203F, 0x2040),
];

fn within(ranges: &[(u32, u32)], n: u32) -> bool {
    ranges.iter().any(|&(lo, hi)| lo <= n && n <= hi)
}

#[test]
fn classes_match_their_ranges_on_every_char() {
    for c in '\u{0}'..=char::MAX {
        let n = c as u32;
        assert_eq!(is_valid(c), within(VALID, n), "valid U+{:04X}", n);
        assert_eq!(
            is_whitespace(c),
            n == 0x20 || n == 0x9 || n == 0xD || n == 0xA,
            "whitespace U+{:04X}",
            n
        );
        assert_eq!(is_name_start(c), within(NAME_START, n), "name start U+{:04X}", n);
        assert_eq!(
            is_name(c),
            within(NAME_START, n) || within(NAME_ONLY, n),
            "name U+{:04X}",
            n
        );
    }
}

#[test]
fn class_boundaries() {
    assert!(!is_valid('\u{1F}'));
    assert!(is_valid('\u{20}'));
    assert!(is_valid('\u{FFFD}'));
    assert!(!is_valid('\u{FFFE}'));
    assert!(!is_name_start('\u{D7}'));
    assert!(!is_name_start('\u{F7}'));
    assert!(!is_name_start('\u{37E}'));
    assert!(!is_name_start('\u{3000}'));
    assert!(is_name_start('\u{3001}'));
    assert!(is_name_start('\u{EFFFF}'));
    assert!(!is_name_start('\u{F0000}'));
    assert!(!is_name_start('-'));
    assert!(!is_name_start('0'));
    assert!(is_name('\u{B7}'));
    assert!(!is_name('\u{B6}'));
    assert!(is_name_start('\u{2FF}'));
    assert!(!is_name_start('\u{300}'));
    assert!(is_name('\u{300}'));
    assert!(!is_name('\u{2041}'));
    assert!(!is_name('/'));
}

#[test]
fn classes_are_nested() {
    for c in '\u{0}'..=char::MAX {
        if is_name_start(c) {
            assert!(is_name(c));
        }
        if is_name(c) {
            assert!(is_valid(c));
            assert!(!is_whitespace(c));
        }
        if is_whitespace(c) {
            assert!(is_valid(c));
        }
    }
}
