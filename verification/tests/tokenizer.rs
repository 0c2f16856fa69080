use import_data::xml::span::Span;
use import_data::xml::tokenizer::Tokenizer;

/// Used as the starting point for the tokenizer to test that tokens
/// return a proper position.
const BASE_SPAN: Span = Span {
    len: 0,
    pos: 10,
    row: 20,
    col: 30,
};

const INVALID: [&str; 17] = [
    "\u{0000}",
    "\u{0001}",
    "\u{0002}",
    "\u{0003}",
    "\u{0004}",
    "\u{0005}",
    "\u{0006}",
    "\u{0007}",
    "\u{0008}",
    "\u{000B}",
    "\u{000C}",
    "\u{000E}",
    "\u{000F}",
    "\u{001A}",
    "\u{001F}",
    "\u{FFFE}",
    "\u{FFFF}",
];

const ABC_THEN_INVALID: [&str; 17] = [
    "abc\u{0000}",
    "abc\u{0001}",
    "abc\u{0002}",
    "abc\u{0003}",
    "abc\u{0004}",
    "abc\u{0005}",
    "abc\u{0006}",
    "abc\u{0007}",
    "abc\u{0008}",
    "abc\u{000B}",
    "abc\u{000C}",
    "abc\u{000E}",
    "abc\u{000F}",
    "abc\u{001A}",
    "abc\u{001F}",
    "abc\u{FFFE}",
    "abc\u{FFFF}",
];

/// Uses a callback to tokenize the given input.
fn tokenize<F>(input: &str, suffix: &str, callback: F) -> (Option<Span>, Option<char>, Span)
where
    F: FnOnce(&mut Tokenizer<&str>) -> Option<Span>,
{
    let guarded_input = format!("{}{}", input, suffix);
    let mut tokenizer = Tokenizer::new(guarded_input.as_str());
    tokenizer.set_span(BASE_SPAN);
    let output = callback(&mut tokenizer);
    let next = tokenizer.peek_char();
    (output, next, tokenizer.span())
}

fn get_next_span(span: Span, input: &str) -> Span {
    let mut cursor = span.cursor();
    for chr in input.chars() {
        cursor.advance(chr, 0);
    }
    cursor.span.pos += input.len();
    Span {
        len: 0,
        ..cursor.span
    }
}

/// Check that the tokenizer reads the given input completely using
/// the provided callback.
fn check_read_full<F>(input: &str, callback: F, header: &str)
where
    F: FnOnce(&mut Tokenizer<&str>) -> Option<Span>,
{
    let expected = Span {
        len: input.len(),
        ..BASE_SPAN
    };
    let expected_next_char = Some('\u{0000}');
    let expected_next_span = get_next_span(expected, input);

    let (output, next_char, next_span) = tokenize(input, "\u{0000}", callback);

    assert!(output.is_some(), "{}({:?}): failed to parse", header, input);

    let actual = output.unwrap();

    assert!(
        actual.len == expected.len,
        "{}({:?}): did not parse expected input (parsed {}, expected {})",
        header,
        input,
        actual.len,
        expected.len,
    );

    assert!(
        actual == expected,
        "{}({:?}): output `{:?}`, expected `{:?}`",
        header,
        input,
        actual,
        expected,
    );

    assert!(
        next_char == expected_next_char,
        "{}({:?}): unexpected character after parse: {:?}",
        header,
        input,
        next_char,
    );

    assert!(
        next_span == expected_next_span,
        "{}({:?}): unexpected position after parse: it was {:?}, expected {:?}",
        header,
        input,
        next_span,
        expected_next_span,
    );
}

/// Checks that the tokenizer does not read the given input using the
/// provided callback.
fn check_read_fail<F>(input: &str, callback: F, header: &str)
where
    F: FnOnce(&mut Tokenizer<&str>) -> Option<Span>,
{
    let expected_next_char = input.chars().next();
    let expected_next_span = BASE_SPAN;

    let (output, next_char, next_span) = tokenize(input, "", callback);
    assert!(
        output.is_none(),
        "{}(!{:?}): should not parse, instead parsed {:?}",
        header,
        input,
        output,
    );

    assert!(
        next_char == expected_next_char,
        "{}(!{:?}): unexpected character after parse: {:?}",
        header,
        input,
        next_char,
    );

    assert!(
        next_span == expected_next_span,
        "{}(!{:?}): moved position after failed parse: {:?}",
        header,
        input,
        next_span,
    );
}

/// Check that the tokenizer partially matches input using the given
/// callback.
fn check_read_partial<F>(text: &str, input: &str, callback: F, header: &str)
where
    F: FnOnce(&mut Tokenizer<&str>) -> Option<Span>,
{
    let expected = Span {
        len: text.len(),
        ..BASE_SPAN
    };
    let expected_next_char = input[text.len()..].chars().next();
    let expected_next_span = get_next_span(expected, text);

    let (output, next_char, next_span) = tokenize(input, "\u{0000}", callback);

    assert!(
        output.is_some(),
        "{}({:?} in {:?}): failed to parse",
        header,
        text,
        input
    );
    let actual = output.unwrap();

    assert!(
        actual.len == expected.len,
        "{}({:?} in {:?}): did not parse expected input (parsed {}, expected {})",
        header,
        text,
        input,
        actual.len,
        expected.len,
    );

    assert!(
        actual == expected,
        "{}({:?} in {:?}): output `{:?}`, expected `{:?}`",
        header,
        text,
        input,
        actual,
        expected,
    );

    assert!(
        next_char == expected_next_char,
        "{}({:?} in {:?}): unexpected {:?} character after parse, expected {:?}",
        header,
        text,
        input,
        next_char,
        expected_next_char,
    );

    assert!(
        next_span == expected_next_span,
        "{}({:?} in {:?}): unexpected position after parse: it was {:?}, expected {:?}",
        header,
        text,
        input,
        next_span,
        expected_next_span,
    );
}

#[test]
fn creates_from_str() {
    let mut tokenizer = Tokenizer::new("abc");
    assert_eq!(tokenizer.peek_char(), Some('a'));
    assert_eq!(tokenizer.span(), Span::default());
}

#[test]
fn set_span_updates_position() {
    let mut tokenizer = Tokenizer::new("");
    tokenizer.set_span(Span {
        pos: 99,
        ..Span::default()
    });
    assert_eq!(tokenizer.span().pos, 99);
}

#[test]
fn does_not_read_invalid() {
    let header = "<< |t: Tokenizer| t.read_if(|_| true) >>";
    for input in INVALID {
        check_read_fail(input, |t| t.read_if(|_| true), header);
    }
    for input in ABC_THEN_INVALID {
        check_read_partial("abc", input, |t| t.read_if(|_| true), header);
    }

    let header = "<< |t: Tokenizer| t.read_if_while(|_| true, |_| true) >>";
    for input in INVALID {
        check_read_fail(input, |t| t.read_if_while(|_| true, |_| true), header);
    }
    for input in ABC_THEN_INVALID {
        check_read_partial(
            "abc",
            input,
            |t| t.read_if_while(|_| true, |_| true),
            header,
        );
    }
}

#[test]
fn reads_name() {
    let header = "Tokenizer::read_name";
    for input in [
        "a",
        "abc",
        "abc123",
        "abc-123",
        "abc_123",
        "abc.123",
        "abc·123",
        "abc:123",
        "言葉",
    ] {
        check_read_full(input, |t| t.read_name(), header);
    }
    for input in ["", " ", "123"] {
        check_read_fail(input, |t| t.read_name(), header);
    }
    check_read_partial("abc", "abc\u{037E}123", |t| t.read_name(), header);
}

#[test]
fn reads_literal_value() {
    let header = "Tokenizer::read_literal_value_chunk";

    // basic values
    for input in ["abc", "abc 123", "1\n2\r3\r\n4", "---"] {
        check_read_full(input, |t| t.read_literal_value_chunk(), header);
    }

    // end of input
    check_read_fail("", |t| t.read_literal_value_chunk(), header);

    // the `<`, `'`, `"` are allowed in some contexts, but must be
    // parsed separately
    for input in ["<", "'", "\""] {
        check_read_fail(input, |t| t.read_literal_value_chunk(), header);
    }
    for input in ["abc<", "abc'", "abc\""] {
        check_read_partial("abc", input, |t| t.read_literal_value_chunk(), header);
    }

    // similarly as above for `%` and `&` entity references
    for input in ["%", "&"] {
        check_read_fail(input, |t| t.read_literal_value_chunk(), header);
    }
    for input in ["abc<", "abc&"] {
        check_read_partial("abc", input, |t| t.read_literal_value_chunk(), header);
    }

    // a stray `;` should be parsed normally
    check_read_full("abc;def", |t| t.read_literal_value_chunk(), header);

    // extra symbols that should be accepted
    check_read_full(
        "-()+,./:=?;!*#@$_\\",
        |t| t.read_literal_value_chunk(),
        header,
    );
}
