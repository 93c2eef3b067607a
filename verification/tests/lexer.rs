use zila::lexer::{Lexer, Span, Token, Word};

#[test]
fn tokenize_numbers() {
    let source = "1 2 34   90 3475 690173  9876543210  000001";
    let mut lexer = Lexer::new(source);

    assert_eq!(
        lexer.next(),
        Some(Word::new(Token::Integer(1), Span::new(0, 1)))
    );
    assert_eq!(
        lexer.next(),
        Some(Word::new(Token::Integer(2), Span::new(2, 3)))
    );
    assert_eq!(
        lexer.next(),
        Some(Word::new(Token::Integer(34), Span::new(4, 6)))
    );
    assert_eq!(
        lexer.next(),
        Some(Word::new(Token::Integer(90), Span::new(9, 11)))
    );
    assert_eq!(
        lexer.next(),
        Some(Word::new(Token::Integer(3475), Span::new(12, 16)))
    );
    assert_eq!(
        lexer.next(),
        Some(Word::new(Token::Integer(690173), Span::new(17, 23)))
    );
    assert_eq!(
        lexer.next(),
        Some(Word::new(Token::Integer(9876543210), Span::new(25, 35)))
    );
    assert_eq!(
        lexer.next(),
        Some(Word::new(Token::Integer(1), Span::new(37, 43)))
    );
}

#[test]
fn end_of_input() {
    let mut lexer = Lexer::new("7");
    assert_eq!(
        lexer.next(),
        Some(Word::new(Token::Integer(7), Span::new(0, 1)))
    );
    assert_eq!(lexer.next(), None);
    assert_eq!(lexer.next(), None);
    assert_eq!(Lexer::new("").next(), None);
    assert_eq!(Lexer::new(" \t\r\n\x0c ").next(), None);
    assert!(Lexer::new("  \n ").words().is_empty());
}

#[test]
fn tokenize_symbols() {
    let words = Lexer::new("dup [ + ] a1 1a -5 ?").words();
    let expected = vec![
        Word::new(Token::Symbol("dup"), Span::new(0, 3)),
        Word::new(Token::Symbol("["), Span::new(4, 5)),
        Word::new(Token::Symbol("+"), Span::new(6, 7)),
        Word::new(Token::Symbol("]"), Span::new(8, 9)),
        Word::new(Token::Symbol("a1"), Span::new(10, 12)),
        Word::new(Token::Symbol("1a"), Span::new(13, 15)),
        Word::new(Token::Symbol("-5"), Span::new(16, 18)),
        Word::new(Token::Symbol("?"), Span::new(19, 20)),
    ];
    assert_eq!(words, expected);
}

#[test]
fn tokenize_strings() {
    let source = r#""hi\n" puts "a b" "q\"x" "\\" end"#;
    let words = Lexer::new(source).words();
    let expected = vec![
        Word::new(Token::String(r#""hi\n""#), Span::new(0, 6)),
        Word::new(Token::Symbol("puts"), Span::new(7, 11)),
        Word::new(Token::String(r#""a b""#), Span::new(12, 17)),
        Word::new(Token::String(r#""q\"x""#), Span::new(18, 24)),
        Word::new(Token::String(r#""\\""#), Span::new(25, 29)),
        Word::new(Token::Symbol("end"), Span::new(30, 33)),
    ];
    assert_eq!(words, expected);
}

#[test]
fn string_without_end() {
    let words = Lexer::new("1 \"abc d").words();
    let expected = vec![
        Word::new(Token::Integer(1), Span::new(0, 1)),
        Word::new(Token::String("\"abc d"), Span::new(2, 8)),
    ];
    assert_eq!(words, expected);
    let words = Lexer::new("\"a\\\"").words();
    assert_eq!(
        words,
        vec![Word::new(Token::String("\"a\\\""), Span::new(0, 4))]
    );
    let words = Lexer::new("\"").words();
    assert_eq!(
        words,
        vec![Word::new(Token::String("\""), Span::new(0, 1))]
    );
}

#[test]
fn string_ends_at_its_quote() {
    let words = Lexer::new("\"ab\"cd").words();
    let expected = vec![
        Word::new(Token::String("\"ab\""), Span::new(0, 4)),
        Word::new(Token::Symbol("cd"), Span::new(4, 6)),
    ];
    assert_eq!(words, expected);
}

#[test]
fn quote_within_a_symbol() {
    let words = Lexer::new("a\"b c").words();
    let expected = vec![
        Word::new(Token::Symbol("a\"b"), Span::new(0, 3)),
        Word::new(Token::Symbol("c"), Span::new(4, 5)),
    ];
    assert_eq!(words, expected);
}

#[test]
fn number_limits() {
    let words = Lexer::new("9223372036854775807 9223372036854775808 99999999999999999999999").words();
    let expected = vec![
        Word::new(Token::Integer(i64::MAX), Span::new(0, 19)),
        Word::new(Token::Symbol("9223372036854775808"), Span::new(20, 39)),
        Word::new(Token::Symbol("99999999999999999999999"), Span::new(40, 63)),
    ];
    assert_eq!(words, expected);
    let words = Lexer::new("0009223372036854775807").words();
    assert_eq!(
        words,
        vec![Word::new(Token::Integer(i64::MAX), Span::new(0, 22))]
    );
}

#[test]
fn spans_count_bytes() {
    let source = "é 1 \"ü\" x";
    let words = Lexer::new(source).words();
    let expected = vec![
        Word::new(Token::Symbol("é"), Span::new(0, 2)),
        Word::new(Token::Integer(1), Span::new(3, 4)),
        Word::new(Token::String("\"ü\""), Span::new(5, 9)),
        Word::new(Token::Symbol("x"), Span::new(10, 11)),
    ];
    assert_eq!(words, expected);
    for word in &words {
        let (start, end) = word.span().parts();
        let text = &source[start..end];
        match word.token() {
            Token::Integer(value) => assert_eq!(text.parse::<i64>().unwrap(), value),
            Token::Symbol(symbol) => assert_eq!(text, symbol),
            Token::String(raw) => assert_eq!(text, raw),
        }
    }
}

#[test]
fn every_span_holds_its_word() {
    let source = "  12 dup\t\"a\\\" b\" [ swap ]\n\"open";
    let words = Lexer::new(source).words();
    assert_eq!(words.len(), 7);
    let mut before = 0;
    for word in &words {
        let (start, end) = word.span().parts();
        assert!(before <= start && start < end && end <= source.len());
        before = end;
    }
}

#[test]
fn white_space_is_ascii() {
    let words = Lexer::new("a\u{a0}b\u{b}c d").words();
    let expected = vec![
        Word::new(Token::Symbol("a\u{a0}b\u{b}c"), Span::new(0, 6)),
        Word::new(Token::Symbol("d"), Span::new(7, 8)),
    ];
    assert_eq!(words, expected);
}

#[test]
fn word_parts() {
    let word = Word::new(Token::Symbol("dup"), Span::new(3, 6));
    assert_eq!(word.word(), "dup");
    assert_eq!(word.span().parts(), (3, 6));
    assert!(matches!(word.token(), Token::Symbol("dup")));
    assert_ne!(word, Word::new(Token::Symbol("dup"), Span::new(3, 7)));
    assert_ne!(word, Word::new(Token::String("dup"), Span::new(3, 6)));
    assert_eq!(
        Word::new(Token::String("\"a\""), Span::new(0, 3)),
        Word::new(Token::String("\"a\""), Span::new(0, 3))
    );
}
