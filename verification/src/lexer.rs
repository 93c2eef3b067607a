//! The words of a source text: numbers, string literals and symbols, each with
//! the range of bytes that it stands in.

use vstd::prelude::*;
use vstd::std_specs::cmp::PartialEqSpecImpl;
use vstd::string::*;
use vstd::utf8::*;
use crate::text::str_eq;

verus! {

/// A half-open range of byte offsets into the source text.
#[derive(Debug, Clone, Copy, PartialEq, Eq, Structural)]
pub struct Span {
    pub start: usize,
    pub end: usize,
}

impl Span {
    pub fn new(start: usize, end: usize) -> (s: Span)
        ensures
            s.start == start,
            s.end == end,
    {
        Span { start, end }
    }

    pub fn parts(&self) -> (p: (usize, usize))
        ensures
            p.0 == self.start,
            p.1 == self.end,
    {
        (self.start, self.end)
    }
}

/// What a word is: a number, a string literal with its quotes, or any other run
/// of characters.
#[derive(Debug, Clone, Copy)]
pub enum Token<'src> {
    Integer(i64),
    Symbol(&'src str),
    String(&'src str),
}

/// A lexical unit of the source with the place where it stands.
#[derive(Debug, Clone, Copy)]
pub struct Word<'src> {
    pub token: Token<'src>,
    pub span: Span,
}

impl<'src> Word<'src> {
    pub fn new(token: Token<'src>, span: Span) -> (word: Self)
        ensures
            word.token == token,
            word.span == span,
    {
        Self { token, span }
    }

    pub fn token(&self) -> (token: Token<'src>)
        ensures
            token == self.token,
    {
        self.token
    }

    pub fn span(&self) -> (span: Span)
        ensures
            span == self.span,
    {
        self.span
    }

    /// The text of a symbol.
    pub fn word(&self) -> (text: &'src str)
        requires
            self.token is Symbol,
        ensures
            self.token == Token::Symbol(text),
    {
        match self.token {
            Token::Symbol(text) => text,
            _ => "",
        }
    }
}


/// ASCII white space: space, tab, line feed, form feed, carriage return.
pub open spec fn is_space(byte: u8) -> bool {
    byte == 32 || byte == 9 || byte == 10 || byte == 12 || byte == 13
}

pub open spec fn is_digit(byte: u8) -> bool {
    48 <= byte <= 57
}

/// The first position from `i` on that holds no white space, or the end.
pub open spec fn skip_spaces(bytes: Seq<u8>, i: int) -> int
    decreases bytes.len() - i,
{
    if 0 <= i < bytes.len() && is_space(bytes[i]) {
        skip_spaces(bytes, i + 1)
    } else {
        i
    }
}

/// The first position from `i` on that holds white space, or the end.
pub open spec fn symbol_end(bytes: Seq<u8>, i: int) -> int
    decreases bytes.len() - i,
{
    if 0 <= i < bytes.len() && !is_space(bytes[i]) {
        symbol_end(bytes, i + 1)
    } else {
        i
    }
}

/// The position behind the quote that closes a string literal whose inside is
/// read from `i` on, or the end where no quote closes it. `pending` says that
/// the byte before `i` was a backslash that escapes the byte at `i`.
pub open spec fn string_end(bytes: Seq<u8>, i: int, pending: bool) -> int
    decreases bytes.len() - i,
{
    if 0 <= i < bytes.len() {
        if pending {
            string_end(bytes, i + 1, false)
        } else if bytes[i] == 92 {
            string_end(bytes, i + 1, true)
        } else if bytes[i] == 34 {
            i + 1
        } else {
            string_end(bytes, i + 1, false)
        }
    } else {
        i
    }
}

/// Whether `bytes` holds digits only from `start` up to `end`.
pub open spec fn all_digits(bytes: Seq<u8>, start: int, end: int) -> bool {
    forall|k: int| start <= k < end ==> is_digit(#[trigger] bytes[k])
}

/// The number that the digits from `start` up to `end` write in base ten.
pub open spec fn decimal_value(bytes: Seq<u8>, start: int, end: int) -> nat
    decreases end - start,
{
    if start >= end {
        0
    } else {
        decimal_value(bytes, start, end - 1) * 10 + (bytes[end - 1] - 48) as nat
    }
}

/// The kind of a word, with the value of a number.
pub enum Lexeme {
    Integer(i64),
    Symbol,
    String,
}

/// The word that begins at the first position from `from` on that holds no white
/// space: its first position, the position behind it, and its kind. A word that
/// begins with a quote is a string literal. A run of digits whose value fits a
/// signed 64-bit integer is a number. Everything else is a symbol.
pub open spec fn next_word(bytes: Seq<u8>, from: int) -> Option<(int, int, Lexeme)> {
    let start = skip_spaces(bytes, from);
    if !(0 <= start < bytes.len()) {
        None
    } else if bytes[start] == 34 {
        Some((start, string_end(bytes, start + 1, false), Lexeme::String))
    } else {
        let end = symbol_end(bytes, start);
        if all_digits(bytes, start, end) && decimal_value(bytes, start, end) <= i64::MAX {
            Some((start, end, Lexeme::Integer(decimal_value(bytes, start, end) as i64)))
        } else {
            Some((start, end, Lexeme::Symbol))
        }
    }
}

/// Whether `word` is the word of kind `lexeme` that `source` holds from `start`
/// up to `end`: the span is this range, and a symbol and a string literal hold
/// exactly the text in it.
pub open spec fn word_matches(word: Word, source: &str, start: int, end: int, lexeme: Lexeme) -> bool {
    &&& word.span.start == start
    &&& word.span.end == end
    &&& match lexeme {
        Lexeme::Integer(value) => word.token == Token::Integer(value),
        Lexeme::Symbol => word.token is Symbol && word.token->Symbol_0.spec_bytes()
            == source.spec_bytes().subrange(start, end),
        Lexeme::String => word.token is String && word.token->String_0.spec_bytes()
            == source.spec_bytes().subrange(start, end),
    }
}

/// A word never is empty and lies within the text, behind the position the
/// search began at.
pub proof fn lemma_next_word_bounds(bytes: Seq<u8>, from: int)
    requires
        0 <= from <= bytes.len(),
    ensures
        next_word(bytes, from) is Some ==> {
            let (start, end, _) = next_word(bytes, from)->Some_0;
            from <= start < end <= bytes.len()
        },
{
    lemma_skip_spaces_bounds(bytes, from);
    let start = skip_spaces(bytes, from);
    if 0 <= start < bytes.len() {
        lemma_symbol_end_bounds(bytes, start);
        lemma_string_end_bounds(bytes, start + 1, false);
    }
}

proof fn lemma_skip_spaces_bounds(bytes: Seq<u8>, i: int)
    requires
        0 <= i <= bytes.len(),
    ensures
        i <= skip_spaces(bytes, i) <= bytes.len(),
        skip_spaces(bytes, i) < bytes.len() ==> !is_space(bytes[skip_spaces(bytes, i)]),
    decreases bytes.len() - i,
{
    if i < bytes.len() && is_space(bytes[i]) {
        lemma_skip_spaces_bounds(bytes, i + 1);
    }
}

proof fn lemma_symbol_end_bounds(bytes: Seq<u8>, i: int)
    requires
        0 <= i <= bytes.len(),
    ensures
        i <= symbol_end(bytes, i) <= bytes.len(),
        i < bytes.len() && !is_space(bytes[i]) ==> i < symbol_end(bytes, i),
    decreases bytes.len() - i,
{
    if i < bytes.len() && !is_space(bytes[i]) {
        lemma_symbol_end_bounds(bytes, i + 1);
    }
}

proof fn lemma_string_end_bounds(bytes: Seq<u8>, i: int, pending: bool)
    requires
        0 <= i <= bytes.len(),
    ensures
        i <= string_end(bytes, i, pending) <= bytes.len(),
    decreases bytes.len() - i,
{
    if i < bytes.len() {
        lemma_string_end_bounds(bytes, i + 1, false);
        lemma_string_end_bounds(bytes, i + 1, true);
    }
}

/// All the words of `bytes` from `from` on, in order: for each its first
/// position, the position behind it, and its kind.
pub open spec fn words_from(bytes: Seq<u8>, from: int) -> Seq<(int, int, Lexeme)>
    decreases bytes.len() - from,
    when 0 <= from <= bytes.len()
    via words_from_decreases
{
    match next_word(bytes, from) {
        None => Seq::empty(),
        Some(word) => seq![word] + words_from(bytes, word.1),
    }
}

#[via_fn]
proof fn words_from_decreases(bytes: Seq<u8>, from: int) {
    lemma_next_word_bounds(bytes, from);
}

/// Whether `words` are the words that `found` describes, one for one.
pub open spec fn words_match(words: Seq<Word>, source: &str, found: Seq<(int, int, Lexeme)>) -> bool {
    &&& words.len() == found.len()
    &&& forall|i: int|
        0 <= i < words.len() ==> word_matches(
            #[trigger] words[i],
            source,
            found[i].0,
            found[i].1,
            found[i].2,
        )
}

/// Every word lies within the text, is not empty, and begins behind the word
/// before it.
pub proof fn lemma_words_in_bounds(bytes: Seq<u8>, from: int, i: int)
    requires
        0 <= from <= bytes.len(),
        0 <= i < words_from(bytes, from).len(),
    ensures
        from <= words_from(bytes, from)[i].0 < words_from(bytes, from)[i].1 <= bytes.len(),
        i > 0 ==> words_from(bytes, from)[i - 1].1 <= words_from(bytes, from)[i].0,
    decreases i,
{
    lemma_next_word_bounds(bytes, from);
    let word = next_word(bytes, from)->Some_0;
    if i > 0 {
        lemma_words_in_bounds(bytes, word.1, i - 1);
        if i == 1 {
            lemma_next_word_bounds(bytes, word.1);
        }
    }
}

/// In well-formed UTF-8 a character begins behind every ASCII character.
pub proof fn lemma_boundary_behind_ascii(bytes: Seq<u8>, i: int)
    requires
        valid_utf8(bytes),
        0 <= i < bytes.len(),
        is_char_boundary(bytes, i),
        bytes[i] < 0x80,
    ensures
        is_char_boundary(bytes, i + 1),
    decreases bytes.len(),
{
    reveal_with_fuel(is_char_boundary, 2);
    if i > 0 {
        let rest = pop_first_scalar(bytes);
        let width = length_of_first_scalar(bytes);
        lemma_boundary_behind_ascii(rest, i - width);
    }
}

/// In well-formed UTF-8 a character begins at every ASCII byte.
pub proof fn lemma_boundary_at_ascii(bytes: Seq<u8>, i: int)
    requires
        valid_utf8(bytes),
        0 <= i < bytes.len(),
        bytes[i] < 0x80,
    ensures
        is_char_boundary(bytes, i),
{
    is_char_boundary_iff_not_is_continuation_byte(bytes, i);
}

/// The part of `text` from byte `from` up to byte `to`.
pub fn slice<'a>(text: &'a str, from: usize, to: usize) -> (part: &'a str)
    requires
        from <= to <= text.spec_bytes().len(),
        is_char_boundary(text.spec_bytes(), from as int),
        is_char_boundary(text.spec_bytes(), to as int),
    ensures
        part.spec_bytes() == text.spec_bytes().subrange(from as int, to as int),
{
    let (head, _) = text.split_at(to);
    proof {
        let bytes = text.spec_bytes();
        encode_utf8_valid_utf8(text@);
        encode_utf8_valid_utf8(head@);
        if from < to {
            is_char_boundary_iff_not_is_continuation_byte(bytes, from as int);
            is_char_boundary_iff_not_is_continuation_byte(head.spec_bytes(), from as int);
        } else {
            is_char_boundary_start_end_of_seq(head.spec_bytes());
        }
    }
    let (_, part) = head.split_at(from);
    part
}

/// Reads the words of a source text one after the other.
pub struct Lexer<'src> {
    pub source: &'src str,
    pub position: usize,
}

impl<'src> Lexer<'src> {
    /// The lexer stands within its text and between two characters.
    pub open spec fn wf(&self) -> bool {
        &&& self.position <= self.source.spec_bytes().len()
        &&& is_char_boundary(self.source.spec_bytes(), self.position as int)
    }

    pub fn new(source: &'src str) -> (lexer: Self)
        ensures
            lexer.wf(),
            lexer.source == source,
            lexer.position == 0,
    {
        proof {
            encode_utf8_valid_utf8(source@);
            is_char_boundary_start_end_of_seq(source.spec_bytes());
        }
        Lexer { source, position: 0 }
    }

    /// The next word of the source, or `None` where only white space is left.
    pub fn next(&mut self) -> (result: Option<Word<'src>>)
        requires
            old(self).wf(),
        ensures
            final(self).wf(),
            final(self).source == old(self).source,
            match next_word(old(self).source.spec_bytes(), old(self).position as int) {
                Some((start, end, lexeme)) => result is Some && word_matches(
                    result->Some_0,
                    old(self).source,
                    start,
                    end,
                    lexeme,
                ) && final(self).position == end,
                None => result is None && final(self).position == old(self).source.spec_bytes().len(),
            },
            result matches Some(word) ==> old(self).position <= word.span.start < word.span.end
                <= old(self).source.spec_bytes().len(),
    {
        proof {
            lemma_next_word_bounds(self.source.spec_bytes(), self.position as int);
        }
        self.word()
    }

    fn word(&mut self) -> (result: Option<Word<'src>>)
        requires
            old(self).wf(),
        ensures
            final(self).wf(),
            final(self).source == old(self).source,
            match next_word(old(self).source.spec_bytes(), old(self).position as int) {
                Some((start, end, lexeme)) => result is Some && word_matches(
                    result->Some_0,
                    old(self).source,
                    start,
                    end,
                    lexeme,
                ) && final(self).position == end,
                None => result is None && final(self).position == old(self).source.spec_bytes().len(),
            },
    {
        let source = self.source;
        let bytes = source.as_bytes();
        let length = bytes.len();
        proof {
            encode_utf8_valid_utf8(source@);
            is_char_boundary_start_end_of_seq(bytes@);
        }
        let mut start = self.position;
        while start < length && is_space_byte(bytes[start])
            invariant
                self.position <= start <= length,
                length == bytes@.len(),
                valid_utf8(bytes@),
                is_char_boundary(bytes@, start as int),
                skip_spaces(bytes@, self.position as int) == skip_spaces(bytes@, start as int),
            decreases length - start,
        {
            proof {
                lemma_boundary_behind_ascii(bytes@, start as int);
            }
            start = start + 1;
        }
        if start >= length {
            self.position = length;
            return None;
        }
        if bytes[start] == 34 {
            let mut end = start + 1;
            let mut pending = false;
            let mut closed = false;
            proof {
                lemma_boundary_behind_ascii(bytes@, start as int);
            }
            while end < length && !closed
                invariant
                    start < end <= length,
                    length == bytes@.len(),
                    valid_utf8(bytes@),
                    closed ==> is_char_boundary(bytes@, end as int),
                    closed ==> string_end(bytes@, start + 1, false) == end,
                    !closed ==> string_end(bytes@, start + 1, false) == string_end(
                        bytes@,
                        end as int,
                        pending,
                    ),
                decreases length - end + (if closed { 0int } else { 1int }),
            {
                if pending {
                    pending = false;
                } else if bytes[end] == 92 {
                    pending = true;
                } else if bytes[end] == 34 {
                    closed = true;
                    proof {
                        lemma_boundary_at_ascii(bytes@, end as int);
                        lemma_boundary_behind_ascii(bytes@, end as int);
                    }
                }
                end = end + 1;
            }
            let text = slice(source, start, end);
            self.position = end;
            return Some(Word::new(Token::String(text), Span::new(start, end)));
        }
        let mut end = start;
        let mut digits = true;
        let mut fits = true;
        let mut value: u64 = 0;
        while end < length && !is_space_byte(bytes[end])
            invariant
                start <= end <= length,
                length == bytes@.len(),
                symbol_end(bytes@, start as int) == symbol_end(bytes@, end as int),
                digits == all_digits(bytes@, start as int, end as int),
                digits ==> fits == (decimal_value(bytes@, start as int, end as int) <= i64::MAX),
                digits && fits ==> value == decimal_value(bytes@, start as int, end as int),
            decreases length - end,
        {
            let byte = bytes[end];
            if digits {
                if 48 <= byte && byte <= 57 {
                    if fits {
                        let digit: u64 = (byte - 48) as u64;
                        if value > (i64::MAX as u64 - digit) / 10 {
                            fits = false;
                        } else {
                            value = value * 10 + digit;
                        }
                    }
                } else {
                    digits = false;
                    assert(!is_digit(bytes@[end as int]));
                }
            }
            end = end + 1;
        }
        proof {
            if end < length {
                lemma_boundary_at_ascii(bytes@, end as int);
            }
        }
        let token = if digits && fits {
            Token::Integer(value as i64)
        } else {
            Token::Symbol(slice(source, start, end))
        };
        self.position = end;
        Some(Word::new(token, Span::new(start, end)))
    }

    /// All the words that are left, in order.
    pub fn words(self) -> (words: Vec<Word<'src>>)
        requires
            self.wf(),
        ensures
            words_match(
                words@,
                self.source,
                words_from(self.source.spec_bytes(), self.position as int),
            ),
    {
        let mut lexer = self;
        let mut words: Vec<Word<'src>> = Vec::new();
        let ghost bytes = self.source.spec_bytes();
        let ghost all = words_from(bytes, self.position as int);
        let ghost found = Seq::<(int, int, Lexeme)>::empty();
        loop
            invariant
                lexer.wf(),
                lexer.source == self.source,
                bytes == self.source.spec_bytes(),
                all == found + words_from(bytes, lexer.position as int),
                words_match(words@, self.source, found),
            ensures
                words_match(words@, self.source, all),
            decreases bytes.len() - lexer.position,
        {
            proof {
                lemma_next_word_bounds(bytes, lexer.position as int);
            }
            let ghost from = lexer.position as int;
            match lexer.next() {
                Some(word) => {
                    words.push(word);
                    proof {
                        let entry = next_word(bytes, from)->Some_0;
                        assert(found.push(entry) + words_from(bytes, entry.1) =~= found + (
                        seq![entry] + words_from(bytes, entry.1)));
                        found = found.push(entry);
                    }
                },
                None => {
                    assert(found + words_from(bytes, from) =~= found);
                    break;
                },
            }
        }
        words
    }
}

fn is_space_byte(byte: u8) -> (space: bool)
    ensures
        space == is_space(byte),
{
    byte == 32 || byte == 9 || byte == 10 || byte == 12 || byte == 13
}


/// Whether two words are of the same kind, hold the same number or text, and
/// stand at the same place.
pub open spec fn same_word(a: Word, b: Word) -> bool {
    &&& a.span == b.span
    &&& match (a.token, b.token) {
        (Token::Integer(x), Token::Integer(y)) => x == y,
        (Token::Symbol(x), Token::Symbol(y)) => x@ == y@,
        (Token::String(x), Token::String(y)) => x@ == y@,
        _ => false,
    }
}

impl<'src> PartialEq for Word<'src> {
    fn eq(&self, other: &Self) -> (same: bool) {
        self.span.start == other.span.start && self.span.end == other.span.end && match (
            self.token,
            other.token,
        ) {
            (Token::Integer(x), Token::Integer(y)) => x == y,
            (Token::Symbol(x), Token::Symbol(y)) => str_eq(x, y),
            (Token::String(x), Token::String(y)) => str_eq(x, y),
            _ => false,
        }
    }
}

impl<'src> PartialEqSpecImpl for Word<'src> {
    open spec fn obeys_eq_spec() -> bool {
        true
    }

    open spec fn eq_spec(&self, other: &Self) -> bool {
        same_word(*self, *other)
    }
}

} // verus!
