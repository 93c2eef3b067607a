//! The report of a failed analysis: where it failed, in lines and columns, why,
//! and the line of the source with a caret below the word.

use vstd::prelude::*;
use vstd::string::*;
use vstd::utf8::*;
use crate::analyzer::infer::{CompileError, Failure};
use crate::analyzer::types::{Sig, Signature, Ty, Type, lemma_quotation_model, models};
use crate::lexer::{
    Token, Word, lemma_boundary_at_ascii, lemma_boundary_behind_ascii, slice,
};
use crate::text::{decimal, push_decimal, push_signed_decimal, signed_decimal};

verus! {

/// The number of line feeds among the first `n` bytes.
pub open spec fn newlines(bytes: Seq<u8>, n: int) -> nat
    decreases n,
{
    if n <= 0 || n > bytes.len() {
        0
    } else {
        newlines(bytes, n - 1) + if bytes[n - 1] == 10 {
            1nat
        } else {
            0nat
        }
    }
}

/// The place where the line begins that position `n` lies in.
pub open spec fn line_start(bytes: Seq<u8>, n: int) -> int
    decreases n,
{
    if n <= 0 || n > bytes.len() {
        0
    } else if bytes[n - 1] == 10 {
        n
    } else {
        line_start(bytes, n - 1)
    }
}

/// The place of the line feed that ends the line which position `i` lies in,
/// or the end of the text.
pub open spec fn line_end(bytes: Seq<u8>, i: int) -> int
    decreases bytes.len() - i,
{
    if 0 <= i < bytes.len() && bytes[i] != 10 {
        line_end(bytes, i + 1)
    } else {
        i
    }
}

/// A place in a text: the line and the column, both counted from one, the
/// column in bytes, and the first place of the line and the place behind it.
pub struct Place {
    pub line: u128,
    pub column: u128,
    pub start: usize,
    pub end: usize,
}

/// Finds the line and the column of byte `offset` of `source`.
pub fn locate(source: &str, offset: usize) -> (place: Place)
    requires
        offset <= source.spec_bytes().len(),
    ensures
        place.line == newlines(source.spec_bytes(), offset as int) + 1,
        place.start == line_start(source.spec_bytes(), offset as int),
        place.column == offset - place.start + 1,
        place.end == line_end(source.spec_bytes(), offset as int),
        place.start <= offset <= place.end <= source.spec_bytes().len(),
        is_char_boundary(source.spec_bytes(), place.start as int),
        is_char_boundary(source.spec_bytes(), place.end as int),
{
    let bytes = source.as_bytes();
    let length = bytes.len();
    proof {
        encode_utf8_valid_utf8(source@);
        is_char_boundary_start_end_of_seq(bytes@);
    }
    let mut line: u128 = 1;
    let mut start: usize = 0;
    let mut i: usize = 0;
    while i < offset
        invariant
            i <= offset <= length,
            length == bytes@.len(),
            valid_utf8(bytes@),
            line == newlines(bytes@, i as int) + 1,
            line <= i + 1,
            start == line_start(bytes@, i as int),
            start <= i,
            is_char_boundary(bytes@, start as int),
        decreases offset - i,
    {
        if bytes[i] == 10 {
            proof {
                lemma_boundary_at_ascii(bytes@, i as int);
                lemma_boundary_behind_ascii(bytes@, i as int);
            }
            line = line + 1;
            start = i + 1;
        }
        i = i + 1;
    }
    let mut end = offset;
    while end < length && bytes[end] != 10
        invariant
            offset <= end <= length,
            length == bytes@.len(),
            line_end(bytes@, offset as int) == line_end(bytes@, end as int),
        decreases length - end,
    {
        end = end + 1;
    }
    proof {
        if end < length {
            lemma_boundary_at_ascii(bytes@, end as int);
        }
    }
    Place { line, column: (offset - start) as u128 + 1, start, end }
}

/// A type as it is written in a report.
pub open spec fn type_text(t: Ty) -> Seq<char>
    decreases t, 0nat,
{
    match t {
        Ty::Int => "Int"@,
        Ty::Bool => "Bool"@,
        Ty::Str => "String"@,
        Ty::Var(v) => "'"@ + decimal(v),
        Ty::MultiVar(m) => ".."@ + decimal(m),
        Ty::Quotation(signature) => "[ "@ + falling_text(signature.inputs, signature.inputs.len())
            + "-- "@ + falling_text(signature.outputs, signature.outputs.len()) + "]"@,
    }
}

/// The first `n` types of a list, written in their order, each with a blank
/// behind it.
pub open spec fn falling_text(types: Seq<Ty>, n: nat) -> Seq<char>
    decreases types, n,
{
    if n == 0 || n > types.len() {
        Seq::empty()
    } else {
        falling_text(types, (n - 1) as nat) + type_text(types[n - 1]) + " "@
    }
}

/// A signature as a stack diagram: the inputs and the outputs, each from the
/// lowest value up.
pub open spec fn signature_text(signature: Sig) -> Seq<char> {
    "( "@ + falling_text(signature.inputs, signature.inputs.len()) + "-- "@ + falling_text(
        signature.outputs,
        signature.outputs.len(),
    ) + ")"@
}

/// Appends `t` as it is written in a report.
pub fn push_type(out: &mut String, t: &Type)
    ensures
        final(out)@ == old(out)@ + type_text(t.model()),
    decreases t, 0nat,
{
    match t {
        Type::Int => out.append("Int"),
        Type::Bool => out.append("Bool"),
        Type::String => out.append("String"),
        Type::Var(v) => {
            out.append("'");
            push_decimal(out, *v as u128);
            assert(out@ =~= old(out)@ + type_text(t.model()));
        },
        Type::MultiVar(m) => {
            out.append("..");
            push_decimal(out, *m as u128);
            assert(out@ =~= old(out)@ + type_text(t.model()));
        },
        Type::Quotation(signature) => {
            proof {
                lemma_quotation_model(*signature);
            }
            out.append("[ ");
            push_falling(out, &signature.inputs);
            out.append("-- ");
            push_falling(out, &signature.outputs);
            out.append("]");
            assert(out@ =~= old(out)@ + type_text(t.model()));
        },
    }
}

fn push_falling(out: &mut String, types: &Vec<Type>)
    ensures
        final(out)@ == old(out)@ + falling_text(models(types@), models(types@).len()),
    decreases types, 1nat,
{
    let ghost all = models(types@);
    assert(all.len() == types@.len());
    let mut i: usize = 0;
    assert(out@ =~= old(out)@ + falling_text(all, 0));
    while i < types.len()
        invariant
            i <= types@.len(),
            all == models(types@),
            all.len() == types@.len(),
            out@ == old(out)@ + falling_text(all, i as nat),
        decreases types@.len() - i,
    {
        assert(all[i as int] == types@[i as int].model());
        push_type(out, &types[i]);
        out.append(" ");
        i = i + 1;
        assert(out@ =~= old(out)@ + falling_text(all, i as nat));
    }
}

/// Appends `signature` as a stack diagram.
pub fn push_signature(out: &mut String, signature: &Signature)
    ensures
        final(out)@ == old(out)@ + signature_text(signature.model()),
{
    out.append("( ");
    push_falling(out, &signature.inputs);
    out.append("-- ");
    push_falling(out, &signature.outputs);
    out.append(")");
    assert(out@ =~= old(out)@ + signature_text(signature.model()));
}

/// A word as it stands in the source.
pub open spec fn word_text(word: Word) -> Seq<char> {
    match word.token {
        Token::Integer(value) => signed_decimal(value as int),
        Token::Symbol(text) => text@,
        Token::String(text) => text@,
    }
}

/// Why the analysis failed, in words.
pub open spec fn message_text(failure: Failure) -> Seq<char> {
    match failure {
        Failure::UndefinedWord { word } => "undefined word `"@ + word_text(word) + "`"@,
        Failure::CannotExecSignature { word, stack, sig } => "cannot apply `"@ + word_text(word)
            + "` of signature "@ + signature_text(sig) + " to the stack ( "@ + falling_text(
            stack,
            stack.len(),
        ) + ")"@,
        Failure::UnmatchedBracket { word } => "`"@ + word_text(word) + "` has no partner"@,
        Failure::MalformedString { word } => "string literal is not closed or holds a line feed"@,
    }
}

impl<'src> CompileError<'src> {
    /// The word at which the analysis failed.
    pub fn word(&self) -> (word: Word<'src>)
        ensures
            word == (match self.model() {
                Failure::UndefinedWord { word } => word,
                Failure::CannotExecSignature { word, .. } => word,
                Failure::UnmatchedBracket { word } => word,
                Failure::MalformedString { word } => word,
            }),
    {
        match self {
            CompileError::UndefinedWord { word } => *word,
            CompileError::CannotExecSignature { word, .. } => *word,
            CompileError::UnmatchedBracket { word } => *word,
            CompileError::MalformedString { word } => *word,
        }
    }

    /// Why the analysis failed, in words.
    pub fn message(&self) -> (text: String)
        ensures
            text@ == message_text(self.model()),
    {
        let mut text = String::new();
        match self {
            CompileError::UndefinedWord { word } => {
                text.append("undefined word `");
                push_word(&mut text, *word);
                text.append("`");
            },
            CompileError::CannotExecSignature { word, stack, sig } => {
                text.append("cannot apply `");
                push_word(&mut text, *word);
                text.append("` of signature ");
                push_signature(&mut text, sig);
                text.append(" to the stack ( ");
                push_falling(&mut text, stack);
                text.append(")");
            },
            CompileError::UnmatchedBracket { word } => {
                text.append("`");
                push_word(&mut text, *word);
                text.append("` has no partner");
            },
            CompileError::MalformedString { .. } => {
                text.append("string literal is not closed or holds a line feed");
            },
        }
        assert(text@ =~= message_text(self.model()));
        text
    }
}

fn push_word(out: &mut String, word: Word)
    ensures
        final(out)@ == old(out)@ + word_text(word),
{
    match word.token {
        Token::Integer(value) => push_signed_decimal(out, value),
        Token::Symbol(text) => out.append(text),
        Token::String(text) => out.append(text),
    }
}

/// `n` blanks.
pub open spec fn blanks(n: nat) -> Seq<char> {
    Seq::new(n, |i: int| ' ')
}

/// The report of a failure at byte `offset` of `source`, which was read from
/// `path`: the place and the message in one line, then the line of the source,
/// then a caret below the place.
pub open spec fn report_text(
    path: Seq<char>,
    source: Seq<u8>,
    offset: int,
    message: Seq<char>,
) -> Seq<char> {
    let start = line_start(source, offset);
    path + ":"@ + decimal(newlines(source, offset) + 1) + ":"@ + decimal(
        (offset - start + 1) as nat,
    ) + ": error: "@ + message + "\n"@ + decode_utf8(
        source.subrange(start, line_end(source, offset)),
    ) + "\n"@ + blanks((offset - start) as nat) + "^\n"@
}

/// The place of a failure: where its word begins, or the end of the source
/// where the word lies beyond it.
pub open spec fn failure_offset(failure: Failure, source: Seq<u8>) -> int {
    let start = match failure {
        Failure::UndefinedWord { word } => word.span.start,
        Failure::CannotExecSignature { word, .. } => word.span.start,
        Failure::UnmatchedBracket { word } => word.span.start,
        Failure::MalformedString { word } => word.span.start,
    };
    if start <= source.len() {
        start as int
    } else {
        source.len() as int
    }
}

/// Renders the report of a failed analysis of `source`, which was read from `path`.
pub fn report_error(error: &CompileError, path: &str, source: &str) -> (report: String)
    ensures
        report@ == report_text(
            path@,
            source.spec_bytes(),
            failure_offset(error.model(), source.spec_bytes()),
            message_text(error.model()),
        ),
{
    let length = source.as_bytes().len();
    let start = error.word().span().start;
    let offset = if start <= length {
        start
    } else {
        length
    };
    let place = locate(source, offset);
    let line = slice(source, place.start, place.end);
    proof {
        encode_utf8_decode_utf8(line@);
    }
    let message = error.message();
    let mut report = String::new();
    report.append(path);
    report.append(":");
    push_decimal(&mut report, place.line);
    report.append(":");
    push_decimal(&mut report, place.column);
    report.append(": error: ");
    report.append(message.as_str());
    report.append("\n");
    report.append(line);
    report.append("\n");
    let ghost head = report@;
    let mut i: usize = 0;
    while i < offset - place.start
        invariant
            i <= offset - place.start,
            place.start <= offset,
            report@ == head + blanks(i as nat),
        decreases offset - place.start - i,
    {
        proof {
            reveal_strlit(" ");
        }
        report.append(" ");
        assert(report@ =~= head + blanks((i + 1) as nat));
        i = i + 1;
    }
    report.append("^\n");
    assert(report@ =~= report_text(
        path@,
        source.spec_bytes(),
        offset as int,
        message_text(error.model()),
    ));
    report
}

} // verus!
