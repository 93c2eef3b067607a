use zila::analyzer::report::{locate, push_signature, push_type};
use zila::analyzer::{report_error, Analyzer, CompileError, Signature, Type};
use zila::lexer::{Lexer, Span, Token, Word};

fn failure(source: &str) -> CompileError<'_> {
    match Analyzer::analyze(Lexer::new(source).words()) {
        Err(error) => error,
        Ok(_) => panic!("{source} is accepted"),
    }
}

#[test]
fn lines_and_columns() {
    let source = "ab\ncde\n\nf";
    let place = locate(source, 0);
    assert_eq!((place.line, place.column, place.start, place.end), (1, 1, 0, 2));
    let place = locate(source, 2);
    assert_eq!((place.line, place.column, place.start, place.end), (1, 3, 0, 2));
    let place = locate(source, 3);
    assert_eq!((place.line, place.column, place.start, place.end), (2, 1, 3, 6));
    let place = locate(source, 5);
    assert_eq!((place.line, place.column, place.start, place.end), (2, 3, 3, 6));
    let place = locate(source, 7);
    assert_eq!((place.line, place.column, place.start, place.end), (3, 1, 7, 7));
    let place = locate(source, 9);
    assert_eq!((place.line, place.column, place.start, place.end), (4, 2, 8, 9));
    let place = locate("", 0);
    assert_eq!((place.line, place.column, place.start, place.end), (1, 1, 0, 0));
}

#[test]
fn types_in_words() {
    let mut out = String::new();
    push_type(&mut out, &Type::Int);
    out.push('|');
    push_type(&mut out, &Type::Bool);
    out.push('|');
    push_type(&mut out, &Type::String);
    out.push('|');
    push_type(&mut out, &Type::Var(12));
    out.push('|');
    push_type(&mut out, &Type::MultiVar(3));
    out.push('|');
    push_type(
        &mut out,
        &Type::Quotation(Signature::new(
            vec![Type::Int, Type::String],
            vec![Type::Bool, Type::Quotation(Signature::new(vec![], vec![]))],
        )),
    );
    assert_eq!(out, "Int|Bool|String|'12|..3|[ Int String -- Bool [ -- ] ]");
    let mut out = String::new();
    push_signature(&mut out, &Signature::new(vec![], vec![]));
    out.push('|');
    push_signature(
        &mut out,
        &Signature::new(vec![Type::Var(0), Type::Var(1)], vec![Type::Var(0), Type::Var(1)]),
    );
    assert_eq!(out, "( -- )|( '0 '1 -- '0 '1 )");
}

#[test]
fn messages() {
    assert_eq!(failure("1 frob").message(), "undefined word `frob`");
    assert_eq!(
        failure("1 \"s\" +").message(),
        "cannot apply `+` of signature ( Int Int -- Int ) to the stack ( Int String )"
    );
    assert_eq!(failure("[ 1").message(), "`[` has no partner");
    assert_eq!(failure("1 ]").message(), "`]` has no partner");
    assert_eq!(
        failure("\"open").message(),
        "string literal is not closed or holds a line feed"
    );
    let error = CompileError::UndefinedWord {
        word: Word::new(Token::Integer(-3), Span::new(0, 2)),
    };
    assert_eq!(error.message(), "undefined word `-3`");
    assert_eq!(error.word().span(), Span::new(0, 2));
}

#[test]
fn report_with_caret() {
    let source = "1 2 +\n  \"s\" frob\nexit";
    let error = failure(source);
    assert_eq!(
        report_error(&error, "main.zila", source),
        "main.zila:2:7: error: undefined word `frob`\n  \"s\" frob\n      ^\n"
    );
    let source = "1 \"é\" +";
    let error = failure(source);
    assert_eq!(
        report_error(&error, "a", source),
        "a:1:8: error: cannot apply `+` of signature ( Int Int -- Int ) to the stack ( Int String )\n1 \"é\" +\n       ^\n"
    );
}

#[test]
fn report_beyond_the_source() {
    let error = CompileError::UnmatchedBracket {
        word: Word::new(Token::Symbol("]"), Span::new(40, 41)),
    };
    assert_eq!(
        report_error(&error, "x", "ab\ncd"),
        "x:2:3: error: `]` has no partner\ncd\n  ^\n"
    );
}
