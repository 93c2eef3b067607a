use zila::analyzer::subst::Context;
use zila::analyzer::{Analyzer, CompileError, Item, ItemKind, Signature, Type};
use zila::lexer::{Lexer, Span, Token, Word};

fn analyze(source: &str) -> Result<(Signature, Vec<Item<'_>>), CompileError<'_>> {
    Analyzer::analyze(Lexer::new(source).words())
}

fn show(signature: &Signature) -> String {
    format!("{:?} -> {:?}", signature.inputs, signature.outputs)
}

fn effect(source: &str) -> String {
    match analyze(source) {
        Ok((signature, _)) => show(&signature),
        Err(error) => panic!("{source}: {error:?}"),
    }
}

#[test]
fn literals_push_their_types() {
    assert_eq!(effect(""), "[] -> []");
    assert_eq!(effect("1"), "[] -> [Int]");
    assert_eq!(effect("\"s\""), "[] -> [String]");
    assert_eq!(effect("1 \"s\" true"), "[] -> [Int, String, Bool]");
}

#[test]
fn one_word_programs_have_the_declared_signatures() {
    for word in ["+", "-", "*", "/"] {
        assert_eq!(effect(word), "[Int, Int] -> [Int]");
    }
    assert_eq!(effect("exit"), "[Int] -> []");
    assert_eq!(effect("puts"), "[String] -> []");
    assert_eq!(effect("true"), "[] -> [Bool]");
    assert_eq!(effect("false"), "[] -> [Bool]");
    assert_eq!(effect("dup"), "[Var(0)] -> [Var(0), Var(0)]");
    assert_eq!(effect("drop"), "[Var(0)] -> []");
    assert_eq!(effect("swap"), "[Var(0), Var(1)] -> [Var(1), Var(0)]");
    assert_eq!(effect("over"), "[Var(0), Var(1)] -> [Var(0), Var(1), Var(0)]");
    assert_eq!(effect("?"), "[Var(0), Var(0), Bool] -> [Var(0)]");
    assert_eq!(
        effect("apply"),
        "[MultiVar(0), Quotation(Signature { inputs: [MultiVar(0)], outputs: [MultiVar(1)] })] -> [MultiVar(1)]"
    );
}

#[test]
fn one_word_programs_hold_one_item() {
    let (signature, items) = analyze(" dup").unwrap();
    assert_eq!(items.len(), 1);
    assert_eq!(items[0].span().parts(), (1, 4));
    match items[0].kind() {
        ItemKind::Word(instance, name) => {
            assert_eq!(*name, "dup");
            assert_eq!(show(instance), show(&signature));
        }
        other => panic!("{other:?}"),
    }
}

#[test]
fn missing_operands_become_inputs() {
    assert_eq!(effect("+ +"), "[Int, Int, Int] -> [Int]");
    assert_eq!(effect("1 +"), "[Int] -> [Int]");
    assert_eq!(effect("puts exit"), "[Int, String] -> []");
    assert_eq!(effect("drop 1"), "[Var(0)] -> [Int]");
}

#[test]
fn the_last_input_is_the_value_on_top() {
    assert_eq!(effect("1 \"s\" swap"), "[] -> [String, Int]");
    assert_eq!(effect("1 \"s\" over"), "[] -> [Int, String, Int]");
    assert_eq!(effect("1 \"s\" drop"), "[] -> [Int]");
    assert_eq!(effect("\"s\" dup"), "[] -> [String, String]");
    assert_eq!(effect("1 \"s\" puts exit"), "[] -> []");
    assert_eq!(effect("swap puts exit"), "[String, Int] -> []");
}

#[test]
fn select_takes_the_condition_from_below() {
    assert_eq!(effect("true 1 2 ?"), "[] -> [Int]");
    assert_eq!(effect("false \"a\" \"b\" ?"), "[] -> [String]");
    assert_eq!(
        effect("true [ 1 ] [ 2 ] ?"),
        "[] -> [Quotation(Signature { inputs: [], outputs: [Int] })]"
    );
    assert_eq!(effect("true [ 1 ] [ 2 ] ? apply"), "[] -> [Int]");
    assert_eq!(effect("1 ?"), "[Int, Bool] -> [Int]");
    assert_eq!(effect("1 2 ?"), "[Bool] -> [Int]");
    assert_eq!(effect("true true true ?"), "[] -> [Bool]");
    assert!(matches!(
        analyze("true 1 \"s\" ?"),
        Err(CompileError::CannotExecSignature { .. })
    ));
    assert!(matches!(
        analyze("true [ 1 ] [ \"s\" ] ?"),
        Err(CompileError::CannotExecSignature { .. })
    ));
    assert!(matches!(
        analyze("true [ 1 ] [ 2 3 ] ?"),
        Err(CompileError::CannotExecSignature { .. })
    ));
}

#[test]
fn variables_are_bound_by_what_follows() {
    assert_eq!(effect("dup +"), "[Int] -> [Int]");
    assert_eq!(effect("dup swap drop"), "[Var(0)] -> [Var(0)]");
    assert_eq!(effect("swap + exit"), "[Int, Int] -> []");
    assert_eq!(effect("over over + exit"), "[Int, Int] -> [Int, Int]");
    assert_eq!(effect("dup 1 swap puts"), "[String] -> [String, Int]");
    assert_eq!(effect("dup dup ?"), "[Bool] -> [Bool]");
    assert_eq!(effect("dup ? exit"), "[Bool, Int] -> []");
}

#[test]
fn quotations_are_scopes_of_their_own() {
    assert_eq!(
        effect("[ + ]"),
        "[] -> [Quotation(Signature { inputs: [Int, Int], outputs: [Int] })]"
    );
    assert_eq!(effect("[ ]"), "[] -> [Quotation(Signature { inputs: [], outputs: [] })]");
    assert_eq!(
        effect("1 [ 2 [ 3 ] ]"),
        "[] -> [Int, Quotation(Signature { inputs: [], outputs: [Int, Quotation(Signature { inputs: [], outputs: [Int] })] })]"
    );
    assert_eq!(
        effect("[ dup ] [ dup ]"),
        "[] -> [Quotation(Signature { inputs: [Var(0)], outputs: [Var(0), Var(0)] }), Quotation(Signature { inputs: [Var(1)], outputs: [Var(1), Var(1)] })]"
    );
}

#[test]
fn apply_runs_a_quotation() {
    assert_eq!(effect("1 2 [ + ] apply"), "[] -> [Int]");
    assert_eq!(effect("[ + ] apply"), "[Int, Int] -> [Int]");
    assert_eq!(effect("1 [ + ] apply"), "[Int] -> [Int]");
    assert_eq!(effect("[ ] apply"), "[] -> []");
    assert_eq!(effect("[ 1 \"s\" ] apply"), "[] -> [Int, String]");
    assert_eq!(effect("\"s\" 1 [ swap ] apply"), "[] -> [Int, String]");
    assert_eq!(effect("\"s\" [ puts 1 ] apply exit"), "[] -> []");
    assert_eq!(effect("1 [ dup ] apply +"), "[] -> [Int]");
    assert_eq!(effect("1 2 [ + ] [ apply ] apply"), "[] -> [Int]");
    assert_eq!(effect("[ [ 1 ] ] apply apply"), "[] -> [Int]");
    assert!(matches!(
        analyze("\"s\" 2 [ + ] apply"),
        Err(CompileError::CannotExecSignature { .. })
    ));
    assert!(matches!(analyze("1 apply"), Err(CompileError::CannotExecSignature { .. })));
}

#[test]
fn rows_stay_at_the_bottom() {
    assert!(matches!(analyze("dup apply"), Err(CompileError::CannotExecSignature { .. })));
    assert!(matches!(analyze("swap apply"), Err(CompileError::CannotExecSignature { .. })));
    assert!(matches!(analyze("apply drop"), Err(CompileError::CannotExecSignature { .. })));
    assert!(matches!(analyze("apply apply"), Err(CompileError::CannotExecSignature { .. })));
    assert_eq!(
        effect("[ apply ]"),
        "[] -> [Quotation(Signature { inputs: [MultiVar(0), Quotation(Signature { inputs: [MultiVar(0)], outputs: [MultiVar(1)] })], outputs: [MultiVar(1)] })]"
    );
    assert_eq!(
        effect("[ apply 1 ]"),
        "[] -> [Quotation(Signature { inputs: [MultiVar(0), Quotation(Signature { inputs: [MultiVar(0)], outputs: [MultiVar(1)] })], outputs: [MultiVar(1), Int] })]"
    );
    assert_eq!(effect("\"s\" [ 2 ] [ apply 1 ] apply"), "[] -> [String, Int, Int]");
}

#[test]
fn a_variable_cannot_hold_itself() {
    let mut context = Context::new();
    let v = context.gen_var();
    let quotation = Type::Quotation(Signature::new(vec![Type::Var(v)], vec![]));
    let mut stack = vec![quotation];
    let mut demanded = Vec::new();
    let tasks = vec![zila::analyzer::unify::Task::Take(Type::Var(v))];
    assert!(!zila::analyzer::unify::solve(&mut context, &mut stack, &mut demanded, tasks));
}

#[test]
fn undefined_word() {
    match analyze("1 2 frob +") {
        Err(CompileError::UndefinedWord { word }) => {
            assert_eq!(word, Word::new(Token::Symbol("frob"), Span::new(4, 8)));
        }
        other => panic!("{other:?}"),
    }
    assert!(matches!(analyze("[ nope ]"), Err(CompileError::UndefinedWord { .. })));
    assert!(matches!(
        analyze("99999999999999999999"),
        Err(CompileError::UndefinedWord { .. })
    ));
}

#[test]
fn cannot_exec_signature() {
    match analyze("1 \"s\" true +") {
        Err(CompileError::CannotExecSignature { word, stack, sig }) => {
            assert_eq!(word, Word::new(Token::Symbol("+"), Span::new(11, 12)));
            assert_eq!(format!("{stack:?}"), "[Int, String, Bool]");
            assert_eq!(show(&sig), "[Int, Int] -> [Int]");
        }
        other => panic!("{other:?}"),
    }
    match analyze("dup 1 swap + puts") {
        Err(CompileError::CannotExecSignature { word, stack, sig }) => {
            assert_eq!(word.span().parts(), (13, 17));
            assert_eq!(format!("{stack:?}"), "[Var(0), Int]");
            assert_eq!(show(&sig), "[String] -> []");
        }
        other => panic!("{other:?}"),
    }
    match analyze("drop dup ?") {
        Err(error) => panic!("{error:?}"),
        Ok((signature, _)) => assert_eq!(show(&signature), "[Bool, Var(1), Var(0)] -> [Var(1)]"),
    }
}

#[test]
fn the_first_failure_ends_the_analysis() {
    assert!(matches!(analyze("nope 1 puts"), Err(CompileError::UndefinedWord { .. })));
    assert!(matches!(analyze("1 puts nope"), Err(CompileError::CannotExecSignature { .. })));
    assert!(matches!(analyze("[ 1 puts"), Err(CompileError::CannotExecSignature { .. })));
}

#[test]
fn brackets_must_balance() {
    match analyze("1 [ 2 [ 3 ]") {
        Err(CompileError::UnmatchedBracket { word }) => {
            assert_eq!(word, Word::new(Token::Symbol("["), Span::new(2, 3)));
        }
        other => panic!("{other:?}"),
    }
    match analyze("[ [ 1") {
        Err(CompileError::UnmatchedBracket { word }) => assert_eq!(word.span().parts(), (2, 3)),
        other => panic!("{other:?}"),
    }
    match analyze("[ 1 ] ] [") {
        Err(CompileError::UnmatchedBracket { word }) => {
            assert_eq!(word, Word::new(Token::Symbol("]"), Span::new(6, 7)));
        }
        other => panic!("{other:?}"),
    }
    assert!(matches!(analyze("]"), Err(CompileError::UnmatchedBracket { .. })));
    assert!(matches!(analyze("["), Err(CompileError::UnmatchedBracket { .. })));
    assert!(analyze("[ [ ] [ [ ] ] ]").is_ok());
}

#[test]
fn items_follow_the_words() {
    let (_, items) = analyze("1 \"s\" [ 2 + ] drop").unwrap();
    assert_eq!(items.len(), 4);
    assert!(matches!(items[0].kind(), ItemKind::Integer(1)));
    assert!(matches!(items[1].kind(), ItemKind::String("\"s\"")));
    assert_eq!(items[1].span().parts(), (2, 5));
    match items[2].kind() {
        ItemKind::Quotation(signature, inner) => {
            assert_eq!(show(signature), "[Int] -> [Int]");
            assert_eq!(items[2].span().parts(), (6, 7));
            assert_eq!(inner.len(), 2);
            assert!(matches!(inner[0].kind(), ItemKind::Integer(2)));
            match inner[1].kind() {
                ItemKind::Word(instance, "+") => assert_eq!(show(instance), "[Int, Int] -> [Int]"),
                other => panic!("{other:?}"),
            }
        }
        other => panic!("{other:?}"),
    }
    match items[3].kind() {
        ItemKind::Word(instance, "drop") => {
            assert_eq!(show(instance), "[Quotation(Signature { inputs: [Int], outputs: [Int] })] -> []")
        }
        other => panic!("{other:?}"),
    }
}

#[test]
fn items_are_resolved_by_what_follows() {
    let (signature, items) = analyze("dup drop exit").unwrap();
    assert_eq!(show(&signature), "[Int] -> []");
    match items[0].kind() {
        ItemKind::Word(instance, "dup") => assert_eq!(show(instance), "[Int] -> [Int, Int]"),
        other => panic!("{other:?}"),
    }
    let (_, items) = analyze("[ dup ] 1 swap apply +").unwrap();
    match items[0].kind() {
        ItemKind::Quotation(signature, inner) => {
            assert_eq!(show(signature), "[Int] -> [Int, Int]");
            match inner[0].kind() {
                ItemKind::Word(instance, "dup") => assert_eq!(show(instance), "[Int] -> [Int, Int]"),
                other => panic!("{other:?}"),
            }
        }
        other => panic!("{other:?}"),
    }
}

#[test]
fn item_parts() {
    let item = Item::new(ItemKind::Integer(5), Span::new(1, 2));
    assert_eq!(item.span().parts(), (1, 2));
    assert!(matches!(item.kind(), ItemKind::Integer(5)));
    let (kind, span) = item.parts();
    assert!(matches!(kind, ItemKind::Integer(5)));
    assert_eq!(span, Span::new(1, 2));
    let (inputs, outputs) = Signature::new(vec![Type::Int], vec![Type::Bool, Type::String]).parts();
    assert_eq!(format!("{inputs:?} {outputs:?}"), "[Int] [Bool, String]");
}

#[test]
fn to_resolve_twice_is_to_resolve_once() {
    let mut context = Context::new();
    let a = context.gen_var();
    let b = context.gen_var();
    let c = context.gen_var();
    let row = context.gen_multivar();
    assert_eq!((a, b, c, row), (0, 1, 2, 0));
    context.set_var(a, Type::Quotation(Signature::new(vec![Type::Var(b)], vec![Type::MultiVar(row)])));
    context.set_var(b, Type::Int);
    context.set_multivar(row, vec![Type::Var(c), Type::String]);
    let signature = Signature::new(
        vec![Type::Var(a), Type::MultiVar(row), Type::Var(c)],
        vec![Type::Bool, Type::MultiVar(row), Type::Var(a)],
    );
    let once = context.resolve_signature(&signature);
    let twice = context.resolve_signature(&once);
    assert_eq!(
        format!("{once:?}"),
        "Signature { inputs: [Quotation(Signature { inputs: [Int], outputs: [Var(2), String] }), Var(2), String, Var(2)], outputs: [Bool, Var(2), String, Quotation(Signature { inputs: [Int], outputs: [Var(2), String] })] }"
    );
    assert_eq!(format!("{once:?}"), format!("{twice:?}"));
}

#[test]
fn fresh_state() {
    let state = zila::analyzer::State::new();
    assert!(state.signature.inputs.is_empty());
    assert!(state.signature.outputs.is_empty());
    assert!(state.items.is_empty());
    let analyzer = Analyzer::new(Lexer::new("1 2").words());
    assert_eq!(analyzer.words.len(), 2);
    assert!(analyzer.word_bindings.is_empty());
}

#[test]
fn copies_are_deep() {
    let signature = Signature::new(
        vec![Type::Quotation(Signature::new(vec![Type::Var(3)], vec![Type::MultiVar(1)]))],
        vec![Type::Int, Type::Bool, Type::String],
    );
    assert_eq!(format!("{:?}", signature.clone()), format!("{signature:?}"));
    let t = Type::Quotation(signature);
    assert_eq!(format!("{:?}", t.clone()), format!("{t:?}"));
}

#[test]
fn malformed_strings() {
    match analyze("1 \"abc") {
        Err(CompileError::MalformedString { word }) => {
            assert_eq!(word, Word::new(Token::String("\"abc"), Span::new(2, 6)));
        }
        other => panic!("{other:?}"),
    }
    assert!(matches!(analyze("\"a\nb\""), Err(CompileError::MalformedString { .. })));
    assert!(matches!(analyze("\"a\\\""), Err(CompileError::MalformedString { .. })));
    assert!(matches!(analyze("\""), Err(CompileError::MalformedString { .. })));
    assert!(matches!(analyze("[ \"x ]"), Err(CompileError::MalformedString { .. })));
    assert_eq!(effect("\"a\\nb\""), "[] -> [String]");
    assert_eq!(effect("\"a\\\\\""), "[] -> [String]");
    assert_eq!(effect("\"\""), "[] -> [String]");
}

#[test]
fn a_row_takes_the_rest_of_the_other_list() {
    let mut context = Context::new();
    let row = context.gen_multivar();
    let mut stack = Vec::new();
    let mut demanded = Vec::new();
    let tasks = vec![zila::analyzer::unify::Task::Rows(
        vec![Type::MultiVar(row), Type::Int],
        vec![Type::String, Type::Bool, Type::Int],
    )];
    assert!(zila::analyzer::unify::solve(&mut context, &mut stack, &mut demanded, tasks));
    assert_eq!(
        format!("{:?}", context.get_multivar(row)),
        "Some([String, Bool])"
    );
    assert_eq!(format!("{:?}", context.var_context), "[]");
}

#[test]
fn a_failure_leaves_the_bindings() {
    let mut context = Context::new();
    let v = context.gen_var();
    let mut stack = vec![Type::Bool];
    let mut demanded = Vec::new();
    let tasks = vec![zila::analyzer::unify::Task::Take(Type::Int)];
    assert!(!zila::analyzer::unify::solve(&mut context, &mut stack, &mut demanded, tasks));
    assert!(context.get_var(v).is_none());
    let quotation = Type::Quotation(Signature::new(vec![Type::Var(v)], vec![]));
    let mut stack = vec![quotation];
    let tasks = vec![zila::analyzer::unify::Task::Take(Type::Var(v))];
    assert!(!zila::analyzer::unify::solve(&mut context, &mut stack, &mut demanded, tasks));
    assert!(context.get_var(v).is_none());
}

#[test]
fn items_and_failures_can_be_copied() {
    let (_, items) = analyze("1 [ \"s\" dup ] drop").unwrap();
    let copies = items.clone();
    assert_eq!(format!("{copies:?}"), format!("{items:?}"));
    assert_eq!(format!("{:?}", items[1].kind().clone()), format!("{:?}", items[1].kind()));
    let error = analyze("1 \"s\" +").unwrap_err();
    assert_eq!(format!("{:?}", error.clone()), format!("{error:?}"));
}
