use zila::analyzer::{Analyzer, Item, ItemKind, Signature, Type};
use zila::compiler::{Compiler, Instruction, Label, LowerError, Proc};
use zila::lexer::{Lexer, Span};
use zila::literal::escape;

fn lower(source: &str) -> Result<(Vec<Proc<'_>>, Vec<String>), LowerError> {
    let (_, items) = Analyzer::analyze(Lexer::new(source).words()).unwrap();
    Compiler::compile(items)
}

fn opcodes(proc: &Proc) -> Vec<String> {
    proc.code().iter().map(|(_, i)| format!("{i:?}")).collect()
}

fn pooled(raw: &'static str) -> String {
    let item = Item::new(ItemKind::String(raw), Span::new(0, raw.len()));
    let (_, literals) = Compiler::compile(vec![item]).unwrap();
    assert_eq!(literals.len(), 1);
    literals.into_iter().next().unwrap()
}

#[test]
fn escapes() {
    assert_eq!(pooled(r#""hi\n""#), "hi\n");
    assert_eq!(pooled(r#""a\\b""#), "a\\b");
    assert_eq!(pooled(r#""say \"x\"""#), "say \"x\"");
    assert_eq!(pooled(r#""""#), "");
    assert_eq!(pooled(r#""plain text""#), "plain text");
    assert_eq!(pooled(r#""\n\n""#), "\n\n");
}

#[test]
fn unknown_escapes_vanish() {
    assert_eq!(pooled(r#""a\tb""#), "ab");
    assert_eq!(pooled(r#""a\éb""#), "ab");
    assert_eq!(pooled(r#""\q""#), "");
    assert_eq!(pooled(r#""x\""#), "x");
}

#[test]
fn the_quotes_are_stripped() {
    assert_eq!(pooled("\"héllo wörld\""), "héllo wörld");
    assert_eq!(pooled("\"\""), "");
    assert_eq!(pooled("\""), "");
    assert_eq!(pooled(""), "");
    assert_eq!(pooled("xaby"), "ab");
}

#[test]
fn escape_works_on_the_text_between_the_quotes() {
    assert_eq!(escape("a\\nb"), "a\nb");
    assert_eq!(escape("ab"), "ab");
    assert_eq!(escape(""), "");
    assert_eq!(escape("say \"x\""), "say \"x\"");
    assert_eq!(escape("a\\\\b"), "a\\b");
    assert_eq!(escape("a\\\"b"), "a\"b");
    assert_eq!(escape("a\\tb"), "ab");
    assert_eq!(escape("tail\\"), "tail");
    for text in ["", "plain", "a\\nb", "\\q\\q", "héllo\\é"] {
        assert!(escape(text).chars().count() <= text.chars().count());
    }
}

#[test]
fn literals_and_arithmetic() {
    let (procs, literals) = lower("1 2 + 3 - 4 * 5 / true false").unwrap();
    assert!(literals.is_empty());
    assert_eq!(procs.len(), 1);
    assert_eq!(procs[0].label().id(), 0);
    assert_eq!(procs[0].label().name(), None);
    assert_eq!(
        opcodes(&procs[0]),
        vec![
            "PushInt(1)",
            "PushInt(2)",
            "Add",
            "PushInt(3)",
            "Sub",
            "PushInt(4)",
            "Mul",
            "PushInt(5)",
            "Div",
            "PushBool(true)",
            "PushBool(false)"
        ]
    );
}

#[test]
fn instructions_keep_their_spans() {
    let (procs, _) = lower("10  20 +").unwrap();
    let spans: Vec<(usize, usize)> = procs[0].code().iter().map(|(s, _)| s.parts()).collect();
    assert_eq!(spans, vec![(0, 2), (4, 6), (7, 8)]);
}

#[test]
fn strings_go_to_the_pool_in_order() {
    let (procs, literals) = lower(r#""a" puts [ "b\n" puts ] apply "a" puts 0 exit"#).unwrap();
    assert_eq!(literals, vec!["a".to_string(), "b\n".to_string(), "a".to_string()]);
    assert_eq!(procs.len(), 2);
    assert_eq!(
        opcodes(&procs[0]),
        vec![
            "PushString(0)",
            "Puts",
            "PushQuote(Label { id: 1, name: None })",
            "Apply",
            "PushString(2)",
            "Puts",
            "PushInt(0)",
            "Exit"
        ]
    );
    assert_eq!(opcodes(&procs[1]), vec!["PushString(1)", "Puts"]);
}

#[test]
fn quotations_become_procedures_in_the_order_met() {
    let (procs, _) = lower("[ [ 1 ] [ 2 ] ] [ 3 ] drop drop").unwrap();
    assert_eq!(procs.len(), 5);
    for (i, proc) in procs.iter().enumerate() {
        assert_eq!(proc.label().id(), i);
    }
    assert_eq!(
        opcodes(&procs[0]),
        vec![
            "PushQuote(Label { id: 1, name: None })",
            "PushQuote(Label { id: 4, name: None })",
            "Drop { size: 1 }",
            "Drop { size: 1 }"
        ]
    );
    assert_eq!(
        opcodes(&procs[1]),
        vec![
            "PushQuote(Label { id: 2, name: None })",
            "PushQuote(Label { id: 3, name: None })"
        ]
    );
    assert_eq!(opcodes(&procs[2]), vec!["PushInt(1)"]);
    assert_eq!(opcodes(&procs[3]), vec!["PushInt(2)"]);
    assert_eq!(opcodes(&procs[4]), vec!["PushInt(3)"]);
    let quotation_span = procs[0].code()[0].0;
    assert_eq!(quotation_span.parts(), (0, 1));
}

#[test]
fn sizes_come_from_the_types() {
    let (procs, _) = lower(r#"1 dup "s" dup drop drop drop drop"#).unwrap();
    assert_eq!(
        opcodes(&procs[0]),
        vec![
            "PushInt(1)",
            "Dup { size: 1 }",
            "PushString(0)",
            "Dup { size: 2 }",
            "Drop { size: 2 }",
            "Drop { size: 2 }",
            "Drop { size: 1 }",
            "Drop { size: 1 }"
        ]
    );
    let (procs, _) = lower(r#"1 "s" swap over"#).unwrap();
    assert_eq!(
        opcodes(&procs[0]),
        vec![
            "PushInt(1)",
            "PushString(0)",
            "Swap { size_a: 1, size_b: 2 }",
            "Over { size_a: 2, size_b: 1 }"
        ]
    );
    let (procs, _) = lower(r#"true "a" "b" ? false 1 2 ? [ ] dup"#).unwrap();
    assert_eq!(
        opcodes(&procs[0]),
        vec![
            "PushBool(true)",
            "PushString(0)",
            "PushString(1)",
            "Branch { size: 2 }",
            "PushBool(false)",
            "PushInt(1)",
            "PushInt(2)",
            "Branch { size: 1 }",
            "PushQuote(Label { id: 1, name: None })",
            "Dup { size: 1 }"
        ]
    );
}

#[test]
fn every_size_is_that_of_a_value() {
    let (procs, _) = lower(r#"1 "s" swap over [ 1 dup drop ] drop true 1 2 ? drop drop drop drop"#).unwrap();
    for proc in &procs {
        for (_, instruction) in proc.code() {
            let sizes = match *instruction {
                Instruction::Dup { size } | Instruction::Drop { size } | Instruction::Branch { size } => {
                    vec![size]
                }
                Instruction::Swap { size_a, size_b } | Instruction::Over { size_a, size_b } => {
                    vec![size_a, size_b]
                }
                _ => vec![],
            };
            for size in sizes {
                assert!(size == 1 || size == 2);
            }
        }
    }
}

#[test]
fn unresolved_polymorphism() {
    for source in ["dup", "drop", "swap", "over", "?", "1 swap", "[ dup ]", "dup swap drop"] {
        match lower(source) {
            Err(LowerError::UnresolvedPolymorphism { .. }) => {}
            other => panic!("{source}: {other:?}"),
        }
    }
    match lower("1 2 + drop dup") {
        Err(LowerError::UnresolvedPolymorphism { span }) => assert_eq!(span.parts(), (11, 14)),
        other => panic!("{other:?}"),
    }
}

#[test]
fn words_without_sizes_need_no_types() {
    let (procs, _) = lower("puts + exit").unwrap();
    assert_eq!(opcodes(&procs[0]), vec!["Puts", "Add", "Exit"]);
    let (procs, _) = lower("apply").unwrap();
    assert_eq!(opcodes(&procs[0]), vec!["Apply"]);
}

#[test]
fn unknown_word() {
    let item = Item::new(
        ItemKind::Word(Signature::new(vec![], vec![]), "frobnicate"),
        Span::new(4, 14),
    );
    match Compiler::compile(vec![item]) {
        Err(LowerError::UnknownWord { span }) => assert_eq!(span.parts(), (4, 14)),
        other => panic!("{other:?}"),
    }
}

#[test]
fn signature_without_inputs() {
    let item = Item::new(
        ItemKind::Word(Signature::new(vec![Type::Int], vec![]), "swap"),
        Span::new(0, 4),
    );
    assert!(matches!(
        Compiler::compile(vec![item]),
        Err(LowerError::UnresolvedPolymorphism { .. })
    ));
    let item = Item::new(
        ItemKind::Word(Signature::new(vec![], vec![]), "dup"),
        Span::new(0, 3),
    );
    assert!(matches!(
        Compiler::compile(vec![item]),
        Err(LowerError::UnresolvedPolymorphism { .. })
    ));
}

#[test]
fn the_first_error_ends_lowering() {
    let a = Item::new(ItemKind::Word(Signature::new(vec![], vec![]), "nope"), Span::new(0, 4));
    let b = Item::new(ItemKind::Word(Signature::new(vec![], vec![]), "dup"), Span::new(5, 8));
    assert!(matches!(
        Compiler::compile(vec![a, b]),
        Err(LowerError::UnknownWord { .. })
    ));
}

#[test]
fn lowering_nothing() {
    let (procs, literals) = Compiler::compile(vec![]).unwrap();
    assert_eq!(procs.len(), 1);
    assert!(procs[0].code().is_empty());
    assert!(literals.is_empty());
    let compiler = Compiler::new();
    assert!(compiler.procs.is_empty());
    assert!(compiler.string_literals.is_empty());
}

#[test]
fn labels_and_procs() {
    let label = Label::new(7, Some("seven"));
    assert_eq!(label.id(), 7);
    assert_eq!(label.name(), Some("seven"));
    let proc = Proc::new(label);
    assert_eq!(proc.label().id(), 7);
    assert!(proc.code().is_empty());
}

#[test]
fn type_sizes() {
    assert_eq!(Type::Int.size(), Some(1));
    assert_eq!(Type::Bool.size(), Some(1));
    assert_eq!(Type::String.size(), Some(2));
    assert_eq!(Type::Quotation(Signature::new(vec![], vec![])).size(), Some(1));
    assert_eq!(Type::Var(0).size(), None);
    assert_eq!(Type::MultiVar(3).size(), None);
}

#[test]
fn over_takes_its_sizes_from_the_deeper_value_first() {
    let (procs, _) = lower(r#"1 "s" over"#).unwrap();
    assert_eq!(
        opcodes(&procs[0]),
        vec!["PushInt(1)", "PushString(0)", "Over { size_a: 1, size_b: 2 }"]
    );
}
