use zila::analyzer::{Analyzer, CompileError, ItemKind, Signature, Type};
use zila::compiler::{Compiler, Instruction, LowerError};
use zila::lexer::Lexer;
use zila::x86_64gen::Generator;

fn analyze(source: &str) -> Result<(Signature, Vec<zila::analyzer::Item<'_>>), CompileError<'_>> {
    Analyzer::analyze(Lexer::new(source).words())
}

fn show(signature: &Signature) -> String {
    format!("{:?} -> {:?}", signature.inputs, signature.outputs)
}

#[test]
fn one_plus_one() {
    let (signature, items) = analyze("1 1 +").unwrap();
    assert_eq!(show(&signature), "[] -> [Int]");
    let (procs, literals) = Compiler::compile(items).unwrap();
    assert_eq!(procs.len(), 1);
    assert!(literals.is_empty());
    let code = procs[0].code();
    assert_eq!(code.len(), 3);
    assert!(matches!(code[0].1, Instruction::PushInt(1)));
    assert!(matches!(code[1].1, Instruction::PushInt(1)));
    assert!(matches!(code[2].1, Instruction::Add));
    let text = Generator::generate(&procs, &literals).unwrap();
    println!("{text}");
}

#[test]
fn hello() {
    let (signature, items) = analyze("\"hi\\n\" puts 0 exit").unwrap();
    assert_eq!(show(&signature), "[] -> []");
    let (procs, literals) = Compiler::compile(items).unwrap();
    assert_eq!(literals, vec!["hi\n".to_string()]);
    let text = Generator::generate(&procs, &literals).unwrap();
    println!("{text}");
    assert!(text.contains("str_0: db 104,105,10\n"));
}

#[test]
fn apply_quotation() {
    let (signature, _) = analyze("1 2 [ + ] apply").unwrap();
    assert_eq!(show(&signature), "[] -> [Int]");
    let (signature, _) = analyze("[ + ] apply").unwrap();
    assert_eq!(show(&signature), "[Int, Int] -> [Int]");
}

#[test]
fn select_quotation() {
    let (signature, items) = analyze("true [ 1 ] [ 2 ] ?").unwrap();
    assert_eq!(
        show(&signature),
        "[] -> [Quotation(Signature { inputs: [], outputs: [Int] })]"
    );
    let quotation = "Quotation(Signature { inputs: [], outputs: [Int] })";
    assert_eq!(items.len(), 4);
    for item in &items[1..3] {
        match item.kind() {
            ItemKind::Quotation(inner, _) => assert_eq!(show(inner), "[] -> [Int]"),
            other => panic!("{other:?}"),
        }
    }
    match items[3].kind() {
        ItemKind::Word(select, name) => {
            assert_eq!(*name, "?");
            assert_eq!(
                show(select),
                format!("[{quotation}, {quotation}, Bool] -> [{quotation}]")
            );
        }
        other => panic!("{other:?}"),
    }
    let (procs, literals) = Compiler::compile(items).unwrap();
    assert_eq!(procs.len(), 3);
    assert_eq!(
        format!("{:?}", procs[0].code().last().unwrap().1),
        "Branch { size: 1 }"
    );
    let text = Generator::generate(&procs, &literals).unwrap();
    assert!(text.contains(
        "-- BRANCH\n    mov rax, [rcx - 8]\n    mov rbx, rax\n    not rbx\n    mov rdx, [rcx - 24]\n"
    ));
    println!("{text}");
}

#[test]
fn polymorphic_program() {
    let (signature, items) = analyze("dup swap drop").unwrap();
    println!("{}", show(&signature));
    assert_eq!(signature.inputs.len(), 1);
    assert_eq!(signature.outputs.len(), 1);
    match (&signature.inputs[0], &signature.outputs[0]) {
        (Type::Var(a), Type::Var(b)) => assert_eq!(a, b),
        _ => panic!("not a variable"),
    }
    assert!(matches!(
        Compiler::compile(items),
        Err(LowerError::UnresolvedPolymorphism { .. })
    ));
}

#[test]
fn missing_operands() {
    let (signature, _) = analyze("+ +").unwrap();
    assert_eq!(show(&signature), "[Int, Int, Int] -> [Int]");
}

#[test]
fn higher_order() {
    let (signature, items) = analyze("1 2 [ + ] [ apply ] apply").unwrap();
    assert_eq!(show(&signature), "[] -> [Int]");
    for item in &items {
        println!("{:?}", item);
    }
    let (signature, _) = analyze("[ 1 \"s\" ] apply").unwrap();
    assert_eq!(show(&signature), "[] -> [Int, String]");
    let (signature, _) = analyze("1 \"s\" swap").unwrap();
    assert_eq!(show(&signature), "[] -> [String, Int]");
    let (signature, _) = analyze("1 \"s\" over").unwrap();
    assert_eq!(show(&signature), "[] -> [Int, String, Int]");
    assert!(matches!(analyze("1 \"s\" +"), Err(CompileError::CannotExecSignature { .. })));
    assert!(matches!(analyze("1 foo"), Err(CompileError::UndefinedWord { .. })));
    assert!(matches!(analyze("[ 1"), Err(CompileError::UnmatchedBracket { .. })));
    assert!(matches!(analyze("1 ]"), Err(CompileError::UnmatchedBracket { .. })));
    let (signature, _) = analyze("apply").unwrap();
    println!("{}", show(&signature));
    assert!(matches!(analyze("dup apply"), Err(CompileError::CannotExecSignature { .. })));
}

fn rcx_sum(code: &str) -> i64 {
    let mut sum = 0;
    for line in code.lines() {
        let line = line.trim();
        if let Some(bytes) = line.strip_prefix("add rcx, ") {
            sum += bytes.parse::<i64>().unwrap();
        } else if let Some(bytes) = line.strip_prefix("sub rcx, ") {
            sum -= bytes.parse::<i64>().unwrap();
        }
    }
    sum
}

#[test]
fn a_program_without_effect_leaves_the_stack_where_it_was() {
    let source = "1 2 + drop \"s\" puts true 1 2 ? drop 1 \"x\" swap over drop drop drop 3 dup * drop";
    let (signature, items) = analyze(source).unwrap();
    assert_eq!(show(&signature), "[] -> []");
    let (procs, literals) = Compiler::compile(items).unwrap();
    let text = Generator::generate(&procs, &literals).unwrap();
    let code = &text[text.find("proc_0:").unwrap()..];
    assert_eq!(rcx_sum(code), 0);
    let (signature, items) = analyze("1 \"s\" over").unwrap();
    assert_eq!(show(&signature), "[] -> [Int, String, Int]");
    let (procs, literals) = Compiler::compile(items).unwrap();
    let text = Generator::generate(&procs, &literals).unwrap();
    let code = &text[text.find("proc_0:").unwrap()..];
    assert_eq!(rcx_sum(code), 8 + 16 + 8);
}

#[test]
fn every_quotation_moves_the_stack_by_its_signature() {
    let source = "1 [ 2 + ] apply drop [ \"s\" puts ] apply true [ 1 ] [ 2 ] ? apply drop";
    let (signature, items) = analyze(source).unwrap();
    assert_eq!(show(&signature), "[] -> []");
    let (procs, literals) = Compiler::compile(items).unwrap();
    assert_eq!(procs.len(), 5);
    let text = Generator::generate(&procs, &literals).unwrap();
    let starts: Vec<usize> = (0..5).map(|id| text.find(&format!("proc_{id}:")).unwrap()).collect();
    let code_of = |id: usize| {
        let end = if id + 1 < 5 { starts[id + 1] } else { text.len() };
        &text[starts[id]..end]
    };
    // The last `apply` calls `[ 1 ]` or `[ 2 ]`, which puts there the 8 bytes
    // that the code of the program itself is short of.
    assert_eq!(rcx_sum(code_of(0)), -8);
    assert_eq!(rcx_sum(code_of(1)), 0);
    assert_eq!(rcx_sum(code_of(2)), 0);
    assert_eq!(rcx_sum(code_of(3)), 8);
    assert_eq!(rcx_sum(code_of(4)), 8);
}
