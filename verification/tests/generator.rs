use zila::compiler::{Instruction, Label, Proc};
use zila::lexer::Span;
use zila::x86_64gen::{GenerateError, Generator};

const HEAD: &str = "section .bss\nalign 8\ndata_stack: resq 1024\nsection .rodata\n";
const ENTRY: &str = "section .text\nglobal _start\n_start:\n    lea rcx, [rel data_stack]\n    call proc_0\n    mov rax, 60\n    xor rdi, rdi\n    syscall\n";

fn proc_of(id: usize, name: Option<&'static str>, code: Vec<Instruction<'static>>) -> Proc<'static> {
    let mut proc = Proc::new(Label::new(id, name));
    for (i, instruction) in code.into_iter().enumerate() {
        proc.code.push((Span::new(i, i + 1), instruction));
    }
    proc
}

fn body(instruction: Instruction<'static>, literals: &[String]) -> String {
    let procs = vec![proc_of(0, None, vec![instruction])];
    let text = Generator::generate(&procs, literals).unwrap();
    let mut data = String::new();
    for (i, literal) in literals.iter().enumerate() {
        let bytes: Vec<String> = literal.bytes().map(|b| b.to_string()).collect();
        if bytes.is_empty() {
            data.push_str(&format!("str_{i}:\n"));
        } else {
            data.push_str(&format!("str_{i}: db {}\n", bytes.join(",")));
        }
    }
    let prefix = format!("{HEAD}{data}{ENTRY}proc_0:\n");
    let suffix = "    ; RETURN\n    ret\n";
    assert!(text.starts_with(&prefix), "{text}");
    assert!(text.ends_with(suffix), "{text}");
    text[prefix.len()..text.len() - suffix.len()].to_string()
}

#[test]
fn program_without_procedures() {
    let text = Generator::generate(&[], &[]).unwrap();
    assert_eq!(text, format!("{HEAD}{ENTRY}"));
}

#[test]
fn labels() {
    let procs = vec![
        proc_of(0, None, vec![]),
        proc_of(1, Some("main"), vec![]),
        proc_of(12, None, vec![]),
    ];
    let text = Generator::generate(&procs, &[]).unwrap();
    assert_eq!(
        text,
        format!(
            "{HEAD}{ENTRY}proc_0:\n    ; RETURN\n    ret\nproc_1_main:\n    ; RETURN\n    ret\nproc_12:\n    ; RETURN\n    ret\n"
        )
    );
}

#[test]
fn string_pool() {
    let literals = vec!["hi\n".to_string(), String::new(), "é".to_string()];
    let text = Generator::generate(&[], &literals).unwrap();
    assert_eq!(
        text,
        format!("{HEAD}str_0: db 104,105,10\nstr_1:\nstr_2: db 195,169\n{ENTRY}")
    );
}

#[test]
fn push_int() {
    assert_eq!(
        body(Instruction::PushInt(42), &[]),
        "    ; Span { start: 0, end: 1 } -- PUSHINT\n    mov qword [rcx], 42\n    add rcx, 8\n"
    );
    assert_eq!(
        body(Instruction::PushInt(-7), &[]),
        "    ; Span { start: 0, end: 1 } -- PUSHINT\n    mov qword [rcx], -7\n    add rcx, 8\n"
    );
}

#[test]
fn push_bool_is_all_ones_or_zero() {
    assert_eq!(
        body(Instruction::PushBool(true), &[]),
        "    ; Span { start: 0, end: 1 } -- PUSHBOOL\n    mov qword [rcx], -1\n    add rcx, 8\n"
    );
    assert_eq!(
        body(Instruction::PushBool(false), &[]),
        "    ; Span { start: 0, end: 1 } -- PUSHBOOL\n    mov qword [rcx], 0\n    add rcx, 8\n"
    );
}

#[test]
fn push_string() {
    let literals = vec!["a".to_string(), "héllo".to_string()];
    assert_eq!(
        body(Instruction::PushString(1), &literals),
        "    ; Span { start: 0, end: 1 } -- PUSHSTRING\n    lea rax, [rel str_1]\n    mov [rcx], rax\n    mov qword [rcx + 8], 6\n    add rcx, 16\n"
    );
}

#[test]
fn push_quote() {
    assert_eq!(
        body(Instruction::PushQuote(Label::new(3, None)), &[]),
        "    ; Span { start: 0, end: 1 } -- PUSHQUOTE\n    mov qword [rcx], proc_3\n    add rcx, 8\n"
    );
    assert_eq!(
        body(Instruction::PushQuote(Label::new(3, Some("f"))), &[]),
        "    ; Span { start: 0, end: 1 } -- PUSHQUOTE\n    mov qword [rcx], proc_3_f\n    add rcx, 8\n"
    );
}

#[test]
fn arithmetic() {
    assert_eq!(
        body(Instruction::Add, &[]),
        "    ; Span { start: 0, end: 1 } -- ADD\n    mov rax, [rcx - 8]\n    add [rcx - 16], rax\n    sub rcx, 8\n"
    );
    assert_eq!(
        body(Instruction::Sub, &[]),
        "    ; Span { start: 0, end: 1 } -- SUB\n    mov rax, [rcx - 8]\n    sub [rcx - 16], rax\n    sub rcx, 8\n"
    );
    assert_eq!(
        body(Instruction::Mul, &[]),
        "    ; Span { start: 0, end: 1 } -- MUL\n    mov rax, [rcx - 16]\n    imul rax, [rcx - 8]\n    mov [rcx - 16], rax\n    sub rcx, 8\n"
    );
}

#[test]
fn exit_and_puts_and_apply() {
    assert_eq!(
        body(Instruction::Exit, &[]),
        "    ; Span { start: 0, end: 1 } -- EXIT\n    mov rax, 60\n    mov rdi, [rcx - 8]\n    syscall\n"
    );
    assert_eq!(
        body(Instruction::Puts, &[]),
        "    ; Span { start: 0, end: 1 } -- PUTS\n    mov rdi, 1\n    mov rsi, [rcx - 16]\n    mov rdx, [rcx - 8]\n    mov rax, 1\n    mov r8, rcx\n    syscall\n    mov rcx, r8\n    sub rcx, 16\n"
    );
    assert_eq!(
        body(Instruction::Apply, &[]),
        "    ; Span { start: 0, end: 1 } -- APPLY\n    sub rcx, 8\n    call [rcx]\n"
    );
}

#[test]
fn dup_and_drop() {
    assert_eq!(
        body(Instruction::Dup { size: 1 }, &[]),
        "    ; Span { start: 0, end: 1 } -- DUP\n    mov rax, [rcx - 8]\n    mov [rcx + 0], rax\n    add rcx, 8\n"
    );
    assert_eq!(
        body(Instruction::Dup { size: 2 }, &[]),
        "    ; Span { start: 0, end: 1 } -- DUP\n    mov rax, [rcx - 16]\n    mov [rcx + 0], rax\n    mov rax, [rcx - 8]\n    mov [rcx + 8], rax\n    add rcx, 16\n"
    );
    assert_eq!(
        body(Instruction::Drop { size: 2 }, &[]),
        "    ; Span { start: 0, end: 1 } -- DROP\n    sub rcx, 16\n"
    );
    assert_eq!(
        body(Instruction::Dup { size: 0 }, &[]),
        "    ; Span { start: 0, end: 1 } -- DUP\n    add rcx, 0\n"
    );
}

#[test]
fn over_copies_the_value_below_the_top() {
    assert_eq!(
        body(Instruction::Over { size_a: 1, size_b: 1 }, &[]),
        "    ; Span { start: 0, end: 1 } -- OVER\n    mov rax, [rcx - 16]\n    mov [rcx + 0], rax\n    add rcx, 8\n"
    );
    assert_eq!(
        body(Instruction::Over { size_a: 1, size_b: 2 }, &[]),
        "    ; Span { start: 0, end: 1 } -- OVER\n    mov rax, [rcx - 24]\n    mov [rcx + 0], rax\n    add rcx, 8\n"
    );
    assert_eq!(
        body(Instruction::Over { size_a: 2, size_b: 1 }, &[]),
        "    ; Span { start: 0, end: 1 } -- OVER\n    mov rax, [rcx - 24]\n    mov [rcx + 0], rax\n    mov rax, [rcx - 16]\n    mov [rcx + 8], rax\n    add rcx, 16\n"
    );
}

#[test]
fn swap() {
    assert_eq!(
        body(Instruction::Swap { size_a: 1, size_b: 1 }, &[]),
        "    ; Span { start: 0, end: 1 } -- SWAP\n    mov rax, [rcx - 8]\n    mov [rsp - 8], rax\n    mov rax, [rcx - 16]\n    mov [rcx - 8], rax\n    mov rax, [rsp - 8]\n    mov [rcx - 16], rax\n"
    );
    assert_eq!(
        body(Instruction::Swap { size_a: 1, size_b: 2 }, &[]),
        "    ; Span { start: 0, end: 1 } -- SWAP\n    mov rax, [rcx - 8]\n    mov [rsp - 8], rax\n    mov rax, [rcx - 16]\n    mov [rsp - 16], rax\n    mov rax, [rcx - 24]\n    mov [rcx - 8], rax\n    mov rax, [rsp - 8]\n    mov [rcx - 16], rax\n    mov rax, [rsp - 16]\n    mov [rcx - 24], rax\n"
    );
}

#[test]
fn branch_selects_by_masks() {
    assert_eq!(
        body(Instruction::Branch { size: 1 }, &[]),
        "    ; Span { start: 0, end: 1 } -- BRANCH\n    mov rax, [rcx - 8]\n    mov rbx, rax\n    not rbx\n    mov rdx, [rcx - 24]\n    and rdx, rax\n    mov rsi, [rcx - 16]\n    and rsi, rbx\n    or rdx, rsi\n    mov [rcx - 24], rdx\n    sub rcx, 16\n"
    );
    assert_eq!(
        body(Instruction::Branch { size: 2 }, &[]),
        "    ; Span { start: 0, end: 1 } -- BRANCH\n    mov rax, [rcx - 8]\n    mov rbx, rax\n    not rbx\n    mov rdx, [rcx - 40]\n    and rdx, rax\n    mov rsi, [rcx - 24]\n    and rsi, rbx\n    or rdx, rsi\n    mov [rcx - 40], rdx\n    mov rdx, [rcx - 32]\n    and rdx, rax\n    mov rsi, [rcx - 16]\n    and rsi, rbx\n    or rdx, rsi\n    mov [rcx - 32], rdx\n    sub rcx, 24\n"
    );
}

#[test]
fn division_is_not_implemented() {
    let procs = vec![proc_of(0, None, vec![Instruction::PushInt(1), Instruction::Div])];
    match Generator::generate(&procs, &[]) {
        Err(GenerateError::Unimplemented { span }) => assert_eq!(span, Span::new(1, 2)),
        other => panic!("{other:?}"),
    }
}

#[test]
fn missing_string() {
    let literals = vec!["a".to_string()];
    let procs = vec![
        proc_of(0, None, vec![Instruction::PushString(0)]),
        proc_of(1, None, vec![Instruction::Add, Instruction::PushString(1), Instruction::Div]),
    ];
    match Generator::generate(&procs, &literals) {
        Err(GenerateError::MissingString { span, index }) => {
            assert_eq!(span, Span::new(1, 2));
            assert_eq!(index, 1);
        }
        other => panic!("{other:?}"),
    }
}

#[test]
fn first_fault_wins() {
    let procs = vec![
        proc_of(0, None, vec![Instruction::Div]),
        proc_of(1, None, vec![Instruction::PushString(9)]),
    ];
    assert!(matches!(
        Generator::generate(&procs, &[]),
        Err(GenerateError::Unimplemented { .. })
    ));
}

#[test]
fn generator_holds_its_program() {
    let procs = vec![proc_of(0, None, vec![Instruction::Add])];
    let literals = vec!["x".to_string()];
    let generator = Generator::new(&procs, &literals);
    assert_eq!(generator.procs.len(), 1);
    assert_eq!(generator.string_literals, &literals[..]);
}
