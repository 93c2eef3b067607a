use zila::analyzer::CompileError;
use zila::compiler::LowerError;
use zila::driver::{compile, BuildError};
use zila::lexer::Lexer;
use zila::x86_64gen::GenerateError;

fn build(source: &str) -> Result<String, BuildError<'_>> {
    compile(Lexer::new(source).words())
}

#[test]
fn whole_program() {
    let text = build("\"hi\\n\" puts 0 exit").unwrap();
    assert_eq!(
        text,
        "section .bss\nalign 8\ndata_stack: resq 1024\nsection .rodata\nstr_0: db 104,105,10\nsection .text\nglobal _start\n_start:\n    lea rcx, [rel data_stack]\n    call proc_0\n    mov rax, 60\n    xor rdi, rdi\n    syscall\nproc_0:\n    ; Span { start: 0, end: 6 } -- PUSHSTRING\n    lea rax, [rel str_0]\n    mov [rcx], rax\n    mov qword [rcx + 8], 3\n    add rcx, 16\n    ; Span { start: 7, end: 11 } -- PUTS\n    mov rdi, 1\n    mov rsi, [rcx - 16]\n    mov rdx, [rcx - 8]\n    mov rax, 1\n    mov r8, rcx\n    syscall\n    mov rcx, r8\n    sub rcx, 16\n    ; Span { start: 12, end: 13 } -- PUSHINT\n    mov qword [rcx], 0\n    add rcx, 8\n    ; Span { start: 14, end: 18 } -- EXIT\n    mov rax, 60\n    mov rdi, [rcx - 8]\n    syscall\n    ; RETURN\n    ret\n"
    );
}

#[test]
fn quotation_and_apply() {
    let text = build("1 2 [ + ] apply").unwrap();
    assert!(text.ends_with(
        "proc_0:\n    ; Span { start: 0, end: 1 } -- PUSHINT\n    mov qword [rcx], 1\n    add rcx, 8\n    ; Span { start: 2, end: 3 } -- PUSHINT\n    mov qword [rcx], 2\n    add rcx, 8\n    ; Span { start: 4, end: 5 } -- PUSHQUOTE\n    mov qword [rcx], proc_1\n    add rcx, 8\n    ; Span { start: 10, end: 15 } -- APPLY\n    sub rcx, 8\n    call [rcx]\n    ; RETURN\n    ret\nproc_1:\n    ; Span { start: 6, end: 7 } -- ADD\n    mov rax, [rcx - 8]\n    add [rcx - 16], rax\n    sub rcx, 8\n    ; RETURN\n    ret\n"
    ));
}

#[test]
fn the_first_stage_that_fails_ends_it() {
    assert!(matches!(
        build("1 nope /"),
        Err(BuildError::Analysis(CompileError::UndefinedWord { .. }))
    ));
    assert!(matches!(
        build("dup 1 2 /"),
        Err(BuildError::Lowering(LowerError::UnresolvedPolymorphism { .. }))
    ));
    match build("4 2 / exit") {
        Err(BuildError::Generation(GenerateError::Unimplemented { span })) => {
            assert_eq!(span.parts(), (4, 5))
        }
        other => panic!("{other:?}"),
    }
    assert!(build("").is_ok());
}
