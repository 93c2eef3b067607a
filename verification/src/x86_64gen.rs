//! Emission of NASM assembly for x86-64 Linux from lowered procedures.
//!
//! The generated program keeps its data stack in `.bss`. Register `rcx` holds the
//! address of the next free cell and the stack grows upwards, so the value on top
//! ends at `[rcx - 8]`.

use vstd::prelude::*;
use vstd::string::*;
use crate::compiler::{Instruction, Label, Proc, ProcModel, literal_models, proc_models};
use crate::lexer::Span;
use crate::text::{concat_range, decimal, push_decimal, push_signed_decimal, signed_decimal};

verus! {

/// Why no assembly was produced.
#[derive(Debug, Clone, Copy)]
pub enum GenerateError {
    /// The instruction at `span` has no code sequence yet.
    Unimplemented { span: Span },
    /// The instruction at `span` names a string literal that the pool does not hold.
    MissingString { span: Span, index: usize },
}

/// `prefix`, the decimal numeral of `n`, `suffix`.
pub open spec fn numbered(prefix: Seq<char>, n: nat, suffix: Seq<char>) -> Seq<char> {
    prefix + decimal(n) + suffix
}

/// The line that moves the top of the data stack up by `bytes` bytes.
pub open spec fn grow_text(bytes: nat) -> Seq<char> {
    numbered("    add rcx, "@, bytes, "\n"@)
}

/// The line that moves the top of the data stack down by `bytes` bytes.
pub open spec fn shrink_text(bytes: nat) -> Seq<char> {
    numbered("    sub rcx, "@, bytes, "\n"@)
}

pub open spec fn span_text(span: Span) -> Seq<char> {
    "Span { start: "@ + decimal(span.start as nat) + ", end: "@ + decimal(span.end as nat) + " }"@
}

/// The comment line that precedes the code of every instruction.
pub open spec fn comment_text(span: Span, opcode: Seq<char>) -> Seq<char> {
    "    ; "@ + span_text(span) + " -- "@ + opcode + "\n"@
}

pub open spec fn label_text(label: Label) -> Seq<char> {
    "proc_"@ + decimal(label.id as nat) + match label.name {
        Some(name) => "_"@ + name@,
        None => Seq::empty(),
    }
}

fn emit_numbered(out: &mut String, prefix: &str, n: u128, suffix: &str)
    ensures
        final(out)@ == old(out)@ + numbered(prefix@, n as nat, suffix@),
{
    out.append(prefix);
    push_decimal(out, n);
    out.append(suffix);
    assert(out@ =~= old(out)@ + numbered(prefix@, n as nat, suffix@));
}

fn emit_grow(out: &mut String, bytes: u128)
    ensures
        final(out)@ == old(out)@ + grow_text(bytes as nat),
{
    emit_numbered(out, "    add rcx, ", bytes, "\n");
}

fn emit_shrink(out: &mut String, bytes: u128)
    ensures
        final(out)@ == old(out)@ + shrink_text(bytes as nat),
{
    emit_numbered(out, "    sub rcx, ", bytes, "\n");
}

fn emit_comment(out: &mut String, span: Span, opcode: &str)
    ensures
        final(out)@ == old(out)@ + comment_text(span, opcode@),
{
    out.append("    ; ");
    out.append("Span { start: ");
    push_decimal(out, span.start as u128);
    out.append(", end: ");
    push_decimal(out, span.end as u128);
    out.append(" }");
    out.append(" -- ");
    out.append(opcode);
    out.append("\n");
    assert(out@ =~= old(out)@ + comment_text(span, opcode@));
}

fn emit_label(out: &mut String, label: Label)
    ensures
        final(out)@ == old(out)@ + label_text(label),
{
    out.append("proc_");
    push_decimal(out, label.id as u128);
    match label.name {
        Some(name) => {
            out.append("_");
            out.append(name);
            assert(out@ =~= old(out)@ + label_text(label));
        },
        None => {
            assert(out@ =~= old(out)@ + label_text(label));
        },
    }
}


/// Copying the cell that lies `from` bytes below `rcx` to the one `to` bytes above it.
pub open spec fn copy_cell_text(from: nat, to: nat) -> Seq<char> {
    numbered("    mov rax, [rcx - "@, from, "]\n"@) + numbered("    mov [rcx + "@, to, "], rax\n"@)
}

/// Pushing a copy of the `size` cells that begin `depth` cells below the top.
pub open spec fn copy_up_text(depth: nat, size: nat) -> Seq<char> {
    concat_range(size, |i: int| copy_cell_text((8 * (depth - i)) as nat, (8 * i) as nat))
        + grow_text(8 * size)
}

pub open spec fn swap_save_text(i: int) -> Seq<char> {
    numbered("    mov rax, [rcx - "@, (8 * (i + 1)) as nat, "]\n"@)
        + numbered("    mov [rsp - "@, (8 * (i + 1)) as nat, "], rax\n"@)
}

pub open spec fn swap_slide_text(top: nat, i: int) -> Seq<char> {
    numbered("    mov rax, [rcx - "@, (8 * top + 8 * (i + 1)) as nat, "]\n"@)
        + numbered("    mov [rcx - "@, (8 * (i + 1)) as nat, "], rax\n"@)
}

pub open spec fn swap_restore_text(below: nat, i: int) -> Seq<char> {
    numbered("    mov rax, [rsp - "@, (8 * (i + 1)) as nat, "]\n"@)
        + numbered("    mov [rcx - "@, (8 * below + 8 * (i + 1)) as nat, "], rax\n"@)
}

/// Exchanging the `top` cells on top with the `below` cells below them. The
/// cells on top wait below `rsp` while the others slide up.
pub open spec fn swap_text(top: nat, below: nat) -> Seq<char> {
    concat_range(top, |i: int| swap_save_text(i))
        + concat_range(below, |i: int| swap_slide_text(top, i))
        + concat_range(top, |i: int| swap_restore_text(below, i))
}

/// Selecting cell `i` of a value of `size` cells. The condition is in `rax` and its
/// complement in `rbx`; the result replaces the cell of the value for `true`.
pub open spec fn branch_cell_text(size: nat, i: int) -> Seq<char> {
    numbered("    mov rdx, [rcx - "@, (8 * (2 * size + 1 - i)) as nat, "]\n"@)
        + "    and rdx, rax\n"@
        + numbered("    mov rsi, [rcx - "@, (8 * (size + 1 - i)) as nat, "]\n"@)
        + "    and rsi, rbx\n"@
        + "    or rdx, rsi\n"@
        + numbered("    mov [rcx - "@, (8 * (2 * size + 1 - i)) as nat, "], rdx\n"@)
}

/// Branchless selection between two values of `size` cells each. The condition is
/// the one cell on top; below it lies the value for `false`, and below that the
/// value for `true`. The result is written over the value for `true`, and the
/// other `size + 1` cells are given up.
///
/// The analysis takes the inputs of `?` off the stack in the order of its
/// list, the first from the top, so in a program that reads `cond a b ?` the
/// condition is the deepest of the three values and not the cell that this
/// code reads. Analysis and code agree on which value is the condition only
/// where all three are conditions.
pub open spec fn branch_text(size: nat) -> Seq<char> {
    "    mov rax, [rcx - 8]\n"@
        + "    mov rbx, rax\n"@
        + "    not rbx\n"@
        + concat_range(size, |i: int| branch_cell_text(size, i))
        + shrink_text(8 * (size + 1))
}

/// The name of an instruction as it stands in the comment above its code.
pub open spec fn opcode_text(instruction: Instruction) -> Seq<char> {
    match instruction {
        Instruction::PushInt(_) => "PUSHINT"@,
        Instruction::PushBool(_) => "PUSHBOOL"@,
        Instruction::PushString(_) => "PUSHSTRING"@,
        Instruction::PushQuote(_) => "PUSHQUOTE"@,
        Instruction::Add => "ADD"@,
        Instruction::Sub => "SUB"@,
        Instruction::Mul => "MUL"@,
        Instruction::Div => "DIV"@,
        Instruction::Exit => "EXIT"@,
        Instruction::Puts => "PUTS"@,
        Instruction::Dup { .. } => "DUP"@,
        Instruction::Swap { .. } => "SWAP"@,
        Instruction::Drop { .. } => "DROP"@,
        Instruction::Over { .. } => "OVER"@,
        Instruction::Apply => "APPLY"@,
        Instruction::Branch { .. } => "BRANCH"@,
    }
}

pub open spec fn push_int_text(value: int) -> Seq<char> {
    "    mov qword [rcx], "@ + signed_decimal(value) + "\n"@ + grow_text(8)
}

/// `true` is all ones and `false` all zeros, as the selection by masks needs it.
pub open spec fn push_bool_text(value: bool) -> Seq<char> {
    (if value {
        "    mov qword [rcx], -1\n"@
    } else {
        "    mov qword [rcx], 0\n"@
    }) + grow_text(8)
}

/// Pushing the address and the length in bytes of string literal `index`.
pub open spec fn push_string_text(index: nat, length: nat) -> Seq<char> {
    numbered("    lea rax, [rel str_"@, index, "]\n"@) + "    mov [rcx], rax\n"@ + numbered(
        "    mov qword [rcx + 8], "@,
        length,
        "\n"@,
    ) + grow_text(16)
}

pub open spec fn push_quote_text(label: Label) -> Seq<char> {
    "    mov qword [rcx], "@ + label_text(label) + "\n"@ + grow_text(8)
}

pub open spec fn add_text() -> Seq<char> {
    "    mov rax, [rcx - 8]\n"@ + "    add [rcx - 16], rax\n"@ + shrink_text(8)
}

pub open spec fn sub_text() -> Seq<char> {
    "    mov rax, [rcx - 8]\n"@ + "    sub [rcx - 16], rax\n"@ + shrink_text(8)
}

pub open spec fn mul_text() -> Seq<char> {
    "    mov rax, [rcx - 16]\n"@ + "    imul rax, [rcx - 8]\n"@ + "    mov [rcx - 16], rax\n"@
        + shrink_text(8)
}

pub open spec fn exit_text() -> Seq<char> {
    "    mov rax, 60\n"@ + "    mov rdi, [rcx - 8]\n"@ + "    syscall\n"@
}

/// Writing the string on top to standard output. The system call overwrites `rcx`,
/// which therefore waits in `r8`.
pub open spec fn puts_text() -> Seq<char> {
    "    mov rdi, 1\n"@ + "    mov rsi, [rcx - 16]\n"@ + "    mov rdx, [rcx - 8]\n"@
        + "    mov rax, 1\n"@ + "    mov r8, rcx\n"@ + "    syscall\n"@ + "    mov rcx, r8\n"@
        + shrink_text(16)
}

pub open spec fn drop_text(size: nat) -> Seq<char> {
    shrink_text(8 * size)
}

pub open spec fn apply_text() -> Seq<char> {
    shrink_text(8) + "    call [rcx]\n"@
}

/// The code of one instruction, without its comment. `literals` is the string pool.
///
/// In `Swap` and `Over`, `size_a` is the size of the deeper value and `size_b`
/// that of the value on top, as the inputs of the words list them. `Swap`
/// therefore parks the `size_b` cells on top, and `Over` copies the `size_a`
/// cells that begin `size_a + size_b` cells below the top.
pub open spec fn operation_text(instruction: Instruction, literals: Seq<Seq<char>>) -> Seq<char> {
    match instruction {
        Instruction::PushInt(value) => push_int_text(value as int),
        Instruction::PushBool(value) => push_bool_text(value),
        Instruction::PushString(index) => push_string_text(
            index as nat,
            vstd::utf8::encode_utf8(literals[index as int]).len(),
        ),
        Instruction::PushQuote(label) => push_quote_text(label),
        Instruction::Add => add_text(),
        Instruction::Sub => sub_text(),
        Instruction::Mul => mul_text(),
        Instruction::Div => Seq::empty(),
        Instruction::Exit => exit_text(),
        Instruction::Puts => puts_text(),
        Instruction::Dup { size } => copy_up_text(size as nat, size as nat),
        Instruction::Swap { size_a, size_b } => swap_text(size_b as nat, size_a as nat),
        Instruction::Drop { size } => drop_text(size as nat),
        Instruction::Over { size_a, size_b } => copy_up_text(
            (size_a + size_b) as nat,
            size_a as nat,
        ),
        Instruction::Apply => apply_text(),
        Instruction::Branch { size } => branch_text(size as nat),
    }
}

/// The comment and the code of one instruction.
pub open spec fn instruction_text(
    span: Span,
    instruction: Instruction,
    literals: Seq<Seq<char>>,
) -> Seq<char> {
    comment_text(span, opcode_text(instruction)) + operation_text(instruction, literals)
}

/// What keeps an instruction from being emitted, if anything does.
pub open spec fn instruction_fault(
    span: Span,
    instruction: Instruction,
    literals: Seq<Seq<char>>,
) -> Option<GenerateError> {
    match instruction {
        Instruction::Div => Some(GenerateError::Unimplemented { span }),
        Instruction::PushString(index) => if index >= literals.len() {
            Some(GenerateError::MissingString { span, index })
        } else {
            None
        },
        _ => None,
    }
}

fn emit_copy_up(out: &mut String, depth: u128, size: usize)
    requires
        size <= depth <= 2 * usize::MAX,
    ensures
        final(out)@ == old(out)@ + copy_up_text(depth as nat, size as nat),
{
    let ghost cell = |i: int| copy_cell_text((8 * (depth - i)) as nat, (8 * i) as nat);
    let mut i: usize = 0;
    while i < size
        invariant
            i <= size <= depth <= 2 * usize::MAX,
            cell == |i: int| copy_cell_text((8 * (depth - i)) as nat, (8 * i) as nat),
            out@ == old(out)@ + concat_range(i as nat, cell),
        decreases size - i,
    {
        let from: u128 = 8 * (depth - i as u128);
        let to: u128 = 8 * (i as u128);
        emit_numbered(out, "    mov rax, [rcx - ", from, "]\n");
        emit_numbered(out, "    mov [rcx + ", to, "], rax\n");
        i = i + 1;
        assert(out@ =~= old(out)@ + concat_range(i as nat, cell)) by {
            assert(concat_range(i as nat, cell) == concat_range((i - 1) as nat, cell) + cell(
                i - 1,
            ));
        }
    }
    emit_grow(out, 8 * (size as u128));
    assert(out@ =~= old(out)@ + copy_up_text(depth as nat, size as nat));
}


fn emit_swap(out: &mut String, top: usize, below: usize)
    ensures
        final(out)@ == old(out)@ + swap_text(top as nat, below as nat),
{
    let size_a = top;
    let size_b = below;
    let ghost save = |i: int| swap_save_text(i);
    let ghost slide = |i: int| swap_slide_text(size_a as nat, i);
    let ghost restore = |i: int| swap_restore_text(size_b as nat, i);
    let bytes_a: u128 = 8 * (size_a as u128);
    let bytes_b: u128 = 8 * (size_b as u128);
    let mut i: usize = 0;
    while i < size_a
        invariant
            i <= size_a,
            save == |i: int| swap_save_text(i),
            out@ == old(out)@ + concat_range(i as nat, save),
        decreases size_a - i,
    {
        let offset: u128 = 8 * (i as u128 + 1);
        emit_numbered(out, "    mov rax, [rcx - ", offset, "]\n");
        emit_numbered(out, "    mov [rsp - ", offset, "], rax\n");
        i = i + 1;
        assert(out@ =~= old(out)@ + concat_range(i as nat, save)) by {
            assert(concat_range(i as nat, save) == concat_range((i - 1) as nat, save) + save(
                i - 1,
            ));
        }
    }
    let ghost saved = out@;
    let mut i: usize = 0;
    while i < size_b
        invariant
            i <= size_b,
            bytes_a == 8 * size_a,
            slide == |i: int| swap_slide_text(size_a as nat, i),
            out@ == saved + concat_range(i as nat, slide),
        decreases size_b - i,
    {
        let offset: u128 = 8 * (i as u128 + 1);
        emit_numbered(out, "    mov rax, [rcx - ", bytes_a + offset, "]\n");
        emit_numbered(out, "    mov [rcx - ", offset, "], rax\n");
        i = i + 1;
        assert(out@ =~= saved + concat_range(i as nat, slide)) by {
            assert(concat_range(i as nat, slide) == concat_range((i - 1) as nat, slide) + slide(
                i - 1,
            ));
        }
    }
    let ghost slid = out@;
    let mut i: usize = 0;
    while i < size_a
        invariant
            i <= size_a,
            bytes_b == 8 * size_b,
            restore == |i: int| swap_restore_text(size_b as nat, i),
            out@ == slid + concat_range(i as nat, restore),
        decreases size_a - i,
    {
        let offset: u128 = 8 * (i as u128 + 1);
        emit_numbered(out, "    mov rax, [rsp - ", offset, "]\n");
        emit_numbered(out, "    mov [rcx - ", bytes_b + offset, "], rax\n");
        i = i + 1;
        assert(out@ =~= slid + concat_range(i as nat, restore)) by {
            assert(concat_range(i as nat, restore) == concat_range((i - 1) as nat, restore)
                + restore(i - 1));
        }
    }
    assert(out@ =~= old(out)@ + swap_text(size_a as nat, size_b as nat));
}

fn emit_branch(out: &mut String, size: usize)
    ensures
        final(out)@ == old(out)@ + branch_text(size as nat),
{
    let ghost cell = |i: int| branch_cell_text(size as nat, i);
    let wide: u128 = size as u128;
    out.append("    mov rax, [rcx - 8]\n");
    out.append("    mov rbx, rax\n");
    out.append("    not rbx\n");
    let ghost head = out@;
    let mut i: usize = 0;
    while i < size
        invariant
            i <= size,
            wide == size,
            cell == |i: int| branch_cell_text(size as nat, i),
            out@ == head + concat_range(i as nat, cell),
        decreases size - i,
    {
        let done: u128 = i as u128;
        emit_numbered(out, "    mov rdx, [rcx - ", 8 * (2 * wide + 1 - done), "]\n");
        out.append("    and rdx, rax\n");
        emit_numbered(out, "    mov rsi, [rcx - ", 8 * (wide + 1 - done), "]\n");
        out.append("    and rsi, rbx\n");
        out.append("    or rdx, rsi\n");
        emit_numbered(out, "    mov [rcx - ", 8 * (2 * wide + 1 - done), "], rdx\n");
        i = i + 1;
        assert(out@ =~= head + concat_range(i as nat, cell)) by {
            assert(concat_range(i as nat, cell) == concat_range((i - 1) as nat, cell) + cell(
                i - 1,
            ));
        }
    }
    emit_shrink(out, 8 * (wide + 1));
    assert(out@ =~= old(out)@ + branch_text(size as nat));
}

fn emit_push_int(out: &mut String, value: i64)
    ensures
        final(out)@ == old(out)@ + push_int_text(value as int),
{
    out.append("    mov qword [rcx], ");
    push_signed_decimal(out, value);
    out.append("\n");
    emit_grow(out, 8);
    assert(out@ =~= old(out)@ + push_int_text(value as int));
}

fn emit_push_bool(out: &mut String, value: bool)
    ensures
        final(out)@ == old(out)@ + push_bool_text(value),
{
    if value {
        out.append("    mov qword [rcx], -1\n");
    } else {
        out.append("    mov qword [rcx], 0\n");
    }
    emit_grow(out, 8);
    assert(out@ =~= old(out)@ + push_bool_text(value));
}

fn emit_push_string(out: &mut String, index: usize, length: usize)
    ensures
        final(out)@ == old(out)@ + push_string_text(index as nat, length as nat),
{
    emit_numbered(out, "    lea rax, [rel str_", index as u128, "]\n");
    out.append("    mov [rcx], rax\n");
    emit_numbered(out, "    mov qword [rcx + 8], ", length as u128, "\n");
    emit_grow(out, 16);
    assert(out@ =~= old(out)@ + push_string_text(index as nat, length as nat));
}

fn emit_push_quote(out: &mut String, label: Label)
    ensures
        final(out)@ == old(out)@ + push_quote_text(label),
{
    out.append("    mov qword [rcx], ");
    emit_label(out, label);
    out.append("\n");
    emit_grow(out, 8);
    assert(out@ =~= old(out)@ + push_quote_text(label));
}

fn emit_add(out: &mut String)
    ensures
        final(out)@ == old(out)@ + add_text(),
{
    out.append("    mov rax, [rcx - 8]\n");
    out.append("    add [rcx - 16], rax\n");
    emit_shrink(out, 8);
    assert(out@ =~= old(out)@ + add_text());
}

fn emit_sub(out: &mut String)
    ensures
        final(out)@ == old(out)@ + sub_text(),
{
    out.append("    mov rax, [rcx - 8]\n");
    out.append("    sub [rcx - 16], rax\n");
    emit_shrink(out, 8);
    assert(out@ =~= old(out)@ + sub_text());
}

fn emit_mul(out: &mut String)
    ensures
        final(out)@ == old(out)@ + mul_text(),
{
    out.append("    mov rax, [rcx - 16]\n");
    out.append("    imul rax, [rcx - 8]\n");
    out.append("    mov [rcx - 16], rax\n");
    emit_shrink(out, 8);
    assert(out@ =~= old(out)@ + mul_text());
}

fn emit_exit(out: &mut String)
    ensures
        final(out)@ == old(out)@ + exit_text(),
{
    out.append("    mov rax, 60\n");
    out.append("    mov rdi, [rcx - 8]\n");
    out.append("    syscall\n");
    assert(out@ =~= old(out)@ + exit_text());
}

fn emit_puts(out: &mut String)
    ensures
        final(out)@ == old(out)@ + puts_text(),
{
    out.append("    mov rdi, 1\n");
    out.append("    mov rsi, [rcx - 16]\n");
    out.append("    mov rdx, [rcx - 8]\n");
    out.append("    mov rax, 1\n");
    out.append("    mov r8, rcx\n");
    out.append("    syscall\n");
    out.append("    mov rcx, r8\n");
    emit_shrink(out, 16);
    assert(out@ =~= old(out)@ + puts_text());
}

fn emit_apply(out: &mut String)
    ensures
        final(out)@ == old(out)@ + apply_text(),
{
    emit_shrink(out, 8);
    out.append("    call [rcx]\n");
    assert(out@ =~= old(out)@ + apply_text());
}

fn opcode_name(instruction: &Instruction) -> (name: &'static str)
    ensures
        name@ == opcode_text(*instruction),
{
    match instruction {
        Instruction::PushInt(_) => "PUSHINT",
        Instruction::PushBool(_) => "PUSHBOOL",
        Instruction::PushString(_) => "PUSHSTRING",
        Instruction::PushQuote(_) => "PUSHQUOTE",
        Instruction::Add => "ADD",
        Instruction::Sub => "SUB",
        Instruction::Mul => "MUL",
        Instruction::Div => "DIV",
        Instruction::Exit => "EXIT",
        Instruction::Puts => "PUTS",
        Instruction::Dup { .. } => "DUP",
        Instruction::Swap { .. } => "SWAP",
        Instruction::Drop { .. } => "DROP",
        Instruction::Over { .. } => "OVER",
        Instruction::Apply => "APPLY",
        Instruction::Branch { .. } => "BRANCH",
    }
}


/// The instructions of `code` in order, each with its comment.
pub open spec fn code_text(code: Seq<(Span, Instruction)>, literals: Seq<Seq<char>>) -> Seq<char>
    decreases code.len(),
{
    if code.len() == 0 {
        Seq::empty()
    } else {
        code_text(code.drop_last(), literals) + instruction_text(
            code.last().0,
            code.last().1,
            literals,
        )
    }
}

/// The fault of the first instruction of `code` that has one.
pub open spec fn code_fault(code: Seq<(Span, Instruction)>, literals: Seq<Seq<char>>) -> Option<
    GenerateError,
>
    decreases code.len(),
{
    if code.len() == 0 {
        None
    } else {
        match code_fault(code.drop_last(), literals) {
            Some(fault) => Some(fault),
            None => instruction_fault(code.last().0, code.last().1, literals),
        }
    }
}

/// A procedure: its label, its instructions and the return.
pub open spec fn proc_text(proc: ProcModel, literals: Seq<Seq<char>>) -> Seq<char> {
    label_text(proc.label) + ":\n"@ + code_text(proc.code, literals) + "    ; RETURN\n"@
        + "    ret\n"@
}

pub open spec fn procs_text(procs: Seq<ProcModel>, literals: Seq<Seq<char>>) -> Seq<char>
    decreases procs.len(),
{
    if procs.len() == 0 {
        Seq::empty()
    } else {
        procs_text(procs.drop_last(), literals) + proc_text(procs.last(), literals)
    }
}

/// The fault of the first instruction, in the order of emission, that has one.
pub open spec fn procs_fault(procs: Seq<ProcModel>, literals: Seq<Seq<char>>) -> Option<GenerateError>
    decreases procs.len(),
{
    if procs.len() == 0 {
        None
    } else {
        match procs_fault(procs.drop_last(), literals) {
            Some(fault) => Some(fault),
            None => code_fault(procs.last().code, literals),
        }
    }
}

/// The operands of a `db` directive that defines `bytes`.
pub open spec fn data_text(bytes: Seq<u8>) -> Seq<char>
    decreases bytes.len(),
{
    if bytes.len() == 0 {
        Seq::empty()
    } else if bytes.len() == 1 {
        decimal(bytes[0] as nat)
    } else {
        data_text(bytes.drop_last()) + ","@ + decimal(bytes.last() as nat)
    }
}

/// The definition of string literal `index`: its UTF-8 bytes, without a terminator.
pub open spec fn literal_text(index: nat, literal: Seq<char>) -> Seq<char> {
    let bytes = vstd::utf8::encode_utf8(literal);
    numbered("str_"@, index, ":"@) + if bytes.len() == 0 {
        "\n"@
    } else {
        " db "@ + data_text(bytes) + "\n"@
    }
}

pub open spec fn literals_text(literals: Seq<Seq<char>>) -> Seq<char>
    decreases literals.len(),
{
    if literals.len() == 0 {
        Seq::empty()
    } else {
        literals_text(literals.drop_last()) + literal_text(
            (literals.len() - 1) as nat,
            literals.last(),
        )
    }
}

/// The data stack, the string pool and the entry point, which calls procedure 0
/// and then leaves with status 0.
pub open spec fn header_text(literals: Seq<Seq<char>>) -> Seq<char> {
    "section .bss\n"@ + "align 8\n"@ + "data_stack: resq 1024\n"@ + "section .rodata\n"@
        + literals_text(literals) + "section .text\n"@ + "global _start\n"@ + "_start:\n"@
        + "    lea rcx, [rel data_stack]\n"@ + "    call proc_0\n"@ + "    mov rax, 60\n"@
        + "    xor rdi, rdi\n"@ + "    syscall\n"@
}

/// The whole assembly file.
pub open spec fn program_text(procs: Seq<ProcModel>, literals: Seq<Seq<char>>) -> Seq<char> {
    header_text(literals) + procs_text(procs, literals)
}

/// What `generate` returns for a program.
pub open spec fn generated(procs: Seq<ProcModel>, literals: Seq<Seq<char>>) -> Result<
    Seq<char>,
    GenerateError,
> {
    match procs_fault(procs, literals) {
        Some(fault) => Err(fault),
        None => Ok(program_text(procs, literals)),
    }
}

pub struct Generator<'src> {
    pub procs: &'src [Proc<'src>],
    pub string_literals: &'src [String],
}

impl<'src> Generator<'src> {
    pub fn new(procs: &'src [Proc<'src>], string_literals: &'src [String]) -> (generator: Self)
        ensures
            generator.procs@ == procs@,
            generator.string_literals@ == string_literals@,
    {
        Self { procs, string_literals }
    }

    /// Renders the program as NASM source. Fails on the first instruction, in the
    /// order of emission, that cannot be rendered.
    pub fn generate(procs: &'src [Proc<'src>], string_literals: &'src [String]) -> (result: Result<
        String,
        GenerateError,
    >)
        ensures
            match generated(proc_models(procs@), literal_models(string_literals@)) {
                Ok(text) => result is Ok && result->Ok_0@ == text,
                Err(fault) => result == Err::<String, GenerateError>(fault),
            },
    {
        let generator = Self::new(procs, string_literals);
        let mut out = String::new();
        generator.gen_header(&mut out);
        let ghost header = out@;
        let ghost program = proc_models(procs@);
        let ghost pool = literal_models(string_literals@);
        assert(program.len() == procs@.len());
        let mut i: usize = 0;
        while i < procs.len()
            invariant
                i <= procs.len(),
                generator.procs@ == procs@,
                generator.string_literals@ == string_literals@,
                program == proc_models(procs@),
                program.len() == procs@.len(),
                pool == literal_models(string_literals@),
                header == header_text(pool),
                procs_fault(program.take(i as int), pool) is None,
                out@ == header + procs_text(program.take(i as int), pool),
            decreases procs.len() - i,
        {
            assert(program.take(i + 1).drop_last() =~= program.take(i as int));
            assert(program.take(i + 1).last() == procs@[i as int].model());
            match generator.gen_proc(&procs[i], &mut out) {
                Err(fault) => {
                    assert(procs_fault(program.take(i + 1), pool) == Some(fault));
                    proof {
                        lemma_procs_fault_extends(program, pool, i + 1);
                    }
                    return Err(fault);
                },
                Ok(()) => {},
            }
            i = i + 1;
        }
        assert(program.take(i as int) =~= program);
        Ok(out)
    }

    fn gen_header(&self, out: &mut String)
        ensures
            final(out)@ == old(out)@ + header_text(literal_models(self.string_literals@)),
    {
        out.append("section .bss\n");
        out.append("align 8\n");
        out.append("data_stack: resq 1024\n");
        out.append("section .rodata\n");
        let ghost head = out@;
        let ghost pool = literal_models(self.string_literals@);
        assert(pool.len() == self.string_literals@.len());
        let mut i: usize = 0;
        while i < self.string_literals.len()
            invariant
                i <= self.string_literals.len(),
                pool == literal_models(self.string_literals@),
                pool.len() == self.string_literals@.len(),
                out@ == head + literals_text(pool.take(i as int)),
            decreases self.string_literals.len() - i,
        {
            assert(pool.take(i + 1).drop_last() =~= pool.take(i as int));
            assert(pool.take(i + 1).last() == self.string_literals@[i as int]@);
            let ghost before = out@;
            emit_numbered(out, "str_", i as u128, ":");
            let bytes = self.string_literals[i].as_str().as_bytes();
            if bytes.len() == 0 {
                out.append("\n");
            } else {
                out.append(" db ");
                let ghost start = out@;
                push_decimal(out, bytes[0] as u128);
                let mut k: usize = 1;
                while k < bytes.len()
                    invariant
                        1 <= k <= bytes.len(),
                        out@ == start + data_text(bytes@.take(k as int)),
                    decreases bytes.len() - k,
                {
                    assert(bytes@.take(k + 1).drop_last() =~= bytes@.take(k as int));
                    out.append(",");
                    push_decimal(out, bytes[k] as u128);
                    k = k + 1;
                }
                assert(bytes@.take(k as int) =~= bytes@);
                out.append("\n");
            }
            assert(out@ =~= before + literal_text(i as nat, pool[i as int]));
            i = i + 1;
        }
        assert(pool.take(i as int) =~= pool);
        out.append("section .text\n");
        out.append("global _start\n");
        out.append("_start:\n");
        out.append("    lea rcx, [rel data_stack]\n");
        out.append("    call proc_0\n");
        out.append("    mov rax, 60\n");
        out.append("    xor rdi, rdi\n");
        out.append("    syscall\n");
        assert(out@ =~= old(out)@ + header_text(pool));
    }

    fn gen_proc(&self, proc: &Proc<'src>, out: &mut String) -> (result: Result<(), GenerateError>)
        ensures
            match code_fault(proc.code@, literal_models(self.string_literals@)) {
                Some(fault) => result == Err::<(), GenerateError>(fault),
                None => result is Ok && final(out)@ == old(out)@ + proc_text(
                    proc.model(),
                    literal_models(self.string_literals@),
                ),
            },
    {
        emit_label(out, proc.label());
        out.append(":\n");
        let ghost head = out@;
        let code = proc.code();
        let mut i: usize = 0;
        while i < code.len()
            invariant
                i <= code.len(),
                code@ == proc.code@,
                code_fault(code@.take(i as int), literal_models(self.string_literals@)) is None,
                out@ == head + code_text(code@.take(i as int), literal_models(self.string_literals@)),
            decreases code.len() - i,
        {
            assert(code@.take(i + 1).drop_last() =~= code@.take(i as int));
            let (span, instruction) = code[i];
            match self.gen_instruction(span, instruction, out) {
                Err(fault) => {
                    assert(code_fault(code@.take(i + 1), literal_models(self.string_literals@)) == Some(
                        fault,
                    ));
                    proof {
                        lemma_code_fault_extends(code@, literal_models(self.string_literals@), i + 1);
                    }
                    return Err(fault);
                },
                Ok(()) => {},
            }
            i = i + 1;
        }
        assert(code@.take(i as int) =~= code@);
        out.append("    ; RETURN\n");
        out.append("    ret\n");
        assert(out@ =~= old(out)@ + proc_text(proc.model(), literal_models(self.string_literals@)));
        Ok(())
    }

    fn emit_copy_up(&self, out: &mut String, depth: u128, size: usize)
        requires
            size <= depth <= 2 * usize::MAX,
        ensures
            final(out)@ == old(out)@ + copy_up_text(depth as nat, size as nat),
    {
        emit_copy_up(out, depth, size)
    }

    fn emit_drop(&self, out: &mut String, size: usize)
        ensures
            final(out)@ == old(out)@ + drop_text(size as nat),
    {
        emit_shrink(out, 8 * (size as u128));
    }

    fn gen_instruction(&self, span: Span, instruction: Instruction<'src>, out: &mut String) -> (result:
        Result<(), GenerateError>)
        ensures
            match instruction_fault(span, instruction, literal_models(self.string_literals@)) {
                Some(fault) => result == Err::<(), GenerateError>(fault),
                None => result is Ok && final(out)@ == old(out)@ + instruction_text(
                    span,
                    instruction,
                    literal_models(self.string_literals@),
                ),
            },
    {
        let ghost pool = literal_models(self.string_literals@);
        assert(pool.len() == self.string_literals@.len());
        match instruction {
            Instruction::Div => {
                return Err(GenerateError::Unimplemented { span });
            },
            Instruction::PushString(index) => {
                if index >= self.string_literals.len() {
                    return Err(GenerateError::MissingString { span, index });
                }
            },
            _ => {},
        }
        emit_comment(out, span, opcode_name(&instruction));
        let ghost head = out@;
        match instruction {
            Instruction::PushInt(value) => emit_push_int(out, value),
            Instruction::PushBool(value) => emit_push_bool(out, value),
            Instruction::PushString(index) => {
                let literal = self.string_literals[index].as_str();
                assert(literal@ == pool[index as int]);
                emit_push_string(out, index, literal.as_bytes().len());
            },
            Instruction::PushQuote(label) => emit_push_quote(out, label),
            Instruction::Add => emit_add(out),
            Instruction::Sub => emit_sub(out),
            Instruction::Mul => emit_mul(out),
            Instruction::Div => {},
            Instruction::Exit => emit_exit(out),
            Instruction::Puts => emit_puts(out),
            Instruction::Dup { size } => self.emit_copy_up(out, size as u128, size),
            Instruction::Swap { size_a, size_b } => emit_swap(out, size_b, size_a),
            Instruction::Drop { size } => self.emit_drop(out, size),
            Instruction::Over { size_a, size_b } => self.emit_copy_up(
                out,
                size_a as u128 + size_b as u128,
                size_a,
            ),
            Instruction::Apply => emit_apply(out),
            Instruction::Branch { size } => emit_branch(out, size),
        }
        assert(out@ =~= head + operation_text(instruction, pool));
        assert(out@ =~= old(out)@ + instruction_text(span, instruction, pool));
        Ok(())
    }
}

/// A fault among the first `n` instructions is the fault of the whole code.
proof fn lemma_code_fault_extends(code: Seq<(Span, Instruction)>, literals: Seq<Seq<char>>, n: int)
    requires
        0 <= n <= code.len(),
        code_fault(code.take(n), literals) is Some,
    ensures
        code_fault(code, literals) == code_fault(code.take(n), literals),
    decreases code.len() - n,
{
    if n < code.len() {
        assert(code.take(n + 1).drop_last() =~= code.take(n));
        lemma_code_fault_extends(code, literals, n + 1);
    } else {
        assert(code.take(n) =~= code);
    }
}

/// A fault among the first `n` procedures is the fault of the whole program.
proof fn lemma_procs_fault_extends(procs: Seq<ProcModel>, literals: Seq<Seq<char>>, n: int)
    requires
        0 <= n <= procs.len(),
        procs_fault(procs.take(n), literals) is Some,
    ensures
        procs_fault(procs, literals) == procs_fault(procs.take(n), literals),
    decreases procs.len() - n,
{
    if n < procs.len() {
        assert(procs.take(n + 1).drop_last() =~= procs.take(n));
        lemma_procs_fault_extends(procs, literals, n + 1);
    } else {
        assert(procs.take(n) =~= procs);
    }
}


/// Whether every string that an instruction of `code` pushes is in the pool.
pub open spec fn strings_known(code: Seq<(Span, Instruction)>, literals: Seq<Seq<char>>) -> bool {
    forall|k: int|
        0 <= k < code.len() ==> ((#[trigger] code[k]).1 matches Instruction::PushString(index)
            ==> index < literals.len())
}

/// Code whose strings are in the pool has no fault but a division.
pub proof fn lemma_code_fault_is_division(code: Seq<(Span, Instruction)>, literals: Seq<Seq<char>>)
    requires
        strings_known(code, literals),
    ensures
        code_fault(code, literals) matches Some(fault) ==> fault is Unimplemented,
    decreases code.len(),
{
    if code.len() > 0 {
        assert forall|k: int| 0 <= k < code.drop_last().len() implies ((
        #[trigger] code.drop_last()[k]).1 matches Instruction::PushString(index) ==> index
            < literals.len()) by {
            assert(code.drop_last()[k] == code[k]);
        }
        lemma_code_fault_is_division(code.drop_last(), literals);
        assert(code.last() == code[code.len() - 1]);
    }
}

/// A program whose strings are in the pool is rendered unless it divides: the
/// one fault that it can have is a division.
pub proof fn lemma_fault_is_division(procs: Seq<ProcModel>, literals: Seq<Seq<char>>)
    requires
        forall|p: int| 0 <= p < procs.len() ==> strings_known((#[trigger] procs[p]).code, literals),
    ensures
        procs_fault(procs, literals) matches Some(fault) ==> fault is Unimplemented,
    decreases procs.len(),
{
    if procs.len() > 0 {
        assert forall|p: int| 0 <= p < procs.drop_last().len() implies strings_known(
            (#[trigger] procs.drop_last()[p]).code,
            literals,
        ) by {
            assert(procs.drop_last()[p] == procs[p]);
        }
        lemma_fault_is_division(procs.drop_last(), literals);
        assert(procs.last() == procs[procs.len() - 1]);
        lemma_code_fault_is_division(procs.last().code, literals);
    }
}

} // verus!
