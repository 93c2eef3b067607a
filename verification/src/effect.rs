//! What the code of an instruction does to the top of the data stack, and how
//! that agrees with the signature of the word that the instruction came from.
//!
//! Nothing here says what happens when the code runs: the statements are about
//! the text of the code and about the sizes of types.

use vstd::prelude::*;
use crate::analyzer::types::{Sig, Ty};
use crate::compiler::{Instruction, word_instruction};
use crate::lexer::Span;
use crate::x86_64gen::{grow_text, operation_text, shrink_text};

verus! {

/// By how many bytes the code of an instruction moves `rcx`, the top of the data
/// stack. What a quotation does that `Apply` calls is not counted. `Exit` never
/// returns and leaves `rcx` as it is.
pub open spec fn rcx_change(instruction: Instruction) -> int {
    match instruction {
        Instruction::PushInt(_) => 8,
        Instruction::PushBool(_) => 8,
        Instruction::PushString(_) => 16,
        Instruction::PushQuote(_) => 8,
        Instruction::Add => -8,
        Instruction::Sub => -8,
        Instruction::Mul => -8,
        Instruction::Div => 0,
        Instruction::Exit => 0,
        Instruction::Puts => -16,
        Instruction::Dup { size } => 8 * size,
        Instruction::Swap { .. } => 0,
        Instruction::Drop { size } => -8 * size,
        Instruction::Over { size_a, .. } => 8 * size_a,
        Instruction::Apply => -8,
        Instruction::Branch { size } => -8 * (size + 1),
    }
}

pub open spec fn ends_with(text: Seq<char>, tail: Seq<char>) -> bool {
    text.len() >= tail.len() && text.subrange(text.len() - tail.len(), text.len() as int) == tail
}

pub open spec fn begins_with(text: Seq<char>, head: Seq<char>) -> bool {
    text.len() >= head.len() && text.subrange(0, head.len() as int) == head
}

/// The code of an instruction that puts values on the stack ends with the line
/// that adds `rcx_change` to `rcx`; the code of one that takes values off ends
/// with the line that subtracts it; the code of `Apply` begins with that line.
pub proof fn lemma_code_moves_rcx(instruction: Instruction, literals: Seq<Seq<char>>)
    ensures
        match instruction {
            Instruction::PushInt(_)
            | Instruction::PushBool(_)
            | Instruction::PushString(_)
            | Instruction::PushQuote(_)
            | Instruction::Dup { .. }
            | Instruction::Over { .. } => ends_with(
                operation_text(instruction, literals),
                grow_text(rcx_change(instruction) as nat),
            ),
            Instruction::Add
            | Instruction::Sub
            | Instruction::Mul
            | Instruction::Puts
            | Instruction::Drop { .. }
            | Instruction::Branch { .. } => ends_with(
                operation_text(instruction, literals),
                shrink_text((-rcx_change(instruction)) as nat),
            ),
            Instruction::Apply => begins_with(
                operation_text(instruction, literals),
                shrink_text((-rcx_change(instruction)) as nat),
            ),
            Instruction::Swap { .. } | Instruction::Exit | Instruction::Div => true,
        },
{
    let text = operation_text(instruction, literals);
    match instruction {
        Instruction::PushInt(_)
        | Instruction::PushBool(_)
        | Instruction::PushString(_)
        | Instruction::PushQuote(_)
        | Instruction::Dup { .. }
        | Instruction::Over { .. } => {
            let tail = grow_text(rcx_change(instruction) as nat);
            assert(text.subrange(text.len() - tail.len(), text.len() as int) =~= tail);
        },
        Instruction::Add
        | Instruction::Sub
        | Instruction::Mul
        | Instruction::Puts
        | Instruction::Drop { .. }
        | Instruction::Branch { .. } => {
            let tail = shrink_text((-rcx_change(instruction)) as nat);
            assert(text.subrange(text.len() - tail.len(), text.len() as int) =~= tail);
        },
        Instruction::Apply => {
            let head = shrink_text(8);
            assert(text.subrange(0, head.len() as int) =~= head);
        },
        _ => {},
    }
}

/// The number of cells that a value of type `t` takes; none where the type
/// has no size.
pub open spec fn cells(t: Ty) -> nat {
    match t.slot_size() {
        Some(size) => size,
        None => 0,
    }
}

/// The number of cells that values of the first `n` types of `types` take.
pub open spec fn cells_of(types: Seq<Ty>, n: nat) -> nat
    decreases n,
{
    if n == 0 || n > types.len() {
        0
    } else {
        cells_of(types, (n - 1) as nat) + cells(types[n - 1])
    }
}

/// By how many bytes a word of signature `signature` moves the top of the
/// stack: it takes its inputs off and puts its outputs there.
pub open spec fn signature_change(signature: Sig) -> int {
    8 * (cells_of(signature.outputs, signature.outputs.len()) - cells_of(
        signature.inputs,
        signature.inputs.len(),
    ))
}

/// Whether `signature` is the signature of the word `name` with types in the
/// place of its variables, and segments in the place of its row variables.
pub open spec fn shaped(name: Seq<char>, signature: Sig) -> bool {
    let inputs = signature.inputs;
    let outputs = signature.outputs;
    if name == "true"@ || name == "false"@ {
        inputs == Seq::<Ty>::empty() && outputs == seq![Ty::Bool]
    } else if name == "+"@ || name == "-"@ || name == "*"@ || name == "/"@ {
        inputs == seq![Ty::Int, Ty::Int] && outputs == seq![Ty::Int]
    } else if name == "exit"@ {
        inputs == seq![Ty::Int] && outputs == Seq::<Ty>::empty()
    } else if name == "puts"@ {
        inputs == seq![Ty::Str] && outputs == Seq::<Ty>::empty()
    } else if name == "dup"@ {
        inputs.len() == 1 && outputs == seq![inputs[0], inputs[0]]
    } else if name == "drop"@ {
        inputs.len() == 1 && outputs == Seq::<Ty>::empty()
    } else if name == "swap"@ {
        inputs.len() == 2 && outputs == seq![inputs[1], inputs[0]]
    } else if name == "over"@ {
        inputs.len() == 2 && outputs == seq![inputs[0], inputs[1], inputs[0]]
    } else if name == "apply"@ {
        inputs.len() >= 1 && inputs.last() == Ty::Quotation(
            Sig { inputs: inputs.drop_last(), outputs },
        )
    } else if name == "?"@ {
        inputs.len() == 3 && inputs[2] == Ty::Bool && inputs[0] == inputs[1] && outputs
            == seq![inputs[0]]
    } else {
        false
    }
}

/// The sizes of a prefix depend on the prefix alone.
pub proof fn lemma_cells_of_prefix(a: Seq<Ty>, b: Seq<Ty>, n: nat)
    requires
        n <= a.len(),
        n <= b.len(),
        forall|i: int| 0 <= i < n ==> a[i] == b[i],
    ensures
        cells_of(a, n) == cells_of(b, n),
    decreases n,
{
    if n > 0 {
        lemma_cells_of_prefix(a, b, (n - 1) as nat);
    }
}

/// The cells of a list of at most three types, written out.
proof fn lemma_cells_of_few(types: Seq<Ty>)
    ensures
        types.len() == 0 ==> cells_of(types, types.len()) == 0,
        types.len() == 1 ==> cells_of(types, types.len()) == cells(types[0]),
        types.len() == 2 ==> cells_of(types, types.len()) == cells(types[0]) + cells(types[1]),
        types.len() == 3 ==> cells_of(types, types.len()) == cells(types[0]) + cells(types[1])
            + cells(types[2]),
{
    reveal_with_fuel(cells_of, 4);
}

/// The code of a word moves the top of the stack as the signature of the word
/// says. Where the word is lowered, and its signature is that of the word with
/// types in the place of its variables, the change that the code makes equals
/// the change that the signature stands for. For `apply` the
/// code takes the quotation off, and the quotation that is called accounts for
/// the rest. `exit` is left out: it never returns, and its code leaves its
/// input where it is. So is `/`, which has no code yet.
pub proof fn lemma_word_change<'src>(
    signature: Sig,
    name: Seq<char>,
    span: Span,
    instruction: Instruction<'src>,
)
    requires
        shaped(name, signature),
        name != "exit"@,
        name != "/"@,
        word_instruction::<'src>(signature, name, span) == Ok::<
            Instruction<'src>,
            crate::compiler::LowerError,
        >(instruction),
    ensures
        name != "apply"@ ==> rcx_change(instruction) == signature_change(signature),
        name == "apply"@ ==> rcx_change(instruction) + signature_change(
            signature.inputs.last()->Quotation_0,
        ) == signature_change(signature),
{
    let inputs = signature.inputs;
    let outputs = signature.outputs;
    let change = signature_change(signature);
    lemma_cells_of_few(inputs);
    lemma_cells_of_few(outputs);
    if name == "apply"@ {
        reveal_strlit("true");
        reveal_strlit("false");
        reveal_strlit("+");
        reveal_strlit("-");
        reveal_strlit("*");
        reveal_strlit("/");
        reveal_strlit("exit");
        reveal_strlit("puts");
        reveal_strlit("dup");
        reveal_strlit("drop");
        reveal_strlit("swap");
        reveal_strlit("over");
        reveal_strlit("apply");
        assert(name.len() == 5 && name[0] == 'a');
        let below = inputs.drop_last();
        let quotation = Sig { inputs: below, outputs };
        assert(inputs.last() == Ty::Quotation(quotation));
        lemma_cells_of_prefix(inputs, below, below.len());
        assert(cells(inputs.last()) == 1);
        assert(cells_of(inputs, inputs.len()) == cells_of(below, below.len()) + 1);
        assert(instruction == Instruction::Apply);
        assert(signature_change(quotation) - 8 == change);
    } else if name == "true"@ || name == "false"@ {
        assert(change == 8);
    } else if name == "+"@ || name == "-"@ || name == "*"@ {
        assert(change == -8);
    } else if name == "puts"@ {
        assert(cells(inputs[0]) == 2);
        assert(change == -16);
    } else if name == "dup"@ {
        assert(cells(inputs[0]) <= 2);
        assert(instruction == Instruction::Dup { size: cells(inputs[0]) as usize });
        assert(change == 8 * cells(inputs[0]));
    } else if name == "drop"@ {
        assert(cells(inputs[0]) <= 2);
        assert(instruction == Instruction::Drop { size: cells(inputs[0]) as usize });
        assert(change == -8 * cells(inputs[0]));
    } else if name == "swap"@ {
        assert(change == 0);
    } else if name == "over"@ {
        assert(cells(inputs[0]) <= 2 && cells(inputs[1]) <= 2);
        assert(instruction == Instruction::Over {
            size_a: cells(inputs[0]) as usize,
            size_b: cells(inputs[1]) as usize,
        });
        assert(change == 8 * cells(inputs[0]));
    } else {
        assert(name == "?"@);
        assert(cells(inputs[0]) <= 2);
        assert(cells(inputs[2]) == 1);
        assert(instruction == Instruction::Branch { size: cells(inputs[0]) as usize });
        assert(change == -8 * (cells(inputs[0]) + 1));
    }
}

} // verus!
