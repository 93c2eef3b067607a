//! Lowering of analysed items to flat procedures over a small instruction set.

use vstd::prelude::*;
use vstd::string::*;
use crate::analyzer::item::{
    Item, ItemKind, ItemKindModel, ItemModel, item_models, lemma_quotation_item_model,
};
use crate::analyzer::types::{Sig, Signature};
use crate::lexer::Span;
use crate::literal::{literal, literal_text};
use crate::text::str_eq;

verus! {

/// The name of a procedure: a dense number and an optional symbolic name.
#[derive(Debug, Clone, Copy)]
pub struct Label<'src> {
    pub id: usize,
    pub name: Option<&'src str>,
}

impl<'src> Label<'src> {
    pub fn new(id: usize, name: Option<&'src str>) -> (label: Self)
        ensures
            label.id == id,
            label.name == name,
    {
        Self { id, name }
    }

    pub fn id(&self) -> (id: usize)
        ensures
            id == self.id,
    {
        self.id
    }

    pub fn name(&self) -> (name: Option<&'src str>)
        ensures
            name == self.name,
    {
        self.name
    }
}

/// One step of a procedure. The sizes count 64-bit cells of the data stack. In
/// `Swap` and `Over`, `size_a` is the size of the deeper of the two values and
/// `size_b` that of the value on top.
#[derive(Debug, Clone, Copy)]
pub enum Instruction<'src> {
    PushInt(i64),
    PushBool(bool),
    PushString(usize),
    PushQuote(Label<'src>),
    Add,
    Sub,
    Mul,
    Div,
    Exit,
    Puts,
    Dup { size: usize },
    Swap { size_a: usize, size_b: usize },
    Drop { size: usize },
    Over { size_a: usize, size_b: usize },
    Apply,
    Branch { size: usize },
}

/// A labelled sequence of instructions, each with the span of the word it came from.
#[derive(Debug, Clone)]
pub struct Proc<'src> {
    pub label: Label<'src>,
    pub code: Vec<(Span, Instruction<'src>)>,
}

impl<'src> Proc<'src> {
    pub fn new(label: Label<'src>) -> (proc: Self)
        ensures
            proc.label == label,
            proc.code@ == Seq::<(Span, Instruction<'src>)>::empty(),
    {
        Self { label, code: Vec::new() }
    }

    pub fn label(&self) -> (label: Label<'src>)
        ensures
            label == self.label,
    {
        self.label
    }

    pub fn code(&self) -> (code: &[(Span, Instruction<'src>)])
        ensures
            code@ == self.code@,
    {
        self.code.as_slice()
    }
}


/// Why an item could not be lowered.
#[derive(Debug, Clone, Copy)]
pub enum LowerError {
    /// The word at `span` works on a value whose size is not known, because its
    /// type is still a variable.
    UnresolvedPolymorphism { span: Span },
    /// The word at `span` is none that the compiler knows.
    UnknownWord { span: Span },
}

/// The mathematical model of a [`Proc`].
pub struct ProcModel<'src> {
    pub label: Label<'src>,
    pub code: Seq<(Span, Instruction<'src>)>,
}

/// The mathematical model of a program under construction: the procedures,
/// procedure `i` at index `i`, and the pool of string literals.
pub struct Lowered<'src> {
    pub procs: Seq<ProcModel<'src>>,
    pub literals: Seq<Seq<char>>,
}

impl<'src> Proc<'src> {
    pub open spec fn model(&self) -> ProcModel<'src> {
        ProcModel { label: self.label, code: self.code@ }
    }
}

pub open spec fn proc_models<'src>(procs: Seq<Proc<'src>>) -> Seq<ProcModel<'src>> {
    Seq::new(procs.len(), |i: int| procs[i].model())
}

pub open spec fn literal_models(literals: Seq<String>) -> Seq<Seq<char>> {
    Seq::new(literals.len(), |i: int| literals[i]@)
}

/// The size of input `k` of a word, counted as the signature lists them.
pub open spec fn input_size(signature: Sig, k: int) -> Option<nat> {
    if 0 <= k < signature.inputs.len() {
        signature.inputs[k].slot_size()
    } else {
        None
    }
}

/// The instruction that a word becomes. The polymorphic words take the sizes of
/// their operands from the signature that the analysis gave them: `size` and
/// `size_a` from input 0, `size_b` from input 1. The size of `?` is that of
/// input 0, one of the two values among which it picks.
pub open spec fn word_instruction<'src>(signature: Sig, name: Seq<char>, span: Span) -> Result<
    Instruction<'src>,
    LowerError,
> {
    let unresolved = Err::<Instruction<'src>, LowerError>(
        LowerError::UnresolvedPolymorphism { span },
    );
    let first = input_size(signature, 0);
    let second = input_size(signature, 1);
    if name == "true"@ {
        Ok(Instruction::PushBool(true))
    } else if name == "false"@ {
        Ok(Instruction::PushBool(false))
    } else if name == "+"@ {
        Ok(Instruction::Add)
    } else if name == "-"@ {
        Ok(Instruction::Sub)
    } else if name == "*"@ {
        Ok(Instruction::Mul)
    } else if name == "/"@ {
        Ok(Instruction::Div)
    } else if name == "exit"@ {
        Ok(Instruction::Exit)
    } else if name == "puts"@ {
        Ok(Instruction::Puts)
    } else if name == "dup"@ {
        match first {
            Some(size) => Ok(Instruction::Dup { size: size as usize }),
            None => unresolved,
        }
    } else if name == "drop"@ {
        match first {
            Some(size) => Ok(Instruction::Drop { size: size as usize }),
            None => unresolved,
        }
    } else if name == "swap"@ {
        match (first, second) {
            (Some(size_a), Some(size_b)) => Ok(
                Instruction::Swap { size_a: size_a as usize, size_b: size_b as usize },
            ),
            _ => unresolved,
        }
    } else if name == "over"@ {
        match (first, second) {
            (Some(size_a), Some(size_b)) => Ok(
                Instruction::Over { size_a: size_a as usize, size_b: size_b as usize },
            ),
            _ => unresolved,
        }
    } else if name == "apply"@ {
        Ok(Instruction::Apply)
    } else if name == "?"@ {
        match first {
            Some(size) => Ok(Instruction::Branch { size: size as usize }),
            None => unresolved,
        }
    } else {
        Err(LowerError::UnknownWord { span })
    }
}

impl<'src> Lowered<'src> {
    /// With one more instruction at the end of procedure `target`.
    pub open spec fn add_instruction(
        self,
        target: int,
        instruction: Instruction<'src>,
        span: Span,
    ) -> Lowered<'src> {
        Lowered {
            procs: self.procs.update(
                target,
                ProcModel {
                    label: self.procs[target].label,
                    code: self.procs[target].code.push((span, instruction)),
                },
            ),
            literals: self.literals,
        }
    }

    /// With one more procedure, which is empty. Its number is its index.
    pub open spec fn new_proc(self, name: Option<&'src str>) -> Lowered<'src> {
        Lowered {
            procs: self.procs.push(
                ProcModel {
                    label: Label { id: self.procs.len() as usize, name },
                    code: Seq::empty(),
                },
            ),
            literals: self.literals,
        }
    }

    /// After lowering `item` into procedure `target`. A quotation opens a
    /// procedure of its own, fills it, and leaves its address in `target`.
    pub open spec fn lower_item(self, item: ItemModel, target: int) -> Result<
        Lowered<'src>,
        LowerError,
    >
        decreases item, 0nat,
    {
        match item.kind {
            ItemKindModel::Integer(value) => Ok(
                self.add_instruction(target, Instruction::PushInt(value), item.span),
            ),
            ItemKindModel::String(raw) => Ok(
                Lowered { procs: self.procs, literals: self.literals.push(literal_text(raw)) }.add_instruction(
                    target,
                    Instruction::PushString(self.literals.len() as usize),
                    item.span,
                ),
            ),
            ItemKindModel::Word(signature, name) => match word_instruction(
                signature,
                name,
                item.span,
            ) {
                Ok(instruction) => Ok(self.add_instruction(target, instruction, item.span)),
                Err(error) => Err(error),
            },
            ItemKindModel::Quotation(_, items) => {
                let id = self.procs.len() as int;
                match self.new_proc(None).lower_items(items, items.len(), id) {
                    Ok(filled) => Ok(
                        filled.add_instruction(
                            target,
                            Instruction::PushQuote(Label { id: id as usize, name: None }),
                            item.span,
                        ),
                    ),
                    Err(error) => Err(error),
                }
            },
        }
    }

    /// After lowering the first `n` items of `items` into procedure `target`,
    /// in order. The first error ends it.
    pub open spec fn lower_items(self, items: Seq<ItemModel>, n: nat, target: int) -> Result<
        Lowered<'src>,
        LowerError,
    >
        decreases items, n,
    {
        if n == 0 || n > items.len() {
            Ok(self)
        } else {
            match self.lower_items(items, (n - 1) as nat, target) {
                Ok(before) => before.lower_item(items[n - 1], target),
                Err(error) => Err(error),
            }
        }
    }
}

/// The program that `items` lower to: procedure 0 holds the top level, and the
/// quotations follow in the order in which they are met.
pub open spec fn lowered<'src>(items: Seq<ItemModel>) -> Result<Lowered<'src>, LowerError> {
    Lowered { procs: Seq::empty(), literals: Seq::empty() }.new_proc(None).lower_items(
        items,
        items.len(),
        0,
    )
}


fn lower_word<'src>(signature: &Signature, name: &str, span: Span) -> (result: Result<
    Instruction<'src>,
    LowerError,
>)
    ensures
        result == word_instruction::<'src>(signature.model(), name@, span),
{
    let first = if signature.inputs.len() > 0 {
        signature.inputs[0].size()
    } else {
        None
    };
    let second = if signature.inputs.len() > 1 {
        signature.inputs[1].size()
    } else {
        None
    };
    proof {
        assert(signature.model().inputs.len() == signature.inputs@.len());
        if signature.inputs@.len() > 0 {
            assert(signature.model().inputs[0] == signature.inputs@[0].model());
        }
        if signature.inputs@.len() > 1 {
            assert(signature.model().inputs[1] == signature.inputs@[1].model());
        }
    }
    let unresolved = Err(LowerError::UnresolvedPolymorphism { span });
    if str_eq(name, "true") {
        Ok(Instruction::PushBool(true))
    } else if str_eq(name, "false") {
        Ok(Instruction::PushBool(false))
    } else if str_eq(name, "+") {
        Ok(Instruction::Add)
    } else if str_eq(name, "-") {
        Ok(Instruction::Sub)
    } else if str_eq(name, "*") {
        Ok(Instruction::Mul)
    } else if str_eq(name, "/") {
        Ok(Instruction::Div)
    } else if str_eq(name, "exit") {
        Ok(Instruction::Exit)
    } else if str_eq(name, "puts") {
        Ok(Instruction::Puts)
    } else if str_eq(name, "dup") {
        match first {
            Some(size) => Ok(Instruction::Dup { size }),
            None => unresolved,
        }
    } else if str_eq(name, "drop") {
        match first {
            Some(size) => Ok(Instruction::Drop { size }),
            None => unresolved,
        }
    } else if str_eq(name, "swap") {
        match (first, second) {
            (Some(size_a), Some(size_b)) => Ok(Instruction::Swap { size_a, size_b }),
            _ => unresolved,
        }
    } else if str_eq(name, "over") {
        match (first, second) {
            (Some(size_a), Some(size_b)) => Ok(Instruction::Over { size_a, size_b }),
            _ => unresolved,
        }
    } else if str_eq(name, "apply") {
        Ok(Instruction::Apply)
    } else if str_eq(name, "?") {
        match first {
            Some(size) => Ok(Instruction::Branch { size }),
            None => unresolved,
        }
    } else {
        Err(LowerError::UnknownWord { span })
    }
}

/// The lowering compiler: the procedures made so far and the string pool.
pub struct Compiler<'src> {
    pub procs: Vec<Proc<'src>>,
    pub string_literals: Vec<String>,
}

impl<'src> Compiler<'src> {
    pub open spec fn model(&self) -> Lowered<'src> {
        Lowered {
            procs: proc_models(self.procs@),
            literals: literal_models(self.string_literals@),
        }
    }

    pub fn new() -> (compiler: Self)
        ensures
            compiler.model() == (Lowered::<'src> { procs: Seq::empty(), literals: Seq::empty() }),
    {
        let compiler = Self { procs: Vec::new(), string_literals: Vec::new() };
        assert(compiler.model().procs =~= Seq::empty());
        assert(compiler.model().literals =~= Seq::empty());
        compiler
    }

    /// Lowers an analysed program to its procedures and its string pool.
    pub fn compile(items: Vec<Item<'src>>) -> (result: Result<
        (Vec<Proc<'src>>, Vec<String>),
        LowerError,
    >)
        ensures
            match lowered::<'src>(item_models(items@)) {
                Ok(program) => result is Ok && proc_models(result->Ok_0.0@) == program.procs
                    && literal_models(result->Ok_0.1@) == program.literals && program.linked()
                    && program.all_sized(),
                Err(error) => result == Err::<(Vec<Proc<'src>>, Vec<String>), LowerError>(error),
            },
    {
        let mut compiler = Self::new();
        let main_proc = compiler.new_proc(None);
        match compiler.compile_items(&items, main_proc) {
            Ok(()) => {
                let procs = compiler.procs.len();
                let literals = compiler.string_literals.len();
                proof {
                    let program = compiler.model();
                    assert(program.procs.len() == procs);
                    assert(program.literals.len() == literals);
                    assert(program.procs.len() == compiler.procs@.len());
                    assert(program.literals.len() == compiler.string_literals@.len());
                    lemma_lowered_sized(item_models(items@), program);
                    lemma_lowered_linked(item_models(items@), program);
                }
                Ok((compiler.procs, compiler.string_literals))
            },
            Err(error) => Err(error),
        }
    }

    fn add_instruction(&mut self, label: Label<'src>, instruction: Instruction<'src>, span: Span)
        requires
            label.id < old(self).procs@.len(),
        ensures
            final(self).model() == old(self).model().add_instruction(
                label.id as int,
                instruction,
                span,
            ),
            final(self).procs@.len() == old(self).procs@.len(),
    {
        self.procs[label.id].code.push((span, instruction));
        assert(self.model().procs =~= old(self).model().add_instruction(
            label.id as int,
            instruction,
            span,
        ).procs);
    }

    fn new_proc(&mut self, name: Option<&'src str>) -> (label: Label<'src>)
        ensures
            label.id == old(self).procs@.len(),
            label.name == name,
            final(self).model() == old(self).model().new_proc(name),
            final(self).procs@.len() == old(self).procs@.len() + 1,
    {
        let id = self.procs.len();
        let label = Label::new(id, name);
        let proc = Proc::new(label);
        self.procs.push(proc);
        assert(self.model().procs =~= old(self).model().new_proc(name).procs);
        label
    }

    fn compile_items(&mut self, items: &Vec<Item<'src>>, label: Label<'src>) -> (result: Result<
        (),
        LowerError,
    >)
        requires
            label.id < old(self).procs@.len(),
        ensures
            match old(self).model().lower_items(
                item_models(items@),
                items@.len(),
                label.id as int,
            ) {
                Ok(program) => result is Ok && final(self).model() == program,
                Err(error) => result == Err::<(), LowerError>(error),
            },
            final(self).procs@.len() >= old(self).procs@.len(),
        decreases items, 1nat,
    {
        let ghost start = self.model();
        let ghost all = item_models(items@);
        assert(all.len() == items@.len());
        let mut i: usize = 0;
        while i < items.len()
            invariant
                i <= items@.len(),
                all == item_models(items@),
                all.len() == items@.len(),
                start == old(self).model(),
                label.id < old(self).procs@.len() <= self.procs@.len(),
                start.lower_items(all, i as nat, label.id as int) == Ok::<
                    Lowered<'src>,
                    LowerError,
                >(self.model()),
            decreases items@.len() - i,
        {
            assert(all[i as int] == items@[i as int].model());
            let ghost before = self.model();
            assert(start.lower_items(all, (i + 1) as nat, label.id as int) == before.lower_item(
                all[i as int],
                label.id as int,
            ));
            match self.compile_item_to_block(&items[i], label) {
                Ok(()) => {},
                Err(error) => {
                    proof {
                        lemma_lower_items_fails(start, all, (i + 1) as nat, label.id as int);
                    }
                    return Err(error);
                },
            }
            i = i + 1;
        }
        Ok(())
    }

    fn compile_item_to_block(&mut self, item: &Item<'src>, label: Label<'src>) -> (result: Result<
        (),
        LowerError,
    >)
        requires
            label.id < old(self).procs@.len(),
        ensures
            match old(self).model().lower_item(item.model(), label.id as int) {
                Ok(program) => result is Ok && final(self).model() == program,
                Err(error) => result == Err::<(), LowerError>(error),
            },
            final(self).procs@.len() >= old(self).procs@.len(),
        decreases item, 0nat,
    {
        let span = item.span;
        assert(self.model().procs.len() == self.procs@.len());
        match &item.kind {
            ItemKind::Quotation(_, items) => {
                proof {
                    lemma_quotation_item_model(*item);
                }
                let ghost models = item_models(items@);
                assert(models.len() == items@.len());
                assert(item.model().kind == ItemKindModel::Quotation(
                    item.kind->Quotation_0.model(),
                    models,
                ));
                let quotation_proc = self.new_proc(None);
                match self.compile_items(items, quotation_proc) {
                    Ok(()) => {},
                    Err(error) => {
                        return Err(error);
                    },
                }
                self.add_instruction(label, Instruction::PushQuote(quotation_proc), span);
                Ok(())
            },
            ItemKind::Integer(value) => {
                assert(item.model().kind == ItemKindModel::Integer(*value));
                self.add_instruction(label, Instruction::PushInt(*value), span);
                Ok(())
            },
            ItemKind::String(raw) => {
                assert(item.model().kind == ItemKindModel::String(raw@));
                let string_id = self.string_literals.len();
                let ghost before = self.model();
                self.string_literals.push(literal(raw));
                assert(self.model().literals =~= before.literals.push(literal_text(raw@)));
                assert(self.model().procs == before.procs);
                self.add_instruction(label, Instruction::PushString(string_id), span);
                Ok(())
            },
            ItemKind::Word(signature, name) => {
                assert(item.model().kind == ItemKindModel::Word(signature.model(), name@));
                match lower_word(signature, name, span) {
                    Ok(instruction) => {
                        self.add_instruction(label, instruction, span);
                        Ok(())
                    },
                    Err(error) => Err(error),
                }
            },
        }
    }
}

/// Once lowering has failed, it has failed for every longer run of items.
proof fn lemma_lower_items_fails(start: Lowered, items: Seq<ItemModel>, n: nat, target: int)
    requires
        n <= items.len(),
        start.lower_items(items, n, target) is Err,
    ensures
        start.lower_items(items, items.len(), target) == start.lower_items(items, n, target),
    decreases items.len() - n,
{
    if n < items.len() {
        lemma_lower_items_fails(start, items, n + 1, target);
    }
}


/// Whether every size that an instruction carries is the size of a value:
/// one cell, or two for a string.
pub open spec fn sized(instruction: Instruction) -> bool {
    match instruction {
        Instruction::Dup { size } => 1 <= size <= 2,
        Instruction::Drop { size } => 1 <= size <= 2,
        Instruction::Branch { size } => 1 <= size <= 2,
        Instruction::Swap { size_a, size_b } => 1 <= size_a <= 2 && 1 <= size_b <= 2,
        Instruction::Over { size_a, size_b } => 1 <= size_a <= 2 && 1 <= size_b <= 2,
        _ => true,
    }
}

impl<'src> Lowered<'src> {
    /// Whether every instruction of the program is sized.
    pub open spec fn all_sized(self) -> bool {
        forall|p: int, k: int|
            0 <= p < self.procs.len() && 0 <= k < self.procs[p].code.len() ==> sized(
                #[trigger] self.procs[p].code[k].1,
            )
    }
}

/// The instruction of a word is sized: a word whose operand has no size yet is
/// not lowered at all.
pub proof fn lemma_word_instruction_sized(signature: Sig, name: Seq<char>, span: Span)
    ensures
        word_instruction::<'static>(signature, name, span) matches Ok(instruction) ==> sized(
            instruction,
        ),
{
}

proof fn lemma_add_instruction_sized<'src>(
    program: Lowered<'src>,
    target: int,
    instruction: Instruction<'src>,
    span: Span,
)
    requires
        program.all_sized(),
        0 <= target < program.procs.len(),
        sized(instruction),
    ensures
        program.add_instruction(target, instruction, span).all_sized(),
        program.add_instruction(target, instruction, span).procs.len() == program.procs.len(),
{
    let after = program.add_instruction(target, instruction, span);
    assert forall|p: int, k: int|
        0 <= p < after.procs.len() && 0 <= k < after.procs[p].code.len() implies sized(
        #[trigger] after.procs[p].code[k].1,
    ) by {
        if p == target && k < program.procs[p].code.len() {
            assert(after.procs[p].code[k] == program.procs[p].code[k]);
        } else if p != target {
            assert(after.procs[p].code[k] == program.procs[p].code[k]);
        }
    }
}

/// Lowering an item adds sized instructions only.
pub proof fn lemma_lower_item_sized<'src>(program: Lowered<'src>, item: ItemModel, target: int)
    requires
        program.all_sized(),
        0 <= target < program.procs.len(),
        program.lower_item(item, target) is Ok,
    ensures
        program.lower_item(item, target)->Ok_0.all_sized(),
        program.lower_item(item, target)->Ok_0.procs.len() >= program.procs.len(),
    decreases item, 0nat,
{
    match item.kind {
        ItemKindModel::Integer(value) => {
            lemma_add_instruction_sized(program, target, Instruction::PushInt(value), item.span);
        },
        ItemKindModel::String(raw) => {
            let pooled = Lowered {
                procs: program.procs,
                literals: program.literals.push(literal_text(raw)),
            };
            assert(pooled.all_sized()) by {
                assert forall|p: int, k: int|
                    0 <= p < pooled.procs.len() && 0 <= k < pooled.procs[p].code.len() implies sized(
                    #[trigger] pooled.procs[p].code[k].1,
                ) by {
                    assert(sized(program.procs[p].code[k].1));
                }
            }
            lemma_add_instruction_sized(
                pooled,
                target,
                Instruction::PushString(program.literals.len() as usize),
                item.span,
            );
        },
        ItemKindModel::Word(signature, name) => {
            lemma_word_instruction_sized(signature, name, item.span);
            let instruction = word_instruction::<'src>(signature, name, item.span)->Ok_0;
            assert(word_instruction::<'src>(signature, name, item.span) is Ok);
            assert(sized(instruction));
            lemma_add_instruction_sized(program, target, instruction, item.span);
        },
        ItemKindModel::Quotation(_, items) => {
            let id = program.procs.len() as int;
            let opened = program.new_proc(None);
            assert(opened.all_sized()) by {
                assert forall|p: int, k: int|
                    0 <= p < opened.procs.len() && 0 <= k < opened.procs[p].code.len() implies sized(
                    #[trigger] opened.procs[p].code[k].1,
                ) by {
                    if p < program.procs.len() {
                        assert(sized(program.procs[p].code[k].1));
                    }
                }
            }
            lemma_lower_items_sized(opened, items, items.len(), id);
            let filled = opened.lower_items(items, items.len(), id)->Ok_0;
            lemma_add_instruction_sized(
                filled,
                target,
                Instruction::PushQuote(Label { id: id as usize, name: None }),
                item.span,
            );
        },
    }
}

/// Lowering items adds sized instructions only.
pub proof fn lemma_lower_items_sized<'src>(
    program: Lowered<'src>,
    items: Seq<ItemModel>,
    n: nat,
    target: int,
)
    requires
        program.all_sized(),
        0 <= target < program.procs.len(),
        program.lower_items(items, n, target) is Ok,
    ensures
        program.lower_items(items, n, target)->Ok_0.all_sized(),
        program.lower_items(items, n, target)->Ok_0.procs.len() >= program.procs.len(),
    decreases items, n,
{
    if n == 0 || n > items.len() {
    } else {
        lemma_lower_items_sized(program, items, (n - 1) as nat, target);
        let before = program.lower_items(items, (n - 1) as nat, target)->Ok_0;
        lemma_lower_item_sized(before, items[n - 1], target);
    }
}

/// Every instruction of a lowered program carries the sizes of values: no
/// program is lowered while the type of an operand is a variable.
pub proof fn lemma_lowered_sized<'src>(items: Seq<ItemModel>, program: Lowered<'src>)
    requires
        lowered::<'src>(items) == Ok::<Lowered<'src>, LowerError>(program),
    ensures
        program.all_sized(),
{
    let start = Lowered::<'src> { procs: Seq::empty(), literals: Seq::empty() }.new_proc(None);
    lemma_lower_items_sized(start, items, items.len(), 0);
}


impl<'src> Lowered<'src> {
    /// Whether an instruction names nothing but what the program holds: a
    /// string of the pool, a procedure of the program.
    pub open spec fn links(self, instruction: Instruction<'src>) -> bool {
        match instruction {
            Instruction::PushString(index) => index < self.literals.len(),
            Instruction::PushQuote(label) => label.id < self.procs.len() && label.name is None,
            _ => true,
        }
    }

    /// Whether the program is linked: it is not larger than a machine can
    /// hold, procedure `p` has the number `p` and no name, and every
    /// instruction names what the program holds.
    pub open spec fn linked(self) -> bool {
        &&& self.procs.len() <= usize::MAX
        &&& self.literals.len() <= usize::MAX
        &&& forall|p: int|
            0 <= p < self.procs.len() ==> (#[trigger] self.procs[p]).label == (Label::<'src> {
                id: p as usize,
                name: None,
            })
        &&& forall|p: int, k: int|
            0 <= p < self.procs.len() && 0 <= k < self.procs[p].code.len() ==> self.links(
                #[trigger] self.procs[p].code[k].1,
            )
    }

    /// Whether the program and its pool are not larger than a machine can hold.
    pub open spec fn fits(self) -> bool {
        self.procs.len() <= usize::MAX && self.literals.len() <= usize::MAX
    }
}

proof fn lemma_linked_grows<'src>(earlier: Lowered<'src>, later: Lowered<'src>)
    requires
        earlier.linked(),
        later.fits(),
        earlier.procs.len() <= later.procs.len(),
        earlier.literals.len() <= later.literals.len(),
        forall|p: int|
            0 <= p < later.procs.len() ==> (#[trigger] later.procs[p]).label == (Label::<'src> {
                id: p as usize,
                name: None,
            }),
        forall|p: int, k: int|
            0 <= p < later.procs.len() && 0 <= k < later.procs[p].code.len() ==> (p
                < earlier.procs.len() && k < earlier.procs[p].code.len() && later.procs[p].code[k]
                == earlier.procs[p].code[k]) || later.links(#[trigger] later.procs[p].code[k].1),
    ensures
        later.linked(),
{
    assert forall|p: int, k: int|
        0 <= p < later.procs.len() && 0 <= k < later.procs[p].code.len() implies later.links(
        #[trigger] later.procs[p].code[k].1,
    ) by {
        if p < earlier.procs.len() && k < earlier.procs[p].code.len() && later.procs[p].code[k]
            == earlier.procs[p].code[k] {
            assert(earlier.links(earlier.procs[p].code[k].1));
        }
    }
}

proof fn lemma_add_instruction_linked<'src>(
    program: Lowered<'src>,
    target: int,
    instruction: Instruction<'src>,
    span: Span,
)
    requires
        program.linked(),
        0 <= target < program.procs.len(),
        program.links(instruction),
    ensures
        program.add_instruction(target, instruction, span).linked(),
        program.add_instruction(target, instruction, span).procs.len() == program.procs.len(),
        program.add_instruction(target, instruction, span).literals == program.literals,
{
    let after = program.add_instruction(target, instruction, span);
    lemma_linked_grows(program, after);
}

/// Lowering an item keeps the program linked.
pub proof fn lemma_lower_item_linked<'src>(program: Lowered<'src>, item: ItemModel, target: int)
    requires
        program.linked(),
        0 <= target < program.procs.len(),
        program.lower_item(item, target) is Ok,
        program.lower_item(item, target)->Ok_0.fits(),
    ensures
        program.lower_item(item, target)->Ok_0.linked(),
        program.lower_item(item, target)->Ok_0.procs.len() >= program.procs.len(),
        program.lower_item(item, target)->Ok_0.literals.len() >= program.literals.len(),
    decreases item, 0nat,
{
    match item.kind {
        ItemKindModel::Integer(value) => {
            lemma_add_instruction_linked(program, target, Instruction::PushInt(value), item.span);
        },
        ItemKindModel::String(raw) => {
            let pooled = Lowered {
                procs: program.procs,
                literals: program.literals.push(literal_text(raw)),
            };
            lemma_linked_grows(program, pooled);
            let instruction = Instruction::PushString(program.literals.len() as usize);
            lemma_add_instruction_linked(pooled, target, instruction, item.span);
        },
        ItemKindModel::Word(signature, name) => {
            let instruction = word_instruction::<'src>(signature, name, item.span)->Ok_0;
            assert(word_instruction::<'src>(signature, name, item.span) is Ok);
            lemma_add_instruction_linked(program, target, instruction, item.span);
        },
        ItemKindModel::Quotation(_, items) => {
            let id = program.procs.len() as int;
            let opened = program.new_proc(None);
            lemma_lower_items_grow(opened, items, items.len(), id);
            lemma_linked_grows(program, opened);
            lemma_lower_items_linked(opened, items, items.len(), id);
            let filled = opened.lower_items(items, items.len(), id)->Ok_0;
            let label = Label::<'src> { id: id as usize, name: None };
            lemma_add_instruction_linked(filled, target, Instruction::PushQuote(label), item.span);
        },
    }
}

/// Lowering never makes a program smaller.
pub proof fn lemma_lower_item_grows<'src>(program: Lowered<'src>, item: ItemModel, target: int)
    requires
        0 <= target < program.procs.len(),
        program.lower_item(item, target) is Ok,
    ensures
        program.lower_item(item, target)->Ok_0.procs.len() >= program.procs.len(),
        program.lower_item(item, target)->Ok_0.literals.len() >= program.literals.len(),
    decreases item, 0nat,
{
    match item.kind {
        ItemKindModel::Quotation(_, items) => {
            let id = program.procs.len() as int;
            lemma_lower_items_grow(program.new_proc(None), items, items.len(), id);
        },
        _ => {},
    }
}

/// Lowering never makes a program smaller.
pub proof fn lemma_lower_items_grow<'src>(
    program: Lowered<'src>,
    items: Seq<ItemModel>,
    n: nat,
    target: int,
)
    requires
        0 <= target < program.procs.len(),
        program.lower_items(items, n, target) is Ok,
    ensures
        program.lower_items(items, n, target)->Ok_0.procs.len() >= program.procs.len(),
        program.lower_items(items, n, target)->Ok_0.literals.len() >= program.literals.len(),
    decreases items, n,
{
    if n == 0 || n > items.len() {
    } else {
        lemma_lower_items_grow(program, items, (n - 1) as nat, target);
        let before = program.lower_items(items, (n - 1) as nat, target)->Ok_0;
        lemma_lower_item_grows(before, items[n - 1], target);
    }
}

/// Lowering items keeps the program linked.
pub proof fn lemma_lower_items_linked<'src>(
    program: Lowered<'src>,
    items: Seq<ItemModel>,
    n: nat,
    target: int,
)
    requires
        program.linked(),
        0 <= target < program.procs.len(),
        program.lower_items(items, n, target) is Ok,
        program.lower_items(items, n, target)->Ok_0.fits(),
    ensures
        program.lower_items(items, n, target)->Ok_0.linked(),
        program.lower_items(items, n, target)->Ok_0.procs.len() >= program.procs.len(),
        program.lower_items(items, n, target)->Ok_0.literals.len() >= program.literals.len(),
    decreases items, n,
{
    if n == 0 || n > items.len() {
    } else {
        let before = program.lower_items(items, (n - 1) as nat, target)->Ok_0;
        lemma_lower_items_grow(program, items, (n - 1) as nat, target);
        lemma_lower_item_grows(before, items[n - 1], target);
        lemma_lower_items_linked(program, items, (n - 1) as nat, target);
        lemma_lower_item_linked(before, items[n - 1], target);
    }
}

/// A lowered program that a machine can hold is linked: its procedures are
/// numbered in their order, from the entry on, which has the number 0, and
/// every instruction names a string that the pool holds or a procedure that
/// the program holds.
pub proof fn lemma_lowered_linked<'src>(items: Seq<ItemModel>, program: Lowered<'src>)
    requires
        lowered::<'src>(items) == Ok::<Lowered<'src>, LowerError>(program),
        program.fits(),
    ensures
        program.linked(),
        program.procs.len() >= 1,
{
    let empty = Lowered::<'src> { procs: Seq::empty(), literals: Seq::empty() };
    let start = empty.new_proc(None);
    assert(start.linked());
    lemma_lower_items_linked(start, items, items.len(), 0);
}

} // verus!
