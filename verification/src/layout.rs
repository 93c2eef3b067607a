//! How a lowered program lies in its procedures: the code of a procedure holds
//! one instruction for each item that was lowered into it, in order, and the
//! instruction of a quotation names the procedure that holds its items.

use vstd::prelude::*;
use crate::analyzer::item::{ItemKindModel, ItemModel};
use crate::compiler::{
    Instruction, Label, LowerError, Lowered, lemma_lower_item_grows, lowered, word_instruction,
};
use crate::effect::rcx_change;
use crate::lexer::Span;

verus! {

/// By how many bytes the instruction that `item` is lowered to moves `rcx`.
/// A word that has no instruction counts as nothing.
pub open spec fn instruction_change(item: ItemModel) -> int {
    match item.kind {
        ItemKindModel::Integer(value) => rcx_change(Instruction::PushInt(value)),
        ItemKindModel::String(_) => rcx_change(Instruction::PushString(0)),
        ItemKindModel::Quotation(_, _) => rcx_change(
            Instruction::PushQuote(Label { id: 0, name: None }),
        ),
        ItemKindModel::Word(signature, name) => match word_instruction(
            signature,
            name,
            item.span,
        ) {
            Ok(instruction) => rcx_change(instruction),
            Err(_) => 0,
        },
    }
}

/// Whether `instruction` stands for `item` in `program`: it moves `rcx` as
/// the instruction of the item does, and where the item is a quotation, it
/// names a procedure behind procedure `above` whose code is that of the items
/// of the quotation.
pub open spec fn item_laid_out<'src>(
    program: Lowered<'src>,
    above: int,
    instruction: Instruction<'src>,
    item: ItemModel,
) -> bool
    decreases item, 0nat,
{
    &&& rcx_change(instruction) == instruction_change(item)
    &&& match item.kind {
        ItemKindModel::Quotation(_, items) => {
            let id = instruction->PushQuote_0.id as int;
            &&& instruction is PushQuote
            &&& above < id < program.procs.len()
            &&& program.procs[id].code.len() == items.len()
            &&& items_laid_out(program, id, program.procs[id].code, 0, items, items.len())
        },
        _ => true,
    }
}

/// Whether the instructions of `code` from index `from` on stand for the
/// first `n` items of `items`, one for one.
pub open spec fn items_laid_out<'src>(
    program: Lowered<'src>,
    above: int,
    code: Seq<(Span, Instruction<'src>)>,
    from: int,
    items: Seq<ItemModel>,
    n: nat,
) -> bool
    decreases items, n,
{
    if n == 0 || n > items.len() {
        true
    } else {
        &&& items_laid_out(program, above, code, from, items, (n - 1) as nat)
        &&& 0 <= from + n - 1 < code.len()
        &&& item_laid_out(program, above, code[from + n - 1].1, items[n - 1])
    }
}

/// What is laid out stays so while the procedures behind `above` stay as
/// they are.
pub proof fn lemma_item_stays_laid_out<'src>(
    earlier: Lowered<'src>,
    later: Lowered<'src>,
    above: int,
    lower: int,
    instruction: Instruction<'src>,
    item: ItemModel,
)
    requires
        item_laid_out(earlier, above, instruction, item),
        lower <= above,
        earlier.procs.len() <= later.procs.len(),
        forall|p: int| above < p < earlier.procs.len() ==> later.procs[p] == earlier.procs[p],
    ensures
        item_laid_out(later, lower, instruction, item),
    decreases item, 0nat,
{
    match item.kind {
        ItemKindModel::Quotation(_, items) => {
            let id = instruction->PushQuote_0.id as int;
            let code = earlier.procs[id].code;
            assert(later.procs[id] == earlier.procs[id]);
            lemma_items_stay_laid_out(earlier, later, id, id, code, code, 0, items, items.len());
        },
        _ => {},
    }
}

/// What is laid out stays so while the procedures behind `above` and the
/// code that was there stay as they are.
pub proof fn lemma_items_stay_laid_out<'src>(
    earlier: Lowered<'src>,
    later: Lowered<'src>,
    above: int,
    lower: int,
    code: Seq<(Span, Instruction<'src>)>,
    longer: Seq<(Span, Instruction<'src>)>,
    from: int,
    items: Seq<ItemModel>,
    n: nat,
)
    requires
        items_laid_out(earlier, above, code, from, items, n),
        lower <= above,
        earlier.procs.len() <= later.procs.len(),
        forall|p: int| above < p < earlier.procs.len() ==> later.procs[p] == earlier.procs[p],
        code.len() <= longer.len(),
        forall|k: int| 0 <= k < code.len() ==> longer[k] == code[k],
    ensures
        items_laid_out(later, lower, longer, from, items, n),
    decreases items, n,
{
    if n == 0 || n > items.len() {
    } else {
        lemma_items_stay_laid_out(
            earlier,
            later,
            above,
            lower,
            code,
            longer,
            from,
            items,
            (n - 1) as nat,
        );
        lemma_item_stays_laid_out(
            earlier,
            later,
            above,
            lower,
            code[from + n - 1].1,
            items[n - 1],
        );
    }
}

/// Whether `later` came from `earlier` by lowering into procedure `target`:
/// it has the procedures of `earlier`, unchanged but for `target`, whose code
/// has `added` more instructions at its end.
pub open spec fn grown<'src>(
    earlier: Lowered<'src>,
    later: Lowered<'src>,
    target: int,
    added: nat,
) -> bool {
    let before = earlier.procs[target].code;
    let after = later.procs[target].code;
    &&& earlier.procs.len() <= later.procs.len()
    &&& forall|p: int|
        0 <= p < earlier.procs.len() && p != target ==> #[trigger] later.procs[p]
            == earlier.procs[p]
    &&& after.len() == before.len() + added
    &&& forall|k: int| 0 <= k < before.len() ==> #[trigger] after[k] == before[k]
}

/// Lowering takes no procedure away.
proof fn lemma_lower_items_grow<'src>(
    start: Lowered<'src>,
    items: Seq<ItemModel>,
    n: nat,
    target: int,
)
    requires
        0 <= target < start.procs.len(),
        start.lower_items(items, n, target) is Ok,
    ensures
        start.lower_items(items, n, target)->Ok_0.procs.len() >= start.procs.len(),
    decreases n,
{
    if n == 0 || n > items.len() {
    } else {
        lemma_lower_items_grow(start, items, (n - 1) as nat, target);
        lemma_lower_item_grows(
            start.lower_items(items, (n - 1) as nat, target)->Ok_0,
            items[n - 1],
            target,
        );
    }
}

/// Lowering an item adds one instruction to the procedure, which stands for
/// the item, and leaves the other procedures that there were as they are.
pub proof fn lemma_lower_item_laid_out<'src>(start: Lowered<'src>, item: ItemModel, target: int)
    requires
        0 <= target < start.procs.len(),
        start.lower_item(item, target) is Ok,
        start.lower_item(item, target)->Ok_0.procs.len() <= usize::MAX,
    ensures
        ({
            let end = start.lower_item(item, target)->Ok_0;
            &&& grown(start, end, target, 1)
            &&& item_laid_out(
                end,
                start.procs.len() - 1,
                end.procs[target].code.last().1,
                item,
            )
        }),
    decreases item, 0nat,
{
    let end = start.lower_item(item, target)->Ok_0;
    match item.kind {
        ItemKindModel::Quotation(_, items) => {
            let id = start.procs.len() as int;
            let opened = start.new_proc(None);
            let filled = opened.lower_items(items, items.len(), id)->Ok_0;
            assert(end == filled.add_instruction(
                target,
                Instruction::PushQuote(Label { id: id as usize, name: None }),
                item.span,
            ));
            lemma_lower_items_grow(opened, items, items.len(), id);
            assert(end.procs.len() == filled.procs.len());
            lemma_lower_items_laid_out(opened, items, items.len(), id);
            let code = filled.procs[id].code;
            assert(filled.procs[target] == opened.procs[target]);
            assert(end.procs[id] == filled.procs[id]);
            assert forall|p: int| id < p < filled.procs.len() implies end.procs[p]
                == filled.procs[p] by {}
            lemma_items_stay_laid_out(filled, end, id, id, code, code, 0, items, items.len());
            assert forall|p: int| 0 <= p < start.procs.len() && p != target implies end.procs[p]
                == start.procs[p] by {
                assert(filled.procs[p] == opened.procs[p]);
            }
            let instruction = end.procs[target].code.last().1;
            assert(instruction == Instruction::PushQuote(Label { id: id as usize, name: None }));
        },
        _ => {},
    }
}

/// Lowering items adds one instruction for each to the procedure, in order,
/// and leaves the other procedures that there were as they are.
pub proof fn lemma_lower_items_laid_out<'src>(
    start: Lowered<'src>,
    items: Seq<ItemModel>,
    n: nat,
    target: int,
)
    requires
        0 <= target < start.procs.len(),
        n <= items.len(),
        start.lower_items(items, n, target) is Ok,
        start.lower_items(items, n, target)->Ok_0.procs.len() <= usize::MAX,
    ensures
        ({
            let end = start.lower_items(items, n, target)->Ok_0;
            &&& grown(start, end, target, n)
            &&& items_laid_out(
                end,
                start.procs.len() - 1,
                end.procs[target].code,
                start.procs[target].code.len() as int,
                items,
                n,
            )
        }),
    decreases items, n,
{
    if n == 0 {
    } else {
        let middle = start.lower_items(items, (n - 1) as nat, target)->Ok_0;
        let end = middle.lower_item(items[n - 1], target)->Ok_0;
        lemma_lower_items_grow(start, items, (n - 1) as nat, target);
        lemma_lower_item_grows(middle, items[n - 1], target);
        lemma_lower_items_laid_out(start, items, (n - 1) as nat, target);
        lemma_lower_item_laid_out(middle, items[n - 1], target);
        let above = start.procs.len() - 1;
        lemma_items_stay_laid_out(
            middle,
            end,
            above,
            above,
            middle.procs[target].code,
            end.procs[target].code,
            start.procs[target].code.len() as int,
            items,
            (n - 1) as nat,
        );
        lemma_item_stays_laid_out(
            end,
            end,
            middle.procs.len() - 1,
            above,
            end.procs[target].code.last().1,
            items[n - 1],
        );
        assert forall|p: int| 0 <= p < start.procs.len() && p != target implies end.procs[p]
            == start.procs[p] by {
            assert(middle.procs[p] == start.procs[p]);
        }
        assert forall|k: int| 0 <= k < start.procs[target].code.len() implies end.procs[target].code[k]
            == start.procs[target].code[k] by {
            assert(middle.procs[target].code[k] == start.procs[target].code[k]);
        }
    }
}

/// The program that items are lowered to holds them in procedure 0.
pub proof fn lemma_lowered_laid_out<'src>(items: Seq<ItemModel>, program: Lowered<'src>)
    requires
        lowered::<'src>(items) == Ok::<Lowered<'src>, LowerError>(program),
        program.procs.len() <= usize::MAX,
    ensures
        program.procs.len() > 0,
        program.procs[0].code.len() == items.len(),
        items_laid_out(program, 0, program.procs[0].code, 0, items, items.len()),
{
    let start = Lowered::<'src> { procs: Seq::empty(), literals: Seq::empty() }.new_proc(None);
    lemma_lower_items_laid_out(start, items, items.len(), 0);
}

} // verus!
