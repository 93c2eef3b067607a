//! The items of a scope move the top of the data stack by what the signature
//! of the scope says: the changes that the signatures of the items stand for
//! add up to it, in the program and in every quotation within it.
//!
//! A type without a size counts as no cell. Nothing here says what happens when
//! the code runs.

use vstd::prelude::*;
use vstd::string::*;
use crate::analyzer::infer::{
    Analysis, Scope, analyze_words, analyzed, applied, bound_signature, builtins, frozen,
    listed_from_top, resolve_item, resolve_items, turned, with_item, word_step,
};
use crate::analyzer::item::{ItemKindModel, ItemModel};
use crate::analyzer::laws::{
    lemma_analysis_solved, lemma_applied_sound, lemma_resolve_items_prefix,
};
use crate::analyzer::solved::solved;
use crate::analyzer::sound::{
    extends, lemma_extends_further, lemma_extends_itself, lemma_extends_prefix,
    lemma_resolve_concat, lemma_resolve_one,
};
use crate::analyzer::subst::Bindings;
use crate::analyzer::types::{Sig, Ty};
use crate::compiler::{Instruction, LowerError, Lowered, lowered, word_instruction};
use crate::effect::{cells_of, lemma_word_change, rcx_change, signature_change};
use crate::layout::{instruction_change, item_laid_out, items_laid_out, lemma_lowered_laid_out};
use crate::lexer::{Span, Token, Word};
use crate::shape::{item_shaped, items_shaped, lemma_program_shaped};

verus! {

/// The number of cells that values of `types` take.
pub open spec fn total(types: Seq<Ty>) -> nat {
    cells_of(types, types.len())
}

/// The cells of two lists, one behind the other, are those of the one and
/// those of the other.
pub proof fn lemma_cells_concat(a: Seq<Ty>, b: Seq<Ty>, n: nat)
    requires
        n <= b.len(),
    ensures
        cells_of(a + b, a.len() + n) == total(a) + cells_of(b, n),
    decreases n,
{
    let both = a + b;
    if n == 0 {
        crate::effect::lemma_cells_of_prefix(both, a, a.len());
    } else {
        lemma_cells_concat(a, b, (n - 1) as nat);
        assert(both[a.len() + n - 1] == b[n - 1]);
    }
}

pub proof fn lemma_total_concat(a: Seq<Ty>, b: Seq<Ty>)
    ensures
        total(a + b) == total(a) + total(b),
{
    lemma_cells_concat(a, b, b.len());
}

/// Under `bindings`, the cells of two lists, one behind the other, are those of
/// the one and those of the other.
pub proof fn lemma_resolved_total_concat(bindings: Bindings, a: Seq<Ty>, b: Seq<Ty>)
    ensures
        total(bindings.resolve_list(a + b)) == total(bindings.resolve_list(a)) + total(
            bindings.resolve_list(b),
        ),
{
    lemma_resolve_concat(bindings, a, b, b.len());
    lemma_total_concat(bindings.resolve_list(a), bindings.resolve_list(b));
}

/// A list takes as many cells as the list turned round.
pub proof fn lemma_resolved_total_turned(bindings: Bindings, types: Seq<Ty>)
    ensures
        total(bindings.resolve_list(types.reverse())) == total(bindings.resolve_list(types)),
    decreases types.len(),
{
    if types.len() == 0 {
        assert(types.reverse() =~= types);
    } else {
        let front = types.drop_last();
        let last = seq![types.last()];
        assert(types =~= front + last);
        assert(types.reverse() =~= last + front.reverse());
        lemma_resolved_total_turned(bindings, front);
        lemma_resolved_total_concat(bindings, front, last);
        lemma_resolved_total_concat(bindings, last, front.reverse());
    }
}

/// By how many bytes the code of an item moves the top of the stack, all told:
/// a literal or a quotation puts its value there, and a word does what its
/// signature says, with what a quotation does that it applies.
pub open spec fn item_change(item: ItemModel) -> int {
    match item.kind {
        ItemKindModel::Integer(_) => 8,
        ItemKindModel::String(_) => 16,
        ItemKindModel::Quotation(_, _) => 8,
        ItemKindModel::Word(signature, _) => signature_change(signature),
    }
}

/// The changes of the first `n` items of `items`, added up.
pub open spec fn items_change(items: Seq<ItemModel>, n: nat) -> int
    decreases n,
{
    if n == 0 || n > items.len() {
        0
    } else {
        items_change(items, (n - 1) as nat) + item_change(items[n - 1])
    }
}

/// Whether the changes of `items` add up to what `signature` says.
pub open spec fn adds_up(items: Seq<ItemModel>, signature: Sig) -> bool {
    items_change(items, items.len()) == signature_change(signature)
}

/// Whether, where `item` is a quotation, its items add up to its signature, and
/// so in every quotation within it.
pub open spec fn adds_up_within(item: ItemModel) -> bool
    decreases item, 0nat,
{
    match item.kind {
        ItemKindModel::Quotation(signature, items) => adds_up(items, signature) && add_up_within(
            items,
            items.len(),
        ),
        _ => true,
    }
}

/// Whether every quotation among the first `n` items of `items` adds up within.
pub open spec fn add_up_within(items: Seq<ItemModel>, n: nat) -> bool
    decreases items, n,
{
    if n == 0 || n > items.len() {
        true
    } else {
        add_up_within(items, (n - 1) as nat) && adds_up_within(items[n - 1])
    }
}

/// The changes of a prefix depend on the prefix alone.
pub proof fn lemma_items_change_prefix(a: Seq<ItemModel>, b: Seq<ItemModel>, n: nat)
    requires
        n <= a.len(),
        n <= b.len(),
        forall|i: int| 0 <= i < n ==> a[i] == b[i],
    ensures
        items_change(a, n) == items_change(b, n),
        add_up_within(a, n) == add_up_within(b, n),
    decreases n,
{
    if n > 0 {
        lemma_items_change_prefix(a, b, (n - 1) as nat);
    }
}

/// Resolving a signature that earlier bindings resolved is resolving the
/// signature.
pub proof fn lemma_signature_resolved_further(later: Bindings, earlier: Bindings, signature: Sig)
    requires
        extends(later, earlier),
    ensures
        later.resolve_signature(earlier.resolve_signature(signature)) == later.resolve_signature(
            signature,
        ),
{
    lemma_extends_prefix(later, earlier, signature.inputs, signature.inputs.len());
    lemma_extends_prefix(later, earlier, signature.outputs, signature.outputs.len());
}

/// Resolving an item that earlier bindings resolved is resolving the item.
pub proof fn lemma_item_resolved_further(later: Bindings, earlier: Bindings, item: ItemModel)
    requires
        extends(later, earlier),
    ensures
        resolve_item(later, resolve_item(earlier, item)) == resolve_item(later, item),
    decreases item, 0nat,
{
    match item.kind {
        ItemKindModel::Word(signature, _) => {
            lemma_signature_resolved_further(later, earlier, signature);
        },
        ItemKindModel::Quotation(signature, items) => {
            lemma_signature_resolved_further(later, earlier, signature);
            lemma_items_resolved_further(later, earlier, items, items.len());
        },
        _ => {},
    }
}

/// Resolving items that earlier bindings resolved is resolving the items.
pub proof fn lemma_items_resolved_further(
    later: Bindings,
    earlier: Bindings,
    items: Seq<ItemModel>,
    n: nat,
)
    requires
        extends(later, earlier),
        n <= items.len(),
    ensures
        resolve_items(earlier, items, n).len() == n,
        resolve_items(later, items, n).len() == n,
        resolve_items(later, resolve_items(earlier, items, n), n) == resolve_items(
            later,
            items,
            n,
        ),
    decreases items, n,
{
    let once = resolve_items(earlier, items, n);
    if n == 0 {
    } else {
        lemma_items_resolved_further(later, earlier, items, (n - 1) as nat);
        lemma_item_resolved_further(later, earlier, items[n - 1]);
        let shorter = resolve_items(earlier, items, (n - 1) as nat);
        assert(once == shorter.push(resolve_item(earlier, items[n - 1])));
        lemma_resolve_items_prefix(later, once, shorter, (n - 1) as nat);
    }
}

/// The items of a scope with one more item, resolved.
pub proof fn lemma_resolve_items_push(bindings: Bindings, items: Seq<ItemModel>, item: ItemModel)
    ensures
        resolve_items(bindings, items.push(item), items.len() + 1) == resolve_items(
            bindings,
            items,
            items.len(),
        ).push(resolve_item(bindings, item)),
        resolve_items(bindings, items, items.len()).len() == items.len(),
{
    lemma_resolve_items_prefix(bindings, items.push(item), items, items.len());
    lemma_resolve_items_len(bindings, items, items.len());
}

pub proof fn lemma_resolve_items_len(bindings: Bindings, items: Seq<ItemModel>, n: nat)
    requires
        n <= items.len(),
    ensures
        resolve_items(bindings, items, n).len() == n,
    decreases n,
{
    if n > 0 {
        lemma_resolve_items_len(bindings, items, (n - 1) as nat);
    }
}

/// The changes of items with one more item.
pub proof fn lemma_items_change_push(items: Seq<ItemModel>, item: ItemModel)
    ensures
        items_change(items.push(item), items.len() + 1) == items_change(items, items.len())
            + item_change(item),
        add_up_within(items.push(item), items.len() + 1) == (add_up_within(items, items.len())
            && adds_up_within(item)),
{
    lemma_items_change_prefix(items.push(item), items, items.len());
}

/// Whether, under `bindings`, the changes of the items of `scope` add up to
/// what its stack and its demands say, and every quotation among them adds up
/// within.
pub open spec fn scope_adds_up(bindings: Bindings, scope: Scope) -> bool {
    let (signature, items) = frozen(bindings, scope);
    adds_up(items, signature) && add_up_within(items, items.len())
}

/// Whether the scope of `analysis` and every scope that waits add up under
/// `bindings`.
pub open spec fn analysis_adds_up(bindings: Bindings, analysis: Analysis) -> bool {
    &&& scope_adds_up(bindings, analysis.scope)
    &&& forall|i: int|
        0 <= i < analysis.frames.len() ==> scope_adds_up(
            bindings,
            (#[trigger] analysis.frames[i]).scope,
        )
}

/// A scope that adds up still does with one more item that puts values on the
/// stack, where the change of the item is the size of the values.
pub proof fn lemma_push_adds_up(
    bindings: Bindings,
    scope: Scope,
    pushed: Seq<Ty>,
    kind: ItemKindModel,
    span: Span,
)
    requires
        scope_adds_up(bindings, scope),
        item_change(resolve_item(bindings, ItemModel { kind, span })) == 8 * total(
            bindings.resolve_list(pushed),
        ),
        adds_up_within(resolve_item(bindings, ItemModel { kind, span })),
    ensures
        scope_adds_up(bindings, with_item(scope, pushed, kind, span)),
{
    let item = ItemModel { kind, span };
    let items = resolve_items(bindings, scope.items, scope.items.len());
    lemma_resolve_items_push(bindings, scope.items, item);
    lemma_items_change_push(items, resolve_item(bindings, item));
    lemma_resolved_total_concat(bindings, scope.stack, pushed);
}

/// A scope that adds up still does after a word was applied in it, under
/// bindings that hold what the bindings hold that the word left.
pub proof fn lemma_word_adds_up(
    last: Bindings,
    bindings: Bindings,
    scope: Scope,
    signature: Sig,
    from_top: bool,
    name: Seq<char>,
    span: Span,
)
    requires
        solved(bindings),
        applied(bindings, scope, signature, from_top) is Ok,
        extends(last, applied(bindings, scope, signature, from_top)->Ok_0.0),
        scope_adds_up(last, scope),
    ensures
        ({
            let (after, left, instance) = applied(bindings, scope, signature, from_top)->Ok_0;
            scope_adds_up(
                last,
                with_item(left, Seq::empty(), ItemKindModel::Word(instance, name), span),
            )
        }),
{
    let (after, left, instance) = applied(bindings, scope, signature, from_top)->Ok_0;
    let taken = lemma_applied_sound(bindings, scope, signature, from_top);
    let kept = scope.stack.len() - taken;
    let added = left.demanded.len() - scope.demanded.len();
    let low = scope.stack.take(kept);
    let high = scope.stack.skip(kept);
    let fresh = left.demanded.take(added);
    let outputs = after.resolve_list(instance.outputs);
    assert(scope.stack =~= low + high);
    assert(left.demanded =~= fresh + left.demanded.skip(added));
    lemma_resolved_total_concat(last, low, high);
    lemma_resolved_total_concat(last, fresh, scope.demanded);
    lemma_resolved_total_concat(last, low, outputs);
    lemma_extends_prefix(last, after, instance.outputs, instance.outputs.len());
    let listed = turned(instance.inputs, from_top);
    let lacking = turned(fresh, from_top);
    lemma_extends_prefix(last, after, listed, listed.len());
    lemma_extends_prefix(last, after, lacking, lacking.len());
    lemma_extends_prefix(last, after, high, high.len());
    lemma_resolve_concat(
        last,
        after.resolve_list(lacking),
        after.resolve_list(high),
        after.resolve_list(high).len(),
    );
    lemma_total_concat(last.resolve_list(lacking), last.resolve_list(high));
    if from_top {
        lemma_resolved_total_turned(last, instance.inputs);
        lemma_resolved_total_turned(last, fresh);
    }
    assert(total(last.resolve_list(instance.inputs)) == total(last.resolve_list(fresh)) + total(
        last.resolve_list(high),
    ));
    let kind = ItemKindModel::Word(instance, name);
    let item = ItemModel { kind, span };
    let items = resolve_items(last, scope.items, scope.items.len());
    lemma_resolve_items_push(last, left.items, item);
    lemma_items_change_push(items, resolve_item(last, item));
    assert(left.stack + Seq::<Ty>::empty() =~= left.stack);
}

/// Every word keeps the scopes of an analysis adding up, under any bindings
/// that hold what the bindings hold that the word left.
pub proof fn lemma_word_step_adds_up<'src>(
    table: Seq<(Seq<char>, Sig)>,
    analysis: Analysis<'src>,
    word: Word<'src>,
    last: Bindings,
)
    requires
        solved(analysis.bindings),
        word_step(table, analysis, word) is Ok,
        extends(last, word_step(table, analysis, word)->Ok_0.bindings),
        extends(last, analysis.bindings),
        analysis_adds_up(last, analysis),
    ensures
        analysis_adds_up(last, word_step(table, analysis, word)->Ok_0),
{
    let next = word_step(table, analysis, word)->Ok_0;
    let scope = analysis.scope;
    reveal_with_fuel(cells_of, 3);
    match word.token {
        Token::Integer(value) => {
            let pushed = seq![Ty::Int];
            lemma_resolve_one(last, Ty::Int);
            lemma_push_adds_up(last, scope, pushed, ItemKindModel::Integer(value), word.span);
        },
        Token::String(raw) => {
            let pushed = seq![Ty::Str];
            lemma_resolve_one(last, Ty::Str);
            lemma_push_adds_up(last, scope, pushed, ItemKindModel::String(raw@), word.span);
        },
        Token::Symbol(name) => {
            if name@ == "["@ {
                let frames = analysis.frames;
                assert forall|i: int| 0 <= i < next.frames.len() implies scope_adds_up(
                    last,
                    (#[trigger] next.frames[i]).scope,
                ) by {
                    if i < frames.len() {
                        assert(next.frames[i] == frames[i]);
                    }
                }
                assert(resolve_items(last, next.scope.items, 0) =~= Seq::<ItemModel>::empty());
            } else if name@ == "]"@ {
                let frames = analysis.frames;
                let frame = frames.last();
                let (signature, items) = frozen(analysis.bindings, scope);
                let whole = Sig { inputs: scope.demanded, outputs: scope.stack };
                lemma_signature_resolved_further(last, analysis.bindings, whole);
                lemma_items_resolved_further(
                    last,
                    analysis.bindings,
                    scope.items,
                    scope.items.len(),
                );
                let quotation = Ty::Quotation(signature);
                lemma_resolve_one(last, quotation);
                lemma_push_adds_up(
                    last,
                    frame.scope,
                    seq![quotation],
                    ItemKindModel::Quotation(signature, items),
                    frame.opener.span,
                );
                assert forall|i: int| 0 <= i < next.frames.len() implies scope_adds_up(
                    last,
                    (#[trigger] next.frames[i]).scope,
                ) by {
                    assert(next.frames[i] == frames[i]);
                }
            } else {
                let signature = bound_signature(table, name@, table.len())->Some_0;
                lemma_word_adds_up(
                    last,
                    analysis.bindings,
                    scope,
                    signature,
                    listed_from_top(name@),
                    name@,
                    word.span,
                );
            }
        },
    }
}

/// The scopes of an analysis add up at every word, under any bindings that
/// hold what the bindings of the analysis hold at that word.
pub proof fn lemma_analysis_adds_up<'src>(
    table: Seq<(Seq<char>, Sig)>,
    words: Seq<Word<'src>>,
    n: nat,
    last: Bindings,
)
    requires
        analyze_words(table, words, n) is Ok,
        extends(last, analyze_words(table, words, n)->Ok_0.bindings),
    ensures
        analysis_adds_up(last, analyze_words(table, words, n)->Ok_0),
    decreases n,
{
    let analysis = analyze_words(table, words, n)->Ok_0;
    if n == 0 || n > words.len() {
        assert(resolve_items(last, analysis.scope.items, 0) =~= Seq::<ItemModel>::empty());
    } else {
        let before = analyze_words(table, words, (n - 1) as nat)->Ok_0;
        let word = words[n - 1];
        lemma_analysis_solved(table, words, (n - 1) as nat);
        lemma_step_extends_bindings(table, before, word);
        lemma_extends_further(last, analysis.bindings, before.bindings);
        lemma_analysis_adds_up(table, words, (n - 1) as nat, last);
        lemma_word_step_adds_up(table, before, word, last);
    }
}

/// The bindings that a word leaves hold what the bindings held before it.
pub proof fn lemma_step_extends_bindings<'src>(
    table: Seq<(Seq<char>, Sig)>,
    analysis: Analysis<'src>,
    word: Word<'src>,
)
    requires
        solved(analysis.bindings),
        word_step(table, analysis, word) is Ok,
    ensures
        extends(word_step(table, analysis, word)->Ok_0.bindings, analysis.bindings),
{
    lemma_extends_itself(analysis.bindings);
    match word.token {
        Token::Symbol(name) => {
            if name@ != "["@ && name@ != "]"@ {
                let signature = bound_signature(table, name@, table.len())->Some_0;
                lemma_applied_sound(
                    analysis.bindings,
                    analysis.scope,
                    signature,
                    listed_from_top(name@),
                );
            }
        },
        _ => {},
    }
}

/// In a program that was analysed, the changes of the items add up to what
/// the signature of the program says, and in every quotation within it the
/// changes of its items add up to what the signature of the quotation says.
/// So the items of a program of signature `() -> ()` leave the top of the
/// stack where it was.
pub proof fn lemma_program_adds_up<'src>(words: Seq<Word<'src>>)
    requires
        analyzed(words) is Ok,
    ensures
        ({
            let (signature, items) = analyzed(words)->Ok_0;
            &&& adds_up(items, signature)
            &&& add_up_within(items, items.len())
            &&& signature.inputs.len() == 0 && signature.outputs.len() == 0 ==> items_change(
                items,
                items.len(),
            ) == 0
        }),
{
    let analysis = analyze_words(builtins(), words, words.len())->Ok_0;
    lemma_analysis_solved(builtins(), words, words.len());
    lemma_extends_itself(analysis.bindings);
    lemma_analysis_adds_up(builtins(), words, words.len(), analysis.bindings);
}

/// Whether every word of `item`, at any depth, has an instruction.
pub open spec fn item_lowers(item: ItemModel) -> bool
    decreases item, 0nat,
{
    match item.kind {
        ItemKindModel::Word(signature, name) => word_instruction(signature, name, item.span) is Ok,
        ItemKindModel::Quotation(_, items) => items_lower(items, items.len()),
        _ => true,
    }
}

/// Whether every word among the first `n` items of `items`, at any depth, has
/// an instruction.
pub open spec fn items_lower(items: Seq<ItemModel>, n: nat) -> bool
    decreases items, n,
{
    if n == 0 || n > items.len() {
        true
    } else {
        items_lower(items, (n - 1) as nat) && item_lowers(items[n - 1])
    }
}

/// Whether no word of `item`, at any depth, is `exit`, which never returns, or
/// `/`, which has no code.
pub open spec fn item_returns(item: ItemModel) -> bool
    decreases item, 0nat,
{
    match item.kind {
        ItemKindModel::Word(_, name) => name != "exit"@ && name != "/"@,
        ItemKindModel::Quotation(_, items) => items_return(items, items.len()),
        _ => true,
    }
}

/// Whether none of the first `n` items of `items` holds `exit` or `/`, at any
/// depth.
pub open spec fn items_return(items: Seq<ItemModel>, n: nat) -> bool
    decreases items, n,
{
    if n == 0 || n > items.len() {
        true
    } else {
        items_return(items, (n - 1) as nat) && item_returns(items[n - 1])
    }
}

/// Where an item can be lowered, every word of it has an instruction.
pub proof fn lemma_lowered_item_lowers<'src>(state: Lowered<'src>, item: ItemModel, target: int)
    requires
        state.lower_item(item, target) is Ok,
    ensures
        item_lowers(item),
    decreases item, 0nat,
{
    match item.kind {
        ItemKindModel::Quotation(_, items) => {
            lemma_lowered_items_lower(
                state.new_proc(None),
                items,
                items.len(),
                state.procs.len() as int,
            );
        },
        _ => {},
    }
}

/// Where items can be lowered, every word of them has an instruction.
pub proof fn lemma_lowered_items_lower<'src>(
    state: Lowered<'src>,
    items: Seq<ItemModel>,
    n: nat,
    target: int,
)
    requires
        state.lower_items(items, n, target) is Ok,
    ensures
        items_lower(items, n),
    decreases items, n,
{
    if n == 0 || n > items.len() {
    } else {
        lemma_lowered_items_lower(state, items, (n - 1) as nat, target);
        lemma_lowered_item_lowers(
            state.lower_items(items, (n - 1) as nat, target)->Ok_0,
            items[n - 1],
            target,
        );
    }
}

/// By how many bytes the quotation that `item` applies moves `rcx`, which is
/// what the signature of the quotation says. Nothing where the item is no
/// `apply`.
pub open spec fn applied_change(item: ItemModel) -> int {
    match item.kind {
        ItemKindModel::Word(signature, name) => if name == "apply"@ && word_instruction(
            signature,
            name,
            item.span,
        ) is Ok {
            signature_change(signature.inputs.last()->Quotation_0)
        } else {
            0
        },
        _ => 0,
    }
}

/// By how many bytes the code of `item` moves `rcx`, all told: the instruction
/// that the item is lowered to does what [`rcx_change`] says, and the
/// quotation that `apply` calls what its signature says.
pub open spec fn code_change(item: ItemModel) -> int {
    instruction_change(item) + applied_change(item)
}

/// What the code of the first `n` items of `items` does to `rcx`, added up.
pub open spec fn code_changes(items: Seq<ItemModel>, n: nat) -> int
    decreases n,
{
    if n == 0 || n > items.len() {
        0
    } else {
        code_changes(items, (n - 1) as nat) + code_change(items[n - 1])
    }
}

/// Whether the code of `items` moves `rcx` by what `signature` says.
pub open spec fn code_adds_up(items: Seq<ItemModel>, signature: Sig) -> bool {
    code_changes(items, items.len()) == signature_change(signature)
}

/// Whether, where `item` is a quotation, its code moves `rcx` by what its
/// signature says, and so in every quotation within it.
pub open spec fn code_adds_up_within(item: ItemModel) -> bool
    decreases item, 0nat,
{
    match item.kind {
        ItemKindModel::Quotation(signature, items) => code_adds_up(items, signature)
            && codes_add_up_within(items, items.len()),
        _ => true,
    }
}

/// Whether the code of every quotation among the first `n` items of `items`
/// adds up within.
pub open spec fn codes_add_up_within(items: Seq<ItemModel>, n: nat) -> bool
    decreases items, n,
{
    if n == 0 || n > items.len() {
        true
    } else {
        codes_add_up_within(items, (n - 1) as nat) && code_adds_up_within(items[n - 1])
    }
}

/// The code of items whose words are shaped, are lowered and return does what
/// the signatures of the items say.
pub proof fn lemma_code_changes(items: Seq<ItemModel>, n: nat)
    requires
        n <= items.len(),
        items_shaped(items, n),
        items_lower(items, n),
        items_return(items, n),
    ensures
        code_changes(items, n) == items_change(items, n),
    decreases n,
{
    if n > 0 {
        lemma_code_changes(items, (n - 1) as nat);
        let item = items[n - 1];
        assert(item_shaped(item) && item_lowers(item) && item_returns(item));
        match item.kind {
            ItemKindModel::Word(signature, name) => {
                lemma_word_change(
                    signature,
                    name,
                    item.span,
                    word_instruction(signature, name, item.span)->Ok_0,
                );
            },
            _ => {},
        }
    }
}

/// Where the items of every quotation add up, so does their code, where the
/// words are shaped, are lowered and return.
pub proof fn lemma_code_adds_up_within(item: ItemModel)
    requires
        item_shaped(item),
        item_lowers(item),
        item_returns(item),
        adds_up_within(item),
    ensures
        code_adds_up_within(item),
    decreases item, 0nat,
{
    match item.kind {
        ItemKindModel::Quotation(signature, items) => {
            lemma_code_changes(items, items.len());
            lemma_codes_add_up_within(items, items.len());
        },
        _ => {},
    }
}

pub proof fn lemma_codes_add_up_within(items: Seq<ItemModel>, n: nat)
    requires
        n <= items.len(),
        items_shaped(items, n),
        items_lower(items, n),
        items_return(items, n),
        add_up_within(items, n),
    ensures
        codes_add_up_within(items, n),
    decreases items, n,
{
    if n > 0 {
        lemma_codes_add_up_within(items, (n - 1) as nat);
        lemma_code_adds_up_within(items[n - 1]);
    }
}

/// The code of a program moves the top of the data stack by what the
/// signature of the program says. Where a program was analysed and lowered,
/// and holds neither `exit` nor `/`, what the instructions of its items do
/// to `rcx`, with what the quotations do that are applied, adds up to the
/// change that its signature stands for; and so does the code of every
/// quotation within it, for the signature of the quotation. For a program of
/// signature `() -> ()` that is no change: `rcx` is where it was when the
/// program began.
pub proof fn lemma_program_code_adds_up<'src>(words: Seq<Word<'src>>)
    requires
        analyzed(words) is Ok,
        lowered::<'src>(analyzed(words)->Ok_0.1) is Ok,
        items_return(analyzed(words)->Ok_0.1, analyzed(words)->Ok_0.1.len()),
    ensures
        ({
            let (signature, items) = analyzed(words)->Ok_0;
            &&& code_adds_up(items, signature)
            &&& codes_add_up_within(items, items.len())
            &&& signature.inputs.len() == 0 && signature.outputs.len() == 0 ==> code_changes(
                items,
                items.len(),
            ) == 0
        }),
{
    let (signature, items) = analyzed(words)->Ok_0;
    lemma_program_adds_up(words);
    lemma_program_shaped(words);
    let start = Lowered::<'src> { procs: Seq::empty(), literals: Seq::empty() }.new_proc(None);
    lemma_lowered_items_lower(start, items, items.len(), 0);
    lemma_code_changes(items, items.len());
    lemma_codes_add_up_within(items, items.len());
}

/// What the first `n` instructions of `code` do to `rcx`, added up.
pub open spec fn code_sum(code: Seq<(Span, Instruction)>, n: nat) -> int
    decreases n,
{
    if n == 0 || n > code.len() {
        0
    } else {
        code_sum(code, (n - 1) as nat) + rcx_change(code[n - 1].1)
    }
}

/// What the quotations do to `rcx` that the first `n` items of `items` apply.
pub open spec fn applied_sum(items: Seq<ItemModel>, n: nat) -> int
    decreases n,
{
    if n == 0 || n > items.len() {
        0
    } else {
        applied_sum(items, (n - 1) as nat) + applied_change(items[n - 1])
    }
}

/// Whether a procedure of `program` with the code `code`, which holds
/// `items`, moves `rcx` by what `signature` says: what its instructions do to
/// `rcx`, and the quotations that they apply, adds up to the change that the
/// signature stands for. And whether the same holds of the procedure of
/// every quotation among the items, for the signature of the quotation.
pub open spec fn proc_adds_up<'src>(
    program: Lowered<'src>,
    code: Seq<(Span, Instruction<'src>)>,
    items: Seq<ItemModel>,
    signature: Sig,
) -> bool
    decreases items, items.len() + 1,
{
    &&& code.len() == items.len()
    &&& code_sum(code, code.len()) + applied_sum(items, items.len()) == signature_change(signature)
    &&& procs_add_up_within(program, code, items, items.len())
}

/// Whether the procedure of every quotation among the first `n` items of
/// `items`, which the instruction of the quotation names, adds up.
pub open spec fn procs_add_up_within<'src>(
    program: Lowered<'src>,
    code: Seq<(Span, Instruction<'src>)>,
    items: Seq<ItemModel>,
    n: nat,
) -> bool
    decreases items, n,
{
    if n == 0 || n > items.len() || n > code.len() {
        true
    } else {
        &&& procs_add_up_within(program, code, items, (n - 1) as nat)
        &&& match items[n - 1].kind {
            ItemKindModel::Quotation(signature, inner) => {
                let id = code[n - 1].1->PushQuote_0.id as int;
                &&& code[n - 1].1 is PushQuote
                &&& 0 <= id < program.procs.len()
                &&& proc_adds_up(program, program.procs[id].code, inner, signature)
            },
            _ => true,
        }
    }
}

/// What the instructions do that stand for items is what the instructions of
/// the items do.
pub proof fn lemma_code_sum<'src>(
    program: Lowered<'src>,
    above: int,
    code: Seq<(Span, Instruction<'src>)>,
    items: Seq<ItemModel>,
    n: nat,
)
    requires
        n <= items.len(),
        items_laid_out(program, above, code, 0, items, n),
    ensures
        code_sum(code, n) + applied_sum(items, n) == code_changes(items, n),
    decreases n,
{
    if n > 0 {
        lemma_code_sum(program, above, code, items, (n - 1) as nat);
        assert(item_laid_out(program, above, code[n - 1].1, items[n - 1]));
        assert(rcx_change(code[n - 1].1) == instruction_change(items[n - 1]));
        assert(n <= code.len());
    }
}

/// A procedure whose code stands for items whose code adds up, adds up.
pub proof fn lemma_proc_adds_up<'src>(
    program: Lowered<'src>,
    above: int,
    code: Seq<(Span, Instruction<'src>)>,
    items: Seq<ItemModel>,
    signature: Sig,
)
    requires
        code.len() == items.len(),
        items_laid_out(program, above, code, 0, items, items.len()),
        code_adds_up(items, signature),
        codes_add_up_within(items, items.len()),
    ensures
        proc_adds_up(program, code, items, signature),
    decreases items, items.len() + 1,
{
    lemma_code_sum(program, above, code, items, items.len());
    lemma_procs_add_up_within(program, above, code, items, items.len());
}

pub proof fn lemma_procs_add_up_within<'src>(
    program: Lowered<'src>,
    above: int,
    code: Seq<(Span, Instruction<'src>)>,
    items: Seq<ItemModel>,
    n: nat,
)
    requires
        n <= items.len(),
        n <= code.len(),
        items_laid_out(program, above, code, 0, items, n),
        codes_add_up_within(items, n),
    ensures
        procs_add_up_within(program, code, items, n),
    decreases items, n,
{
    if n > 0 {
        lemma_procs_add_up_within(program, above, code, items, (n - 1) as nat);
        let item = items[n - 1];
        let instruction = code[n - 1].1;
        assert(item_laid_out(program, above, instruction, item));
        assert(code_adds_up_within(item));
        match item.kind {
            ItemKindModel::Quotation(signature, inner) => {
                let id = instruction->PushQuote_0.id as int;
                lemma_proc_adds_up(program, id, program.procs[id].code, inner, signature);
            },
            _ => {},
        }
    }
}

/// The code of a program moves the top of the data stack by what the
/// signature of the program says. Where a program was analysed and lowered,
/// and holds neither `exit` nor `/`, what the instructions of its first
/// procedure do to `rcx`, with what the quotations do that they apply, adds
/// up to the change that the signature of the program stands for; and so
/// for the procedure of every quotation in the program and the signature of
/// that quotation. For a program of signature `() -> ()` the sum is zero:
/// `rcx` is where it was when the program began.
pub proof fn lemma_lowered_program_adds_up<'src>(words: Seq<Word<'src>>, program: Lowered<'src>)
    requires
        analyzed(words) is Ok,
        lowered::<'src>(analyzed(words)->Ok_0.1) == Ok::<Lowered<'src>, LowerError>(program),
        program.procs.len() <= usize::MAX,
        items_return(analyzed(words)->Ok_0.1, analyzed(words)->Ok_0.1.len()),
    ensures
        ({
            let (signature, items) = analyzed(words)->Ok_0;
            let code = program.procs[0].code;
            &&& program.procs.len() > 0
            &&& proc_adds_up(program, code, items, signature)
            &&& signature.inputs.len() == 0 && signature.outputs.len() == 0 ==> code_sum(
                code,
                code.len(),
            ) + applied_sum(items, items.len()) == 0
        }),
{
    let (signature, items) = analyzed(words)->Ok_0;
    lemma_program_code_adds_up(words);
    lemma_lowered_laid_out(items, program);
    lemma_proc_adds_up(program, 0, program.procs[0].code, items, signature);
}

} // verus!
