//! Every word of a program that was analysed has the shape that the table
//! declares for it: its signature is the declared one with types in the place
//! of its variables and segments in the place of its row variables.

use vstd::prelude::*;
use vstd::string::*;
use crate::analyzer::infer::{
    Analysis, Renaming, Scope, analyze_words, analyzed, applied, bound_signature, builtins,
    frozen, instantiate, instantiate_prefix, instantiate_type, listed_from_top, resolve_item,
    resolve_items, sig, with_item, word_step,
};
use crate::analyzer::item::{ItemKindModel, ItemModel};
use crate::analyzer::laws::lemma_analysis_solved;
use crate::analyzer::sound::{extends, lemma_extends_further, lemma_extends_itself};
use crate::analyzer::subst::Bindings;
use crate::analyzer::types::{Sig, Ty};
use crate::balance::{
    lemma_items_resolved_further, lemma_resolve_items_len, lemma_resolve_items_push,
    lemma_step_extends_bindings,
};
use crate::effect::shaped;
use crate::lexer::{Span, Token, Word};

verus! {

/// The entry of the table that binds `name`.
pub proof fn lemma_bound_first(table: Seq<(Seq<char>, Sig)>, name: Seq<char>, n: nat) -> (i: int)
    requires
        bound_signature(table, name, n) is Some,
    ensures
        0 <= i < n <= table.len(),
        table[i].0 == name,
        bound_signature(table, name, n) == Some(table[i].1),
    decreases n,
{
    if bound_signature(table, name, (n - 1) as nat) is Some {
        lemma_bound_first(table, name, (n - 1) as nat)
    } else {
        n - 1
    }
}

/// Whether `types` holds no variable and no quotation.
pub open spec fn plain(types: Seq<Ty>) -> bool {
    forall|i: int|
        0 <= i < types.len() ==> (#[trigger] types[i]) is Int || types[i] is Str || types[i] is Bool
}

/// A use of plain types is these types.
pub proof fn lemma_plain_instance(renaming: Renaming, types: Seq<Ty>, n: nat)
    requires
        plain(types),
        n <= types.len(),
    ensures
        instantiate_prefix(renaming, types, n) == (renaming, types.take(n as int)),
    decreases n,
{
    if n == 0 {
        assert(types.take(0) =~= Seq::<Ty>::empty());
    } else {
        lemma_plain_instance(renaming, types, (n - 1) as nat);
        let t = types[n - 1];
        assert(t is Int || t is Str || t is Bool);
        assert(instantiate_type(renaming, t) == (renaming, t));
        assert(types.take(n as int) =~= types.take(n - 1).push(t));
    }
}

/// Plain types stand for themselves.
pub proof fn lemma_plain_resolved(bindings: Bindings, types: Seq<Ty>, n: nat)
    requires
        plain(types),
        n <= types.len(),
    ensures
        bindings.resolve_prefix(types, n) == types.take(n as int),
    decreases n,
{
    if n == 0 {
        assert(types.take(0) =~= Seq::<Ty>::empty());
    } else {
        lemma_plain_resolved(bindings, types, (n - 1) as nat);
        let t = types[n - 1];
        assert(t is Int || t is Str || t is Bool);
        assert(bindings.resolve_type(t) == seq![t]);
        assert(types.take(n as int) =~= types.take(n - 1) + seq![t]);
    }
}

/// A use of a signature of plain types is the signature, under any bindings.
pub proof fn lemma_plain_signature(bindings: Bindings, last: Bindings, declared: Sig)
    requires
        plain(declared.inputs),
        plain(declared.outputs),
    ensures
        last.resolve_signature(instantiate(bindings, declared).1) == declared,
{
    let start = Renaming { bindings, vars: Map::empty(), rows: Map::empty() };
    lemma_plain_instance(start, declared.inputs, declared.inputs.len());
    lemma_plain_instance(start, declared.outputs, declared.outputs.len());
    lemma_plain_resolved(last, declared.inputs, declared.inputs.len());
    lemma_plain_resolved(last, declared.outputs, declared.outputs.len());
    assert(declared.inputs.take(declared.inputs.len() as int) =~= declared.inputs);
    assert(declared.outputs.take(declared.outputs.len() as int) =~= declared.outputs);
}

/// A use of the signature of `dup`, under any bindings.
proof fn lemma_dup_instance(bindings: Bindings, last: Bindings)
    ensures
        ({
            let declared = sig(seq![Ty::Var(0)], seq![Ty::Var(0), Ty::Var(0)]);
            let used = last.resolve_signature(instantiate(bindings, declared).1);
            used.inputs.len() == 1 && used.outputs == seq![used.inputs[0], used.inputs[0]]
        }),
{
    reveal_with_fuel(instantiate_prefix, 4);
    reveal_with_fuel(Bindings::resolve_prefix, 4);
    let declared = sig(seq![Ty::Var(0)], seq![Ty::Var(0), Ty::Var(0)]);
    let a = Ty::Var(bindings.vars.len());
    let instance = instantiate(bindings, declared).1;
    assert(instance.inputs =~= seq![a]);
    assert(instance.outputs =~= seq![a, a]);
    let x = last.resolve_type(a);
    assert(last.resolve_list(instance.inputs) =~= x);
    assert(last.resolve_list(instance.outputs) =~= seq![x[0], x[0]]);
}

/// A use of the signature of `drop`, under any bindings.
proof fn lemma_drop_instance(bindings: Bindings, last: Bindings)
    ensures
        ({
            let declared = sig(seq![Ty::Var(0)], seq![]);
            let used = last.resolve_signature(instantiate(bindings, declared).1);
            used.inputs.len() == 1 && used.outputs == Seq::<Ty>::empty()
        }),
{
    reveal_with_fuel(instantiate_prefix, 4);
    reveal_with_fuel(Bindings::resolve_prefix, 4);
    let declared = sig(seq![Ty::Var(0)], seq![]);
    let a = Ty::Var(bindings.vars.len());
    let instance = instantiate(bindings, declared).1;
    assert(instance.inputs =~= seq![a]);
    assert(instance.outputs =~= Seq::<Ty>::empty());
    let x = last.resolve_type(a);
    assert(last.resolve_list(instance.inputs) =~= x);
    assert(last.resolve_list(instance.outputs) =~= Seq::<Ty>::empty());
}

/// A use of the signature of `swap`, under any bindings.
proof fn lemma_swap_instance(bindings: Bindings, last: Bindings)
    ensures
        ({
            let declared = sig(seq![Ty::Var(0), Ty::Var(1)], seq![Ty::Var(1), Ty::Var(0)]);
            let used = last.resolve_signature(instantiate(bindings, declared).1);
            used.inputs.len() == 2 && used.outputs == seq![used.inputs[1], used.inputs[0]]
        }),
{
    reveal_with_fuel(instantiate_prefix, 4);
    reveal_with_fuel(Bindings::resolve_prefix, 4);
    let declared = sig(seq![Ty::Var(0), Ty::Var(1)], seq![Ty::Var(1), Ty::Var(0)]);
    let a = Ty::Var(bindings.vars.len());
    let b = Ty::Var(bindings.vars.len() + 1);
    let instance = instantiate(bindings, declared).1;
    assert(instance.inputs =~= seq![a, b]);
    assert(instance.outputs =~= seq![b, a]);
    let x = last.resolve_type(a);
    let y = last.resolve_type(b);
    assert(last.resolve_list(instance.inputs) =~= seq![x[0], y[0]]);
    assert(last.resolve_list(instance.outputs) =~= seq![y[0], x[0]]);
}

/// A use of the signature of `over`, under any bindings.
proof fn lemma_over_instance(bindings: Bindings, last: Bindings)
    ensures
        ({
            let declared = sig(
                seq![Ty::Var(0), Ty::Var(1)],
                seq![Ty::Var(0), Ty::Var(1), Ty::Var(0)],
            );
            let used = last.resolve_signature(instantiate(bindings, declared).1);
            used.inputs.len() == 2 && used.outputs == seq![
                used.inputs[0],
                used.inputs[1],
                used.inputs[0],
            ]
        }),
{
    reveal_with_fuel(instantiate_prefix, 5);
    reveal_with_fuel(Bindings::resolve_prefix, 5);
    let declared = sig(seq![Ty::Var(0), Ty::Var(1)], seq![Ty::Var(0), Ty::Var(1), Ty::Var(0)]);
    let a = Ty::Var(bindings.vars.len());
    let b = Ty::Var(bindings.vars.len() + 1);
    let instance = instantiate(bindings, declared).1;
    assert(instance.inputs =~= seq![a, b]);
    assert(instance.outputs =~= seq![a, b, a]);
    let x = last.resolve_type(a);
    let y = last.resolve_type(b);
    assert(last.resolve_list(instance.inputs) =~= seq![x[0], y[0]]);
    assert(last.resolve_list(instance.outputs) =~= seq![x[0], y[0], x[0]]);
}

/// A use of the signature of `?`, under any bindings.
proof fn lemma_select_instance(bindings: Bindings, last: Bindings)
    ensures
        ({
            let declared = sig(seq![Ty::Var(0), Ty::Var(0), Ty::Bool], seq![Ty::Var(0)]);
            let used = last.resolve_signature(instantiate(bindings, declared).1);
            used.inputs.len() == 3 && used.inputs[2] == Ty::Bool && used.inputs[0]
                == used.inputs[1] && used.outputs == seq![used.inputs[0]]
        }),
{
    reveal_with_fuel(instantiate_prefix, 5);
    reveal_with_fuel(Bindings::resolve_prefix, 5);
    let declared = sig(seq![Ty::Var(0), Ty::Var(0), Ty::Bool], seq![Ty::Var(0)]);
    let a = Ty::Var(bindings.vars.len());
    let instance = instantiate(bindings, declared).1;
    assert(instance.inputs =~= seq![a, a, Ty::Bool]);
    assert(instance.outputs =~= seq![a]);
    let x = last.resolve_type(a);
    assert(last.resolve_list(instance.inputs) =~= seq![x[0], x[0], Ty::Bool]);
    assert(last.resolve_list(instance.outputs) =~= seq![x[0]]);
}

/// A use of the signature of `apply`, under any bindings.
proof fn lemma_apply_instance(bindings: Bindings, last: Bindings)
    ensures
        ({
            let declared = sig(
                seq![
                    Ty::MultiVar(0),
                    Ty::Quotation(sig(seq![Ty::MultiVar(0)], seq![Ty::MultiVar(1)])),
                ],
                seq![Ty::MultiVar(1)],
            );
            let used = last.resolve_signature(instantiate(bindings, declared).1);
            used.inputs.len() >= 1 && used.inputs.last() == Ty::Quotation(
                Sig { inputs: used.inputs.drop_last(), outputs: used.outputs },
            )
        }),
{
    reveal_with_fuel(instantiate_prefix, 4);
    reveal_with_fuel(instantiate_type, 2);
    reveal_with_fuel(Bindings::resolve_prefix, 4);
    reveal_with_fuel(Bindings::resolve_type, 2);
    let inner = sig(seq![Ty::MultiVar(0)], seq![Ty::MultiVar(1)]);
    let declared = sig(seq![Ty::MultiVar(0), Ty::Quotation(inner)], seq![Ty::MultiVar(1)]);
    let r = Ty::MultiVar(bindings.rows.len());
    let s = Ty::MultiVar(bindings.rows.len() + 1);
    let quotation = Ty::Quotation(sig(seq![r], seq![s]));
    let instance = instantiate(bindings, declared).1;
    let start = Renaming { bindings, vars: Map::empty(), rows: Map::empty() };
    let first = instantiate_type(start, Ty::MultiVar(0));
    assert(first.1 == r);
    let second = instantiate_type(first.0, Ty::Quotation(inner));
    assert(instantiate_prefix(first.0, inner.inputs, 1).1 =~= seq![r]);
    assert(instantiate_prefix(first.0, inner.outputs, 1).1 =~= seq![s]);
    assert(second.1 == quotation);
    assert(instance.inputs =~= seq![r, quotation]);
    assert(instance.outputs =~= seq![s]);
    let taken = last.resolve_type(r);
    let left = last.resolve_type(s);
    assert(last.resolve_list(seq![r]) =~= taken);
    assert(last.resolve_list(seq![s]) =~= left);
    let resolved = Ty::Quotation(Sig { inputs: taken, outputs: left });
    assert(last.resolve_type(quotation) == seq![resolved]);
    assert(last.resolve_list(instance.inputs) =~= taken + seq![resolved]);
    assert(last.resolve_list(instance.outputs) =~= left);
    assert((taken + seq![resolved]).drop_last() =~= taken);
}

/// A use of a signature of the table is shaped as the word is, under any
/// bindings.
pub proof fn lemma_instance_shaped(bindings: Bindings, last: Bindings, name: Seq<char>)
    requires
        bound_signature(builtins(), name, builtins().len()) is Some,
    ensures
        shaped(
            name,
            last.resolve_signature(
                instantiate(
                    bindings,
                    bound_signature(builtins(), name, builtins().len())->Some_0,
                ).1,
            ),
        ),
{
    let table = builtins();
    let i = lemma_bound_first(table, name, table.len());
    let declared = table[i].1;
    reveal_strlit("true");
    reveal_strlit("false");
    reveal_strlit("+");
    reveal_strlit("-");
    reveal_strlit("*");
    reveal_strlit("/");
    reveal_strlit("exit");
    reveal_strlit("puts");
    reveal_strlit("dup");
    reveal_strlit("drop");
    reveal_strlit("swap");
    reveal_strlit("over");
    reveal_strlit("apply");
    reveal_strlit("?");
    assert(name.len() > 0);
    let initial = name[0];
    if i < 8 {
        lemma_plain_signature(bindings, last, declared);
    } else if i == 8 {
        lemma_dup_instance(bindings, last);
    } else if i == 9 {
        lemma_swap_instance(bindings, last);
    } else if i == 10 {
        lemma_drop_instance(bindings, last);
    } else if i == 11 {
        lemma_over_instance(bindings, last);
    } else if i == 12 {
        lemma_apply_instance(bindings, last);
    } else {
        lemma_select_instance(bindings, last);
    }
}

/// Whether every word of `item`, at any depth, has a signature that is shaped
/// as the word is.
pub open spec fn item_shaped(item: ItemModel) -> bool
    decreases item, 0nat,
{
    match item.kind {
        ItemKindModel::Word(signature, name) => shaped(name, signature),
        ItemKindModel::Quotation(_, items) => items_shaped(items, items.len()),
        _ => true,
    }
}

/// Whether every word among the first `n` items of `items`, at any depth, has
/// a signature that is shaped as the word is.
pub open spec fn items_shaped(items: Seq<ItemModel>, n: nat) -> bool
    decreases items, n,
{
    if n == 0 || n > items.len() {
        true
    } else {
        items_shaped(items, (n - 1) as nat) && item_shaped(items[n - 1])
    }
}

pub proof fn lemma_items_shaped_prefix(a: Seq<ItemModel>, b: Seq<ItemModel>, n: nat)
    requires
        n <= a.len(),
        n <= b.len(),
        forall|i: int| 0 <= i < n ==> a[i] == b[i],
    ensures
        items_shaped(a, n) == items_shaped(b, n),
    decreases n,
{
    if n > 0 {
        lemma_items_shaped_prefix(a, b, (n - 1) as nat);
    }
}

/// Whether, under `bindings`, every word of `scope` is shaped.
pub open spec fn scope_shaped(bindings: Bindings, scope: Scope) -> bool {
    items_shaped(
        resolve_items(bindings, scope.items, scope.items.len()),
        scope.items.len(),
    )
}

/// Whether, under `bindings`, every word of `analysis` is shaped.
pub open spec fn analysis_shaped(bindings: Bindings, analysis: Analysis) -> bool {
    &&& scope_shaped(bindings, analysis.scope)
    &&& forall|i: int|
        0 <= i < analysis.frames.len() ==> scope_shaped(
            bindings,
            (#[trigger] analysis.frames[i]).scope,
        )
}

/// A scope whose words are shaped, with one more item that is.
pub proof fn lemma_push_shaped(
    bindings: Bindings,
    scope: Scope,
    pushed: Seq<Ty>,
    kind: ItemKindModel,
    span: Span,
)
    requires
        scope_shaped(bindings, scope),
        item_shaped(resolve_item(bindings, ItemModel { kind, span })),
    ensures
        scope_shaped(bindings, with_item(scope, pushed, kind, span)),
{
    let item = ItemModel { kind, span };
    let items = resolve_items(bindings, scope.items, scope.items.len());
    lemma_resolve_items_push(bindings, scope.items, item);
    lemma_items_shaped_prefix(items.push(resolve_item(bindings, item)), items, items.len());
}

/// Every word keeps the words of an analysis shaped.
pub proof fn lemma_word_step_shaped<'src>(
    analysis: Analysis<'src>,
    word: Word<'src>,
    last: Bindings,
)
    requires
        word_step(builtins(), analysis, word) is Ok,
        extends(last, analysis.bindings),
        analysis_shaped(last, analysis),
    ensures
        analysis_shaped(last, word_step(builtins(), analysis, word)->Ok_0),
{
    let table = builtins();
    let next = word_step(table, analysis, word)->Ok_0;
    let scope = analysis.scope;
    let frames = analysis.frames;
    match word.token {
        Token::Integer(value) => {
            lemma_push_shaped(
                last,
                scope,
                seq![Ty::Int],
                ItemKindModel::Integer(value),
                word.span,
            );
        },
        Token::String(raw) => {
            lemma_push_shaped(last, scope, seq![Ty::Str], ItemKindModel::String(raw@), word.span);
        },
        Token::Symbol(name) => {
            if name@ == "["@ {
                assert forall|i: int| 0 <= i < next.frames.len() implies scope_shaped(
                    last,
                    (#[trigger] next.frames[i]).scope,
                ) by {
                    if i < frames.len() {
                        assert(next.frames[i] == frames[i]);
                    }
                }
            } else if name@ == "]"@ {
                let frame = frames.last();
                let (signature, items) = frozen(analysis.bindings, scope);
                lemma_items_resolved_further(
                    last,
                    analysis.bindings,
                    scope.items,
                    scope.items.len(),
                );
                lemma_push_shaped(
                    last,
                    frame.scope,
                    seq![Ty::Quotation(signature)],
                    ItemKindModel::Quotation(signature, items),
                    frame.opener.span,
                );
                assert forall|i: int| 0 <= i < next.frames.len() implies scope_shaped(
                    last,
                    (#[trigger] next.frames[i]).scope,
                ) by {
                    assert(next.frames[i] == frames[i]);
                }
            } else {
                let declared = bound_signature(table, name@, table.len())->Some_0;
                let (after, left, instance) = applied(
                    analysis.bindings,
                    scope,
                    declared,
                    listed_from_top(name@),
                )->Ok_0;
                lemma_instance_shaped(analysis.bindings, last, name@);
                assert(left.items == scope.items);
                lemma_push_shaped(
                    last,
                    Scope { demanded: left.demanded, stack: left.stack, items: scope.items },
                    Seq::empty(),
                    ItemKindModel::Word(instance, name@),
                    word.span,
                );
            }
        },
    }
}

/// The words of an analysis are shaped at every word, under any bindings that
/// hold what the bindings of the analysis hold at that word.
pub proof fn lemma_analysis_shaped<'src>(words: Seq<Word<'src>>, n: nat, last: Bindings)
    requires
        analyze_words(builtins(), words, n) is Ok,
        extends(last, analyze_words(builtins(), words, n)->Ok_0.bindings),
    ensures
        analysis_shaped(last, analyze_words(builtins(), words, n)->Ok_0),
    decreases n,
{
    let table = builtins();
    let analysis = analyze_words(table, words, n)->Ok_0;
    if n == 0 || n > words.len() {
    } else {
        let before = analyze_words(table, words, (n - 1) as nat)->Ok_0;
        let word = words[n - 1];
        lemma_analysis_solved(table, words, (n - 1) as nat);
        lemma_step_extends_bindings(table, before, word);
        lemma_extends_further(last, analysis.bindings, before.bindings);
        lemma_analysis_shaped(words, (n - 1) as nat, last);
        lemma_word_step_shaped(before, word, last);
    }
}

/// Every word of a program that was analysed, at any depth, has the
/// signature that the table declares for it, with types in the place of its
/// variables and segments in the place of its row variables.
pub proof fn lemma_program_shaped<'src>(words: Seq<Word<'src>>)
    requires
        analyzed(words) is Ok,
    ensures
        items_shaped(analyzed(words)->Ok_0.1, analyzed(words)->Ok_0.1.len()),
{
    let analysis = analyze_words(builtins(), words, words.len())->Ok_0;
    lemma_analysis_solved(builtins(), words, words.len());
    lemma_extends_itself(analysis.bindings);
    lemma_analysis_shaped(words, words.len(), analysis.bindings);
    lemma_resolve_items_len(analysis.bindings, analysis.scope.items, analysis.scope.items.len());
}

} // verus!
