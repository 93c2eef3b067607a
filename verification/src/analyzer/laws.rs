//! What holds of every analysis.

use vstd::prelude::*;
use crate::analyzer::infer::{
    Analysis, Failure, Renaming, Scope, analyze_words, analyzed, applied, bound_signature,
    builtins, empty_scope, frozen, instantiate, instantiate_prefix, instantiate_type,
    listed_from_top, resolve_item, resolve_items, turned, with_item, word_step,
};
use crate::analyzer::item::{ItemKindModel, ItemModel};
use crate::analyzer::solved::{
    all_closed, binds_at_most, closed, goal_closed, lemma_closed_stays,
    lemma_resolution_idempotent, lemma_resolved_prefix_is_closed, lemma_run_solved, solved,
};
use crate::analyzer::sound::{
    extends, lemma_extends_further, lemma_extends_itself, lemma_extends_prefix,
    lemma_inputs_left_takes, lemma_run_sound, lemma_run_takes_sound,
};
use crate::analyzer::subst::Bindings;
use crate::analyzer::types::{Sig, Ty};
use crate::analyzer::unify::{Goal, Machine, run, step, take_goals};
use crate::lexer::{Token, Word};

verus! {

pub open spec fn opens(word: Word) -> bool {
    word.token matches Token::Symbol(name) && name@ == "["@
}

pub open spec fn closes(word: Word) -> bool {
    word.token matches Token::Symbol(name) && name@ == "]"@
}

/// The number of brackets that are open after the first `n` words, or `None`
/// where one of these words closes a bracket that was never opened.
pub open spec fn open_brackets(words: Seq<Word>, n: nat) -> Option<nat>
    decreases n,
{
    if n == 0 || n > words.len() {
        Some(0)
    } else {
        match open_brackets(words, (n - 1) as nat) {
            None => None,
            Some(depth) => if opens(words[n - 1]) {
                Some(depth + 1)
            } else if closes(words[n - 1]) {
                if depth == 0 {
                    None
                } else {
                    Some((depth - 1) as nat)
                }
            } else {
                Some(depth)
            },
        }
    }
}

/// Every opening bracket has its closing bracket behind it, and every closing
/// bracket its opening bracket before it.
pub open spec fn balanced(words: Seq<Word>) -> bool {
    open_brackets(words, words.len()) == Some(0nat)
}

/// While the analysis goes on, one scope waits for each bracket that is open.
pub proof fn lemma_frames_follow_brackets<'src>(
    table: Seq<(Seq<char>, Sig)>,
    words: Seq<Word<'src>>,
    n: nat,
)
    requires
        n <= words.len(),
        analyze_words(table, words, n) is Ok,
    ensures
        open_brackets(words, n) == Some(analyze_words(table, words, n)->Ok_0.frames.len()),
    decreases n,
{
    if n > 0 {
        lemma_frames_follow_brackets(table, words, (n - 1) as nat);
        reveal_strlit("[");
        reveal_strlit("]");
    }
}

/// A program whose analysis succeeds has its brackets balanced.
pub proof fn lemma_analyzed_balanced<'src>(words: Seq<Word<'src>>)
    requires
        analyzed(words) is Ok,
    ensures
        balanced(words),
{
    lemma_frames_follow_brackets(builtins(), words, words.len());
}


impl Bindings {
    /// No variable is bound.
    pub open spec fn all_free(self) -> bool {
        &&& forall|v: int| 0 <= v < self.vars.len() ==> self.vars[v] is None
        &&& forall|m: int| 0 <= m < self.rows.len() ==> self.rows[m] is None
    }
}

/// Where no variable is bound, every type stands for itself.
pub proof fn lemma_resolve_free_type(bindings: Bindings, t: Ty)
    requires
        bindings.all_free(),
    ensures
        bindings.resolve_type(t) == seq![t],
    decreases t, 0nat,
{
    match t {
        Ty::Quotation(signature) => {
            lemma_resolve_free_prefix(bindings, signature.inputs, signature.inputs.len());
            lemma_resolve_free_prefix(bindings, signature.outputs, signature.outputs.len());
            assert(signature.inputs.take(signature.inputs.len() as int) =~= signature.inputs);
            assert(signature.outputs.take(signature.outputs.len() as int) =~= signature.outputs);
        },
        _ => {},
    }
}

/// Where no variable is bound, every list of types stands for itself.
pub proof fn lemma_resolve_free_prefix(bindings: Bindings, types: Seq<Ty>, n: nat)
    requires
        bindings.all_free(),
        n <= types.len(),
    ensures
        bindings.resolve_prefix(types, n) == types.take(n as int),
    decreases types, n,
{
    if n == 0 {
        assert(types.take(0) =~= Seq::<Ty>::empty());
    } else {
        lemma_resolve_free_prefix(bindings, types, (n - 1) as nat);
        lemma_resolve_free_type(bindings, types[n - 1]);
        assert(types.take(n as int) =~= types.take(n - 1) + seq![types[n - 1]]);
    }
}

/// Instantiating a type binds no variable.
pub proof fn lemma_instantiate_type_free(renaming: Renaming, t: Ty)
    requires
        renaming.bindings.all_free(),
    ensures
        instantiate_type(renaming, t).0.bindings.all_free(),
    decreases t, 0nat,
{
    match t {
        Ty::Quotation(signature) => {
            lemma_instantiate_prefix_free(renaming, signature.inputs, signature.inputs.len());
            lemma_instantiate_prefix_free(
                instantiate_prefix(renaming, signature.inputs, signature.inputs.len()).0,
                signature.outputs,
                signature.outputs.len(),
            );
        },
        _ => {},
    }
}

/// Instantiating a list of types binds no variable.
pub proof fn lemma_instantiate_prefix_free(renaming: Renaming, types: Seq<Ty>, n: nat)
    requires
        renaming.bindings.all_free(),
    ensures
        instantiate_prefix(renaming, types, n).0.bindings.all_free(),
    decreases types, n,
{
    if n == 0 || n > types.len() {
    } else {
        lemma_instantiate_prefix_free(renaming, types, (n - 1) as nat);
        lemma_instantiate_type_free(
            instantiate_prefix(renaming, types, (n - 1) as nat).0,
            types[n - 1],
        );
    }
}

/// On an empty stack every input becomes a demand on the caller, in order,
/// below what was demanded before.
pub proof fn lemma_run_takes(bindings: Bindings, demanded: Seq<Ty>, inputs: Seq<Ty>)
    ensures
        run(
            Machine { bindings, stack: Seq::empty(), demanded, goals: take_goals(inputs) },
        ) == Some(
            Machine {
                bindings,
                stack: Seq::empty(),
                demanded: inputs + demanded,
                goals: Seq::empty(),
            },
        ),
    decreases inputs.len(),
{
    let machine = Machine { bindings, stack: Seq::empty(), demanded, goals: take_goals(inputs) };
    if inputs.len() == 0 {
        assert(take_goals(inputs) =~= Seq::empty());
        assert(inputs + demanded =~= demanded);
    } else {
        let top = inputs.last();
        assert(machine.goals.last() == Goal::Take(top));
        assert(machine.goals.drop_last() =~= take_goals(inputs.drop_last()));
        lemma_run_takes(bindings, seq![top] + demanded, inputs.drop_last());
        assert(inputs.drop_last() + (seq![top] + demanded) =~= inputs + demanded);
        assert(step(machine) == Some(
            Machine {
                bindings,
                stack: Seq::empty(),
                demanded: seq![top] + demanded,
                goals: take_goals(inputs.drop_last()),
            },
        ));
    }
}

/// A name that the table binds is the name of one of its entries.
pub proof fn lemma_bound_name(table: Seq<(Seq<char>, Sig)>, name: Seq<char>, n: nat) -> (i: int)
    requires
        bound_signature(table, name, n) is Some,
    ensures
        0 <= i < n <= table.len(),
        table[i].0 == name,
    decreases n,
{
    if bound_signature(table, name, (n - 1) as nat) is Some {
        lemma_bound_name(table, name, (n - 1) as nat)
    } else {
        n - 1
    }
}

/// The brackets are no words of the table.
pub proof fn lemma_builtins_are_no_brackets(name: Seq<char>)
    requires
        bound_signature(builtins(), name, builtins().len()) is Some,
    ensures
        name != "["@,
        name != "]"@,
{
    let i = lemma_bound_name(builtins(), name, builtins().len());
    reveal_strlit("[");
    reveal_strlit("]");
    reveal_strlit("+");
    reveal_strlit("-");
    reveal_strlit("*");
    reveal_strlit("/");
    reveal_strlit("exit");
    reveal_strlit("puts");
    reveal_strlit("true");
    reveal_strlit("false");
    reveal_strlit("dup");
    reveal_strlit("swap");
    reveal_strlit("drop");
    reveal_strlit("over");
    reveal_strlit("apply");
    reveal_strlit("?");
    let open = "["@;
    let close = "]"@;
    assert(open.len() == 1 && close.len() == 1);
    assert(open[0] == '[' && close[0] == ']');
    if i == 0 {
        assert(name[0] == '+');
    } else if i == 1 {
        assert(name[0] == '-');
    } else if i == 2 {
        assert(name[0] == '*');
    } else if i == 3 {
        assert(name[0] == '/');
    } else if i == 13 {
        assert(name[0] == '?');
    } else {
        assert(name.len() > 1);
    }
}

/// The analysis of a program that is one word of the table gives the program
/// the signature that the table declares for the word, with its variables
/// renamed to the first variables there are; and the word the same signature.
pub proof fn lemma_principal_signature<'src>(word: Word<'src>, name: &'src str)
    requires
        word.token == Token::Symbol(name),
        bound_signature(builtins(), name@, builtins().len()) is Some,
    ensures
        ({
            let declared = bound_signature(builtins(), name@, builtins().len())->Some_0;
            let instance = instantiate(Bindings::empty(), declared).1;
            analyzed(seq![word]) == Ok::<(Sig, Seq<ItemModel>), Failure<'src>>(
                (
                    instance,
                    seq![
                        ItemModel {
                            kind: ItemKindModel::Word(instance, name@),
                            span: word.span,
                        },
                    ],
                ),
            )
        }),
{
    let table = builtins();
    let declared = bound_signature(table, name@, table.len())->Some_0;
    let (minted, instance) = instantiate(Bindings::empty(), declared);
    let start = Renaming { bindings: Bindings::empty(), vars: Map::empty(), rows: Map::empty() };
    lemma_builtins_are_no_brackets(name@);
    lemma_instantiate_prefix_free(start, declared.inputs, declared.inputs.len());
    lemma_instantiate_prefix_free(
        instantiate_prefix(start, declared.inputs, declared.inputs.len()).0,
        declared.outputs,
        declared.outputs.len(),
    );
    assert(minted.all_free());
    let from_top = listed_from_top(name@);
    let listed = turned(instance.inputs, from_top);
    lemma_resolve_free_prefix(minted, listed, listed.len());
    lemma_resolve_free_prefix(minted, instance.inputs, instance.inputs.len());
    lemma_resolve_free_prefix(minted, instance.outputs, instance.outputs.len());
    assert(listed.take(listed.len() as int) =~= listed);
    assert(instance.inputs.take(instance.inputs.len() as int) =~= instance.inputs);
    assert(instance.outputs.take(instance.outputs.len() as int) =~= instance.outputs);
    lemma_run_takes(minted, Seq::empty(), listed);
    assert(listed + Seq::<Ty>::empty() =~= listed);
    assert(turned(listed, from_top) + Seq::<Ty>::empty() =~= instance.inputs);
    assert(Seq::<Ty>::empty() + instance.outputs =~= instance.outputs);
    let words = seq![word];
    let first = Analysis::<'src> {
        bindings: Bindings::empty(),
        frames: Seq::empty(),
        scope: empty_scope(),
    };
    assert(analyze_words(table, words, 0) == Ok::<Analysis<'src>, Failure<'src>>(first));
    assert(words[0] == word);
    let scope = Scope { demanded: instance.inputs, stack: instance.outputs, items: Seq::empty() };
    assert(applied(Bindings::empty(), empty_scope(), declared, from_top) == Ok::<
        (Bindings, Scope, Sig),
        Sig,
    >((minted, scope, instance)));
    let item = ItemModel { kind: ItemKindModel::Word(instance, name@), span: word.span };
    let after = with_item(scope, Seq::empty(), item.kind, word.span);
    assert(after.stack =~= instance.outputs);
    assert(after.items =~= seq![item]);
    let last = Analysis::<'src> { bindings: minted, frames: Seq::empty(), scope: after };
    assert(word_step(table, first, word) == Ok::<Analysis<'src>, Failure<'src>>(last));
    assert(analyze_words(table, words, 1) == Ok::<Analysis<'src>, Failure<'src>>(last));
    assert(minted.resolve_signature(instance) == instance);
    assert(resolve_item(minted, item) == item);
    assert(resolve_items(minted, after.items, 0) =~= Seq::<ItemModel>::empty());
    assert(resolve_items(minted, after.items, 1) =~= seq![item]);
    assert(frozen(minted, after) == (instance, seq![item]));
}


/// Handing out a variable keeps the bindings solved.
pub proof fn lemma_fresh_solved(bindings: Bindings)
    requires
        solved(bindings),
    ensures
        solved(bindings.fresh_var()),
        solved(bindings.fresh_row()),
{
    let with_var = bindings.fresh_var();
    let with_row = bindings.fresh_row();
    assert(binds_at_most(with_var, bindings, None, None));
    assert(binds_at_most(with_row, bindings, None, None));
    assert forall|v: int|
        0 <= v < with_var.vars.len() && (#[trigger] with_var.vars[v]) is Some implies closed(
        with_var,
        with_var.vars[v]->Some_0,
    ) && !(with_var.vars[v]->Some_0 is MultiVar) by {
        assert(bindings.vars[v] is Some);
        lemma_closed_stays(with_var, bindings, None, None, bindings.vars[v]->Some_0);
    }
    assert forall|m: int|
        0 <= m < with_var.rows.len() && (#[trigger] with_var.rows[m]) is Some implies all_closed(
        with_var,
        with_var.rows[m]->Some_0,
    ) by {
        let segment = bindings.rows[m]->Some_0;
        assert forall|i: int| 0 <= i < segment.len() implies closed(
            with_var,
            #[trigger] segment[i],
        ) by {
            lemma_closed_stays(with_var, bindings, None, None, segment[i]);
        }
    }
    assert forall|v: int|
        0 <= v < with_row.vars.len() && (#[trigger] with_row.vars[v]) is Some implies closed(
        with_row,
        with_row.vars[v]->Some_0,
    ) && !(with_row.vars[v]->Some_0 is MultiVar) by {
        lemma_closed_stays(with_row, bindings, None, None, bindings.vars[v]->Some_0);
    }
    assert forall|m: int|
        0 <= m < with_row.rows.len() && (#[trigger] with_row.rows[m]) is Some implies all_closed(
        with_row,
        with_row.rows[m]->Some_0,
    ) by {
        assert(bindings.rows[m] is Some);
        let segment = bindings.rows[m]->Some_0;
        assert forall|i: int| 0 <= i < segment.len() implies closed(
            with_row,
            #[trigger] segment[i],
        ) by {
            lemma_closed_stays(with_row, bindings, None, None, segment[i]);
        }
    }
}

/// Instantiating a type keeps the bindings solved.
pub proof fn lemma_instantiate_type_solved(renaming: Renaming, t: Ty)
    requires
        solved(renaming.bindings),
    ensures
        solved(instantiate_type(renaming, t).0.bindings),
    decreases t, 0nat,
{
    lemma_fresh_solved(renaming.bindings);
    match t {
        Ty::Quotation(signature) => {
            lemma_instantiate_prefix_solved(renaming, signature.inputs, signature.inputs.len());
            lemma_instantiate_prefix_solved(
                instantiate_prefix(renaming, signature.inputs, signature.inputs.len()).0,
                signature.outputs,
                signature.outputs.len(),
            );
        },
        _ => {},
    }
}

/// Instantiating a list of types keeps the bindings solved.
pub proof fn lemma_instantiate_prefix_solved(renaming: Renaming, types: Seq<Ty>, n: nat)
    requires
        solved(renaming.bindings),
    ensures
        solved(instantiate_prefix(renaming, types, n).0.bindings),
    decreases types, n,
{
    if n == 0 || n > types.len() {
    } else {
        lemma_instantiate_prefix_solved(renaming, types, (n - 1) as nat);
        lemma_instantiate_type_solved(
            instantiate_prefix(renaming, types, (n - 1) as nat).0,
            types[n - 1],
        );
    }
}

/// Applying a word keeps the bindings solved.
pub proof fn lemma_applied_solved(
    bindings: Bindings,
    scope: Scope,
    signature: Sig,
    from_top: bool,
)
    requires
        solved(bindings),
        applied(bindings, scope, signature, from_top) is Ok,
    ensures
        solved(applied(bindings, scope, signature, from_top)->Ok_0.0),
{
    let start = Renaming { bindings, vars: Map::empty(), rows: Map::empty() };
    lemma_instantiate_prefix_solved(start, signature.inputs, signature.inputs.len());
    lemma_instantiate_prefix_solved(
        instantiate_prefix(start, signature.inputs, signature.inputs.len()).0,
        signature.outputs,
        signature.outputs.len(),
    );
    let (minted, instance) = instantiate(bindings, signature);
    let listed = turned(instance.inputs, from_top);
    let inputs = minted.resolve_list(listed);
    lemma_resolved_prefix_is_closed(minted, listed, listed.len());
    let goals = take_goals(inputs);
    assert forall|i: int| 0 <= i < goals.len() implies goal_closed(minted, #[trigger] goals[i]) by {
        assert(goals[i] == Goal::Take(inputs[i]));
    }
    lemma_run_solved(
        Machine { bindings: minted, stack: scope.stack, demanded: Seq::empty(), goals },
    );
}

/// Every word keeps the bindings solved.
pub proof fn lemma_word_step_solved<'src>(
    table: Seq<(Seq<char>, Sig)>,
    analysis: Analysis<'src>,
    word: Word<'src>,
)
    requires
        solved(analysis.bindings),
        word_step(table, analysis, word) is Ok,
    ensures
        solved(word_step(table, analysis, word)->Ok_0.bindings),
{
    match word.token {
        Token::Symbol(name) => {
            if name@ != "["@ && name@ != "]"@ {
                let signature = bound_signature(table, name@, table.len())->Some_0;
                lemma_applied_solved(
                    analysis.bindings,
                    analysis.scope,
                    signature,
                    listed_from_top(name@),
                );
            }
        },
        _ => {},
    }
}

/// The bindings of an analysis are solved at every word.
pub proof fn lemma_analysis_solved<'src>(
    table: Seq<(Seq<char>, Sig)>,
    words: Seq<Word<'src>>,
    n: nat,
)
    requires
        analyze_words(table, words, n) is Ok,
    ensures
        solved(analyze_words(table, words, n)->Ok_0.bindings),
    decreases n,
{
    if n == 0 || n > words.len() {
    } else {
        lemma_analysis_solved(table, words, (n - 1) as nat);
        lemma_word_step_solved(
            table,
            analyze_words(table, words, (n - 1) as nat)->Ok_0,
            words[n - 1],
        );
    }
}

/// Under solved bindings, an item that was resolved stands for itself.
pub proof fn lemma_item_resolution_idempotent(bindings: Bindings, item: ItemModel)
    requires
        solved(bindings),
    ensures
        resolve_item(bindings, resolve_item(bindings, item)) == resolve_item(bindings, item),
    decreases item, 0nat,
{
    match item.kind {
        ItemKindModel::Word(signature, _) => {
            lemma_resolution_idempotent(bindings, signature);
        },
        ItemKindModel::Quotation(signature, items) => {
            lemma_resolution_idempotent(bindings, signature);
            lemma_items_resolution_idempotent(bindings, items, items.len());
        },
        _ => {},
    }
}

/// Under solved bindings, items that were resolved stand for themselves.
pub proof fn lemma_items_resolution_idempotent(bindings: Bindings, items: Seq<ItemModel>, n: nat)
    requires
        solved(bindings),
        n <= items.len(),
    ensures
        resolve_items(bindings, items, n).len() == n,
        resolve_items(
            bindings,
            resolve_items(bindings, items, n),
            resolve_items(bindings, items, n).len(),
        ) == resolve_items(bindings, items, n),
    decreases items, n,
{
    let once = resolve_items(bindings, items, n);
    if n == 0 {
        assert(resolve_items(bindings, once, 0) =~= once);
    } else {
        lemma_items_resolution_idempotent(bindings, items, (n - 1) as nat);
        lemma_item_resolution_idempotent(bindings, items[n - 1]);
        let shorter = resolve_items(bindings, items, (n - 1) as nat);
        assert(once == shorter.push(resolve_item(bindings, items[n - 1])));
        lemma_resolve_items_prefix(bindings, once, shorter, (n - 1) as nat);
    }
}

/// The resolution of a prefix depends on the prefix alone.
pub proof fn lemma_resolve_items_prefix(
    bindings: Bindings,
    a: Seq<ItemModel>,
    b: Seq<ItemModel>,
    n: nat,
)
    requires
        n <= a.len(),
        n <= b.len(),
        forall|i: int| 0 <= i < n ==> a[i] == b[i],
    ensures
        resolve_items(bindings, a, n) == resolve_items(bindings, b, n),
    decreases n,
{
    if n > 0 {
        lemma_resolve_items_prefix(bindings, a, b, (n - 1) as nat);
    }
}

/// What an analysis yields is resolved: to resolve the signature of the
/// program, or its items, once more under the bindings that the analysis ended
/// with changes nothing.
pub proof fn lemma_analyzed_is_resolved<'src>(words: Seq<Word<'src>>)
    requires
        analyzed(words) is Ok,
    ensures
        ({
            let bindings = analyze_words(builtins(), words, words.len())->Ok_0.bindings;
            let (signature, items) = analyzed(words)->Ok_0;
            &&& solved(bindings)
            &&& bindings.resolve_signature(signature) == signature
            &&& resolve_items(bindings, items, items.len()) == items
        }),
{
    let analysis = analyze_words(builtins(), words, words.len())->Ok_0;
    lemma_analysis_solved(builtins(), words, words.len());
    lemma_resolution_idempotent(
        analysis.bindings,
        Sig { inputs: analysis.scope.demanded, outputs: analysis.scope.stack },
    );
    lemma_items_resolution_idempotent(
        analysis.bindings,
        analysis.scope.items,
        analysis.scope.items.len(),
    );
}


/// Handing out a variable changes nothing that the bindings hold.
pub proof fn lemma_fresh_extends(bindings: Bindings)
    requires
        solved(bindings),
    ensures
        extends(bindings.fresh_var(), bindings),
        extends(bindings.fresh_row(), bindings),
{
    lemma_fresh_solved(bindings);
    let with_var = bindings.fresh_var();
    let with_row = bindings.fresh_row();
    lemma_extends_itself(with_var);
    lemma_extends_itself(with_row);
    assert forall|v: nat| #[trigger] bindings.var_bound(v) implies with_var.resolve_type(
        bindings.vars[v as int]->Some_0,
    ) == with_var.resolve_type(Ty::Var(v)) by {
        assert(with_var.var_bound(v));
    }
    assert forall|m: nat| #[trigger] bindings.row_bound(m) implies with_var.resolve_prefix(
        bindings.rows[m as int]->Some_0,
        bindings.rows[m as int]->Some_0.len(),
    ) == with_var.resolve_type(Ty::MultiVar(m)) by {
        assert(with_var.row_bound(m));
    }
    assert forall|v: nat| #[trigger] bindings.var_bound(v) implies with_row.resolve_type(
        bindings.vars[v as int]->Some_0,
    ) == with_row.resolve_type(Ty::Var(v)) by {
        assert(with_row.var_bound(v));
    }
    assert forall|m: nat| #[trigger] bindings.row_bound(m) implies with_row.resolve_prefix(
        bindings.rows[m as int]->Some_0,
        bindings.rows[m as int]->Some_0.len(),
    ) == with_row.resolve_type(Ty::MultiVar(m)) by {
        assert(with_row.row_bound(m));
    }
}

/// Instantiating a type changes nothing that the bindings hold.
pub proof fn lemma_instantiate_type_extends(renaming: Renaming, t: Ty)
    requires
        solved(renaming.bindings),
    ensures
        extends(instantiate_type(renaming, t).0.bindings, renaming.bindings),
    decreases t, 0nat,
{
    lemma_fresh_extends(renaming.bindings);
    lemma_extends_itself(renaming.bindings);
    match t {
        Ty::Quotation(signature) => {
            let middle = instantiate_prefix(renaming, signature.inputs, signature.inputs.len()).0;
            lemma_instantiate_prefix_solved(renaming, signature.inputs, signature.inputs.len());
            lemma_instantiate_prefix_extends(renaming, signature.inputs, signature.inputs.len());
            lemma_instantiate_prefix_extends(middle, signature.outputs, signature.outputs.len());
            lemma_extends_further(
                instantiate_type(renaming, t).0.bindings,
                middle.bindings,
                renaming.bindings,
            );
        },
        _ => {},
    }
}

/// Instantiating a list of types changes nothing that the bindings hold.
pub proof fn lemma_instantiate_prefix_extends(renaming: Renaming, types: Seq<Ty>, n: nat)
    requires
        solved(renaming.bindings),
    ensures
        extends(instantiate_prefix(renaming, types, n).0.bindings, renaming.bindings),
    decreases types, n,
{
    if n == 0 || n > types.len() {
        lemma_extends_itself(renaming.bindings);
    } else {
        let middle = instantiate_prefix(renaming, types, (n - 1) as nat).0;
        lemma_instantiate_prefix_solved(renaming, types, (n - 1) as nat);
        lemma_instantiate_prefix_extends(renaming, types, (n - 1) as nat);
        lemma_instantiate_type_extends(middle, types[n - 1]);
        lemma_extends_further(
            instantiate_prefix(renaming, types, n).0.bindings,
            middle.bindings,
            renaming.bindings,
        );
    }
}

/// The application of a word is sound. Where a word can be applied, it leaves
/// the stack but for the `taken` values that it takes off the top, and puts its
/// outputs there; it keeps the demands on the caller and puts new ones below
/// them; and under the bindings that result, which hold what the bindings
/// held before, its inputs stand for the demands that it added and then for
/// the values that it took. Where the inputs are listed `from_top`, this holds
/// of the inputs and of the added demands turned round.
pub proof fn lemma_applied_sound(
    bindings: Bindings,
    scope: Scope,
    signature: Sig,
    from_top: bool,
) -> (taken: nat)
    requires
        solved(bindings),
        applied(bindings, scope, signature, from_top) is Ok,
    ensures
        ({
            let (after, left, instance) = applied(bindings, scope, signature, from_top)->Ok_0;
            let kept = scope.stack.len() - taken;
            let added = left.demanded.len() - scope.demanded.len();
            &&& taken <= scope.stack.len()
            &&& left.stack == scope.stack.take(kept) + after.resolve_list(instance.outputs)
            &&& added >= 0
            &&& left.demanded.skip(added) == scope.demanded
            &&& left.items == scope.items
            &&& solved(after)
            &&& extends(after, bindings)
            &&& after.resolve_list(turned(instance.inputs, from_top)) == after.resolve_list(
                turned(left.demanded.take(added), from_top),
            ) + after.resolve_list(scope.stack.skip(kept))
        }),
{
    let start = Renaming { bindings, vars: Map::empty(), rows: Map::empty() };
    let middle = instantiate_prefix(start, signature.inputs, signature.inputs.len()).0;
    lemma_instantiate_prefix_solved(start, signature.inputs, signature.inputs.len());
    lemma_instantiate_prefix_solved(middle, signature.outputs, signature.outputs.len());
    lemma_instantiate_prefix_extends(start, signature.inputs, signature.inputs.len());
    lemma_instantiate_prefix_extends(middle, signature.outputs, signature.outputs.len());
    let (minted, instance) = instantiate(bindings, signature);
    lemma_extends_further(minted, middle.bindings, bindings);
    let listed = turned(instance.inputs, from_top);
    let inputs = minted.resolve_list(listed);
    lemma_resolved_prefix_is_closed(minted, listed, listed.len());
    let goals = take_goals(inputs);
    assert forall|i: int| 0 <= i < goals.len() implies goal_closed(minted, #[trigger] goals[i]) by {
        assert(goals[i] == Goal::Take(inputs[i]));
    }
    let machine = Machine { bindings: minted, stack: scope.stack, demanded: Seq::empty(), goals };
    lemma_run_sound(machine);
    lemma_run_takes_sound(machine);
    let end = run(machine)->Some_0;
    lemma_inputs_left_takes(inputs);
    lemma_extends_prefix(end.bindings, minted, listed, listed.len());
    lemma_extends_further(end.bindings, minted, bindings);
    let left = applied(bindings, scope, signature, from_top)->Ok_0.1;
    let added = turned(end.demanded, from_top);
    assert(added.len() == end.demanded.len());
    assert(left.demanded == added + scope.demanded);
    assert(left.demanded.skip(added.len() as int) =~= scope.demanded);
    assert(left.demanded.take(added.len() as int) =~= added);
    assert(turned(added, from_top) =~= end.demanded);
    assert(end.demanded.take(end.demanded.len() as int) =~= end.demanded);
    (scope.stack.len() - end.stack.len()) as nat
}

} // verus!
