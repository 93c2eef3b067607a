//! The analysis of a program: every word is applied to the stack of its scope,
//! and every quotation is a scope of its own.

use std::collections::HashMap;
use vstd::prelude::*;
use vstd::string::*;
use crate::analyzer::item::{
    Item, ItemKind, ItemKindModel, ItemModel, item_models, lemma_quotation_item_model,
};
use crate::analyzer::laws::{balanced, lemma_analyzed_balanced, lemma_instantiate_prefix_solved};
use crate::analyzer::solved::{goal_closed, lemma_resolved_prefix_is_closed, solved};
use crate::analyzer::subst::{Bindings, Context};
use crate::analyzer::types::{
    Sig, Signature, Ty, Type, clone_types, lemma_models_empty, lemma_models_push,
    lemma_quotation_model, models,
};
use crate::analyzer::unify::{
    Goal, Machine, Task, push_takes, run, solve, take_goals, task_models,
};
use crate::lexer::{Span, Token, Word};
use crate::literal::{is_well_formed, well_formed_literal};
use crate::text::str_eq;

verus! {

/// The state while a signature is instantiated: the bindings, which hand out
/// the new variables, and for each local variable and row variable met so far
/// the global one that stands for it.
pub struct Renaming {
    pub bindings: Bindings,
    pub vars: Map<nat, nat>,
    pub rows: Map<nat, nat>,
}

/// `t` with its local variables renamed. A local variable that was not met
/// before gets a variable that was not in use before.
pub open spec fn instantiate_type(renaming: Renaming, t: Ty) -> (Renaming, Ty)
    decreases t, 0nat,
{
    match t {
        Ty::Var(local) => if renaming.vars.contains_key(local) {
            (renaming, Ty::Var(renaming.vars[local]))
        } else {
            let global = renaming.bindings.vars.len();
            (
                Renaming {
                    bindings: renaming.bindings.fresh_var(),
                    vars: renaming.vars.insert(local, global),
                    rows: renaming.rows,
                },
                Ty::Var(global),
            )
        },
        Ty::MultiVar(local) => if renaming.rows.contains_key(local) {
            (renaming, Ty::MultiVar(renaming.rows[local]))
        } else {
            let global = renaming.bindings.rows.len();
            (
                Renaming {
                    bindings: renaming.bindings.fresh_row(),
                    vars: renaming.vars,
                    rows: renaming.rows.insert(local, global),
                },
                Ty::MultiVar(global),
            )
        },
        Ty::Quotation(signature) => {
            let (after_inputs, inputs) = instantiate_prefix(
                renaming,
                signature.inputs,
                signature.inputs.len(),
            );
            let (after_outputs, outputs) = instantiate_prefix(
                after_inputs,
                signature.outputs,
                signature.outputs.len(),
            );
            (after_outputs, Ty::Quotation(Sig { inputs, outputs }))
        },
        _ => (renaming, t),
    }
}

/// The first `n` types of `types` with their local variables renamed, from
/// the first type on.
pub open spec fn instantiate_prefix(renaming: Renaming, types: Seq<Ty>, n: nat) -> (
    Renaming,
    Seq<Ty>,
)
    decreases types, n,
{
    if n == 0 || n > types.len() {
        (renaming, Seq::empty())
    } else {
        let (before, renamed_types) = instantiate_prefix(renaming, types, (n - 1) as nat);
        let (after, renamed_type) = instantiate_type(before, types[n - 1]);
        (after, renamed_types.push(renamed_type))
    }
}

/// A use of `signature`: its variables are renamed to variables that were not
/// in use before, the same variable to the same one, the inputs first.
pub open spec fn instantiate(bindings: Bindings, signature: Sig) -> (Bindings, Sig) {
    let start = Renaming { bindings, vars: Map::empty(), rows: Map::empty() };
    let (after_inputs, inputs) = instantiate_prefix(
        start,
        signature.inputs,
        signature.inputs.len(),
    );
    let (after_outputs, outputs) = instantiate_prefix(
        after_inputs,
        signature.outputs,
        signature.outputs.len(),
    );
    (after_outputs.bindings, Sig { inputs, outputs })
}

pub open spec fn sig(inputs: Seq<Ty>, outputs: Seq<Ty>) -> Sig {
    Sig { inputs, outputs }
}

/// The words that the language knows, each with its signature. The outputs of
/// a signature end with the value that comes to lie on top of the stack. So do
/// its inputs, but for those of a word that [`listed_from_top`] names.
pub open spec fn builtins() -> Seq<(Seq<char>, Sig)> {
    seq![
        ("+"@, sig(seq![Ty::Int, Ty::Int], seq![Ty::Int])),
        ("-"@, sig(seq![Ty::Int, Ty::Int], seq![Ty::Int])),
        ("*"@, sig(seq![Ty::Int, Ty::Int], seq![Ty::Int])),
        ("/"@, sig(seq![Ty::Int, Ty::Int], seq![Ty::Int])),
        ("exit"@, sig(seq![Ty::Int], seq![])),
        ("puts"@, sig(seq![Ty::Str], seq![])),
        ("true"@, sig(seq![], seq![Ty::Bool])),
        ("false"@, sig(seq![], seq![Ty::Bool])),
        ("dup"@, sig(seq![Ty::Var(0)], seq![Ty::Var(0), Ty::Var(0)])),
        ("swap"@, sig(seq![Ty::Var(0), Ty::Var(1)], seq![Ty::Var(1), Ty::Var(0)])),
        ("drop"@, sig(seq![Ty::Var(0)], seq![])),
        ("over"@, sig(seq![Ty::Var(0), Ty::Var(1)], seq![Ty::Var(0), Ty::Var(1), Ty::Var(0)])),
        (
            "apply"@,
            sig(
                seq![
                    Ty::MultiVar(0),
                    Ty::Quotation(sig(seq![Ty::MultiVar(0)], seq![Ty::MultiVar(1)])),
                ],
                seq![Ty::MultiVar(1)],
            ),
        ),
        ("?"@, sig(seq![Ty::Var(0), Ty::Var(0), Ty::Bool], seq![Ty::Var(0)])),
    ]
}

/// Whether the signature of `name` lists its inputs from the top of the stack
/// downwards. That of `?` does: a program reads `cond a b ?`, and the word
/// finds its first input on top, the second below it and the condition, which
/// it lists last, below both. What such a word demands of the caller is
/// recorded in the order of its own list.
pub open spec fn listed_from_top(name: Seq<char>) -> bool {
    name == "?"@
}

/// `types` as they are, or turned round where `round` holds.
pub open spec fn turned(types: Seq<Ty>, round: bool) -> Seq<Ty> {
    if round {
        types.reverse()
    } else {
        types
    }
}

/// The signature that the first `n` entries of `table` give to `name`.
pub open spec fn bound_signature(table: Seq<(Seq<char>, Sig)>, name: Seq<char>, n: nat) -> Option<
    Sig,
>
    decreases n,
{
    if n == 0 || n > table.len() {
        None
    } else {
        match bound_signature(table, name, (n - 1) as nat) {
            Some(signature) => Some(signature),
            None => if table[n - 1].0 == name {
                Some(table[n - 1].1)
            } else {
                None
            },
        }
    }
}

/// The mathematical model of a [`State`]: what the scope demands of its
/// caller, the demands of a later word before those of an earlier one, its
/// stack, ending with the value on top, and its items.
pub struct Scope {
    pub demanded: Seq<Ty>,
    pub stack: Seq<Ty>,
    pub items: Seq<ItemModel>,
}

/// A scope that waits while a quotation within it is analysed, with the
/// bracket that opened the quotation.
pub struct Frame<'src> {
    pub opener: Word<'src>,
    pub scope: Scope,
}

/// The state of an analysis: the bindings, the scopes that wait, the outermost
/// first, and the scope that the next word belongs to.
pub struct Analysis<'src> {
    pub bindings: Bindings,
    pub frames: Seq<Frame<'src>>,
    pub scope: Scope,
}

/// The mathematical model of a [`CompileError`].
pub enum Failure<'src> {
    UndefinedWord { word: Word<'src> },
    CannotExecSignature { word: Word<'src>, stack: Seq<Ty>, sig: Sig },
    UnmatchedBracket { word: Word<'src> },
    MalformedString { word: Word<'src> },
}

/// `item` with its signature, and those of the items within it, resolved.
pub open spec fn resolve_item(bindings: Bindings, item: ItemModel) -> ItemModel
    decreases item, 0nat,
{
    ItemModel {
        kind: match item.kind {
            ItemKindModel::Word(signature, name) => ItemKindModel::Word(
                bindings.resolve_signature(signature),
                name,
            ),
            ItemKindModel::Quotation(signature, items) => ItemKindModel::Quotation(
                bindings.resolve_signature(signature),
                resolve_items(bindings, items, items.len()),
            ),
            other => other,
        },
        span: item.span,
    }
}

/// The first `n` items of `items`, resolved.
pub open spec fn resolve_items(bindings: Bindings, items: Seq<ItemModel>, n: nat) -> Seq<
    ItemModel,
>
    decreases items, n,
{
    if n == 0 || n > items.len() {
        Seq::empty()
    } else {
        resolve_items(bindings, items, (n - 1) as nat).push(resolve_item(bindings, items[n - 1]))
    }
}

pub open spec fn empty_scope() -> Scope {
    Scope { demanded: Seq::empty(), stack: Seq::empty(), items: Seq::empty() }
}

/// What a scope amounts to under `bindings`: its signature and its items.
pub open spec fn frozen(bindings: Bindings, scope: Scope) -> (Sig, Seq<ItemModel>) {
    (
        bindings.resolve_signature(Sig { inputs: scope.demanded, outputs: scope.stack }),
        resolve_items(bindings, scope.items, scope.items.len()),
    )
}

/// Applying a word of signature `signature` to a scope. The signature is
/// instantiated and its inputs are taken off the stack, the value on top
/// first: that is the last input, or the first one where the inputs are listed
/// `from_top`. What the stack lacks is demanded of the caller, below all that
/// was demanded before, and recorded in the order of the list. The outputs,
/// resolved, are left on the stack. Returns the bindings and the scope
/// afterwards and the instance of the signature, or, where the inputs do not
/// fit, the instance alone.
pub open spec fn applied(
    bindings: Bindings,
    scope: Scope,
    signature: Sig,
    from_top: bool,
) -> Result<(Bindings, Scope, Sig), Sig> {
    let (minted, instance) = instantiate(bindings, signature);
    match run(
        Machine {
            bindings: minted,
            stack: scope.stack,
            demanded: Seq::empty(),
            goals: take_goals(minted.resolve_list(turned(instance.inputs, from_top))),
        },
    ) {
        Some(end) => Ok(
            (
                end.bindings,
                Scope {
                    demanded: turned(end.demanded, from_top) + scope.demanded,
                    stack: end.stack + end.bindings.resolve_list(instance.outputs),
                    items: scope.items,
                },
                instance,
            ),
        ),
        None => Err(instance),
    }
}

pub open spec fn with_item(scope: Scope, pushed: Seq<Ty>, kind: ItemKindModel, span: Span) -> Scope {
    Scope {
        demanded: scope.demanded,
        stack: scope.stack + pushed,
        items: scope.items.push(ItemModel { kind, span }),
    }
}

/// The analysis after one more word.
pub open spec fn word_step<'src>(
    table: Seq<(Seq<char>, Sig)>,
    analysis: Analysis<'src>,
    word: Word<'src>,
) -> Result<Analysis<'src>, Failure<'src>> {
    match word.token {
        Token::Integer(value) => Ok(
            Analysis {
                scope: with_item(
                    analysis.scope,
                    seq![Ty::Int],
                    ItemKindModel::Integer(value),
                    word.span,
                ),
                ..analysis
            },
        ),
        Token::String(raw) => if well_formed_literal(raw@) {
            Ok(
                Analysis {
                    scope: with_item(
                        analysis.scope,
                        seq![Ty::Str],
                        ItemKindModel::String(raw@),
                        word.span,
                    ),
                    ..analysis
                },
            )
        } else {
            Err(Failure::MalformedString { word })
        },
        Token::Symbol(name) => if name@ == "["@ {
            Ok(
                Analysis {
                    bindings: analysis.bindings,
                    frames: analysis.frames.push(Frame { opener: word, scope: analysis.scope }),
                    scope: empty_scope(),
                },
            )
        } else if name@ == "]"@ {
            if analysis.frames.len() == 0 {
                Err(Failure::UnmatchedBracket { word })
            } else {
                let (signature, items) = frozen(analysis.bindings, analysis.scope);
                let frame = analysis.frames.last();
                Ok(
                    Analysis {
                        bindings: analysis.bindings,
                        frames: analysis.frames.drop_last(),
                        scope: with_item(
                            frame.scope,
                            seq![Ty::Quotation(signature)],
                            ItemKindModel::Quotation(signature, items),
                            frame.opener.span,
                        ),
                    },
                )
            }
        } else {
            match bound_signature(table, name@, table.len()) {
                None => Err(Failure::UndefinedWord { word }),
                Some(signature) => match applied(
                    analysis.bindings,
                    analysis.scope,
                    signature,
                    listed_from_top(name@),
                ) {
                    Ok((bindings, scope, instance)) => Ok(
                        Analysis {
                            bindings,
                            frames: analysis.frames,
                            scope: with_item(
                                scope,
                                Seq::empty(),
                                ItemKindModel::Word(instance, name@),
                                word.span,
                            ),
                        },
                    ),
                    Err(instance) => Err(
                        Failure::CannotExecSignature {
                            word,
                            stack: analysis.scope.stack,
                            sig: instance,
                        },
                    ),
                },
            }
        }
    }
}

/// The analysis after the first `n` words of `words`. The first failure ends it.
pub open spec fn analyze_words<'src>(
    table: Seq<(Seq<char>, Sig)>,
    words: Seq<Word<'src>>,
    n: nat,
) -> Result<Analysis<'src>, Failure<'src>>
    decreases n,
{
    if n == 0 || n > words.len() {
        Ok(Analysis { bindings: Bindings::empty(), frames: Seq::empty(), scope: empty_scope() })
    } else {
        match analyze_words(table, words, (n - 1) as nat) {
            Ok(analysis) => word_step(table, analysis, words[n - 1]),
            Err(failure) => Err(failure),
        }
    }
}

/// What the analysis of `words` yields: the signature of the program and its
/// items, or the first failure. A bracket that is left open at the end is a
/// failure at the last such bracket.
pub open spec fn analyzed<'src>(words: Seq<Word<'src>>) -> Result<
    (Sig, Seq<ItemModel>),
    Failure<'src>,
> {
    match analyze_words(builtins(), words, words.len()) {
        Err(failure) => Err(failure),
        Ok(analysis) => if analysis.frames.len() > 0 {
            Err(Failure::UnmatchedBracket { word: analysis.frames.last().opener })
        } else {
            Ok(frozen(analysis.bindings, analysis.scope))
        },
    }
}


/// Why the analysis of a program failed.
#[derive(Debug, Clone)]
pub enum CompileError<'src> {
    /// `word` is no word that the language knows.
    UndefinedWord { word: Word<'src> },
    /// The inputs of `word`, whose signature was instantiated as `sig`, do not
    /// fit `stack`, the stack of the scope before the word.
    CannotExecSignature { word: Word<'src>, stack: Vec<Type>, sig: Signature },
    /// `word` is a bracket without its partner.
    UnmatchedBracket { word: Word<'src> },
    /// `word` is a string literal that is not closed, or that holds a line feed.
    MalformedString { word: Word<'src> },
}

impl<'src> CompileError<'src> {
    pub open spec fn model(&self) -> Failure<'src> {
        match self {
            CompileError::UndefinedWord { word } => Failure::UndefinedWord { word: *word },
            CompileError::CannotExecSignature { word, stack, sig } => Failure::CannotExecSignature {
                word: *word,
                stack: models(stack@),
                sig: sig.model(),
            },
            CompileError::UnmatchedBracket { word } => Failure::UnmatchedBracket { word: *word },
            CompileError::MalformedString { word } => Failure::MalformedString { word: *word },
        }
    }
}

/// The renaming that a map from local to global variables stands for.
pub open spec fn rename_model(map: Map<usize, usize>) -> Map<nat, nat> {
    Map::new(
        |local: nat| local <= usize::MAX && map.contains_key(local as usize),
        |local: nat| map[local as usize] as nat,
    )
}

/// The global variable that stands for local variable `key`, if one does.
fn lookup(map: &HashMap<usize, usize>, key: usize) -> (global: Option<usize>)
    ensures
        global is Some <==> rename_model(map@).contains_key(key as nat),
        global is Some ==> global->Some_0 == rename_model(map@)[key as nat],
{
    match map.get(&key) {
        Some(global) => Some(*global),
        None => None,
    }
}

/// Lets `global` stand for local variable `local`.
fn rename(map: &mut HashMap<usize, usize>, local: usize, global: usize)
    ensures
        rename_model(final(map)@) == rename_model(old(map)@).insert(local as nat, global as nat),
{
    map.insert(local, global);
    assert(rename_model(map@) =~= rename_model(old(map)@).insert(local as nat, global as nat));
}

/// The renaming that the running state stands for.
pub open spec fn renaming_of(
    context: &Context,
    local_vars: Map<usize, usize>,
    local_multivars: Map<usize, usize>,
) -> Renaming {
    Renaming {
        bindings: context.model(),
        vars: rename_model(local_vars),
        rows: rename_model(local_multivars),
    }
}

/// The stack and the items of one scope under analysis. `signature.inputs`
/// holds what the scope demands of its caller, `signature.outputs` its stack.
pub struct State<'src> {
    pub signature: Signature,
    pub items: Vec<Item<'src>>,
}

impl<'src> State<'src> {
    pub open spec fn model(&self) -> Scope {
        Scope {
            demanded: models(self.signature.inputs@),
            stack: models(self.signature.outputs@),
            items: item_models(self.items@),
        }
    }

    pub fn new() -> (state: Self)
        ensures
            state.model() == empty_scope(),
    {
        let state = Self { signature: Signature::new(Vec::new(), Vec::new()), items: Vec::new() };
        proof {
            lemma_models_empty();
            assert(item_models(state.items@) =~= Seq::empty());
        }
        state
    }

    fn push_output(&mut self, ty: Type)
        ensures
            final(self).model() == (Scope {
                stack: old(self).model().stack.push(ty.model()),
                ..old(self).model()
            }),
    {
        proof {
            lemma_models_push(self.signature.outputs@, ty);
        }
        self.signature.outputs.push(ty)
    }

    fn push_item(&mut self, item: Item<'src>)
        ensures
            final(self).model() == (Scope {
                items: old(self).model().items.push(item.model()),
                ..old(self).model()
            }),
    {
        self.items.push(item);
        assert(item_models(self.items@) =~= item_models(old(self).items@).push(item.model()));
    }

    fn clone_outputs(&self) -> (outputs: Vec<Type>)
        ensures
            models(outputs@) == self.model().stack,
    {
        clone_types(&self.signature.outputs)
    }

    fn resolve_signature(&self, signature: &Signature, context: &Context) -> (resolved: Signature)
        ensures
            resolved.model() == context.model().resolve_signature(signature.model()),
    {
        context.resolve_signature(signature)
    }

    /// The signature of the scope under the bindings of `context`.
    fn resolve(&self, context: &Context) -> (resolved: Signature)
        ensures
            resolved.model() == frozen(context.model(), self.model()).0,
    {
        self.resolve_signature(&self.signature, context)
    }

    fn resolve_item(&self, item: &Item<'src>, context: &Context) -> (resolved: Item<'src>)
        ensures
            resolved.model() == resolve_item(context.model(), item.model()),
        decreases item, 0nat,
    {
        let kind = match &item.kind {
            ItemKind::Quotation(signature, items) => {
                proof {
                    lemma_quotation_item_model(*item);
                }
                ItemKind::Quotation(
                    self.resolve_signature(signature, context),
                    self.resolve_items(items, context),
                )
            },
            ItemKind::Word(signature, name) => ItemKind::Word(
                self.resolve_signature(signature, context),
                *name,
            ),
            ItemKind::Integer(value) => ItemKind::Integer(*value),
            ItemKind::String(raw) => ItemKind::String(*raw),
        };
        let resolved = Item::new(kind, item.span);
        proof {
            if resolved.kind is Quotation {
                lemma_quotation_item_model(resolved);
            }
        }
        resolved
    }

    fn resolve_items(&self, items: &Vec<Item<'src>>, context: &Context) -> (resolved: Vec<
        Item<'src>,
    >)
        ensures
            item_models(resolved@) == resolve_items(
                context.model(),
                item_models(items@),
                item_models(items@).len(),
            ),
        decreases items, 1nat,
    {
        let ghost all = item_models(items@);
        assert(all.len() == items@.len());
        let mut resolved: Vec<Item<'src>> = Vec::new();
        assert(item_models(resolved@) =~= Seq::empty());
        let mut i: usize = 0;
        while i < items.len()
            invariant
                i <= items@.len(),
                all == item_models(items@),
                all.len() == items@.len(),
                item_models(resolved@) == resolve_items(context.model(), all, i as nat),
            decreases items@.len() - i,
        {
            let ghost before = resolved@;
            assert(all[i as int] == items@[i as int].model());
            let item = self.resolve_item(&items[i], context);
            resolved.push(item);
            assert(item_models(resolved@) =~= item_models(before).push(item.model()));
            i = i + 1;
        }
        resolved
    }

    /// The signature and the items of the scope under the bindings of `context`.
    fn resolve_all(self, context: &Context) -> (resolved: (Signature, Vec<Item<'src>>))
        ensures
            (resolved.0.model(), item_models(resolved.1@)) == frozen(context.model(), self.model()),
    {
        let signature = self.resolve(context);
        let new_items = self.resolve_items(&self.items, context);
        (signature, new_items)
    }

    /// `t` with its local variables renamed.
    fn instantiate_type(
        &self,
        t: &Type,
        local_vars: &mut HashMap<usize, usize>,
        local_multivars: &mut HashMap<usize, usize>,
        context: &mut Context,
    ) -> (renamed_type: Type)
        ensures
            (renaming_of(final(context), final(local_vars)@, final(local_multivars)@), renamed_type.model())
                == instantiate_type(
                renaming_of(old(context), old(local_vars)@, old(local_multivars)@),
                t.model(),
            ),
        decreases t, 0nat,
    {
        match t {
            Type::Var(n) => {
                match lookup(local_vars, *n) {
                    Some(var) => Type::Var(var),
                    None => {
                        let var = context.gen_var();
                        rename(local_vars, *n, var);
                        Type::Var(var)
                    },
                }
            },
            Type::MultiVar(n) => {
                match lookup(local_multivars, *n) {
                    Some(var) => Type::MultiVar(var),
                    None => {
                        let var = context.gen_multivar();
                        rename(local_multivars, *n, var);
                        Type::MultiVar(var)
                    },
                }
            },
            Type::Quotation(signature) => {
                proof {
                    lemma_quotation_model(*signature);
                }
                let inputs = self.instantiate(
                    &signature.inputs,
                    local_vars,
                    local_multivars,
                    context,
                );
                let outputs = self.instantiate(
                    &signature.outputs,
                    local_vars,
                    local_multivars,
                    context,
                );
                let instance = Signature { inputs, outputs };
                proof {
                    lemma_quotation_model(instance);
                }
                Type::Quotation(instance)
            },
            Type::Int => Type::Int,
            Type::Bool => Type::Bool,
            Type::String => Type::String,
        }
    }

    /// The types of `stack` with their local variables renamed, from the first
    /// type on.
    fn instantiate(
        &self,
        stack: &Vec<Type>,
        local_vars: &mut HashMap<usize, usize>,
        local_multivars: &mut HashMap<usize, usize>,
        context: &mut Context,
    ) -> (renamed_types: Vec<Type>)
        ensures
            (
                renaming_of(final(context), final(local_vars)@, final(local_multivars)@),
                models(renamed_types@),
            ) == instantiate_prefix(
                renaming_of(old(context), old(local_vars)@, old(local_multivars)@),
                models(stack@),
                models(stack@).len(),
            ),
        decreases stack, 1nat,
    {
        let ghost all = models(stack@);
        let ghost start = renaming_of(context, local_vars@, local_multivars@);
        assert(all.len() == stack@.len());
        let mut renamed_types: Vec<Type> = Vec::new();
        proof {
            lemma_models_empty();
        }
        let mut i: usize = 0;
        while i < stack.len()
            invariant
                i <= stack@.len(),
                all == models(stack@),
                all.len() == stack@.len(),
                (renaming_of(context, local_vars@, local_multivars@), models(renamed_types@))
                    == instantiate_prefix(start, all, i as nat),
            decreases stack@.len() - i,
        {
            let ghost before = renamed_types@;
            assert(all[i as int] == stack@[i as int].model());
            let renamed_type = self.instantiate_type(
                &stack[i],
                local_vars,
                local_multivars,
                context,
            );
            renamed_types.push(renamed_type);
            proof {
                lemma_models_push(before, renamed_type);
            }
            i = i + 1;
        }
        renamed_types
    }
}

pub open spec fn table_model(table: Seq<(&'static str, Signature)>) -> Seq<(Seq<char>, Sig)> {
    Seq::new(table.len(), |i: int| (table[i].0@, table[i].1.model()))
}

pub open spec fn frame_models<'src>(frames: Seq<(Word<'src>, State<'src>)>) -> Seq<Frame<'src>> {
    Seq::new(frames.len(), |i: int| Frame { opener: frames[i].0, scope: frames[i].1.model() })
}

/// The analysis that the running state stands for.
pub open spec fn analysis_of<'src>(
    context: &Context,
    frames: Seq<(Word<'src>, State<'src>)>,
    state: State<'src>,
) -> Analysis<'src> {
    Analysis { bindings: context.model(), frames: frame_models(frames), scope: state.model() }
}

fn signature_of(inputs: Vec<Type>, outputs: Vec<Type>) -> (signature: Signature)
    ensures
        signature.model() == sig(models(inputs@), models(outputs@)),
{
    Signature::new(inputs, outputs)
}

/// `types` in the opposite order.
fn turn_round(types: Vec<Type>) -> (round: Vec<Type>)
    ensures
        models(round@) == models(types@).reverse(),
{
    let ghost all = models(types@);
    assert(all.len() == types@.len());
    let mut left = types;
    let mut round: Vec<Type> = Vec::new();
    while left.len() > 0
        invariant
            left@.len() <= all.len(),
            round@.len() == all.len() - left@.len(),
            forall|i: int| 0 <= i < left@.len() ==> (#[trigger] left@[i]).model() == all[i],
            forall|i: int|
                0 <= i < round@.len() ==> (#[trigger] round@[i]).model() == all[all.len() - 1 - i],
        decreases left@.len(),
    {
        let last = left.pop().unwrap();
        round.push(last);
    }
    assert(models(round@) =~= all.reverse());
    round
}

fn types0() -> (types: Vec<Type>)
    ensures
        models(types@) == Seq::<Ty>::empty(),
{
    proof {
        lemma_models_empty();
    }
    Vec::new()
}

fn types1(a: Type) -> (types: Vec<Type>)
    ensures
        models(types@) == seq![a.model()],
{
    let mut types = Vec::new();
    types.push(a);
    assert(models(types@) =~= seq![a.model()]);
    types
}

fn types2(a: Type, b: Type) -> (types: Vec<Type>)
    ensures
        models(types@) == seq![a.model(), b.model()],
{
    let mut types = Vec::new();
    types.push(a);
    types.push(b);
    assert(models(types@) =~= seq![a.model(), b.model()]);
    types
}

fn types3(a: Type, b: Type, c: Type) -> (types: Vec<Type>)
    ensures
        models(types@) == seq![a.model(), b.model(), c.model()],
{
    let mut types = Vec::new();
    types.push(a);
    types.push(b);
    types.push(c);
    assert(models(types@) =~= seq![a.model(), b.model(), c.model()]);
    types
}

/// The analysis of a program: the words to analyse and the table of the
/// words that are known.
pub struct Analyzer<'src> {
    pub word_bindings: Vec<(&'static str, Signature)>,
    pub words: Vec<Word<'src>>,
    pub position: usize,
}

impl<'src> Analyzer<'src> {
    pub fn new(words: Vec<Word<'src>>) -> (analyzer: Self)
        ensures
            analyzer.words == words,
            analyzer.position == 0,
            analyzer.word_bindings@ == Seq::<(&'static str, Signature)>::empty(),
    {
        Self { word_bindings: Vec::new(), words, position: 0 }
    }

    fn bind(&mut self, name: &'static str, signature: Signature)
        ensures
            final(self).words == old(self).words,
            final(self).position == old(self).position,
            table_model(final(self).word_bindings@) == table_model(old(self).word_bindings@).push(
                (name@, signature.model()),
            ),
    {
        self.word_bindings.push((name, signature));
        assert(table_model(self.word_bindings@) =~= table_model(old(self).word_bindings@).push(
            (name@, signature.model()),
        ));
    }

    fn register_builtins(&mut self)
        requires
            old(self).word_bindings@.len() == 0,
        ensures
            final(self).words == old(self).words,
            final(self).position == old(self).position,
            table_model(final(self).word_bindings@) == builtins(),
    {
        assert(table_model(self.word_bindings@) =~= Seq::empty());
        self.bind("+", signature_of(types2(Type::Int, Type::Int), types1(Type::Int)));
        self.bind("-", signature_of(types2(Type::Int, Type::Int), types1(Type::Int)));
        self.bind("*", signature_of(types2(Type::Int, Type::Int), types1(Type::Int)));
        self.bind("/", signature_of(types2(Type::Int, Type::Int), types1(Type::Int)));
        self.bind("exit", signature_of(types1(Type::Int), types0()));
        self.bind("puts", signature_of(types1(Type::String), types0()));
        self.bind("true", signature_of(types0(), types1(Type::Bool)));
        self.bind("false", signature_of(types0(), types1(Type::Bool)));
        self.bind("dup", signature_of(types1(Type::Var(0)), types2(Type::Var(0), Type::Var(0))));
        self.bind(
            "swap",
            signature_of(types2(Type::Var(0), Type::Var(1)), types2(Type::Var(1), Type::Var(0))),
        );
        self.bind("drop", signature_of(types1(Type::Var(0)), types0()));
        self.bind(
            "over",
            signature_of(
                types2(Type::Var(0), Type::Var(1)),
                types3(Type::Var(0), Type::Var(1), Type::Var(0)),
            ),
        );
        let quotation = signature_of(types1(Type::MultiVar(0)), types1(Type::MultiVar(1)));
        proof {
            lemma_quotation_model(quotation);
        }
        self.bind(
            "apply",
            signature_of(
                types2(Type::MultiVar(0), Type::Quotation(quotation)),
                types1(Type::MultiVar(1)),
            ),
        );
        self.bind(
            "?",
            signature_of(types3(Type::Var(0), Type::Var(0), Type::Bool), types1(Type::Var(0))),
        );
        assert(table_model(self.word_bindings@) =~= builtins());
    }

    /// The signature that the table gives to `name`.
    fn signature(&self, name: &str) -> (found: Option<&Signature>)
        ensures
            match bound_signature(
                table_model(self.word_bindings@),
                name@,
                self.word_bindings@.len(),
            ) {
                Some(signature) => found is Some && found->Some_0.model() == signature,
                None => found is None,
            },
    {
        let ghost table = table_model(self.word_bindings@);
        assert(table.len() == self.word_bindings@.len());
        let mut i: usize = 0;
        while i < self.word_bindings.len()
            invariant
                i <= self.word_bindings@.len(),
                table == table_model(self.word_bindings@),
                table.len() == self.word_bindings@.len(),
                bound_signature(table, name@, i as nat) is None,
            decreases self.word_bindings@.len() - i,
        {
            assert(table[i as int] == (
                self.word_bindings@[i as int].0@,
                self.word_bindings@[i as int].1.model(),
            ));
            if str_eq(self.word_bindings[i].0, name) {
                proof {
                    lemma_bound_signature_found(table, name@, (i + 1) as nat);
                }
                return Some(&self.word_bindings[i].1);
            }
            i = i + 1;
        }
        None
    }

    /// Applies a word of signature `signature` to the scope. Returns the
    /// instance of the signature that the word was given.
    fn try_signature(
        &self,
        word: Word<'src>,
        state: &mut State<'src>,
        signature: &Signature,
        from_top: bool,
        context: &mut Context,
    ) -> (result: Result<Signature, CompileError<'src>>)
        requires
            solved(old(context).model()),
        ensures
            solved(final(context).model()),
            match applied(old(context).model(), old(state).model(), signature.model(), from_top) {
                Ok((bindings, scope, instance)) => result is Ok && result->Ok_0.model() == instance
                    && final(context).model() == bindings && final(state).model() == scope,
                Err(instance) => result is Err && result->Err_0.model()
                    == (Failure::CannotExecSignature {
                    word,
                    stack: old(state).model().stack,
                    sig: instance,
                }),
            },
    {
        let stack = state.clone_outputs();
        let mut local_vars: HashMap<usize, usize> = HashMap::new();
        let mut local_multivars: HashMap<usize, usize> = HashMap::new();
        proof {
            assert(rename_model(local_vars@) =~= Map::empty());
            assert(rename_model(local_multivars@) =~= Map::empty());
            assert(models(signature.inputs@).len() == signature.inputs@.len());
            assert(models(signature.outputs@).len() == signature.outputs@.len());
        }
        let inputs = state.instantiate(
            &signature.inputs,
            &mut local_vars,
            &mut local_multivars,
            context,
        );
        let outputs = state.instantiate(
            &signature.outputs,
            &mut local_vars,
            &mut local_multivars,
            context,
        );
        let instance = Signature::new(inputs, outputs);
        assert((context.model(), instance.model()) == instantiate(
            old(context).model(),
            signature.model(),
        ));
        let ghost listed = turned(instance.model().inputs, from_top);
        let resolved = if from_top {
            context.resolve_types(&turn_round(clone_types(&instance.inputs)))
        } else {
            context.resolve_types(&instance.inputs)
        };
        let mut tasks: Vec<Task> = Vec::new();
        assert(task_models(tasks@) =~= Seq::empty());
        push_takes(&mut tasks, &resolved);
        assert(task_models(tasks@) =~= take_goals(context.model().resolve_list(listed)));
        proof {
            let bindings = old(context).model();
            let start = Renaming { bindings, vars: Map::empty(), rows: Map::empty() };
            let declared = signature.model();
            lemma_instantiate_prefix_solved(start, declared.inputs, declared.inputs.len());
            lemma_instantiate_prefix_solved(
                instantiate_prefix(start, declared.inputs, declared.inputs.len()).0,
                declared.outputs,
                declared.outputs.len(),
            );
            let minted = context.model();
            let inputs = minted.resolve_list(listed);
            lemma_resolved_prefix_is_closed(minted, listed, listed.len());
            let goals = take_goals(inputs);
            assert forall|i: int| 0 <= i < goals.len() implies goal_closed(
                minted,
                #[trigger] goals[i],
            ) by {
                assert(goals[i] == Goal::Take(inputs[i]));
            }
        }
        let ghost items = state.items@;
        let ghost demanded = state.signature.inputs@;
        let mut lacking: Vec<Type> = types0();
        let met = solve(context, &mut state.signature.outputs, &mut lacking, tasks);
        if !met {
            return Err(CompileError::CannotExecSignature { word, stack, sig: instance });
        }
        if from_top {
            lacking = turn_round(lacking);
        }
        let ghost added = lacking@;
        lacking.append(&mut state.signature.inputs);
        state.signature.inputs = lacking;
        assert(models(state.signature.inputs@) =~= models(added) + models(demanded));
        let mut new_outputs = context.resolve_types(&instance.outputs);
        let ghost before = state.signature.outputs@;
        let ghost pushed = new_outputs@;
        state.signature.outputs.append(&mut new_outputs);
        assert(models(state.signature.outputs@) =~= models(before) + models(pushed));
        Ok(instance)
    }
}

/// What was found among the first `n` entries stays found.
proof fn lemma_bound_signature_found(table: Seq<(Seq<char>, Sig)>, name: Seq<char>, n: nat)
    requires
        n <= table.len(),
        bound_signature(table, name, n) is Some,
    ensures
        bound_signature(table, name, table.len()) == bound_signature(table, name, n),
    decreases table.len() - n,
{
    if n < table.len() {
        lemma_bound_signature_found(table, name, n + 1);
    }
}


impl<'src> Analyzer<'src> {
    /// Analyses the next word. `state` is the scope that the word belongs to and
    /// `frames` holds the scopes around it; the scope after the word is returned.
    fn check_word(
        &mut self,
        state: State<'src>,
        frames: &mut Vec<(Word<'src>, State<'src>)>,
        context: &mut Context,
    ) -> (result: Result<State<'src>, CompileError<'src>>)
        requires
            old(self).position < old(self).words@.len(),
            solved(old(context).model()),
        ensures
            solved(final(context).model()),
            final(self).words == old(self).words,
            final(self).word_bindings == old(self).word_bindings,
            final(self).position == old(self).position + 1,
            match word_step(
                table_model(old(self).word_bindings@),
                analysis_of(old(context), old(frames)@, state),
                old(self).words@[old(self).position as int],
            ) {
                Ok(analysis) => result is Ok && analysis_of(
                    final(context),
                    final(frames)@,
                    result->Ok_0,
                ) == analysis,
                Err(failure) => result is Err && result->Err_0.model() == failure,
            },
    {
        let mut state = state;
        let length = self.words.len();
        let word = self.words[self.position];
        self.position = self.position + 1;
        let ghost table = table_model(self.word_bindings@);
        let ghost start = analysis_of(context, frames@, state);
        assert(table.len() == self.word_bindings@.len());
        assert(frame_models(frames@).len() == frames@.len());
        match word.token() {
            Token::Integer(value) => {
                let ghost before = state.model();
                state.push_output(Type::Int);
                state.push_item(Item::new(ItemKind::Integer(value), word.span()));
                assert(state.model().stack =~= before.stack + seq![Ty::Int]);
                Ok(state)
            },
            Token::String(raw) => {
                if !is_well_formed(raw) {
                    return Err(CompileError::MalformedString { word });
                }
                let ghost before = state.model();
                state.push_output(Type::String);
                state.push_item(Item::new(ItemKind::String(raw), word.span()));
                assert(state.model().stack =~= before.stack + seq![Ty::Str]);
                Ok(state)
            },
            Token::Symbol(name) => {
                if str_eq(name, "[") {
                    let ghost before = frames@;
                    frames.push((word, state));
                    assert(frame_models(frames@) =~= frame_models(before).push(
                        Frame { opener: word, scope: state.model() },
                    ));
                    Ok(State::new())
                } else if str_eq(name, "]") {
                    if frames.len() == 0 {
                        return Err(CompileError::UnmatchedBracket { word });
                    }
                    let ghost before = frames@;
                    assert(frame_models(before).last() == (Frame {
                        opener: before.last().0,
                        scope: before.last().1.model(),
                    }));
                    let (opener, outer) = frames.pop().unwrap();
                    assert(frame_models(frames@) =~= frame_models(before).drop_last());
                    let mut outer = outer;
                    let (signature, items) = state.resolve_all(context);
                    let ghost scope = outer.model();
                    let quotation = Type::Quotation(signature.clone());
                    proof {
                        lemma_quotation_model(quotation->Quotation_0);
                    }
                    outer.push_output(quotation);
                    let item = Item::new(ItemKind::Quotation(signature, items), opener.span());
                    proof {
                        lemma_quotation_item_model(item);
                    }
                    outer.push_item(item);
                    assert(outer.model().stack =~= scope.stack + seq![quotation.model()]);
                    Ok(outer)
                } else {
                    let found = self.signature(name);
                    match found {
                        None => Err(CompileError::UndefinedWord { word }),
                        Some(signature) => {
                            let from_top = str_eq(name, "?");
                            match self.try_signature(
                                word,
                                &mut state,
                                signature,
                                from_top,
                                context,
                            ) {
                                Ok(instance) => {
                                    let ghost before = state.model();
                                    state.push_item(
                                        Item::new(ItemKind::Word(instance, name), word.span()),
                                    );
                                    assert(state.model().stack =~= before.stack + Seq::<
                                        Ty,
                                    >::empty());
                                    Ok(state)
                                },
                                Err(error) => Err(error),
                            }
                        },
                    }
                }
            },
        }
    }

    /// Analyses a program. Returns its signature and its items, each word and
    /// each quotation with its signature, resolved.
    pub fn analyze(words: Vec<Word<'src>>) -> (result: Result<
        (Signature, Vec<Item<'src>>),
        CompileError<'src>,
    >)
        ensures
            match analyzed(words@) {
                Ok((signature, items)) => result is Ok && result->Ok_0.0.model() == signature
                    && item_models(result->Ok_0.1@) == items,
                Err(failure) => result is Err && result->Err_0.model() == failure,
            },
            result is Ok ==> balanced(words@),
    {
        proof {
            if analyzed(words@) is Ok {
                lemma_analyzed_balanced(words@);
            }
        }
        let mut analyzer = Self::new(words);
        let mut state = State::new();
        let mut frames: Vec<(Word<'src>, State<'src>)> = Vec::new();
        let mut context = Context::new();
        analyzer.register_builtins();
        assert(frame_models(frames@) =~= Seq::empty());
        while analyzer.position < analyzer.words.len()
            invariant
                analyzer.words == words,
                analyzer.position <= words@.len(),
                table_model(analyzer.word_bindings@) == builtins(),
                solved(context.model()),
                analyze_words(builtins(), words@, analyzer.position as nat) == Ok::<
                    Analysis<'src>,
                    Failure<'src>,
                >(analysis_of(&context, frames@, state)),
            decreases words@.len() - analyzer.position,
        {
            let ghost n = analyzer.position as nat;
            match analyzer.check_word(state, &mut frames, &mut context) {
                Ok(next) => {
                    state = next;
                },
                Err(error) => {
                    proof {
                        lemma_analyze_words_fails(builtins(), words@, n + 1);
                    }
                    return Err(error);
                },
            }
        }
        assert(frame_models(frames@).len() == frames@.len());
        if frames.len() > 0 {
            assert(frame_models(frames@).last().opener == frames@.last().0);
            let (opener, _) = frames.pop().unwrap();
            return Err(CompileError::UnmatchedBracket { word: opener });
        }
        Ok(state.resolve_all(&context))
    }
}

/// Once the analysis has failed, it has failed for every longer run of words.
pub proof fn lemma_analyze_words_fails<'src>(
    table: Seq<(Seq<char>, Sig)>,
    words: Seq<Word<'src>>,
    n: nat,
)
    requires
        n <= words.len(),
        analyze_words(table, words, n) is Err,
    ensures
        analyze_words(table, words, words.len()) == analyze_words(table, words, n),
    decreases words.len() - n,
{
    if n < words.len() {
        lemma_analyze_words_fails(table, words, n + 1);
    }
}

} // verus!
