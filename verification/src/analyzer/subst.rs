//! Bindings of type variables and their application to types.
//!
//! The bindings are kept solved: whatever a variable is bound to has already
//! been resolved, so that one pass over a type resolves it completely. A row
//! variable is bound to a segment of the stack, listed from the bottom upwards
//! as every list of types is.

use vstd::prelude::*;
use crate::analyzer::laws::lemma_fresh_solved;
use crate::analyzer::solved::{
    all_closed, closed, lemma_bind_row_solved, lemma_bind_var_solved,
    lemma_resolution_idempotent, lemma_resolved_prefix_is_closed, solved,
};
use crate::analyzer::types::{
    Sig, Signature, Ty, Type, clone_types, lemma_models_empty, lemma_models_push,
    lemma_quotation_model, models,
};

verus! {

/// The mathematical model of a [`Context`]. Variable `v` was handed out if
/// `v < vars.len()`, and is bound if `vars[v]` holds a type; the same for the
/// row variables and `rows`.
pub struct Bindings {
    pub vars: Seq<Option<Ty>>,
    pub rows: Seq<Option<Seq<Ty>>>,
}

/// The number of entries that hold nothing.
pub open spec fn count_free<A>(entries: Seq<Option<A>>) -> nat
    decreases entries.len(),
{
    if entries.len() == 0 {
        0
    } else {
        count_free(entries.drop_last()) + if entries.last() is None {
            1nat
        } else {
            0nat
        }
    }
}

impl Bindings {
    pub open spec fn empty() -> Bindings {
        Bindings { vars: Seq::empty(), rows: Seq::empty() }
    }

    pub open spec fn var_bound(self, v: nat) -> bool {
        v < self.vars.len() && self.vars[v as int] is Some
    }

    /// Variable `v` was handed out and is not bound.
    pub open spec fn var_free(self, v: nat) -> bool {
        v < self.vars.len() && self.vars[v as int] is None
    }

    pub open spec fn row_bound(self, m: nat) -> bool {
        m < self.rows.len() && self.rows[m as int] is Some
    }

    /// Row variable `m` was handed out and is not bound.
    pub open spec fn row_free(self, m: nat) -> bool {
        m < self.rows.len() && self.rows[m as int] is None
    }

    /// The number of variables, of both kinds, that were handed out and are not bound.
    pub open spec fn unbound(self) -> nat {
        count_free(self.vars) + count_free(self.rows)
    }

    /// With one more variable, which is not bound.
    pub open spec fn fresh_var(self) -> Bindings {
        Bindings { vars: self.vars.push(None), rows: self.rows }
    }

    /// With one more row variable, which is not bound.
    pub open spec fn fresh_row(self) -> Bindings {
        Bindings { vars: self.vars, rows: self.rows.push(None) }
    }

    /// What `t` stands for: a bound variable gives way to what it is bound to,
    /// a bound row variable to its segment. A quotation keeps its place and has
    /// its signature resolved.
    pub open spec fn resolve_type(self, t: Ty) -> Seq<Ty>
        decreases t, 0nat,
    {
        match t {
            Ty::Var(v) => if self.var_bound(v) {
                seq![self.vars[v as int]->Some_0]
            } else {
                seq![t]
            },
            Ty::MultiVar(m) => if self.row_bound(m) {
                self.rows[m as int]->Some_0
            } else {
                seq![t]
            },
            Ty::Quotation(signature) => seq![
                Ty::Quotation(
                    Sig {
                        inputs: self.resolve_prefix(
                            signature.inputs,
                            signature.inputs.len(),
                        ),
                        outputs: self.resolve_prefix(
                            signature.outputs,
                            signature.outputs.len(),
                        ),
                    },
                ),
            ],
            _ => seq![t],
        }
    }

    /// The first `n` types of `types`, resolved and joined.
    pub open spec fn resolve_prefix(self, types: Seq<Ty>, n: nat) -> Seq<Ty>
        decreases types, n,
    {
        if n == 0 || n > types.len() {
            Seq::empty()
        } else {
            self.resolve_prefix(types, (n - 1) as nat) + self.resolve_type(types[n - 1])
        }
    }

    /// A list of types, resolved.
    pub open spec fn resolve_list(self, types: Seq<Ty>) -> Seq<Ty> {
        self.resolve_prefix(types, types.len())
    }

    pub open spec fn resolve_signature(self, signature: Sig) -> Sig {
        Sig {
            inputs: self.resolve_list(signature.inputs),
            outputs: self.resolve_list(signature.outputs),
        }
    }

    /// What a type that takes one slot stands for. A row variable stays as it is.
    pub open spec fn resolve_single(self, t: Ty) -> Ty {
        match t {
            Ty::MultiVar(_) => t,
            _ => self.resolve_type(t)[0],
        }
    }

    /// The bindings of `self`, each resolved by `step`.
    pub open spec fn refined_by(self, step: Bindings) -> Bindings {
        Bindings {
            vars: Seq::new(
                self.vars.len(),
                |i: int|
                    match self.vars[i] {
                        Some(t) => Some(step.resolve_single(t)),
                        None => None,
                    },
            ),
            rows: Seq::new(
                self.rows.len(),
                |i: int|
                    match self.rows[i] {
                        Some(segment) => Some(step.resolve_list(segment)),
                        None => None,
                    },
            ),
        }
    }

    /// With variable `v` bound to `t`, in this and in every older binding.
    pub open spec fn bind_var(self, v: nat, t: Ty) -> Bindings {
        let refined = self.refined_by(only_var(v, t));
        Bindings { vars: refined.vars.update(v as int, Some(t)), rows: refined.rows }
    }

    /// With row variable `m` bound to `segment`, in this and in every older binding.
    pub open spec fn bind_row(self, m: nat, segment: Seq<Ty>) -> Bindings {
        let refined = self.refined_by(only_row(m, segment));
        Bindings { vars: refined.vars, rows: refined.rows.update(m as int, Some(segment)) }
    }
}

/// The bindings that bind variable `v` to `t` and nothing else.
pub open spec fn only_var(v: nat, t: Ty) -> Bindings {
    Bindings {
        vars: Seq::new(
            v + 1,
            |i: int|
                if i == v {
                    Some(t)
                } else {
                    None
                },
        ),
        rows: Seq::empty(),
    }
}

/// The bindings that bind row variable `m` to `segment` and nothing else.
pub open spec fn only_row(m: nat, segment: Seq<Ty>) -> Bindings {
    Bindings {
        vars: Seq::empty(),
        rows: Seq::new(
            m + 1,
            |i: int|
                if i == m {
                    Some(segment)
                } else {
                    None
                },
        ),
    }
}

/// Whether variable `v` stands anywhere in `t`.
pub open spec fn occurs_var(v: nat, t: Ty) -> bool
    decreases t, 0nat,
{
    match t {
        Ty::Var(w) => w == v,
        Ty::Quotation(signature) => occurs_var_in(v, signature.inputs, signature.inputs.len())
            || occurs_var_in(v, signature.outputs, signature.outputs.len()),
        _ => false,
    }
}

/// Whether variable `v` stands anywhere in the first `n` types of `types`.
pub open spec fn occurs_var_in(v: nat, types: Seq<Ty>, n: nat) -> bool
    decreases types, n,
{
    if n == 0 || n > types.len() {
        false
    } else {
        occurs_var_in(v, types, (n - 1) as nat) || occurs_var(v, types[n - 1])
    }
}

/// Whether row variable `m` stands anywhere in `t`.
pub open spec fn occurs_row(m: nat, t: Ty) -> bool
    decreases t, 0nat,
{
    match t {
        Ty::MultiVar(w) => w == m,
        Ty::Quotation(signature) => occurs_row_in(m, signature.inputs, signature.inputs.len())
            || occurs_row_in(m, signature.outputs, signature.outputs.len()),
        _ => false,
    }
}

/// Whether row variable `m` stands anywhere in the first `n` types of `types`.
pub open spec fn occurs_row_in(m: nat, types: Seq<Ty>, n: nat) -> bool
    decreases types, n,
{
    if n == 0 || n > types.len() {
        false
    } else {
        occurs_row_in(m, types, (n - 1) as nat) || occurs_row(m, types[n - 1])
    }
}


/// The bindings of the variables of one analysis. Entry `v` of `var_context`
/// holds what variable `v` is bound to, entry `m` of `multivar_context` the
/// segment of row variable `m`.
pub struct Context {
    pub var_context: Vec<Option<Type>>,
    pub multivar_context: Vec<Option<Vec<Type>>>,
}

pub open spec fn var_entry_model(entry: Option<Type>) -> Option<Ty> {
    match entry {
        Some(t) => Some(t.model()),
        None => None,
    }
}

pub open spec fn row_entry_model(entry: Option<Vec<Type>>) -> Option<Seq<Ty>> {
    match entry {
        Some(segment) => Some(models(segment@)),
        None => None,
    }
}

pub open spec fn var_models(entries: Seq<Option<Type>>) -> Seq<Option<Ty>> {
    Seq::new(entries.len(), |i: int| var_entry_model(entries[i]))
}

pub open spec fn row_models(entries: Seq<Option<Vec<Type>>>) -> Seq<Option<Seq<Ty>>> {
    Seq::new(entries.len(), |i: int| row_entry_model(entries[i]))
}

/// Appends deep copies of `source` to `out`.
fn append_copies(out: &mut Vec<Type>, source: &Vec<Type>)
    ensures
        models(final(out)@) == models(old(out)@) + models(source@),
{
    let n = source.len();
    let mut i: usize = 0;
    while i < n
        invariant
            i <= n,
            n == source@.len(),
            models(out@) == models(old(out)@) + models(source@).take(i as int),
        decreases n - i,
    {
        let ghost before = out@;
        let index = i;
        out.push(source[index].clone());
        proof {
            lemma_models_push(before, out@.last());
            assert(models(source@)[index as int] == source@[index as int].model());
            assert(models(source@).take(i + 1) =~= models(source@).take(i as int).push(
                source@[index as int].model(),
            ));
            assert(models(out@) =~= models(old(out)@) + models(source@).take(i + 1));
        }
        i = i + 1;
    }
    proof {
        assert(models(source@).take(n as int) =~= models(source@));
    }
}

impl Context {
    pub open spec fn model(&self) -> Bindings {
        Bindings {
            vars: var_models(self.var_context@),
            rows: row_models(self.multivar_context@),
        }
    }

    pub fn new() -> (context: Self)
        ensures
            context.model() == Bindings::empty(),
            solved(context.model()),
    {
        let context = Self { var_context: Vec::new(), multivar_context: Vec::new() };
        assert(context.model().vars =~= Seq::empty());
        assert(context.model().rows =~= Seq::empty());
        context
    }

    /// What variable `var` is bound to, if it is bound.
    pub fn get_var(&self, var: usize) -> (binding: Option<&Type>)
        ensures
            binding is Some <==> self.model().var_bound(var as nat),
            binding is Some ==> binding->Some_0.model() == self.model().vars[var as int]->Some_0,
    {
        if var < self.var_context.len() {
            self.var_context[var].as_ref()
        } else {
            None
        }
    }

    /// The segment that row variable `var` is bound to, if it is bound.
    pub fn get_multivar(&self, var: usize) -> (binding: Option<&Vec<Type>>)
        ensures
            binding is Some <==> self.model().row_bound(var as nat),
            binding is Some ==> models(binding->Some_0@) == self.model().rows[var as int]->Some_0,
    {
        if var < self.multivar_context.len() {
            self.multivar_context[var].as_ref()
        } else {
            None
        }
    }

    /// Hands out a variable that was not in use before.
    pub fn gen_var(&mut self) -> (var: usize)
        ensures
            var == old(self).model().vars.len(),
            final(self).model() == old(self).model().fresh_var(),
            solved(old(self).model()) ==> solved(final(self).model()),
    {
        proof {
            if solved(self.model()) {
                lemma_fresh_solved(self.model());
            }
        }
        let var = self.var_context.len();
        self.var_context.push(None);
        assert(self.model().vars =~= old(self).model().vars.push(None));
        var
    }

    /// Hands out a row variable that was not in use before.
    pub fn gen_multivar(&mut self) -> (var: usize)
        ensures
            var == old(self).model().rows.len(),
            final(self).model() == old(self).model().fresh_row(),
            solved(old(self).model()) ==> solved(final(self).model()),
    {
        proof {
            if solved(self.model()) {
                lemma_fresh_solved(self.model());
            }
        }
        let var = self.multivar_context.len();
        self.multivar_context.push(None);
        assert(self.model().rows =~= old(self).model().rows.push(None));
        var
    }

    /// Appends what `t` stands for to `stack`.
    pub fn resolve_type(&self, t: &Type, stack: &mut Vec<Type>)
        ensures
            models(final(stack)@) == models(old(stack)@) + self.model().resolve_type(t.model()),
        decreases t, 0nat,
    {
        let ghost before = stack@;
        match t {
            Type::Var(v) => {
                match self.get_var(*v) {
                    Some(binding) => {
                        stack.push(binding.clone());
                    },
                    None => {
                        stack.push(Type::Var(*v));
                    },
                }
                proof {
                    lemma_models_push(before, stack@.last());
                    let resolved = self.model().resolve_type(t.model());
                    assert(models(before).push(resolved[0]) =~= models(before) + resolved);
                }
            },
            Type::MultiVar(m) => {
                match self.get_multivar(*m) {
                    Some(segment) => {
                        append_copies(stack, segment);
                    },
                    None => {
                        stack.push(Type::MultiVar(*m));
                        proof {
                            lemma_models_push(before, stack@.last());
                            let resolved = self.model().resolve_type(t.model());
                            assert(models(before).push(resolved[0]) =~= models(before) + resolved);
                        }
                    },
                }
            },
            Type::Quotation(signature) => {
                let inputs = self.resolve_types(&signature.inputs);
                let outputs = self.resolve_types(&signature.outputs);
                let resolved_signature = Signature { inputs, outputs };
                proof {
                    lemma_quotation_model(*signature);
                    lemma_quotation_model(resolved_signature);
                    assert(models(signature.inputs@).len() == signature.inputs@.len());
                    assert(models(signature.outputs@).len() == signature.outputs@.len());
                }
                stack.push(Type::Quotation(resolved_signature));
                proof {
                    lemma_models_push(before, stack@.last());
                    let resolved = self.model().resolve_type(t.model());
                    assert(models(before).push(resolved[0]) =~= models(before) + resolved);
                }
            },
            _ => {
                stack.push(t.clone());
                proof {
                    lemma_models_push(before, stack@.last());
                    let resolved = self.model().resolve_type(t.model());
                    assert(models(before).push(resolved[0]) =~= models(before) + resolved);
                }
            },
        }
    }

    /// A list of types, resolved.
    pub fn resolve_types(&self, types: &Vec<Type>) -> (resolved: Vec<Type>)
        ensures
            models(resolved@) == self.model().resolve_prefix(
                models(types@),
                models(types@).len(),
            ),
        decreases types, 1nat,
    {
        let ghost all = models(types@);
        assert(all.len() == types@.len());
        let mut resolved: Vec<Type> = Vec::new();
        proof {
            lemma_models_empty();
        }
        let mut i: usize = 0;
        while i < types.len()
            invariant
                i <= types@.len(),
                all == models(types@),
                all.len() == types@.len(),
                models(resolved@) == self.model().resolve_prefix(all, i as nat),
            decreases types@.len() - i,
        {
            assert(all[i as int] == types@[i as int].model());
            self.resolve_type(&types[i], &mut resolved);
            i = i + 1;
        }
        resolved
    }

    /// A signature, resolved. Where the bindings are solved, the result holds no
    /// variable that is bound, and to resolve it again changes nothing.
    pub fn resolve_signature(&self, signature: &Signature) -> (resolved: Signature)
        ensures
            resolved.model() == self.model().resolve_signature(signature.model()),
            solved(self.model()) ==> all_closed(self.model(), resolved.model().inputs)
                && all_closed(self.model(), resolved.model().outputs)
                && self.model().resolve_signature(resolved.model()) == resolved.model(),
    {
        proof {
            if solved(self.model()) {
                let declared = signature.model();
                lemma_resolved_prefix_is_closed(
                    self.model(),
                    declared.inputs,
                    declared.inputs.len(),
                );
                lemma_resolved_prefix_is_closed(
                    self.model(),
                    declared.outputs,
                    declared.outputs.len(),
                );
                lemma_resolution_idempotent(self.model(), declared);
            }
        }
        Signature {
            inputs: self.resolve_types(&signature.inputs),
            outputs: self.resolve_types(&signature.outputs),
        }
    }

    /// What a type that takes one slot stands for.
    pub fn resolve_single(&self, t: &Type) -> (resolved: Type)
        ensures
            resolved.model() == self.model().resolve_single(t.model()),
    {
        match t {
            Type::MultiVar(m) => Type::MultiVar(*m),
            Type::Var(v) => match self.get_var(*v) {
                Some(binding) => binding.clone(),
                None => Type::Var(*v),
            },
            Type::Quotation(signature) => {
                let resolved = self.resolve_signature(signature);
                proof {
                    lemma_quotation_model(*signature);
                    lemma_quotation_model(resolved);
                }
                Type::Quotation(resolved)
            },
            _ => t.clone(),
        }
    }
}


/// Whether variable `v` stands anywhere in `t`.
pub fn var_occurs(v: usize, t: &Type) -> (found: bool)
    ensures
        found == occurs_var(v as nat, t.model()),
    decreases t, 0nat,
{
    match t {
        Type::Var(w) => *w == v,
        Type::Quotation(signature) => {
            proof {
                lemma_quotation_model(*signature);
                assert(models(signature.inputs@).len() == signature.inputs@.len());
                assert(models(signature.outputs@).len() == signature.outputs@.len());
            }
            var_occurs_in(v, &signature.inputs) || var_occurs_in(v, &signature.outputs)
        },
        _ => false,
    }
}

fn var_occurs_in(v: usize, types: &Vec<Type>) -> (found: bool)
    ensures
        found == occurs_var_in(v as nat, models(types@), models(types@).len()),
    decreases types, 1nat,
{
    let ghost all = models(types@);
    assert(all.len() == types@.len());
    let mut i: usize = 0;
    while i < types.len()
        invariant
            i <= types@.len(),
            all == models(types@),
            all.len() == types@.len(),
            !occurs_var_in(v as nat, all, i as nat),
        decreases types@.len() - i,
    {
        assert(all[i as int] == types@[i as int].model());
        if var_occurs(v, &types[i]) {
            proof {
                lemma_occurs_var_found(v as nat, all, (i + 1) as nat);
            }
            return true;
        }
        i = i + 1;
    }
    false
}

/// What stands in the first `n` types stands in the list.
proof fn lemma_occurs_var_found(v: nat, types: Seq<Ty>, n: nat)
    requires
        n <= types.len(),
        occurs_var_in(v, types, n),
    ensures
        occurs_var_in(v, types, types.len()),
    decreases types.len() - n,
{
    if n < types.len() {
        lemma_occurs_var_found(v, types, n + 1);
    }
}

/// What stands in the first `n` types stands in the list.
proof fn lemma_occurs_row_found(m: nat, types: Seq<Ty>, n: nat)
    requires
        n <= types.len(),
        occurs_row_in(m, types, n),
    ensures
        occurs_row_in(m, types, types.len()),
    decreases types.len() - n,
{
    if n < types.len() {
        lemma_occurs_row_found(m, types, n + 1);
    }
}

/// Whether row variable `m` stands anywhere in `t`.
pub fn row_occurs(m: usize, t: &Type) -> (found: bool)
    ensures
        found == occurs_row(m as nat, t.model()),
    decreases t, 0nat,
{
    match t {
        Type::MultiVar(w) => *w == m,
        Type::Quotation(signature) => {
            proof {
                lemma_quotation_model(*signature);
                assert(models(signature.inputs@).len() == signature.inputs@.len());
                assert(models(signature.outputs@).len() == signature.outputs@.len());
            }
            row_occurs_in(m, &signature.inputs) || row_occurs_in(m, &signature.outputs)
        },
        _ => false,
    }
}

pub fn row_occurs_in(m: usize, types: &Vec<Type>) -> (found: bool)
    ensures
        found == occurs_row_in(m as nat, models(types@), models(types@).len()),
    decreases types, 1nat,
{
    let ghost all = models(types@);
    assert(all.len() == types@.len());
    let mut i: usize = 0;
    while i < types.len()
        invariant
            i <= types@.len(),
            all == models(types@),
            all.len() == types@.len(),
            !occurs_row_in(m as nat, all, i as nat),
        decreases types@.len() - i,
    {
        assert(all[i as int] == types@[i as int].model());
        if row_occurs(m, &types[i]) {
            proof {
                lemma_occurs_row_found(m as nat, all, (i + 1) as nat);
            }
            return true;
        }
        i = i + 1;
    }
    false
}

/// A type that does not hold the one variable that is bound stands for itself.
pub proof fn lemma_only_var_untouched(v: nat, x: Ty, t: Ty)
    requires
        !occurs_var(v, t),
    ensures
        only_var(v, x).resolve_type(t) == seq![t],
    decreases t, 0nat,
{
    match t {
        Ty::Quotation(signature) => {
            lemma_only_var_untouched_in(v, x, signature.inputs, signature.inputs.len());
            lemma_only_var_untouched_in(v, x, signature.outputs, signature.outputs.len());
            assert(signature.inputs.take(signature.inputs.len() as int) =~= signature.inputs);
            assert(signature.outputs.take(signature.outputs.len() as int) =~= signature.outputs);
        },
        _ => {},
    }
}

pub proof fn lemma_only_var_untouched_in(v: nat, x: Ty, types: Seq<Ty>, n: nat)
    requires
        n <= types.len(),
        !occurs_var_in(v, types, n),
    ensures
        only_var(v, x).resolve_prefix(types, n) == types.take(n as int),
    decreases types, n,
{
    if n == 0 {
        assert(types.take(0) =~= Seq::<Ty>::empty());
    } else {
        lemma_only_var_untouched_in(v, x, types, (n - 1) as nat);
        lemma_only_var_untouched(v, x, types[n - 1]);
        assert(types.take(n as int) =~= types.take(n - 1) + seq![types[n - 1]]);
    }
}

/// A type that does not hold the one row variable that is bound stands for itself.
pub proof fn lemma_only_row_untouched(m: nat, segment: Seq<Ty>, t: Ty)
    requires
        !occurs_row(m, t),
    ensures
        only_row(m, segment).resolve_type(t) == seq![t],
    decreases t, 0nat,
{
    match t {
        Ty::Quotation(signature) => {
            lemma_only_row_untouched_in(
                m,
                segment,
                signature.inputs,
                signature.inputs.len(),
            );
            lemma_only_row_untouched_in(
                m,
                segment,
                signature.outputs,
                signature.outputs.len(),
            );
            assert(signature.inputs.take(signature.inputs.len() as int) =~= signature.inputs);
            assert(signature.outputs.take(signature.outputs.len() as int) =~= signature.outputs);
        },
        _ => {},
    }
}

pub proof fn lemma_only_row_untouched_in(
    m: nat,
    segment: Seq<Ty>,
    types: Seq<Ty>,
    n: nat,
)
    requires
        n <= types.len(),
        !occurs_row_in(m, types, n),
    ensures
        only_row(m, segment).resolve_prefix(types, n) == types.take(n as int),
    decreases types, n,
{
    if n == 0 {
        assert(types.take(0) =~= Seq::<Ty>::empty());
    } else {
        lemma_only_row_untouched_in(m, segment, types, (n - 1) as nat);
        lemma_only_row_untouched(m, segment, types[n - 1]);
        assert(types.take(n as int) =~= types.take(n - 1) + seq![types[n - 1]]);
    }
}

impl Context {
    /// The bindings that bind `var` to `ty`, or, where `ty` is `None`, row
    /// variable `var` to `segment`, and nothing else.
    fn only(var: usize, ty: Option<&Type>, segment: &Vec<Type>) -> (step: Context)
        ensures
            step.model() == match ty {
                Some(t) => only_var(var as nat, t.model()),
                None => only_row(var as nat, models(segment@)),
            },
    {
        match ty {
            Some(t) => Context::only_var(var, t.clone()),
            None => Context::only_row(var, clone_types(segment)),
        }
    }

    /// Resolves every binding that holds variable `var` by its binding to `ty`
    /// alone, or, where `ty` is `None`, every binding that holds row variable
    /// `var` by its binding to `segment` alone.
    fn refine(&mut self, var: usize, ty: Option<&Type>, segment: &Vec<Type>)
        ensures
            final(self).model() == old(self).model().refined_by(
                match ty {
                    Some(t) => only_var(var as nat, t.model()),
                    None => only_row(var as nat, models(segment@)),
                },
            ),
    {
        let row = ty.is_none();
        let ghost one = match ty {
            Some(t) => only_var(var as nat, t.model()),
            None => only_row(var as nat, models(segment@)),
        };
        let mut made: Option<Context> = None;
        let ghost target = self.model().refined_by(one);
        let ghost start = *self;
        let mut i: usize = 0;
        while i < self.var_context.len()
            invariant
                i <= self.var_context@.len(),
                self.var_context@.len() == start.var_context@.len(),
                self.multivar_context == start.multivar_context,
                made matches Some(step) ==> step.model() == one,
                !row ==> exists|x: Ty| one == only_var(var as nat, x),
                row ==> exists|bound: Seq<Ty>| one == only_row(var as nat, bound),
                one == (match ty {
                    Some(t) => only_var(var as nat, t.model()),
                    None => only_row(var as nat, models(segment@)),
                }),
                target == start.model().refined_by(one),
                forall|k: int|
                    0 <= k < i ==> var_entry_model(#[trigger] self.var_context@[k])
                        == target.vars[k],
                forall|k: int|
                    i <= k < self.var_context@.len() ==> #[trigger] self.var_context@[k]
                        == start.var_context@[k],
            decreases self.var_context@.len() - i,
        {
            assert(start.model().vars[i as int] == var_entry_model(start.var_context@[i as int]));
            let changed = match &self.var_context[i] {
                Some(t) => {
                    let held = if row {
                        row_occurs(var, t)
                    } else {
                        var_occurs(var, t)
                    };
                    proof {
                        if !held {
                            if row {
                                let bound = choose|bound: Seq<Ty>|
                                    one == only_row(var as nat, bound);
                                lemma_only_row_untouched(var as nat, bound, t.model());
                            } else {
                                let x = choose|x: Ty| one == only_var(var as nat, x);
                                lemma_only_var_untouched(var as nat, x, t.model());
                            }
                        }
                    }
                    if held {
                        if made.is_none() {
                            made = Some(Context::only(var, ty, segment));
                        }
                        Some(made.as_ref().unwrap().resolve_single(t))
                    } else {
                        None
                    }
                },
                None => None,
            };
            match changed {
                Some(resolved) => {
                    self.var_context[i] = Some(resolved);
                },
                None => {},
            }
            i = i + 1;
        }
        let mut i: usize = 0;
        while i < self.multivar_context.len()
            invariant
                i <= self.multivar_context@.len(),
                self.multivar_context@.len() == start.multivar_context@.len(),
                self.var_context@.len() == start.var_context@.len(),
                made matches Some(step) ==> step.model() == one,
                !row ==> exists|x: Ty| one == only_var(var as nat, x),
                row ==> exists|bound: Seq<Ty>| one == only_row(var as nat, bound),
                one == (match ty {
                    Some(t) => only_var(var as nat, t.model()),
                    None => only_row(var as nat, models(segment@)),
                }),
                target == start.model().refined_by(one),
                forall|k: int|
                    0 <= k < self.var_context@.len() ==> var_entry_model(
                        #[trigger] self.var_context@[k],
                    ) == target.vars[k],
                forall|k: int|
                    0 <= k < i ==> row_entry_model(#[trigger] self.multivar_context@[k])
                        == target.rows[k],
                forall|k: int|
                    i <= k < self.multivar_context@.len() ==> #[trigger] self.multivar_context@[k]
                        == start.multivar_context@[k],
            decreases self.multivar_context@.len() - i,
        {
            assert(start.model().rows[i as int] == row_entry_model(
                start.multivar_context@[i as int],
            ));
            let changed = match &self.multivar_context[i] {
                Some(held_segment) => {
                    let held = if row {
                        row_occurs_in(var, held_segment)
                    } else {
                        var_occurs_in(var, held_segment)
                    };
                    proof {
                        let types = models(held_segment@);
                        if !held {
                            if row {
                                let bound = choose|bound: Seq<Ty>|
                                    one == only_row(var as nat, bound);
                                lemma_only_row_untouched_in(
                                    var as nat,
                                    bound,
                                    types,
                                    types.len(),
                                );
                            } else {
                                let x = choose|x: Ty| one == only_var(var as nat, x);
                                lemma_only_var_untouched_in(
                                    var as nat,
                                    x,
                                    types,
                                    types.len(),
                                );
                            }
                            assert(types.take(types.len() as int) =~= types);
                        }
                    }
                    if held {
                        if made.is_none() {
                            made = Some(Context::only(var, ty, segment));
                        }
                        Some(made.as_ref().unwrap().resolve_types(held_segment))
                    } else {
                        None
                    }
                },
                None => None,
            };
            match changed {
                Some(resolved) => {
                    self.multivar_context[i] = Some(resolved);
                },
                None => {},
            }
            i = i + 1;
        }
        assert(self.model().vars =~= target.vars);
        assert(self.model().rows =~= target.rows);
    }

    /// Binds variable `var` to `ty`, in this and in every older binding. The
    /// bindings are solved and stay so: the variable is free, and the type holds
    /// neither it nor a variable that is bound, and is no row variable.
    pub fn set_var(&mut self, var: usize, ty: Type)
        requires
            solved(old(self).model()),
            old(self).model().var_free(var as nat),
            closed(old(self).model(), ty.model()),
            !occurs_var(var as nat, ty.model()),
            !(ty.model() is MultiVar),
        ensures
            final(self).model() == old(self).model().bind_var(var as nat, ty.model()),
            solved(final(self).model()),
    {
        proof {
            lemma_bind_var_solved(old(self).model(), var as nat, ty.model());
        }
        let none: Vec<Type> = Vec::new();
        self.refine(var, Some(&ty), &none);
        assert(self.model().vars.len() == old(self).model().vars.len());
        let ghost refined = self.model();
        self.var_context[var] = Some(ty);
        assert(self.model().vars =~= refined.vars.update(var as int, Some(ty.model())));
        assert(self.model().rows =~= refined.rows);
    }

    /// Binds row variable `var` to the segment `ty`, in this and in every older
    /// binding. The bindings are solved and stay so: the row variable is free,
    /// and the segment holds neither it nor a variable that is bound.
    pub fn set_multivar(&mut self, var: usize, ty: Vec<Type>)
        requires
            solved(old(self).model()),
            old(self).model().row_free(var as nat),
            all_closed(old(self).model(), models(ty@)),
            !occurs_row_in(var as nat, models(ty@), models(ty@).len()),
        ensures
            final(self).model() == old(self).model().bind_row(var as nat, models(ty@)),
            solved(final(self).model()),
    {
        proof {
            lemma_bind_row_solved(old(self).model(), var as nat, models(ty@));
        }
        self.refine(var, None, &ty);
        assert(self.model().rows.len() == old(self).model().rows.len());
        let ghost refined = self.model();
        self.multivar_context[var] = Some(ty);
        assert(self.model().vars =~= refined.vars);
        assert(self.model().rows =~= refined.rows.update(var as int, Some(models(ty@))));
    }
}

impl Context {
    /// The bindings that bind variable `v` to `t` and nothing else.
    fn only_var(v: usize, t: Type) -> (step: Context)
        ensures
            step.model() == only_var(v as nat, t.model()),
    {
        let mut vars: Vec<Option<Type>> = Vec::new();
        let mut i: usize = 0;
        while i < v
            invariant
                i <= v,
                vars@.len() == i,
                forall|k: int| 0 <= k < i ==> vars@[k] is None,
            decreases v - i,
        {
            vars.push(None);
            i = i + 1;
        }
        vars.push(Some(t));
        let step = Context { var_context: vars, multivar_context: Vec::new() };
        assert(step.model().vars =~= only_var(v as nat, t.model()).vars);
        assert(step.model().rows =~= only_var(v as nat, t.model()).rows);
        step
    }

    /// The bindings that bind row variable `m` to `segment` and nothing else.
    fn only_row(m: usize, segment: Vec<Type>) -> (step: Context)
        ensures
            step.model() == only_row(m as nat, models(segment@)),
    {
        let mut rows: Vec<Option<Vec<Type>>> = Vec::new();
        let mut i: usize = 0;
        while i < m
            invariant
                i <= m,
                rows@.len() == i,
                forall|k: int| 0 <= k < i ==> rows@[k] is None,
            decreases m - i,
        {
            rows.push(None);
            i = i + 1;
        }
        rows.push(Some(segment));
        let step = Context { var_context: Vec::new(), multivar_context: rows };
        assert(step.model().vars =~= only_row(m as nat, models(segment@)).vars);
        assert(step.model().rows =~= only_row(m as nat, models(segment@)).rows);
        step
    }
}

} // verus!
