//! The bindings of an analysis are solved: what a variable is bound to holds no
//! bound variable. Hence to resolve a type twice is to resolve it once.

use vstd::prelude::*;
use crate::analyzer::subst::{
    Bindings, occurs_row, occurs_row_in, occurs_var, occurs_var_in, only_row, only_var,
};
use crate::analyzer::types::{Sig, Ty};
use crate::analyzer::unify::{
    Goal, Machine, lemma_step_decreases, resolve_goal, resolve_goals, run, step, take_goals,
    takes, weights,
};

verus! {

/// Whether `t` holds no variable that is bound.
pub open spec fn closed(bindings: Bindings, t: Ty) -> bool
    decreases t, 0nat,
{
    match t {
        Ty::Var(v) => !bindings.var_bound(v),
        Ty::MultiVar(m) => !bindings.row_bound(m),
        Ty::Quotation(signature) => closed_in(bindings, signature.inputs, signature.inputs.len())
            && closed_in(bindings, signature.outputs, signature.outputs.len()),
        _ => true,
    }
}

/// Whether the first `n` types of `types` hold no variable that is bound.
pub open spec fn closed_in(bindings: Bindings, types: Seq<Ty>, n: nat) -> bool
    decreases types, n,
{
    if n == 0 || n > types.len() {
        true
    } else {
        closed_in(bindings, types, (n - 1) as nat) && closed(bindings, types[n - 1])
    }
}

/// Whether every type of `types` holds no variable that is bound.
pub open spec fn all_closed(bindings: Bindings, types: Seq<Ty>) -> bool {
    forall|i: int| 0 <= i < types.len() ==> closed(bindings, #[trigger] types[i])
}

/// Whether what the variables are bound to holds no bound variable, and no
/// variable of one slot is bound to a row variable.
pub open spec fn solved(bindings: Bindings) -> bool {
    &&& forall|v: int|
        0 <= v < bindings.vars.len() && (#[trigger] bindings.vars[v]) is Some ==> closed(
            bindings,
            bindings.vars[v]->Some_0,
        ) && !(bindings.vars[v]->Some_0 is MultiVar)
    &&& forall|m: int|
        0 <= m < bindings.rows.len() && (#[trigger] bindings.rows[m]) is Some ==> all_closed(
            bindings,
            bindings.rows[m]->Some_0,
        )
}

pub proof fn lemma_closed_in_all(bindings: Bindings, types: Seq<Ty>, n: nat)
    requires
        n <= types.len(),
    ensures
        closed_in(bindings, types, n) <==> all_closed(bindings, types.take(n as int)),
    decreases n,
{
    if n > 0 {
        lemma_closed_in_all(bindings, types, (n - 1) as nat);
        let shorter = types.take(n - 1);
        let longer = types.take(n as int);
        if closed_in(bindings, types, n) {
            assert forall|i: int| 0 <= i < longer.len() implies closed(
                bindings,
                #[trigger] longer[i],
            ) by {
                if i < n - 1 {
                    assert(shorter[i] == longer[i]);
                }
            }
        }
        if all_closed(bindings, longer) {
            assert forall|i: int| 0 <= i < shorter.len() implies closed(
                bindings,
                #[trigger] shorter[i],
            ) by {
                assert(shorter[i] == longer[i]);
            }
            assert(longer[n - 1] == types[n - 1]);
        }
    }
}

pub proof fn lemma_closed_in_whole(bindings: Bindings, types: Seq<Ty>)
    ensures
        closed_in(bindings, types, types.len()) <==> all_closed(bindings, types),
{
    lemma_closed_in_all(bindings, types, types.len());
    assert(types.take(types.len() as int) =~= types);
}

/// A type that holds no bound variable stands for itself.
pub proof fn lemma_closed_resolves_to_itself(bindings: Bindings, t: Ty)
    requires
        closed(bindings, t),
    ensures
        bindings.resolve_type(t) == seq![t],
    decreases t, 0nat,
{
    match t {
        Ty::Quotation(signature) => {
            lemma_closed_prefix_resolves_to_itself(
                bindings,
                signature.inputs,
                signature.inputs.len(),
            );
            lemma_closed_prefix_resolves_to_itself(
                bindings,
                signature.outputs,
                signature.outputs.len(),
            );
            assert(signature.inputs.take(signature.inputs.len() as int) =~= signature.inputs);
            assert(signature.outputs.take(signature.outputs.len() as int) =~= signature.outputs);
        },
        _ => {},
    }
}

/// A list of types that hold no bound variable stands for itself.
pub proof fn lemma_closed_prefix_resolves_to_itself(
    bindings: Bindings,
    types: Seq<Ty>,
    n: nat,
)
    requires
        n <= types.len(),
        closed_in(bindings, types, n),
    ensures
        bindings.resolve_prefix(types, n) == types.take(n as int),
    decreases types, n,
{
    if n == 0 {
        assert(types.take(0) =~= Seq::<Ty>::empty());
    } else {
        lemma_closed_prefix_resolves_to_itself(bindings, types, (n - 1) as nat);
        lemma_closed_resolves_to_itself(bindings, types[n - 1]);
        assert(types.take(n as int) =~= types.take(n - 1) + seq![types[n - 1]]);
    }
}

/// Under solved bindings, what a type stands for holds no bound variable.
pub proof fn lemma_resolved_is_closed(bindings: Bindings, t: Ty)
    requires
        solved(bindings),
    ensures
        all_closed(bindings, bindings.resolve_type(t)),
    decreases t, 0nat,
{
    match t {
        Ty::Quotation(signature) => {
            lemma_resolved_prefix_is_closed(
                bindings,
                signature.inputs,
                signature.inputs.len(),
            );
            lemma_resolved_prefix_is_closed(
                bindings,
                signature.outputs,
                signature.outputs.len(),
            );
            let inputs = bindings.resolve_prefix(signature.inputs, signature.inputs.len());
            let outputs = bindings.resolve_prefix(
                signature.outputs,
                signature.outputs.len(),
            );
            lemma_closed_in_whole(bindings, inputs);
            lemma_closed_in_whole(bindings, outputs);
        },
        Ty::Var(v) => {
            if bindings.var_bound(v) {
                assert(bindings.vars[v as int] is Some);
            }
        },
        Ty::MultiVar(m) => {
            if bindings.row_bound(m) {
                assert(bindings.rows[m as int] is Some);
            }
        },
        _ => {},
    }
}

/// Under solved bindings, what a list of types stands for holds no bound variable.
pub proof fn lemma_resolved_prefix_is_closed(
    bindings: Bindings,
    types: Seq<Ty>,
    n: nat,
)
    requires
        solved(bindings),
    ensures
        all_closed(bindings, bindings.resolve_prefix(types, n)),
    decreases types, n,
{
    if n == 0 || n > types.len() {
    } else {
        lemma_resolved_prefix_is_closed(bindings, types, (n - 1) as nat);
        lemma_resolved_is_closed(bindings, types[n - 1]);
        let before = bindings.resolve_prefix(types, (n - 1) as nat);
        let one = bindings.resolve_type(types[n - 1]);
        let added = one;
        let all = bindings.resolve_prefix(types, n);
        assert(all == before + added);
        assert forall|i: int| 0 <= i < all.len() implies closed(bindings, #[trigger] all[i]) by {
            if i < before.len() {
                assert(all[i] == before[i]);
            } else {
                let k = i - before.len();
                assert(all[i] == added[k]);
                
            }
        }
    }
}

/// Under solved bindings, a signature that was resolved stands for itself:
/// to resolve it again changes nothing.
pub proof fn lemma_resolution_idempotent(bindings: Bindings, signature: Sig)
    requires
        solved(bindings),
    ensures
        bindings.resolve_signature(bindings.resolve_signature(signature))
            == bindings.resolve_signature(signature),
{
    let once = bindings.resolve_signature(signature);
    lemma_resolved_prefix_is_closed(bindings, signature.inputs, signature.inputs.len());
    lemma_resolved_prefix_is_closed(bindings, signature.outputs, signature.outputs.len());
    lemma_closed_in_whole(bindings, once.inputs);
    lemma_closed_in_whole(bindings, once.outputs);
    lemma_closed_prefix_resolves_to_itself(bindings, once.inputs, once.inputs.len());
    lemma_closed_prefix_resolves_to_itself(bindings, once.outputs, once.outputs.len());
    assert(once.inputs.take(once.inputs.len() as int) =~= once.inputs);
    assert(once.outputs.take(once.outputs.len() as int) =~= once.outputs);
}


/// Whether `later` binds no variable but those that `earlier` binds and the
/// variable or the row variable that is named.
pub open spec fn binds_at_most(
    later: Bindings,
    earlier: Bindings,
    var: Option<nat>,
    row: Option<nat>,
) -> bool {
    &&& forall|w: nat| #[trigger] later.var_bound(w) ==> earlier.var_bound(w) || var == Some(w)
    &&& forall|m: nat| #[trigger] later.row_bound(m) ==> earlier.row_bound(m) || row == Some(m)
}

/// Whether the variable and the row variable that are named stand nowhere in `t`.
pub open spec fn avoids(t: Ty, var: Option<nat>, row: Option<nat>) -> bool {
    &&& var matches Some(v) ==> !occurs_var(v, t)
    &&& row matches Some(m) ==> !occurs_row(m, t)
}

pub open spec fn avoids_in(types: Seq<Ty>, n: nat, var: Option<nat>, row: Option<nat>) -> bool {
    &&& var matches Some(v) ==> !occurs_var_in(v, types, n)
    &&& row matches Some(m) ==> !occurs_row_in(m, types, n)
}

/// A type that holds no bound variable holds none either when more variables
/// are bound that it does not hold.
pub proof fn lemma_closed_stays(
    later: Bindings,
    earlier: Bindings,
    var: Option<nat>,
    row: Option<nat>,
    t: Ty,
)
    requires
        binds_at_most(later, earlier, var, row),
        closed(earlier, t),
        avoids(t, var, row),
    ensures
        closed(later, t),
    decreases t, 0nat,
{
    match t {
        Ty::Quotation(signature) => {
            lemma_closed_in_stays(
                later,
                earlier,
                var,
                row,
                signature.inputs,
                signature.inputs.len(),
            );
            lemma_closed_in_stays(
                later,
                earlier,
                var,
                row,
                signature.outputs,
                signature.outputs.len(),
            );
        },
        Ty::Var(w) => {
            if later.var_bound(w) {
                assert(earlier.var_bound(w) || var == Some(w));
            }
        },
        Ty::MultiVar(m) => {
            if later.row_bound(m) {
                assert(earlier.row_bound(m) || row == Some(m));
            }
        },
        _ => {},
    }
}

pub proof fn lemma_closed_in_stays(
    later: Bindings,
    earlier: Bindings,
    var: Option<nat>,
    row: Option<nat>,
    types: Seq<Ty>,
    n: nat,
)
    requires
        binds_at_most(later, earlier, var, row),
        closed_in(earlier, types, n),
        avoids_in(types, n, var, row),
    ensures
        closed_in(later, types, n),
    decreases types, n,
{
    if n == 0 || n > types.len() {
    } else {
        lemma_closed_in_stays(later, earlier, var, row, types, (n - 1) as nat);
        lemma_closed_stays(later, earlier, var, row, types[n - 1]);
    }
}

/// Whether to resolve by `step` a type that is closed under `earlier` gives
/// types that are closed under `later`: what `step` binds is closed under
/// `later`, and `later` binds nothing else that `earlier` does not bind.
pub open spec fn refines(later: Bindings, earlier: Bindings, step: Bindings) -> bool {
    &&& forall|w: nat| #[trigger]
        step.var_bound(w) ==> closed(later, step.vars[w as int]->Some_0)
    &&& forall|m: nat| #[trigger]
        step.row_bound(m) ==> all_closed(later, step.rows[m as int]->Some_0)
    &&& forall|w: nat| #[trigger] later.var_bound(w) ==> step.var_bound(w) || earlier.var_bound(w)
    &&& forall|m: nat| #[trigger] later.row_bound(m) ==> step.row_bound(m) || earlier.row_bound(m)
}

pub proof fn lemma_refined_is_closed(later: Bindings, earlier: Bindings, step: Bindings, t: Ty)
    requires
        refines(later, earlier, step),
        closed(earlier, t),
    ensures
        all_closed(later, step.resolve_type(t)),
    decreases t, 0nat,
{
    match t {
        Ty::Quotation(signature) => {
            lemma_refined_prefix_is_closed(
                later,
                earlier,
                step,
                signature.inputs,
                signature.inputs.len(),
            );
            lemma_refined_prefix_is_closed(
                later,
                earlier,
                step,
                signature.outputs,
                signature.outputs.len(),
            );
            let inputs = step.resolve_prefix(signature.inputs, signature.inputs.len());
            let outputs = step.resolve_prefix(signature.outputs, signature.outputs.len());
            lemma_closed_in_whole(later, inputs);
            lemma_closed_in_whole(later, outputs);
        },
        Ty::Var(w) => {
            if step.var_bound(w) {
            } else if later.var_bound(w) {
                assert(step.var_bound(w) || earlier.var_bound(w));
            }
        },
        Ty::MultiVar(m) => {
            if step.row_bound(m) {
            } else if later.row_bound(m) {
                assert(step.row_bound(m) || earlier.row_bound(m));
            }
        },
        _ => {},
    }
}

pub proof fn lemma_refined_prefix_is_closed(
    later: Bindings,
    earlier: Bindings,
    step: Bindings,
    types: Seq<Ty>,
    n: nat,
)
    requires
        refines(later, earlier, step),
        closed_in(earlier, types, n),
    ensures
        all_closed(later, step.resolve_prefix(types, n)),
    decreases types, n,
{
    if n == 0 || n > types.len() {
    } else {
        lemma_refined_prefix_is_closed(later, earlier, step, types, (n - 1) as nat);
        lemma_refined_is_closed(later, earlier, step, types[n - 1]);
        let before = step.resolve_prefix(types, (n - 1) as nat);
        let one = step.resolve_type(types[n - 1]);
        let added = one;
        let all = step.resolve_prefix(types, n);
        assert(all == before + added);
        assert forall|i: int| 0 <= i < all.len() implies closed(later, #[trigger] all[i]) by {
            if i < before.len() {
                assert(all[i] == before[i]);
            } else {
                let k = i - before.len();
                assert(all[i] == added[k]);
                
            }
        }
    }
}

/// A variable that stands nowhere in a list stands in none of its types.
pub proof fn lemma_occurs_row_in(m: nat, types: Seq<Ty>, n: nat, i: int)
    requires
        n <= types.len(),
        0 <= i < n,
        !occurs_row_in(m, types, n),
    ensures
        !occurs_row(m, types[i]),
    decreases n,
{
    if i < n - 1 {
        lemma_occurs_row_in(m, types, (n - 1) as nat, i);
    }
}

/// Binding a free variable to a closed type that does not hold it keeps the
/// bindings solved.
pub proof fn lemma_bind_var_solved(bindings: Bindings, v: nat, t: Ty)
    requires
        solved(bindings),
        bindings.var_free(v),
        closed(bindings, t),
        !occurs_var(v, t),
        !(t is MultiVar),
    ensures
        solved(bindings.bind_var(v, t)),
        refines(bindings.bind_var(v, t), bindings, only_var(v, t)),
{
    let later = bindings.bind_var(v, t);
    let step = only_var(v, t);
    assert(binds_at_most(later, bindings, Some(v), None)) by {
        assert forall|w: nat| #[trigger] later.var_bound(w) implies bindings.var_bound(w) || Some(v)
            == Some(w) by {}
        assert forall|m: nat| #[trigger] later.row_bound(m) implies bindings.row_bound(m) by {}
    }
    lemma_closed_stays(later, bindings, Some(v), None, t);
    assert(refines(later, bindings, step)) by {
        assert forall|w: nat| #[trigger] step.var_bound(w) implies closed(
            later,
            step.vars[w as int]->Some_0,
        ) by {
            assert(w == v);
        }
        assert forall|w: nat| #[trigger] later.var_bound(w) implies step.var_bound(w)
            || bindings.var_bound(w) by {
            if w == v {
                assert(step.var_bound(v));
            }
        }
        assert forall|m: nat| #[trigger] later.row_bound(m) implies step.row_bound(m)
            || bindings.row_bound(m) by {}
    }
    assert forall|w: int|
        0 <= w < later.vars.len() && (#[trigger] later.vars[w]) is Some implies closed(
        later,
        later.vars[w]->Some_0,
    ) && !(later.vars[w]->Some_0 is MultiVar) by {
        if w != v {
            let old = bindings.vars[w]->Some_0;
            assert(bindings.vars[w] is Some);
            lemma_refined_is_closed(later, bindings, step, old);
            assert(later.vars[w]->Some_0 == step.resolve_single(old));
            assert(step.resolve_type(old).len() == 1);
            assert(step.resolve_type(old)[0] == step.resolve_single(old));
        }
    }
    assert forall|m: int|
        0 <= m < later.rows.len() && (#[trigger] later.rows[m]) is Some implies all_closed(
        later,
        later.rows[m]->Some_0,
    ) by {
        let old = bindings.rows[m]->Some_0;
        assert(bindings.rows[m] is Some);
        lemma_closed_in_whole(bindings, old);
        lemma_refined_prefix_is_closed(later, bindings, step, old, old.len());
    }
}

/// Binding a free row variable to a closed segment that does not hold it keeps
/// the bindings solved.
pub proof fn lemma_bind_row_solved(bindings: Bindings, m: nat, segment: Seq<Ty>)
    requires
        solved(bindings),
        bindings.row_free(m),
        all_closed(bindings, segment),
        !occurs_row_in(m, segment, segment.len()),
    ensures
        solved(bindings.bind_row(m, segment)),
        refines(bindings.bind_row(m, segment), bindings, only_row(m, segment)),
{
    let later = bindings.bind_row(m, segment);
    let step = only_row(m, segment);
    assert(binds_at_most(later, bindings, None, Some(m))) by {
        assert forall|w: nat| #[trigger] later.var_bound(w) implies bindings.var_bound(w) by {}
        assert forall|k: nat| #[trigger] later.row_bound(k) implies bindings.row_bound(k) || Some(m)
            == Some(k) by {}
    }
    assert(all_closed(later, segment)) by {
        assert forall|i: int| 0 <= i < segment.len() implies closed(later, #[trigger] segment[i]) by {
            lemma_occurs_row_in(m, segment, segment.len(), i);
            lemma_closed_stays(later, bindings, None, Some(m), segment[i]);
        }
    }
    assert(refines(later, bindings, step)) by {
        assert forall|k: nat| #[trigger] step.row_bound(k) implies all_closed(
            later,
            step.rows[k as int]->Some_0,
        ) by {
            assert(k == m);
        }
        assert forall|w: nat| #[trigger] later.var_bound(w) implies step.var_bound(w)
            || bindings.var_bound(w) by {}
        assert forall|k: nat| #[trigger] later.row_bound(k) implies step.row_bound(k)
            || bindings.row_bound(k) by {
            if k == m {
                assert(step.row_bound(m));
            }
        }
    }
    assert forall|w: int|
        0 <= w < later.vars.len() && (#[trigger] later.vars[w]) is Some implies closed(
        later,
        later.vars[w]->Some_0,
    ) && !(later.vars[w]->Some_0 is MultiVar) by {
        let old = bindings.vars[w]->Some_0;
        assert(bindings.vars[w] is Some);
        lemma_refined_is_closed(later, bindings, step, old);
        assert(later.vars[w]->Some_0 == step.resolve_single(old));
        assert(step.resolve_type(old).len() == 1);
        assert(step.resolve_type(old)[0] == step.resolve_single(old));
    }
    assert forall|k: int|
        0 <= k < later.rows.len() && (#[trigger] later.rows[k]) is Some implies all_closed(
        later,
        later.rows[k]->Some_0,
    ) by {
        if k != m {
            let old = bindings.rows[k]->Some_0;
            assert(bindings.rows[k] is Some);
            lemma_closed_in_whole(bindings, old);
            lemma_refined_prefix_is_closed(later, bindings, step, old, old.len());
        }
    }
}


/// Whether a goal holds no bound variable. Two types of which one is a row
/// variable cannot be made the same, whatever they hold.
pub open spec fn goal_closed(bindings: Bindings, goal: Goal) -> bool {
    match goal {
        Goal::Take(t) => closed(bindings, t),
        Goal::Same(a, b) => a is MultiVar || b is MultiVar || (closed(bindings, a) && closed(
            bindings,
            b,
        )),
        Goal::Rows(a, b) => all_closed(bindings, a) && all_closed(bindings, b),
        Goal::Capture(m, segment) => !bindings.row_bound(m) && all_closed(bindings, segment),
    }
}

pub open spec fn goals_closed(bindings: Bindings, goals: Seq<Goal>) -> bool {
    forall|i: int| 0 <= i < goals.len() ==> goal_closed(bindings, #[trigger] goals[i])
}

/// Whether a machine is in order: its bindings are solved and its goals hold
/// no bound variable.
pub open spec fn in_order(machine: Machine) -> bool {
    solved(machine.bindings) && goals_closed(machine.bindings, machine.goals)
}

/// Under solved bindings, what is left of a goal holds no bound variable.
pub proof fn lemma_resolved_goal_closed(bindings: Bindings, goal: Goal)
    requires
        solved(bindings),
    ensures
        goals_closed(bindings, resolve_goal(bindings, goal)),
{
    match goal {
        Goal::Take(t) => {
            lemma_resolved_is_closed(bindings, t);
            let resolved = bindings.resolve_type(t);
            let goals = take_goals(resolved);
            assert forall|i: int| 0 <= i < goals.len() implies goal_closed(
                bindings,
                #[trigger] goals[i],
            ) by {
                assert(goals[i] == Goal::Take(resolved[i]));
            }
        },
        Goal::Same(a, b) => {
            lemma_resolved_is_closed(bindings, a);
            lemma_resolved_is_closed(bindings, b);
            if !(a is MultiVar) {
                assert(bindings.resolve_type(a).len() == 1);
                assert(closed(bindings, bindings.resolve_type(a)[0]));
            }
            if !(b is MultiVar) {
                assert(bindings.resolve_type(b).len() == 1);
                assert(closed(bindings, bindings.resolve_type(b)[0]));
            }
        },
        Goal::Rows(a, b) => {
            lemma_resolved_prefix_is_closed(bindings, a, a.len());
            lemma_resolved_prefix_is_closed(bindings, b, b.len());
        },
        Goal::Capture(m, segment) => {
            lemma_resolved_prefix_is_closed(bindings, segment, segment.len());
            if bindings.row_bound(m) {
                assert(bindings.rows[m as int] is Some);
            }
        },
    }
}

/// Under solved bindings, what is left of the goals holds no bound variable.
pub proof fn lemma_resolved_goals_closed(bindings: Bindings, goals: Seq<Goal>, n: nat)
    requires
        solved(bindings),
    ensures
        goals_closed(bindings, resolve_goals(bindings, goals, n)),
    decreases n,
{
    if n == 0 || n > goals.len() {
    } else {
        lemma_resolved_goals_closed(bindings, goals, (n - 1) as nat);
        lemma_resolved_goal_closed(bindings, goals[n - 1]);
        let before = resolve_goals(bindings, goals, (n - 1) as nat);
        let added = resolve_goal(bindings, goals[n - 1]);
        let all = resolve_goals(bindings, goals, n);
        assert forall|i: int| 0 <= i < all.len() implies goal_closed(bindings, #[trigger] all[i]) by {
            if i < before.len() {
                assert(all[i] == before[i]);
            } else {
                assert(all[i] == added[i - before.len()]);
            }
        }
    }
}

/// A machine that is in order stays in order.
pub proof fn lemma_step_in_order(machine: Machine)
    requires
        in_order(machine),
        machine.goals.len() > 0,
        step(machine) is Some,
    ensures
        in_order(step(machine)->Some_0),
{
    let bindings = machine.bindings;
    let rest = machine.goals.drop_last();
    let next = step(machine)->Some_0;
    assert(goals_closed(bindings, rest)) by {
        assert forall|i: int| 0 <= i < rest.len() implies goal_closed(
            bindings,
            #[trigger] rest[i],
        ) by {
            assert(rest[i] == machine.goals[i]);
        }
    }
    assert(goal_closed(bindings, machine.goals.last()));
    match machine.goals.last() {
        Goal::Take(input) => {
            if machine.stack.len() > 0 {
                let top = machine.stack.last();
                let found = bindings.resolve_single(top);
                lemma_resolved_is_closed(bindings, top);
                if !(top is MultiVar) {
                    assert(bindings.resolve_type(top).len() == 1);
                    assert(closed(bindings, bindings.resolve_type(top)[0]));
                }
                lemma_pushed_closed(bindings, rest, Goal::Same(input, found));
            }
        },
        Goal::Same(a, b) => {
            match (a, b) {
                (Ty::Var(v), _) => {
                    if b != a {
                        lemma_bind_var_solved(bindings, v, b);
                        lemma_resolved_goals_closed(next.bindings, rest, rest.len());
                    }
                },
                (Ty::Quotation(x), Ty::Quotation(y)) => {
                    lemma_closed_in_whole(bindings, x.inputs);
                    lemma_closed_in_whole(bindings, x.outputs);
                    lemma_closed_in_whole(bindings, y.inputs);
                    lemma_closed_in_whole(bindings, y.outputs);
                    let first = Goal::Rows(x.outputs, y.outputs);
                    let second = Goal::Rows(x.inputs, y.inputs);
                    lemma_pushed_closed(bindings, rest, first);
                    lemma_pushed_closed(bindings, rest.push(first), second);
                },
                (_, Ty::Var(w)) => {
                    if !(a is MultiVar) {
                        lemma_bind_var_solved(bindings, w, a);
                        lemma_resolved_goals_closed(next.bindings, rest, rest.len());
                    }
                },
                _ => {},
            }
        },
        Goal::Rows(a, b) => {
            if a.len() == 1 && a[0] is MultiVar {
                assert(closed(bindings, a[0]));
                lemma_pushed_closed(
                    bindings,
                    rest,
                    Goal::Capture(a[0]->MultiVar_0, b),
                );
            } else if b.len() == 1 && b[0] is MultiVar {
                assert(closed(bindings, b[0]));
                lemma_pushed_closed(
                    bindings,
                    rest,
                    Goal::Capture(b[0]->MultiVar_0, a),
                );
            } else if a.len() == 0 && b.len() == 0 {
            } else {
                let below_a = a.drop_last();
                let below_b = b.drop_last();
                assert(all_closed(bindings, below_a)) by {
                    assert forall|i: int| 0 <= i < below_a.len() implies closed(
                        bindings,
                        #[trigger] below_a[i],
                    ) by {
                        assert(below_a[i] == a[i]);
                    }
                }
                assert(all_closed(bindings, below_b)) by {
                    assert forall|i: int| 0 <= i < below_b.len() implies closed(
                        bindings,
                        #[trigger] below_b[i],
                    ) by {
                        assert(below_b[i] == b[i]);
                    }
                }
                assert(closed(bindings, a.last()));
                assert(closed(bindings, b.last()));
                let below = Goal::Rows(below_a, below_b);
                let tops = Goal::Same(a.last(), b.last());
                lemma_pushed_closed(bindings, rest, below);
                lemma_pushed_closed(bindings, rest.push(below), tops);
            }
        },
        Goal::Capture(m, segment) => {
            if segment != seq![Ty::MultiVar(m)] {
                lemma_bind_row_solved(bindings, m, segment);
                lemma_resolved_goals_closed(next.bindings, rest, rest.len());
            }
        },
    }
}

proof fn lemma_pushed_closed(bindings: Bindings, goals: Seq<Goal>, goal: Goal)
    requires
        goals_closed(bindings, goals),
        goal_closed(bindings, goal),
    ensures
        goals_closed(bindings, goals.push(goal)),
{
    let all = goals.push(goal);
    assert forall|i: int| 0 <= i < all.len() implies goal_closed(bindings, #[trigger] all[i]) by {
        if i < goals.len() {
            assert(all[i] == goals[i]);
        }
    }
}

/// A machine that is in order ends with solved bindings.
pub proof fn lemma_run_solved(machine: Machine)
    requires
        in_order(machine),
        run(machine) is Some,
    ensures
        solved(run(machine)->Some_0.bindings),
    decreases machine.bindings.unbound(), takes(machine.goals), weights(machine.goals),
{
    if machine.goals.len() > 0 {
        lemma_step_decreases(machine);
        lemma_step_in_order(machine);
        lemma_run_solved(step(machine)->Some_0);
    }
}

} // verus!
