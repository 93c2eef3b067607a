//! What a run of the machine achieves: the goals that it worked off hold
//! under the bindings that it ends with.

use vstd::prelude::*;
use crate::analyzer::solved::{
    closed, closed_in, goal_closed, goals_closed, in_order, lemma_closed_in_whole,
    lemma_closed_prefix_resolves_to_itself, lemma_closed_resolves_to_itself, lemma_run_solved,
    lemma_step_in_order, solved,
};
use crate::analyzer::subst::{Bindings, only_row, only_var};
use crate::analyzer::types::Ty;
use crate::analyzer::unify::{
    Goal, Machine, lemma_step_decreases, resolve_goal, resolve_goals, run, step, take_goals,
    takes, weights,
};

verus! {

/// The resolution of a prefix depends on the prefix alone.
pub proof fn lemma_resolve_prefix_same(
    bindings: Bindings,
    a: Seq<Ty>,
    b: Seq<Ty>,
    n: nat,
)
    requires
        n <= a.len(),
        n <= b.len(),
        forall|i: int| 0 <= i < n ==> a[i] == b[i],
    ensures
        bindings.resolve_prefix(a, n) == bindings.resolve_prefix(b, n),
    decreases n,
{
    if n > 0 {
        lemma_resolve_prefix_same(bindings, a, b, (n - 1) as nat);
    }
}

/// To resolve two lists one behind the other is to resolve them as one list.
pub proof fn lemma_resolve_concat(bindings: Bindings, a: Seq<Ty>, b: Seq<Ty>, n: nat)
    requires
        n <= b.len(),
    ensures
        bindings.resolve_prefix(a + b, a.len() + n) == bindings.resolve_prefix(
            a,
            a.len(),
        ) + bindings.resolve_prefix(b, n),
    decreases n,
{
    let both = a + b;
    if n == 0 {
        lemma_resolve_prefix_same(bindings, both, a, a.len());
        assert(bindings.resolve_prefix(a, a.len()) + Seq::<Ty>::empty()
            =~= bindings.resolve_prefix(a, a.len()));
    } else {
        lemma_resolve_concat(bindings, a, b, (n - 1) as nat);
        assert(both[a.len() + n - 1] == b[n - 1]);
        let last = bindings.resolve_type(b[n - 1]);
        assert(bindings.resolve_prefix(both, a.len() + n) == bindings.resolve_prefix(
            both,
            (a.len() + n - 1) as nat,
        ) + last);
        assert((bindings.resolve_prefix(a, a.len()) + bindings.resolve_prefix(
            b,
            (n - 1) as nat,
        )) + last =~= bindings.resolve_prefix(a, a.len()) + (bindings.resolve_prefix(
            b,
            (n - 1) as nat,
        ) + last));
    }
}

/// A list of one type resolves to what the type stands for.
pub proof fn lemma_resolve_one(bindings: Bindings, t: Ty)
    ensures
        bindings.resolve_prefix(seq![t], 1) == bindings.resolve_type(t),
{
    let one = seq![t];
    assert(one[0] == t);
    assert(bindings.resolve_prefix(one, 0) =~= Seq::<Ty>::empty());
    let last = bindings.resolve_type(t);
    assert(Seq::<Ty>::empty() + last =~= last);
}

/// Whether `later` holds what `earlier` holds: what a variable is bound to in
/// `earlier` stands in `later` for what the variable stands for.
pub open spec fn extends(later: Bindings, earlier: Bindings) -> bool {
    &&& forall|v: nat| #[trigger]
        earlier.var_bound(v) ==> later.resolve_type(earlier.vars[v as int]->Some_0)
            == later.resolve_type(Ty::Var(v))
    &&& forall|m: nat| #[trigger]
        earlier.row_bound(m) ==> later.resolve_prefix(
            earlier.rows[m as int]->Some_0,
            earlier.rows[m as int]->Some_0.len(),
        ) == later.resolve_type(Ty::MultiVar(m))
}

/// Under bindings that hold what earlier bindings hold, a type stands for what
/// that stands for which the type stood for earlier.
pub proof fn lemma_extends_type(later: Bindings, earlier: Bindings, t: Ty)
    requires
        extends(later, earlier),
    ensures
        later.resolve_prefix(
            earlier.resolve_type(t),
            earlier.resolve_type(t).len(),
        ) == later.resolve_type(t),
    decreases t, 0nat,
{
    match t {
        Ty::Var(v) => {
            if earlier.var_bound(v) {
                lemma_resolve_one(later, earlier.vars[v as int]->Some_0);
            } else {
                lemma_resolve_one(later, t);
            }
        },
        Ty::MultiVar(m) => {
            if earlier.row_bound(m) {
            } else {
                lemma_resolve_one(later, t);
            }
        },
        Ty::Quotation(signature) => {
            lemma_extends_prefix(later, earlier, signature.inputs, signature.inputs.len());
            lemma_extends_prefix(later, earlier, signature.outputs, signature.outputs.len());
            lemma_resolve_one(later, earlier.resolve_type(t)[0]);
        },
        _ => {
            lemma_resolve_one(later, t);
        },
    }
}

/// Under bindings that hold what earlier bindings hold, a list of types stands
/// for what that stands for which the list stood for earlier.
pub proof fn lemma_extends_prefix(
    later: Bindings,
    earlier: Bindings,
    types: Seq<Ty>,
    n: nat,
)
    requires
        extends(later, earlier),
    ensures
        later.resolve_prefix(
            earlier.resolve_prefix(types, n),
            earlier.resolve_prefix(types, n).len(),
        ) == later.resolve_prefix(types, n),
    decreases types, n,
{
    if n == 0 || n > types.len() {
    } else {
        lemma_extends_prefix(later, earlier, types, (n - 1) as nat);
        lemma_extends_type(later, earlier, types[n - 1]);
        let before = earlier.resolve_prefix(types, (n - 1) as nat);
        let one = earlier.resolve_type(types[n - 1]);
        let added = one;
        lemma_resolve_concat(later, before, added, added.len());
        
    }
}


/// Whether `later` binds what `step` binds, to the same, and besides that
/// nothing but what `earlier` binds.
pub open spec fn adds(later: Bindings, earlier: Bindings, step: Bindings) -> bool {
    &&& forall|w: nat| #[trigger]
        step.var_bound(w) ==> later.var_bound(w) && later.vars[w as int] == step.vars[w as int]
    &&& forall|m: nat| #[trigger]
        step.row_bound(m) ==> later.row_bound(m) && later.rows[m as int] == step.rows[m as int]
    &&& forall|w: nat| #[trigger] later.var_bound(w) ==> step.var_bound(w) || earlier.var_bound(w)
    &&& forall|m: nat| #[trigger] later.row_bound(m) ==> step.row_bound(m) || earlier.row_bound(m)
}

/// A type that holds no variable that was bound before stands for the same
/// under the new bindings as under the step alone.
pub proof fn lemma_agree_type(later: Bindings, earlier: Bindings, step: Bindings, t: Ty)
    requires
        adds(later, earlier, step),
        closed(earlier, t),
    ensures
        later.resolve_type(t) == step.resolve_type(t),
    decreases t, 0nat,
{
    match t {
        Ty::Var(w) => {
            if step.var_bound(w) {
            } else if later.var_bound(w) {
                assert(step.var_bound(w) || earlier.var_bound(w));
            }
        },
        Ty::MultiVar(m) => {
            if step.row_bound(m) {
            } else if later.row_bound(m) {
                assert(step.row_bound(m) || earlier.row_bound(m));
            }
        },
        Ty::Quotation(signature) => {
            lemma_agree_prefix(
                later,
                earlier,
                step,
                signature.inputs,
                signature.inputs.len(),
            );
            lemma_agree_prefix(
                later,
                earlier,
                step,
                signature.outputs,
                signature.outputs.len(),
            );
        },
        _ => {},
    }
}

pub proof fn lemma_agree_prefix(
    later: Bindings,
    earlier: Bindings,
    step: Bindings,
    types: Seq<Ty>,
    n: nat,
)
    requires
        adds(later, earlier, step),
        closed_in(earlier, types, n),
    ensures
        later.resolve_prefix(types, n) == step.resolve_prefix(types, n),
    decreases types, n,
{
    if n == 0 || n > types.len() {
    } else {
        lemma_agree_prefix(later, earlier, step, types, (n - 1) as nat);
        lemma_agree_type(later, earlier, step, types[n - 1]);
    }
}

/// Solved bindings hold what they hold.
pub proof fn lemma_extends_itself(bindings: Bindings)
    requires
        solved(bindings),
    ensures
        extends(bindings, bindings),
{
    assert forall|v: nat| #[trigger] bindings.var_bound(v) implies bindings.resolve_type(
        bindings.vars[v as int]->Some_0,
    ) == bindings.resolve_type(Ty::Var(v)) by {
        assert(bindings.vars[v as int] is Some);
        lemma_closed_resolves_to_itself(bindings, bindings.vars[v as int]->Some_0);
    }
    assert forall|m: nat| #[trigger] bindings.row_bound(m) implies bindings.resolve_prefix(
        bindings.rows[m as int]->Some_0,
        bindings.rows[m as int]->Some_0.len(),
    ) == bindings.resolve_type(Ty::MultiVar(m)) by {
        let segment = bindings.rows[m as int]->Some_0;
        assert(bindings.rows[m as int] is Some);
        lemma_closed_in_whole(bindings, segment);
        lemma_closed_prefix_resolves_to_itself(bindings, segment, segment.len());
        assert(segment.take(segment.len() as int) =~= segment);
    }
}

/// What holds what holds something, holds it.
pub proof fn lemma_extends_further(last: Bindings, later: Bindings, earlier: Bindings)
    requires
        extends(last, later),
        extends(later, earlier),
    ensures
        extends(last, earlier),
{
    assert forall|v: nat| #[trigger] earlier.var_bound(v) implies last.resolve_type(
        earlier.vars[v as int]->Some_0,
    ) == last.resolve_type(Ty::Var(v)) by {
        lemma_extends_type(last, later, earlier.vars[v as int]->Some_0);
        lemma_extends_type(last, later, Ty::Var(v));
    }
    assert forall|m: nat| #[trigger] earlier.row_bound(m) implies last.resolve_prefix(
        earlier.rows[m as int]->Some_0,
        earlier.rows[m as int]->Some_0.len(),
    ) == last.resolve_type(Ty::MultiVar(m)) by {
        let segment = earlier.rows[m as int]->Some_0;
        lemma_extends_prefix(last, later, segment, segment.len());
        lemma_extends_type(last, later, Ty::MultiVar(m));
    }
}

/// The bindings with one more variable bound hold what the bindings held.
pub proof fn lemma_bind_var_extends(bindings: Bindings, v: nat, t: Ty)
    requires
        solved(bindings),
        bindings.var_free(v),
    ensures
        extends(bindings.bind_var(v, t), bindings),
        adds(bindings.bind_var(v, t), bindings, only_var(v, t)),
{
    let later = bindings.bind_var(v, t);
    let one = only_var(v, t);
    assert(adds(later, bindings, one)) by {
        assert forall|w: nat| #[trigger] one.var_bound(w) implies later.var_bound(w)
            && later.vars[w as int] == one.vars[w as int] by {
            assert(w == v);
        }
        assert forall|w: nat| #[trigger] later.var_bound(w) implies one.var_bound(w)
            || bindings.var_bound(w) by {
            if w == v {
                assert(one.var_bound(v));
            }
        }
        assert forall|m: nat| #[trigger] later.row_bound(m) implies one.row_bound(m)
            || bindings.row_bound(m) by {}
    }
    assert forall|w: nat| #[trigger] bindings.var_bound(w) implies later.resolve_type(
        bindings.vars[w as int]->Some_0,
    ) == later.resolve_type(Ty::Var(w)) by {
        let old = bindings.vars[w as int]->Some_0;
        assert(bindings.vars[w as int] is Some);
        lemma_agree_type(later, bindings, one, old);
        assert(one.resolve_type(old).len() == 1);
        assert(one.resolve_type(old) =~= seq![one.resolve_single(old)]);
    }
    assert forall|m: nat| #[trigger] bindings.row_bound(m) implies later.resolve_prefix(
        bindings.rows[m as int]->Some_0,
        bindings.rows[m as int]->Some_0.len(),
    ) == later.resolve_type(Ty::MultiVar(m)) by {
        let old = bindings.rows[m as int]->Some_0;
        assert(bindings.rows[m as int] is Some);
        lemma_closed_in_whole(bindings, old);
        lemma_agree_prefix(later, bindings, one, old, old.len());
    }
}

/// The bindings with one more row variable bound hold what the bindings held.
pub proof fn lemma_bind_row_extends(bindings: Bindings, m: nat, segment: Seq<Ty>)
    requires
        solved(bindings),
        bindings.row_free(m),
    ensures
        extends(bindings.bind_row(m, segment), bindings),
        adds(bindings.bind_row(m, segment), bindings, only_row(m, segment)),
{
    let later = bindings.bind_row(m, segment);
    let one = only_row(m, segment);
    assert(adds(later, bindings, one)) by {
        assert forall|k: nat| #[trigger] one.row_bound(k) implies later.row_bound(k)
            && later.rows[k as int] == one.rows[k as int] by {
            assert(k == m);
        }
        assert forall|k: nat| #[trigger] later.row_bound(k) implies one.row_bound(k)
            || bindings.row_bound(k) by {
            if k == m {
                assert(one.row_bound(m));
            }
        }
        assert forall|w: nat| #[trigger] later.var_bound(w) implies one.var_bound(w)
            || bindings.var_bound(w) by {}
    }
    assert forall|w: nat| #[trigger] bindings.var_bound(w) implies later.resolve_type(
        bindings.vars[w as int]->Some_0,
    ) == later.resolve_type(Ty::Var(w)) by {
        let old = bindings.vars[w as int]->Some_0;
        assert(bindings.vars[w as int] is Some);
        lemma_agree_type(later, bindings, one, old);
        assert(one.resolve_type(old).len() == 1);
        assert(one.resolve_type(old) =~= seq![one.resolve_single(old)]);
    }
    assert forall|k: nat| #[trigger] bindings.row_bound(k) implies later.resolve_prefix(
        bindings.rows[k as int]->Some_0,
        bindings.rows[k as int]->Some_0.len(),
    ) == later.resolve_type(Ty::MultiVar(k)) by {
        let old = bindings.rows[k as int]->Some_0;
        assert(bindings.rows[k as int] is Some);
        lemma_closed_in_whole(bindings, old);
        lemma_agree_prefix(later, bindings, one, old, old.len());
    }
}


/// Whether a goal is met under `bindings`: the two types, or the two lists,
/// stand for the same, and the row variable stands for its segment. Nothing
/// is said of two types of which one is a row variable, which no run makes
/// the same, nor of an input.
pub open spec fn holds(bindings: Bindings, goal: Goal) -> bool {
    match goal {
        Goal::Take(_) => true,
        Goal::Same(a, b) => a is MultiVar || b is MultiVar || bindings.resolve_type(a)
            == bindings.resolve_type(b),
        Goal::Rows(a, b) => bindings.resolve_prefix(a, a.len())
            == bindings.resolve_prefix(b, b.len()),
        Goal::Capture(m, segment) => bindings.resolve_type(Ty::MultiVar(m))
            == bindings.resolve_prefix(segment, segment.len()),
    }
}

pub open spec fn all_hold(bindings: Bindings, goals: Seq<Goal>) -> bool {
    forall|i: int| 0 <= i < goals.len() ==> holds(bindings, #[trigger] goals[i])
}

/// A goal is met where what was left of it under earlier bindings is met.
pub proof fn lemma_holds_resolved(last: Bindings, later: Bindings, goal: Goal)
    requires
        solved(later),
        extends(last, later),
        all_hold(last, resolve_goal(later, goal)),
    ensures
        holds(last, goal),
{
    let left = resolve_goal(later, goal);
    match goal {
        Goal::Take(_) => {},
        Goal::Same(a, b) => {
            if !(a is MultiVar) && !(b is MultiVar) {
                assert(holds(last, left[0]));
                let x = later.resolve_single(a);
                let y = later.resolve_single(b);
                assert(later.resolve_type(a) =~= seq![x]);
                assert(later.resolve_type(b) =~= seq![y]);
                assert(!(x is MultiVar)) by {
                    if a is Var && later.var_bound(a->Var_0) {
                        assert(later.vars[a->Var_0 as int] is Some);
                    }
                }
                assert(!(y is MultiVar)) by {
                    if b is Var && later.var_bound(b->Var_0) {
                        assert(later.vars[b->Var_0 as int] is Some);
                    }
                }
                lemma_extends_type(last, later, a);
                lemma_extends_type(last, later, b);
                lemma_resolve_one(last, x);
                lemma_resolve_one(last, y);
            }
        },
        Goal::Rows(a, b) => {
            assert(holds(last, left[0]));
            lemma_extends_prefix(last, later, a, a.len());
            lemma_extends_prefix(last, later, b, b.len());
        },
        Goal::Capture(m, segment) => {
            assert(holds(last, left[0]));
            lemma_extends_prefix(last, later, segment, segment.len());
            lemma_extends_type(last, later, Ty::MultiVar(m));
            if !later.row_bound(m) {
                lemma_resolve_one(last, Ty::MultiVar(m));
            }
        },
    }
}

/// The goals are met where what was left of them under earlier bindings is met.
pub proof fn lemma_all_hold_resolved(last: Bindings, later: Bindings, goals: Seq<Goal>, n: nat)
    requires
        solved(later),
        extends(last, later),
        n <= goals.len(),
        all_hold(last, resolve_goals(later, goals, n)),
    ensures
        forall|i: int| 0 <= i < n ==> holds(last, #[trigger] goals[i]),
    decreases n,
{
    if n > 0 {
        let before = resolve_goals(later, goals, (n - 1) as nat);
        let added = resolve_goal(later, goals[n - 1]);
        let all = resolve_goals(later, goals, n);
        assert(all == before + added);
        assert(all_hold(last, before)) by {
            assert forall|i: int| 0 <= i < before.len() implies holds(last, #[trigger] before[i]) by {
                assert(all[i] == before[i]);
            }
        }
        assert(all_hold(last, added)) by {
            assert forall|i: int| 0 <= i < added.len() implies holds(last, #[trigger] added[i]) by {
                assert(all[before.len() + i] == added[i]);
            }
        }
        lemma_all_hold_resolved(last, later, goals, (n - 1) as nat);
        lemma_holds_resolved(last, later, goals[n - 1]);
    }
}

/// The last type of a list, and the rest.
proof fn lemma_resolve_back(bindings: Bindings, types: Seq<Ty>)
    requires
        types.len() > 0,
    ensures
        bindings.resolve_prefix(types, types.len()) == bindings.resolve_prefix(
            types.drop_last(),
            (types.len() - 1) as nat,
        ) + bindings.resolve_type(types.last()),
{
    lemma_resolve_prefix_same(bindings, types, types.drop_last(), (types.len() - 1) as nat);
}

/// A step of a machine in order leaves bindings that hold what the bindings
/// held before it.
pub proof fn lemma_step_extends(machine: Machine)
    requires
        in_order(machine),
        machine.goals.len() > 0,
        step(machine) is Some,
    ensures
        extends(step(machine)->Some_0.bindings, machine.bindings),
{
    let bindings = machine.bindings;
    let next = step(machine)->Some_0;
    let goal = machine.goals.last();
    assert(goal_closed(bindings, goal));
    lemma_extends_itself(bindings);
    match goal {
        Goal::Same(a, b) => {
            match (a, b) {
                (Ty::Var(v), _) => {
                    if b != a {
                        lemma_bind_var_extends(bindings, v, b);
                    }
                },
                (Ty::Quotation(x), Ty::Quotation(y)) => {},
                (_, Ty::Var(w)) => {
                    if !(a is MultiVar) {
                        lemma_bind_var_extends(bindings, w, a);
                    }
                },
                _ => {},
            }
        },
        Goal::Capture(m, segment) => {
            if segment != seq![Ty::MultiVar(m)] {
                lemma_bind_row_extends(bindings, m, segment);
            }
        },
        _ => {},
    }
}

/// Where a run of a machine in order succeeds, the bindings that it ends with
/// are solved, hold what the bindings held that it began with, and meet every
/// goal that it began with.
pub proof fn lemma_run_sound(machine: Machine)
    requires
        in_order(machine),
        run(machine) is Some,
    ensures
        solved(run(machine)->Some_0.bindings),
        extends(run(machine)->Some_0.bindings, machine.bindings),
        all_hold(run(machine)->Some_0.bindings, machine.goals),
    decreases machine.bindings.unbound(), takes(machine.goals), weights(machine.goals),
{
    let bindings = machine.bindings;
    lemma_run_solved(machine);
    if machine.goals.len() == 0 {
        lemma_extends_itself(bindings);
    } else {
        lemma_step_decreases(machine);
        lemma_step_in_order(machine);
        let next = step(machine)->Some_0;
        lemma_run_sound(next);
        let last = run(machine)->Some_0.bindings;
        let goals = machine.goals;
        let rest = goals.drop_last();
        let goal = goals.last();
        let kept = next.bindings == bindings && next.goals.len() >= rest.len() && (forall|i: int|
            0 <= i < rest.len() ==> next.goals[i] == rest[i]);
        let bound = solved(next.bindings) && extends(next.bindings, bindings) && next.goals
            == resolve_goals(next.bindings, rest, rest.len());
        assert(goal_closed(bindings, goal));
        assert(kept || bound) by {
            match goal {
                Goal::Same(a, b) => {
                    match (a, b) {
                        (Ty::Var(v), _) => {
                            if b != a {
                                lemma_bind_var_extends(bindings, v, b);
                            }
                        },
                        (Ty::Quotation(x), Ty::Quotation(y)) => {},
                        (_, Ty::Var(w)) => {
                            if !(a is MultiVar) {
                                lemma_bind_var_extends(bindings, w, a);
                            }
                        },
                        _ => {},
                    }
                },
                Goal::Capture(m, segment) => {
                    if segment != seq![Ty::MultiVar(m)] {
                        lemma_bind_row_extends(bindings, m, segment);
                    }
                },
                _ => {},
            }
        }
        if kept {
            assert forall|i: int| 0 <= i < rest.len() implies holds(last, #[trigger] goals[i]) by {
                assert(goals[i] == rest[i]);
                assert(holds(last, next.goals[i]));
            }
        } else {
            lemma_extends_further(last, next.bindings, bindings);
            lemma_all_hold_resolved(last, next.bindings, rest, rest.len());
            assert forall|i: int| 0 <= i < rest.len() implies holds(last, #[trigger] goals[i]) by {
                assert(goals[i] == rest[i]);
                assert(holds(last, rest[i]));
            }
        }
        assert(holds(last, goal)) by {
            match goal {
                Goal::Take(_) => {},
                Goal::Same(a, b) => {
                    match (a, b) {
                        (Ty::Var(v), _) => {
                            if b != a {
                                assert(next.bindings.var_bound(v));
                            }
                        },
                        (Ty::Quotation(x), Ty::Quotation(y)) => {
                            assert(holds(last, next.goals[rest.len() as int]));
                            assert(holds(last, next.goals[rest.len() as int + 1]));
                        },
                        (_, Ty::Var(w)) => {
                            if !(a is MultiVar) {
                                assert(next.bindings.var_bound(w));
                            }
                        },
                        _ => {},
                    }
                },
                Goal::Rows(a, b) => {
                    if a.len() == 1 && a[0] is MultiVar {
                        assert(holds(last, next.goals[rest.len() as int]));
                        assert(a =~= seq![a[0]]);
                        lemma_resolve_one(last, a[0]);
                    } else if b.len() == 1 && b[0] is MultiVar {
                        assert(holds(last, next.goals[rest.len() as int]));
                        assert(b =~= seq![b[0]]);
                        lemma_resolve_one(last, b[0]);
                    } else if a.len() == 0 && b.len() == 0 {
                    } else {
                        assert(holds(last, next.goals[rest.len() as int]));
                        assert(holds(last, next.goals[rest.len() as int + 1]));
                        assert(next.goals.last() == next.goals[rest.len() as int + 1]);
                        assert(step(next) is Some);
                        lemma_resolve_back(last, a);
                        lemma_resolve_back(last, b);
                    }
                },
                Goal::Capture(m, segment) => {
                    if segment == seq![Ty::MultiVar(m)] {
                        lemma_resolve_one(last, Ty::MultiVar(m));
                    } else {
                        assert(next.bindings.row_bound(m));
                    }
                },
            }
        }
        assert forall|i: int| 0 <= i < goals.len() implies holds(last, #[trigger] goals[i]) by {
            if i == goals.len() - 1 {
                assert(goals[i] == goal);
            }
        }
    }
}


/// Unification is sound: where two types that hold no bound variable can be
/// made the same, they stand for the same under the bindings that result, and
/// these hold what the bindings held before.
pub proof fn lemma_unified(machine: Machine, a: Ty, b: Ty)
    requires
        solved(machine.bindings),
        closed(machine.bindings, a),
        closed(machine.bindings, b),
        machine.goals == seq![Goal::Same(a, b)],
        run(machine) is Some,
    ensures
        run(machine)->Some_0.bindings.resolve_type(a) == run(machine)->Some_0.bindings.resolve_type(
            b,
        ),
        extends(run(machine)->Some_0.bindings, machine.bindings),
        solved(run(machine)->Some_0.bindings),
{
    assert(machine.goals[0] == Goal::Same(a, b));
    assert(goals_closed(machine.bindings, machine.goals));
    lemma_run_sound(machine);
    assert(holds(run(machine)->Some_0.bindings, machine.goals[0]));
    assert(step(machine) is Some);
}

/// The inputs that the goals are still to take, in the order of their list:
/// the one that is taken next stands last.
pub open spec fn inputs_left(goals: Seq<Goal>) -> Seq<Ty>
    decreases goals.len(),
{
    if goals.len() == 0 {
        Seq::empty()
    } else {
        inputs_left(goals.drop_last()) + match goals.last() {
            Goal::Take(t) => seq![t],
            _ => Seq::empty(),
        }
    }
}

pub proof fn lemma_inputs_left_push(goals: Seq<Goal>, goal: Goal)
    ensures
        inputs_left(goals.push(goal)) == inputs_left(goals) + match goal {
            Goal::Take(t) => seq![t],
            _ => Seq::empty(),
        },
{
    assert(goals.push(goal).drop_last() =~= goals);
}

pub proof fn lemma_inputs_left_concat(a: Seq<Goal>, b: Seq<Goal>)
    ensures
        inputs_left(a + b) == inputs_left(a) + inputs_left(b),
    decreases b.len(),
{
    if b.len() == 0 {
        assert(a + b =~= a);
        assert(inputs_left(a) + inputs_left(b) =~= inputs_left(a));
    } else {
        lemma_inputs_left_concat(a, b.drop_last());
        assert((a + b).drop_last() =~= a + b.drop_last());
        let tail = match b.last() {
            Goal::Take(t) => seq![t],
            _ => Seq::<Ty>::empty(),
        };
        assert((inputs_left(a) + inputs_left(b.drop_last())) + tail =~= inputs_left(a) + (
        inputs_left(b.drop_last()) + tail));
    }
}

/// The goals to take a list of inputs are still to take these inputs.
pub proof fn lemma_inputs_left_takes(inputs: Seq<Ty>)
    ensures
        inputs_left(take_goals(inputs)) == inputs,
    decreases inputs.len(),
{
    let goals = take_goals(inputs);
    if inputs.len() == 0 {
        assert(inputs =~= Seq::<Ty>::empty());
    } else {
        lemma_inputs_left_takes(inputs.drop_last());
        assert(goals.last() == Goal::Take(inputs.last()));
        assert(goals.drop_last() =~= take_goals(inputs.drop_last()));
        assert(inputs.drop_last() + seq![inputs.last()] =~= inputs);
    }
}

/// What is left of the goals under new bindings is still to take the inputs
/// that the goals were to take, resolved.
pub proof fn lemma_inputs_left_resolved(bindings: Bindings, goals: Seq<Goal>, n: nat)
    requires
        n <= goals.len(),
    ensures
        inputs_left(resolve_goals(bindings, goals, n)) == bindings.resolve_list(
            inputs_left(goals.take(n as int)),
        ),
    decreases n,
{
    if n == 0 {
        assert(goals.take(0) =~= Seq::<Goal>::empty());
    } else {
        lemma_inputs_left_resolved(bindings, goals, (n - 1) as nat);
        let before = resolve_goals(bindings, goals, (n - 1) as nat);
        let goal = goals[n - 1];
        let added = resolve_goal(bindings, goal);
        lemma_inputs_left_concat(before, added);
        assert(goals.take(n as int).drop_last() =~= goals.take(n - 1));
        assert(goals.take(n as int).last() == goal);
        let older = inputs_left(goals.take(n - 1));
        match goal {
            Goal::Take(t) => {
                lemma_inputs_left_takes(bindings.resolve_type(t));
                lemma_resolve_concat(bindings, older, seq![t], 1);
                lemma_resolve_one(bindings, t);
            },
            _ => {
                assert(added.len() == 1);
                assert(!(added.last() is Take)) by {
                    match goal {
                        Goal::Same(a, b) => {},
                        Goal::Rows(a, b) => {},
                        Goal::Capture(m, segment) => {},
                        Goal::Take(_) => {},
                    }
                }
                assert(added.drop_last() =~= Seq::<Goal>::empty());
                assert(inputs_left(added.drop_last()) =~= Seq::<Ty>::empty());
                assert(inputs_left(added) =~= Seq::<Ty>::empty());
                assert(older + Seq::<Ty>::empty() =~= older);
                assert(inputs_left(before) + Seq::<Ty>::empty() =~= inputs_left(before));
            },
        }
    }
}

/// Where a run of a machine in order succeeds, it leaves the stack but for the
/// values that it took off the top, it keeps the demands on the caller and
/// puts new ones below them, and the inputs that it was to take stand for
/// the demands that it added and then for the values that it took.
pub proof fn lemma_run_takes_sound(machine: Machine)
    requires
        in_order(machine),
        run(machine) is Some,
    ensures
        ({
            let end = run(machine)->Some_0;
            let kept = end.stack.len() as int;
            let added = end.demanded.len() - machine.demanded.len();
            &&& kept <= machine.stack.len()
            &&& end.stack == machine.stack.take(kept)
            &&& added >= 0
            &&& end.demanded.skip(added) == machine.demanded
            &&& end.bindings.resolve_list(inputs_left(machine.goals))
                == end.bindings.resolve_list(end.demanded.take(added))
                + end.bindings.resolve_list(machine.stack.skip(kept))
        }),
    decreases machine.bindings.unbound(), takes(machine.goals), weights(machine.goals),
{
    let end = run(machine)->Some_0;
    let last = end.bindings;
    let kept = end.stack.len() as int;
    let added = end.demanded.len() - machine.demanded.len();
    if machine.goals.len() == 0 {
        assert(machine.stack.take(kept) =~= machine.stack);
        assert(machine.demanded.skip(0) =~= machine.demanded);
        assert(machine.stack.skip(kept) =~= Seq::<Ty>::empty());
        assert(machine.demanded.take(0) =~= Seq::<Ty>::empty());
        assert(inputs_left(machine.goals) =~= Seq::<Ty>::empty());
        assert(Seq::<Ty>::empty() + Seq::<Ty>::empty() =~= Seq::<Ty>::empty());
    } else {
        lemma_step_decreases(machine);
        lemma_step_in_order(machine);
        lemma_run_sound(machine);
        let next = step(machine)->Some_0;
        lemma_run_sound(next);
        lemma_run_takes_sound(next);
        let goals = machine.goals;
        let rest = goals.drop_last();
        let goal = goals.last();
        assert(goals =~= rest.push(goal));
        lemma_inputs_left_push(rest, goal);
        assert(goal_closed(machine.bindings, goal));
        match goal {
            Goal::Take(input) => {
                let left = inputs_left(rest);
                assert(inputs_left(goals) == left + seq![input]);
                lemma_resolve_concat(last, left, seq![input], 1);
                lemma_resolve_one(last, input);
                if machine.stack.len() > 0 {
                    let top = machine.stack.last();
                    let found = machine.bindings.resolve_single(top);
                    let same = Goal::Same(input, found);
                    lemma_inputs_left_push(rest, same);
                    assert(left + Seq::<Ty>::empty() =~= left);
                    assert(next.goals.last() == same);
                    assert(step(next) is Some);
                    assert(holds(last, next.goals[rest.len() as int]));
                    assert(machine.bindings.resolve_type(top) =~= seq![found]);
                    lemma_extends_type(last, machine.bindings, top);
                    lemma_resolve_one(last, found);
                    let below = next.stack.skip(kept);
                    assert(next.stack.take(kept) =~= machine.stack.take(kept));
                    assert(machine.stack.skip(kept) =~= below + seq![top]);
                    lemma_resolve_concat(last, below, seq![top], 1);
                    lemma_resolve_one(last, top);
                    let fresh = last.resolve_list(end.demanded.take(added));
                    assert((fresh + last.resolve_list(below)) + last.resolve_type(top) =~= fresh
                        + (last.resolve_list(below) + last.resolve_type(top)));
                } else {
                    let before = added - 1;
                    assert(end.demanded.skip(before) == seq![input] + machine.demanded);
                    assert(end.demanded.skip(added) =~= end.demanded.skip(before).skip(1));
                    assert(end.demanded.skip(before)[0] == input);
                    assert(end.demanded.take(added) =~= end.demanded.take(before) + seq![input]);
                    lemma_resolve_concat(last, end.demanded.take(before), seq![input], 1);
                    assert(machine.stack.skip(kept) =~= next.stack.skip(kept));
                    let none = last.resolve_list(machine.stack.skip(kept));
                    assert(none =~= Seq::<Ty>::empty()) by {
                        assert(machine.stack.skip(kept) =~= Seq::<Ty>::empty());
                    }
                    let older = last.resolve_list(end.demanded.take(before));
                    assert((older + none) + last.resolve_type(input) =~= (older
                        + last.resolve_type(input)) + none);
                }
            },
            _ => {
                assert(inputs_left(goals) =~= inputs_left(rest)) by {
                    assert(inputs_left(rest) + Seq::<Ty>::empty() =~= inputs_left(rest));
                }
                if next.bindings == machine.bindings {
                    assert(inputs_left(next.goals) == inputs_left(rest)) by {
                        assert(inputs_left(rest) + Seq::<Ty>::empty() =~= inputs_left(rest));
                        match goal {
                            Goal::Same(a, b) => {
                                match (a, b) {
                                    (Ty::Quotation(x), Ty::Quotation(y)) => {
                                        let first = Goal::Rows(x.outputs, y.outputs);
                                        let second = Goal::Rows(x.inputs, y.inputs);
                                        lemma_inputs_left_push(rest, first);
                                        lemma_inputs_left_push(rest.push(first), second);
                                    },
                                    (Ty::Var(v), _) => {
                                        if b != a {
                                            lemma_bound_differs(machine.bindings, v, b);
                                        }
                                    },
                                    (_, Ty::Var(w)) => {
                                        if !(a is MultiVar) {
                                            lemma_bound_differs(machine.bindings, w, a);
                                        }
                                    },
                                    _ => {},
                                }
                            },
                            Goal::Rows(a, b) => {
                                if a.len() == 1 && a[0] is MultiVar {
                                    lemma_inputs_left_push(
                                        rest,
                                        Goal::Capture(a[0]->MultiVar_0, b),
                                    );
                                } else if b.len() == 1 && b[0] is MultiVar {
                                    lemma_inputs_left_push(
                                        rest,
                                        Goal::Capture(b[0]->MultiVar_0, a),
                                    );
                                } else if a.len() == 0 && b.len() == 0 {
                                } else {
                                    let below = Goal::Rows(a.drop_last(), b.drop_last());
                                    let tops = Goal::Same(a.last(), b.last());
                                    lemma_inputs_left_push(rest, below);
                                    lemma_inputs_left_push(rest.push(below), tops);
                                }
                            },
                            Goal::Capture(m, segment) => {
                                if segment != seq![Ty::MultiVar(m)] {
                                    lemma_bound_row_differs(machine.bindings, m, segment);
                                }
                            },
                            Goal::Take(_) => {},
                        }
                    }
                } else {
                    assert(next.goals == resolve_goals(next.bindings, rest, rest.len()));
                    lemma_inputs_left_resolved(next.bindings, rest, rest.len());
                    assert(rest.take(rest.len() as int) =~= rest);
                    lemma_extends_prefix(
                        last,
                        next.bindings,
                        inputs_left(rest),
                        inputs_left(rest).len(),
                    );
                }
            },
        }
    }
}

/// Bindings with one more variable bound are other bindings.
proof fn lemma_bound_differs(bindings: Bindings, v: nat, t: Ty)
    requires
        bindings.var_free(v),
    ensures
        bindings.bind_var(v, t) != bindings,
{
    assert(bindings.bind_var(v, t).vars[v as int] is Some);
}

/// Bindings with one more row variable bound are other bindings.
proof fn lemma_bound_row_differs(bindings: Bindings, m: nat, segment: Seq<Ty>)
    requires
        bindings.row_free(m),
    ensures
        bindings.bind_row(m, segment) != bindings,
{
    assert(bindings.bind_row(m, segment).rows[m as int] is Some);
}

} // verus!
