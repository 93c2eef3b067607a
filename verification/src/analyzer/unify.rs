//! Unification of types and of stack segments, and the matching of a word's
//! inputs against the stack, as one machine that works off a list of goals.

use vstd::prelude::*;
use crate::analyzer::solved::{
    all_closed, closed, goal_closed, in_order, lemma_step_in_order, solved,
};
use crate::analyzer::sound::{
    extends, lemma_extends_further, lemma_extends_itself, lemma_step_extends,
};
use crate::analyzer::subst::{
    Bindings, Context, count_free, occurs_row_in, occurs_var, only_row, only_var, row_occurs_in,
    var_occurs,
};
use crate::analyzer::types::{
    Signature, Ty, Type, clone_types, lemma_models_empty, lemma_quotation_model, models,
};

verus! {

/// Something that is left to do while a signature is applied.
pub enum Goal {
    /// An input of the word, to be taken from the stack, or from the caller
    /// where the stack is empty.
    Take(Ty),
    /// Two types of one slot each, to be made the same.
    Same(Ty, Ty),
    /// Two lists of types, to be made the same. A row variable stands first in
    /// its list, the type on top last.
    Rows(Seq<Ty>, Seq<Ty>),
    /// A row variable, to be bound to a segment.
    Capture(nat, Seq<Ty>),
}

/// The state while a signature is applied: the bindings, the stack of the scope,
/// what the scope demands of its caller so far, and the goals. The last goal is
/// the next to be worked off.
pub struct Machine {
    pub bindings: Bindings,
    pub stack: Seq<Ty>,
    pub demanded: Seq<Ty>,
    pub goals: Seq<Goal>,
}

/// The goals to take `inputs` off the stack: the last input, which is matched
/// with the value on top, is taken first.
pub open spec fn take_goals(inputs: Seq<Ty>) -> Seq<Goal> {
    Seq::new(inputs.len(), |k: int| Goal::Take(inputs[k]))
}

/// What is left of a goal under new bindings. The input that is a bound row
/// variable gives way to the inputs of its segment; the capture of a row
/// variable that was bound meanwhile turns into the unification of its segment.
pub open spec fn resolve_goal(bindings: Bindings, goal: Goal) -> Seq<Goal> {
    match goal {
        Goal::Take(t) => take_goals(bindings.resolve_type(t)),
        Goal::Same(a, b) => seq![Goal::Same(bindings.resolve_single(a), bindings.resolve_single(b))],
        Goal::Rows(a, b) => seq![Goal::Rows(bindings.resolve_list(a), bindings.resolve_list(b))],
        Goal::Capture(m, segment) => if bindings.row_bound(m) {
            seq![Goal::Rows(bindings.rows[m as int]->Some_0, bindings.resolve_list(segment))]
        } else {
            seq![Goal::Capture(m, bindings.resolve_list(segment))]
        },
    }
}

/// What is left of the first `n` goals of `goals` under new bindings.
pub open spec fn resolve_goals(bindings: Bindings, goals: Seq<Goal>, n: nat) -> Seq<Goal>
    decreases n,
{
    if n == 0 || n > goals.len() {
        Seq::empty()
    } else {
        resolve_goals(bindings, goals, (n - 1) as nat) + resolve_goal(bindings, goals[n - 1])
    }
}

/// Binding variable `v` to `t`, which leaves the goals that remain to be
/// resolved anew. Fails where `t` is a row variable or holds `v`, or `v` is not
/// a variable that can be bound.
pub open spec fn bind_var_step(machine: Machine, rest: Seq<Goal>, v: nat, t: Ty) -> Option<
    Machine,
> {
    if t is MultiVar || occurs_var(v, t) || !machine.bindings.var_free(v) {
        None
    } else {
        let bindings = machine.bindings.bind_var(v, t);
        Some(
            Machine {
                bindings,
                stack: machine.stack,
                demanded: machine.demanded,
                goals: resolve_goals(bindings, rest, rest.len()),
            },
        )
    }
}

/// Working off the goal that two types be the same.
pub open spec fn same_step(machine: Machine, rest: Seq<Goal>, a: Ty, b: Ty) -> Option<Machine> {
    let done = Some(Machine { goals: rest, ..machine });
    match (a, b) {
        (Ty::Int, Ty::Int) => done,
        (Ty::Bool, Ty::Bool) => done,
        (Ty::Str, Ty::Str) => done,
        (Ty::Var(v), _) => if b == a {
            done
        } else {
            bind_var_step(machine, rest, v, b)
        },
        (Ty::MultiVar(_), _) => None,
        (_, Ty::Var(w)) => bind_var_step(machine, rest, w, a),
        (Ty::Quotation(x), Ty::Quotation(y)) => Some(
            Machine {
                goals: rest.push(Goal::Rows(x.outputs, y.outputs)).push(
                    Goal::Rows(x.inputs, y.inputs),
                ),
                ..machine
            },
        ),
        _ => None,
    }
}

/// Working off the goal that two lists of types be the same. A list that is
/// one row variable takes all of the other list; the first list goes first
/// where both are. Else the types on top, which stand last, are paired and
/// the rest stays a goal.
pub open spec fn rows_step(machine: Machine, rest: Seq<Goal>, a: Seq<Ty>, b: Seq<Ty>) -> Option<
    Machine,
> {
    if a.len() == 1 && a[0] is MultiVar {
        Some(Machine { goals: rest.push(Goal::Capture(a[0]->MultiVar_0, b)), ..machine })
    } else if b.len() == 1 && b[0] is MultiVar {
        Some(Machine { goals: rest.push(Goal::Capture(b[0]->MultiVar_0, a)), ..machine })
    } else if a.len() == 0 && b.len() == 0 {
        Some(Machine { goals: rest, ..machine })
    } else if a.len() == 0 || b.len() == 0 {
        None
    } else {
        Some(
            Machine {
                goals: rest.push(Goal::Rows(a.drop_last(), b.drop_last())).push(
                    Goal::Same(a.last(), b.last()),
                ),
                ..machine
            },
        )
    }
}

/// Working off the goal that a row variable be bound to a segment. Nothing is
/// to do where the segment is the variable itself. Fails where the segment
/// holds the variable otherwise, or the variable cannot be bound.
pub open spec fn capture_step(machine: Machine, rest: Seq<Goal>, m: nat, segment: Seq<Ty>) -> Option<
    Machine,
> {
    if segment == seq![Ty::MultiVar(m)] {
        Some(Machine { goals: rest, ..machine })
    } else if occurs_row_in(m, segment, segment.len()) || !machine.bindings.row_free(m) {
        None
    } else {
        let bindings = machine.bindings.bind_row(m, segment);
        Some(
            Machine {
                bindings,
                stack: machine.stack,
                demanded: machine.demanded,
                goals: resolve_goals(bindings, rest, rest.len()),
            },
        )
    }
}

/// Working off the goal to take an input: against the type on top of the
/// stack, or, where the stack is empty, as a demand on the caller, which lies
/// below all that was demanded before.
pub open spec fn take_step(machine: Machine, rest: Seq<Goal>, input: Ty) -> Option<Machine> {
    if machine.stack.len() > 0 {
        Some(
            Machine {
                bindings: machine.bindings,
                stack: machine.stack.drop_last(),
                demanded: machine.demanded,
                goals: rest.push(
                    Goal::Same(input, machine.bindings.resolve_single(machine.stack.last())),
                ),
            },
        )
    } else {
        Some(
            Machine {
                bindings: machine.bindings,
                stack: machine.stack,
                demanded: seq![input] + machine.demanded,
                goals: rest,
            },
        )
    }
}

/// The machine after its next goal, or `None` where that goal cannot be met.
pub open spec fn step(machine: Machine) -> Option<Machine>
    recommends
        machine.goals.len() > 0,
{
    let rest = machine.goals.drop_last();
    match machine.goals.last() {
        Goal::Take(input) => take_step(machine, rest, input),
        Goal::Same(a, b) => same_step(machine, rest, a, b),
        Goal::Rows(a, b) => rows_step(machine, rest, a, b),
        Goal::Capture(m, segment) => capture_step(machine, rest, m, segment),
    }
}

/// The size of a type: what the goals that it gives rise to can weigh.
pub open spec fn size(t: Ty) -> nat
    decreases t, 0nat,
{
    match t {
        Ty::Quotation(signature) => 2 + size_of(signature.inputs, signature.inputs.len()) + size_of(
            signature.outputs,
            signature.outputs.len(),
        ),
        _ => 1,
    }
}

/// The sizes of the first `n` types of `types`, added up.
pub open spec fn size_of(types: Seq<Ty>, n: nat) -> nat
    decreases types, n,
{
    if n == 0 || n > types.len() {
        0
    } else {
        size_of(types, (n - 1) as nat) + size(types[n - 1])
    }
}

pub open spec fn weight(goal: Goal) -> nat {
    match goal {
        Goal::Take(_) => 0,
        Goal::Same(a, b) => (2 * (size(a) + size(b)) - 1) as nat,
        Goal::Rows(a, b) => 2 + 2 * size_of(a, a.len()) + 2 * size_of(b, b.len()),
        Goal::Capture(_, _) => 1,
    }
}

/// The weights of the goals, added up.
pub open spec fn weights(goals: Seq<Goal>) -> nat
    decreases goals.len(),
{
    if goals.len() == 0 {
        0
    } else {
        weights(goals.drop_last()) + weight(goals.last())
    }
}

/// The number of inputs that are still to be taken.
pub open spec fn takes(goals: Seq<Goal>) -> nat
    decreases goals.len(),
{
    if goals.len() == 0 {
        0
    } else {
        takes(goals.drop_last()) + if goals.last() is Take {
            1nat
        } else {
            0nat
        }
    }
}

/// The machine when no goal is left, or `None` where a goal cannot be met.
pub open spec fn run(machine: Machine) -> Option<Machine>
    decreases machine.bindings.unbound(), takes(machine.goals), weights(machine.goals),
    via run_decreases
{
    if machine.goals.len() == 0 {
        Some(machine)
    } else {
        match step(machine) {
            Some(next) => run(next),
            None => None,
        }
    }
}

#[via_fn]
proof fn run_decreases(machine: Machine) {
    if machine.goals.len() > 0 && step(machine) is Some {
        lemma_step_decreases(machine);
    }
}

pub proof fn lemma_weights_push(goals: Seq<Goal>, goal: Goal)
    ensures
        weights(goals.push(goal)) == weights(goals) + weight(goal),
        takes(goals.push(goal)) == takes(goals) + if goal is Take {
            1nat
        } else {
            0nat
        },
{
    assert(goals.push(goal).drop_last() =~= goals);
}

/// The size of a prefix depends on the prefix alone.
pub proof fn lemma_size_of_prefix(a: Seq<Ty>, b: Seq<Ty>, n: nat)
    requires
        n <= a.len(),
        n <= b.len(),
        forall|i: int| 0 <= i < n ==> a[i] == b[i],
    ensures
        size_of(a, n) == size_of(b, n),
    decreases n,
{
    if n > 0 {
        lemma_size_of_prefix(a, b, (n - 1) as nat);
    }
}

/// The number of free entries depends on which entries are free alone.
pub proof fn lemma_count_free_pattern<A, B>(a: Seq<Option<A>>, b: Seq<Option<B>>)
    requires
        a.len() == b.len(),
        forall|i: int| 0 <= i < a.len() ==> (a[i] is None <==> b[i] is None),
    ensures
        count_free(a) == count_free(b),
    decreases a.len(),
{
    if a.len() > 0 {
        lemma_count_free_pattern(a.drop_last(), b.drop_last());
    }
}

/// Filling a free entry leaves one free entry less.
pub proof fn lemma_count_free_update<A>(a: Seq<Option<A>>, i: int, value: A)
    requires
        0 <= i < a.len(),
        a[i] is None,
    ensures
        count_free(a.update(i, Some(value))) + 1 == count_free(a),
    decreases a.len(),
{
    if i == a.len() - 1 {
        assert(a.update(i, Some(value)).drop_last() =~= a.drop_last());
    } else {
        lemma_count_free_update(a.drop_last(), i, value);
        assert(a.update(i, Some(value)).drop_last() =~= a.drop_last().update(i, Some(value)));
    }
}

/// Binding a free variable leaves one unbound variable less.
pub proof fn lemma_bind_var_unbound(bindings: Bindings, v: nat, t: Ty)
    requires
        bindings.var_free(v),
    ensures
        bindings.bind_var(v, t).unbound() + 1 == bindings.unbound(),
{
    let refined = bindings.refined_by(only_var(v, t));
    lemma_count_free_pattern(refined.vars, bindings.vars);
    lemma_count_free_pattern(refined.rows, bindings.rows);
    lemma_count_free_update(refined.vars, v as int, t);
}

/// Binding a free row variable leaves one unbound variable less.
pub proof fn lemma_bind_row_unbound(bindings: Bindings, m: nat, segment: Seq<Ty>)
    requires
        bindings.row_free(m),
    ensures
        bindings.bind_row(m, segment).unbound() + 1 == bindings.unbound(),
{
    let refined = bindings.refined_by(only_row(m, segment));
    lemma_count_free_pattern(refined.vars, bindings.vars);
    lemma_count_free_pattern(refined.rows, bindings.rows);
    lemma_count_free_update(refined.rows, m as int, segment);
}

/// Every step binds a variable, or takes an input, or makes the goals lighter.
pub proof fn lemma_step_decreases(machine: Machine)
    requires
        machine.goals.len() > 0,
        step(machine) is Some,
    ensures
        ({
            let next = step(machine)->Some_0;
            ||| next.bindings.unbound() < machine.bindings.unbound()
            ||| (next.bindings.unbound() == machine.bindings.unbound() && takes(next.goals) < takes(
                machine.goals,
            ))
            ||| (next.bindings.unbound() == machine.bindings.unbound() && takes(next.goals)
                == takes(machine.goals) && weights(next.goals) < weights(machine.goals))
        }),
{
    let rest = machine.goals.drop_last();
    let next = step(machine)->Some_0;
    lemma_weights_push(rest, machine.goals.last());
    assert(machine.goals =~= rest.push(machine.goals.last()));
    match machine.goals.last() {
        Goal::Take(input) => {
            if machine.stack.len() > 0 {
                lemma_weights_push(
                    rest,
                    Goal::Same(input, machine.bindings.resolve_single(machine.stack.last())),
                );
            }
        },
        Goal::Same(a, b) => {
            match (a, b) {
                (Ty::Var(v), _) => {
                    if b != a {
                        lemma_bind_var_unbound(machine.bindings, v, b);
                    }
                },
                (Ty::Quotation(x), Ty::Quotation(y)) => {
                    let first = Goal::Rows(x.outputs, y.outputs);
                    let second = Goal::Rows(x.inputs, y.inputs);
                    lemma_weights_push(rest, first);
                    lemma_weights_push(rest.push(first), second);
                },
                (_, Ty::Var(w)) => {
                    if !(a is MultiVar) {
                        lemma_bind_var_unbound(machine.bindings, w, a);
                    }
                },
                _ => {},
            }
        },
        Goal::Rows(a, b) => {
            if a.len() == 1 && a[0] is MultiVar {
                lemma_weights_push(rest, Goal::Capture(a[0]->MultiVar_0, b));
            } else if b.len() == 1 && b[0] is MultiVar {
                lemma_weights_push(rest, Goal::Capture(b[0]->MultiVar_0, a));
            } else if a.len() == 0 && b.len() == 0 {
            } else {
                let below = Goal::Rows(a.drop_last(), b.drop_last());
                let tops = Goal::Same(a.last(), b.last());
                lemma_weights_push(rest, below);
                lemma_weights_push(rest.push(below), tops);
                lemma_size_of_prefix(a, a.drop_last(), (a.len() - 1) as nat);
                lemma_size_of_prefix(b, b.drop_last(), (b.len() - 1) as nat);
            }
        },
        Goal::Capture(m, segment) => {
            if segment != seq![Ty::MultiVar(m)] {
                lemma_bind_row_unbound(machine.bindings, m, segment);
            }
        },
    }
}


/// A goal as the machine holds it while it runs.
pub enum Task {
    Take(Type),
    Same(Type, Type),
    Rows(Vec<Type>, Vec<Type>),
    Capture(usize, Vec<Type>),
}

impl Task {
    pub open spec fn model(&self) -> Goal {
        match self {
            Task::Take(t) => Goal::Take(t.model()),
            Task::Same(a, b) => Goal::Same(a.model(), b.model()),
            Task::Rows(a, b) => Goal::Rows(models(a@), models(b@)),
            Task::Capture(m, segment) => Goal::Capture(*m as nat, models(segment@)),
        }
    }
}

pub open spec fn task_models(tasks: Seq<Task>) -> Seq<Goal> {
    Seq::new(tasks.len(), |i: int| tasks[i].model())
}

pub proof fn lemma_task_models_push(tasks: Seq<Task>, task: Task)
    ensures
        task_models(tasks.push(task)) == task_models(tasks).push(task.model()),
{
    assert(task_models(tasks.push(task)) =~= task_models(tasks).push(task.model()));
}

pub proof fn lemma_task_models_pop(tasks: Seq<Task>)
    requires
        tasks.len() > 0,
    ensures
        task_models(tasks.drop_last()) == task_models(tasks).drop_last(),
        task_models(tasks).last() == tasks.last().model(),
{
    assert(task_models(tasks.drop_last()) =~= task_models(tasks).drop_last());
}

/// The machine that the running state stands for.
pub open spec fn machine_of(
    context: &Context,
    stack: Seq<Type>,
    demanded: Seq<Type>,
    tasks: Seq<Task>,
) -> Machine {
    Machine {
        bindings: context.model(),
        stack: models(stack),
        demanded: models(demanded),
        goals: task_models(tasks),
    }
}

/// Appends to `tasks` the tasks to take `inputs`, the last of them first.
pub fn push_takes(tasks: &mut Vec<Task>, inputs: &Vec<Type>)
    ensures
        task_models(final(tasks)@) == task_models(old(tasks)@) + take_goals(models(inputs@)),
{
    let ghost all = models(inputs@);
    assert(all.len() == inputs@.len());
    assert(task_models(tasks@) =~= task_models(old(tasks)@) + take_goals(all).take(0));
    let mut i: usize = 0;
    while i < inputs.len()
        invariant
            i <= inputs@.len(),
            all == models(inputs@),
            all.len() == inputs@.len(),
            task_models(tasks@) == task_models(old(tasks)@) + take_goals(all).take(i as int),
        decreases inputs@.len() - i,
    {
        let ghost before = tasks@;
        assert(all[i as int] == inputs@[i as int].model());
        let task = Task::Take(inputs[i].clone());
        tasks.push(task);
        proof {
            lemma_task_models_push(before, task);
            assert(take_goals(all).take(i + 1) =~= take_goals(all).take(i as int).push(
                Goal::Take(all[i as int]),
            ));
            assert(task_models(tasks@) =~= task_models(old(tasks)@) + take_goals(all).take(i + 1));
        }
        i = i + 1;
    }
    assert(take_goals(all).take(all.len() as int) =~= take_goals(all));
}

/// What is left of `tasks` under the bindings of `context`.
fn resolve_tasks(context: &Context, tasks: Vec<Task>) -> (resolved: Vec<Task>)
    ensures
        task_models(resolved@) == resolve_goals(
            context.model(),
            task_models(tasks@),
            tasks@.len(),
        ),
{
    let mut resolved: Vec<Task> = Vec::new();
    let ghost goals = task_models(tasks@);
    assert(goals.len() == tasks@.len());
    assert(task_models(resolved@) =~= Seq::empty());
    let mut i: usize = 0;
    while i < tasks.len()
        invariant
            i <= tasks@.len(),
            goals == task_models(tasks@),
            goals.len() == tasks@.len(),
            task_models(resolved@) == resolve_goals(context.model(), goals, i as nat),
        decreases tasks@.len() - i,
    {
        let ghost before = resolved@;
        assert(goals[i as int] == tasks@[i as int].model());
        match &tasks[i] {
            Task::Take(t) => {
                let mut inputs: Vec<Type> = Vec::new();
                proof {
                    lemma_models_empty();
                }
                context.resolve_type(t, &mut inputs);
                assert(models(inputs@) =~= context.model().resolve_type(t.model()));
                push_takes(&mut resolved, &inputs);
            },
            Task::Same(a, b) => {
                let task = Task::Same(context.resolve_single(a), context.resolve_single(b));
                resolved.push(task);
                proof {
                    lemma_task_models_push(before, task);
                    assert(task_models(before).push(task.model()) =~= task_models(before)
                        + seq![task.model()]);
                }
            },
            Task::Rows(a, b) => {
                let task = Task::Rows(context.resolve_types(a), context.resolve_types(b));
                resolved.push(task);
                proof {
                    lemma_task_models_push(before, task);
                    assert(task_models(before).push(task.model()) =~= task_models(before)
                        + seq![task.model()]);
                }
            },
            Task::Capture(m, segment) => {
                let rest = context.resolve_types(segment);
                let task = match context.get_multivar(*m) {
                    Some(bound) => Task::Rows(clone_types(bound), rest),
                    None => Task::Capture(*m, rest),
                };
                resolved.push(task);
                proof {
                    lemma_task_models_push(before, task);
                    assert(task_models(before).push(task.model()) =~= task_models(before)
                        + seq![task.model()]);
                }
            },
        }
        i = i + 1;
    }
    resolved
}

/// Whether `t` is the variable `v`.
fn is_var(t: &Type, v: usize) -> (same: bool)
    ensures
        same == (t.model() == Ty::Var(v as nat)),
{
    match t {
        Type::Var(w) => *w == v,
        Type::Quotation(signature) => {
            proof {
                lemma_quotation_model(*signature);
            }
            false
        },
        _ => false,
    }
}

/// The row variable that `types` consists of, if it consists of one.
fn single_row(types: &Vec<Type>) -> (row: Option<usize>)
    ensures
        row is Some <==> models(types@).len() == 1 && models(types@)[0] is MultiVar,
        row is Some ==> models(types@)[0] == Ty::MultiVar(row->Some_0 as nat),
{
    assert(models(types@).len() == types@.len());
    if types.len() == 1 {
        assert(models(types@)[0] == types@[0].model());
        match &types[0] {
            Type::MultiVar(m) => Some(*m),
            Type::Quotation(signature) => {
                proof {
                    lemma_quotation_model(*signature);
                }
                None
            },
            _ => None,
        }
    } else {
        None
    }
}

/// Binds variable `v` to `t` and resolves the tasks that are left. Where the
/// variable cannot be bound to the type, nothing is changed.
fn bind_var_task(
    context: &mut Context,
    tasks: Vec<Task>,
    v: usize,
    t: Type,
    Ghost(machine): Ghost<Machine>,
) -> (result: Option<Vec<Task>>)
    requires
        machine.bindings == old(context).model(),
        solved(machine.bindings),
        t.model() is MultiVar || closed(machine.bindings, t.model()),
    ensures
        match bind_var_step(machine, task_models(tasks@), v as nat, t.model()) {
            Some(next) => result is Some && final(context).model() == next.bindings && task_models(
                result->Some_0@,
            ) == next.goals && next.stack == machine.stack && next.demanded == machine.demanded,
            None => result is None && final(context).model() == old(context).model(),
        },
{
    assert(task_models(tasks@).len() == tasks@.len());
    let is_row = match &t {
        Type::MultiVar(_) => true,
        Type::Quotation(signature) => {
            proof {
                lemma_quotation_model(*signature);
            }
            false
        },
        _ => false,
    };
    assert(context.model().vars.len() == context.var_context@.len());
    if is_row || var_occurs(v, &t) || context.get_var(v).is_some() || v
        >= context.var_context.len() {
        return None;
    }
    context.set_var(v, t);
    Some(resolve_tasks(context, tasks))
}

/// Leaves the tasks that the signatures `a` and `b` be the same: their
/// inputs first, then their outputs.
fn unify_signature(tasks: &mut Vec<Task>, a: Signature, b: Signature)
    ensures
        task_models(final(tasks)@) == task_models(old(tasks)@).push(
            Goal::Rows(a.model().outputs, b.model().outputs),
        ).push(Goal::Rows(a.model().inputs, b.model().inputs)),
{
    let ghost before = tasks@;
    let outputs = Task::Rows(a.outputs, b.outputs);
    let inputs = Task::Rows(a.inputs, b.inputs);
    tasks.push(outputs);
    tasks.push(inputs);
    proof {
        lemma_task_models_push(before, outputs);
        lemma_task_models_push(before.push(outputs), inputs);
    }
}

/// Works off the task that the types `a` and `b` be the same: binds a
/// variable, or leaves the tasks that two quotations give rise to. Where the
/// types cannot be made the same, nothing is changed.
fn unify(
    context: &mut Context,
    tasks: Vec<Task>,
    a: Type,
    b: Type,
    Ghost(machine): Ghost<Machine>,
) -> (result: Option<Vec<Task>>)
    requires
        machine.bindings == old(context).model(),
        solved(machine.bindings),
        goal_closed(machine.bindings, Goal::Same(a.model(), b.model())),
    ensures
        match same_step(machine, task_models(tasks@), a.model(), b.model()) {
            Some(next) => result is Some && final(context).model() == next.bindings && task_models(
                result->Some_0@,
            ) == next.goals && next.stack == machine.stack && next.demanded == machine.demanded,
            None => result is None && final(context).model() == old(context).model(),
        },
{
    let mut tasks = tasks;
    match a {
        Type::Var(v) => {
            if is_var(&b, v) {
                Some(tasks)
            } else {
                bind_var_task(context, tasks, v, b, Ghost(machine))
            }
        },
        Type::MultiVar(_) => None,
        Type::Quotation(x) => {
            proof {
                lemma_quotation_model(x);
            }
            match b {
                Type::Var(w) => bind_var_task(
                    context,
                    tasks,
                    w,
                    Type::Quotation(x),
                    Ghost(machine),
                ),
                Type::Quotation(y) => {
                    proof {
                        lemma_quotation_model(y);
                    }
                    unify_signature(&mut tasks, x, y);
                    Some(tasks)
                },
                _ => None,
            }
        },
        _ => {
            match b {
                Type::Var(w) => bind_var_task(context, tasks, w, a, Ghost(machine)),
                Type::Quotation(y) => {
                    proof {
                        lemma_quotation_model(y);
                    }
                    None
                },
                Type::Int => match a {
                    Type::Int => Some(tasks),
                    _ => None,
                },
                Type::Bool => match a {
                    Type::Bool => Some(tasks),
                    _ => None,
                },
                Type::String => match a {
                    Type::String => Some(tasks),
                    _ => None,
                },
                _ => None,
            }
        },
    }
}

/// Works off the task that the lists `a` and `b` be the same.
fn unify_stack(tasks: Vec<Task>, a: Vec<Type>, b: Vec<Type>, Ghost(machine): Ghost<Machine>) -> (result:
    Option<Vec<Task>>)
    ensures
        match rows_step(machine, task_models(tasks@), models(a@), models(b@)) {
            Some(next) => result is Some && task_models(result->Some_0@) == next.goals,
            None => result is None,
        },
{
    let mut tasks = tasks;
    let mut a = a;
    let mut b = b;
    assert(models(a@).len() == a@.len());
    assert(models(b@).len() == b@.len());
    let ghost before = tasks@;
    let ghost list_a = a@;
    let ghost list_b = b@;
    let row_a = single_row(&a);
    let row_b = single_row(&b);
    if row_a.is_some() {
        let capture = Task::Capture(row_a.unwrap(), b);
        tasks.push(capture);
        proof {
            lemma_task_models_push(before, capture);
        }
        Some(tasks)
    } else if row_b.is_some() {
        let capture = Task::Capture(row_b.unwrap(), a);
        tasks.push(capture);
        proof {
            lemma_task_models_push(before, capture);
        }
        Some(tasks)
    } else if a.len() == 0 && b.len() == 0 {
        Some(tasks)
    } else if a.len() == 0 || b.len() == 0 {
        None
    } else {
        assert(models(list_a).last() == list_a.last().model());
        assert(models(list_b).last() == list_b.last().model());
        let top_a = a.pop().unwrap();
        let top_b = b.pop().unwrap();
        proof {
            assert(models(a@) =~= models(list_a).drop_last());
            assert(models(b@) =~= models(list_b).drop_last());
        }
        let below = Task::Rows(a, b);
        let tops = Task::Same(top_a, top_b);
        tasks.push(below);
        tasks.push(tops);
        proof {
            lemma_task_models_push(before, below);
            lemma_task_models_push(before.push(below), tops);
        }
        Some(tasks)
    }
}

/// Works off the task that row variable `m` be bound to `segment`. Where it
/// cannot be bound to the segment, nothing is changed.
fn capture_task(
    context: &mut Context,
    tasks: Vec<Task>,
    m: usize,
    segment: Vec<Type>,
    Ghost(machine): Ghost<Machine>,
) -> (result: Option<Vec<Task>>)
    requires
        machine.bindings == old(context).model(),
        solved(machine.bindings),
        all_closed(machine.bindings, models(segment@)),
    ensures
        match capture_step(machine, task_models(tasks@), m as nat, models(segment@)) {
            Some(next) => result is Some && final(context).model() == next.bindings && task_models(
                result->Some_0@,
            ) == next.goals && next.stack == machine.stack && next.demanded == machine.demanded,
            None => result is None && final(context).model() == old(context).model(),
        },
{
    assert(models(segment@).len() == segment@.len());
    assert(task_models(tasks@).len() == tasks@.len());
    let row = single_row(&segment);
    let itself = match row {
        Some(other) => other == m,
        None => false,
    };
    proof {
        let alone = seq![Ty::MultiVar(m as nat)];
        assert(alone.len() == 1 && alone[0] == Ty::MultiVar(m as nat));
        if itself {
            assert(models(segment@) =~= alone);
        }
    }
    if itself {
        return Some(tasks);
    }
    assert(context.model().rows.len() == context.multivar_context@.len());
    if row_occurs_in(m, &segment) || m >= context.multivar_context.len() || context.get_multivar(
        m,
    ).is_some() {
        return None;
    }
    context.set_multivar(m, segment);
    Some(resolve_tasks(context, tasks))
}

/// Works off `tasks` against the bindings and the stack of a scope. Returns
/// whether every task could be met. Whether or not, the bindings that are left
/// are solved and hold what the bindings held before.
pub fn solve(
    context: &mut Context,
    stack: &mut Vec<Type>,
    demanded: &mut Vec<Type>,
    tasks: Vec<Task>,
) -> (met: bool)
    requires
        in_order(machine_of(old(context), old(stack)@, old(demanded)@, tasks@)),
    ensures
        match run(machine_of(old(context), old(stack)@, old(demanded)@, tasks@)) {
            Some(end) => met && final(context).model() == end.bindings && models(final(stack)@)
                == end.stack && models(final(demanded)@) == end.demanded,
            None => !met,
        },
        solved(final(context).model()),
        extends(final(context).model(), old(context).model()),
{
    let ghost goal = run(machine_of(context, stack@, demanded@, tasks@));
    let mut pending = tasks;
    proof {
        lemma_extends_itself(context.model());
    }
    while pending.len() > 0
        invariant
            goal == run(machine_of(old(context), old(stack)@, old(demanded)@, tasks@)),
            extends(context.model(), old(context).model()),
            run(machine_of(context, stack@, demanded@, pending@)) == goal,
            in_order(machine_of(context, stack@, demanded@, pending@)),
        decreases
            context.model().unbound(),
            takes(task_models(pending@)),
            weights(task_models(pending@)),
    {
        let ghost machine = machine_of(context, stack@, demanded@, pending@);
        let ghost rest = machine.goals.drop_last();
        proof {
            lemma_task_models_pop(pending@);
            assert(machine.goals.len() == pending@.len());
            if step(machine) is Some {
                lemma_step_decreases(machine);
                lemma_step_in_order(machine);
                lemma_step_extends(machine);
                lemma_extends_further(
                    step(machine)->Some_0.bindings,
                    machine.bindings,
                    old(context).model(),
                );
            }
            assert(run(machine) == match step(machine) {
                Some(next) => run(next),
                None => None,
            });
            assert(goal_closed(machine.bindings, machine.goals.last()));
        }
        let task = pending.pop().unwrap();
        assert(task_models(pending@) == rest);
        assert(machine.goals.last() == task.model());
        let next = match task {
            Task::Take(input) => {
                assert(models(stack@).len() == stack@.len());
                if stack.len() > 0 {
                    let ghost stack_before = stack@;
                    assert(models(stack@).last() == stack@.last().model());
                    let top = stack.pop().unwrap();
                    let found = context.resolve_single(&top);
                    let ghost before = pending@;
                    pending.push(Task::Same(input, found));
                    proof {
                        lemma_task_models_push(before, Task::Same(input, found));
                        assert(models(stack@) =~= models(stack_before).drop_last());
                    }
                } else {
                    let ghost before = demanded@;
                    demanded.insert(0, input);
                    assert(models(demanded@) =~= seq![input.model()] + models(before));
                }
                Some(pending)
            },
            Task::Same(a, b) => {
                let left = unify(context, pending, a, b, Ghost(machine));
                assert(left is None ==> step(machine) is None);
                left
            },
            Task::Rows(a, b) => {
                let left = unify_stack(pending, a, b, Ghost(machine));
                assert(left is None ==> step(machine) is None);
                left
            },
            Task::Capture(m, segment) => {
                let left = capture_task(context, pending, m, segment, Ghost(machine));
                assert(left is None ==> step(machine) is None);
                left
            },
        };
        assert(next is None ==> step(machine) is None);
        match next {
            Some(left) => {
                pending = left;
                assert(step(machine) == Some(machine_of(context, stack@, demanded@, pending@)));
            },
            None => {
                assert(run(machine) is None);
                assert(context.model() == machine.bindings);
                return false;
            },
        }
    }
    true
}

} // verus!
