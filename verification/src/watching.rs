//! The watched-literal invariant: what propagation keeps of the first two
//! literals of each active clause, and what it reaches when it ends without
//! conflict.
use vstd::prelude::*;
use crate::formula::clause::{first_unfixed_from, lemma_first_unfixed_from, notified_literals, swap_literals_spec};
use crate::formula::literal::Literal;
use crate::formula::problem::{lemma_occurrences_of, occurrences_of, ClauseIndex, Problem, VariableIndex};
use crate::propagator::{stack_asks, visit_effect, Propagator};
use crate::trail::Trail;

verus! {

/// The variable of literal `l` has no value in `s`.
pub open spec fn unset(l: Literal, s: Trail) -> bool {
    l.variable_value(s) is None
}

/// No two literals of `lits` have the same variable.
pub open spec fn distinct_in(lits: Seq<Literal>) -> bool {
    forall|i: int, j: int| 0 <= i < lits.len() && 0 <= j < lits.len() && i != j
        ==> (#[trigger] lits[i]).variable != (#[trigger] lits[j]).variable
}

/// No clause of `g` names a variable twice.
pub open spec fn distinct_variables(g: Problem) -> bool {
    forall|c: int| 0 <= c < g.nclauses() ==> distinct_in(#[trigger] g.clauses@[c].literals@)
}

/// Every clause of two literals or more is on the watch lists of the variables
/// of its first two literals.
pub open spec fn watches_complete(g: Problem) -> bool {
    forall|c: ClauseIndex| c.0 < g.nclauses() && (#[trigger] g.clauses@[c.0 as int]).literals@.len() >= 2 ==> {
        &&& g.watchers@[g.clauses@[c.0 as int].literals@[0].variable.0 as int]@.contains(c)
        &&& g.watchers@[g.clauses@[c.0 as int].literals@[1].variable.0 as int]@.contains(c)
    }
}

/// Clause `c` is active in `s` only if its first two literals are unset, or its
/// first literal is unset and asked for by a request of `stack`.
pub open spec fn settled(g: Problem, s: Trail, stack: Seq<(VariableIndex, bool, isize)>, c: ClauseIndex) -> bool {
    let lits = g.clauses@[c.0 as int].literals@;
    g.clauses@[c.0 as int].is_active_in(s) ==> {
        ||| lits.len() >= 2 && unset(lits[0], s) && unset(lits[1], s)
        ||| lits.len() >= 1 && unset(lits[0], s) && stack_asks(stack, lits[0].variable.0 as int, lits[0].positive)
    }
}

/// Some request of `stack` asks a variable for the value it does not have in `s`.
pub open spec fn conflict_pending(g: Problem, s: Trail, stack: Seq<(VariableIndex, bool, isize)>) -> bool {
    exists|i: int| 0 <= i < stack.len() && g.value_of((#[trigger] stack[i]).0.0 as int, s) == Some(!stack[i].1)
}

/// Between two requests of a propagation: a conflict is pending, or every
/// clause is settled.
pub open spec fn watch_state(g: Problem, s: Trail, stack: Seq<(VariableIndex, bool, isize)>) -> bool {
    ||| conflict_pending(g, s, stack)
    ||| forall|c: ClauseIndex| c.0 < g.nclauses() ==> #[trigger] settled(g, s, stack, c)
}

/// Every active clause has two literals or more, and its first two are unset:
/// no active clause is unit, none is falsified.
pub open spec fn at_fixpoint(g: Problem, s: Trail) -> bool {
    forall|c: ClauseIndex| c.0 < g.nclauses() && (#[trigger] g.clauses@[c.0 as int]).is_active_in(s) ==> {
        let lits = g.clauses@[c.0 as int].literals@;
        lits.len() >= 2 && unset(lits[0], s) && unset(lits[1], s)
    }
}

/// Clause `c` is active, and one of its first two literals is of `variable`
/// while the other is unset: it waits to be visited from the watch list of
/// `variable`.
pub open spec fn waits_visit(g: Problem, s: Trail, variable: VariableIndex, c: ClauseIndex) -> bool {
    let lits = g.clauses@[c.0 as int].literals@;
    &&& g.clauses@[c.0 as int].is_active_in(s)
    &&& lits.len() >= 2
    &&& ((lits[0].variable == variable && unset(lits[1], s)) || (lits[1].variable == variable && unset(lits[0], s)))
}

/// While the watch list of `variable` is visited from its end down to position
/// `i`: a conflict is pending, or each clause is settled or waits for a visit
/// from a position below `i`.
pub open spec fn visit_state(
    g: Problem,
    s: Trail,
    stack: Seq<(VariableIndex, bool, isize)>,
    variable: VariableIndex,
    i: int,
) -> bool {
    ||| conflict_pending(g, s, stack)
    ||| forall|c: ClauseIndex| c.0 < g.nclauses() ==> #[trigger] settled(g, s, stack, c) || (waits_visit(g, s, variable, c)
        && g.watchers@[variable.0 as int]@.take(i).contains(c))
}

/// A clause appended with its first two literals' variables watching it keeps the
/// watch lists complete.
pub proof fn lemma_added_clause_watched(g0: Problem, g: Problem, lits: Seq<Literal>, cid: ClauseIndex)
    requires
        watches_complete(g0),
        g0.wf_literals(),
        cid.0 == g0.nclauses(),
        g.clauses@.len() == g0.clauses@.len() + 1,
        forall|c: int| 0 <= c < g0.nclauses() ==> #[trigger] g.clauses@[c] == g0.clauses@[c],
        g.clauses@[cid.0 as int].literals@ == lits,
        forall|k: int| 0 <= k < lits.len() ==> (#[trigger] lits[k]).variable.0 < g0.nvars(),
        forall|v: int| 0 <= v < g0.nvars() ==> (#[trigger] g.watchers@[v])@ == g0.watchers@[v]@ + occurrences_of(
            lits.take(if lits.len() < 2 { lits.len() as int } else { 2 }), v, None, cid),
    ensures
        watches_complete(g),
{
    assert forall|c: ClauseIndex| c.0 < g.nclauses() && (#[trigger] g.clauses@[c.0 as int]).literals@.len() >= 2 implies {
        &&& g.watchers@[g.clauses@[c.0 as int].literals@[0].variable.0 as int]@.contains(c)
        &&& g.watchers@[g.clauses@[c.0 as int].literals@[1].variable.0 as int]@.contains(c)
    } by {
        let z = g.clauses@[c.0 as int].literals@;
        if c.0 < g0.nclauses() {
            assert(g.clauses@[c.0 as int] == g0.clauses@[c.0 as int]);
            assert(g0.lit(c.0 as int, 0) == z[0] && g0.lit(c.0 as int, 1) == z[1]);
            assert(g0.watchers@[z[0].variable.0 as int]@.contains(c));
            assert(g0.watchers@[z[1].variable.0 as int]@.contains(c));
            assert forall|u: int| 0 <= u < g0.nvars() && g0.watchers@[u]@.contains(c) implies #[trigger] g.watchers@[u]@.contains(c) by {
                let j = choose|j: int| 0 <= j < g0.watchers@[u]@.len() && g0.watchers@[u]@[j] == c;
                assert(g.watchers@[u]@[j] == c);
            }
        } else {
            assert(c == cid);
            let t = lits.take(2);
            assert forall|m: int| 0 <= m < 2 implies g.watchers@[(#[trigger] t[m]).variable.0 as int]@.contains(c) by {
                let u = t[m].variable.0 as int;
                assert(lits[m] == t[m]);
                lemma_occurrences_of(t, u, None, cid);
                let o = occurrences_of(t, u, None, cid);
                assert(o.contains(cid));
                let j = choose|j: int| 0 <= j < o.len() && o[j] == cid;
                assert(g.watchers@[u]@[g0.watchers@[u]@.len() + j] == cid);
            }
            assert(t[0] == z[0] && t[1] == z[1]);
        }
    }
}

/// At a fixpoint, every clause is settled, whatever is requested.
pub proof fn lemma_fixpoint_settled(g: Problem, s: Trail, stack: Seq<(VariableIndex, bool, isize)>)
    requires
        at_fixpoint(g, s),
    ensures
        watch_state(g, s, stack),
{
    assert forall|c: ClauseIndex| c.0 < g.nclauses() implies #[trigger] settled(g, s, stack, c) by {
        if g.clauses@[c.0 as int].is_active_in(s) {
        }
    }
}

/// With no request left, settled clauses are at a fixpoint.
pub proof fn lemma_settled_fixpoint(g: Problem, s: Trail, stack: Seq<(VariableIndex, bool, isize)>)
    requires
        watch_state(g, s, stack),
        stack.len() == 0,
    ensures
        at_fixpoint(g, s),
{
    assert forall|c: ClauseIndex| c.0 < g.nclauses() && (#[trigger] g.clauses@[c.0 as int]).is_active_in(s) implies {
        let lits = g.clauses@[c.0 as int].literals@;
        lits.len() >= 2 && unset(lits[0], s) && unset(lits[1], s)
    } by {
        assert(settled(g, s, stack, c));
    }
}

/// Before `variable` is fixed to `value`: a conflict is pending, or each clause
/// is settled or has the literal being fixed first.
pub open spec fn watch_state_before(
    g: Problem,
    s: Trail,
    stack: Seq<(VariableIndex, bool, isize)>,
    variable: VariableIndex,
    value: bool,
) -> bool {
    ||| conflict_pending(g, s, stack)
    ||| forall|c: ClauseIndex| c.0 < g.nclauses() ==> #[trigger] settled(g, s, stack, c) || {
        let lits = g.clauses@[c.0 as int].literals@;
        lits.len() >= 1 && lits[0].variable == variable && lits[0].positive == value
    }
}

/// Once `variable` is fixed to `value` and the clauses this satisfies are set
/// inactive, each clause is settled or waits for a visit from the watch list of
/// `variable`, or a conflict is pending.
pub proof fn lemma_assigned_visit_state(
    g0: Problem,
    s0: Trail,
    g: Problem,
    s: Trail,
    stack: Seq<(VariableIndex, bool, isize)>,
    variable: VariableIndex,
    value: bool,
)
    requires
        g0.wf(s0),
        g.wf(s),
        g.same_formula(g0),
        g.clauses@ == g0.clauses@,
        g.watchers@ == g0.watchers@,
        variable.0 < g0.nvars(),
        g0.value_of(variable.0 as int, s0) is None,
        g.value_of(variable.0 as int, s) == Some(value),
        forall|u: int| 0 <= u < g0.nvars() && u != variable.0 ==> #[trigger] g.value_of(u, s) == g0.value_of(u, s0),
        forall|c: int| 0 <= c < g0.nclauses() && (#[trigger] g.clauses@[c]).is_active_in(s)
            ==> g0.clauses@[c].is_active_in(s0),
        g.active_clauses_unsatisfied(s),
        forall|k: int| 0 <= k < stack.len() ==> (#[trigger] stack[k]).0.0 < g0.nvars(),
        watches_complete(g0),
        distinct_variables(g0),
        watch_state_before(g0, s0, stack, variable, value),
    ensures
        watches_complete(g),
        distinct_variables(g),
        visit_state(g, s, stack, variable, g.watchers@[variable.0 as int]@.len() as int),
{
    let v = variable.0 as int;
    let n = g.watchers@[v]@.len() as int;
    assert(g.watchers@[v]@.take(n) =~= g.watchers@[v]@);
    // A literal of a clause is unset exactly when its variable has no value.
    assert forall|d: int, k: int| 0 <= d < g0.nclauses() && 0 <= k < g0.clauses@[d].literals@.len()
        implies unset(#[trigger] g0.lit(d, k), s0) == (g0.value_of(g0.lit(d, k).variable.0 as int, s0) is None)
        && unset(g0.lit(d, k), s) == (g.value_of(g0.lit(d, k).variable.0 as int, s) is None)
        && g.value_of(g0.lit(d, k).variable.0 as int, s) == g0.lit(d, k).variable_value(s) by {
        let l = g0.lit(d, k);
        assert(l.value == g0.variables@[l.variable.0 as int].value);
        assert(g.variables@[l.variable.0 as int].value == g0.variables@[l.variable.0 as int].value);
    }
    if conflict_pending(g0, s0, stack) {
        let k = choose|k: int| 0 <= k < stack.len() && g0.value_of((#[trigger] stack[k]).0.0 as int, s0) == Some(!stack[k].1);
        assert(stack[k].0.0 != variable.0);
        assert(g.value_of(stack[k].0.0 as int, s) == g0.value_of(stack[k].0.0 as int, s0));
        assert(conflict_pending(g, s, stack));
    } else if !conflict_pending(g, s, stack) {
        assert forall|c: ClauseIndex| c.0 < g.nclauses() implies #[trigger] settled(g, s, stack, c) || (waits_visit(g, s, variable, c)
            && g.watchers@[v]@.take(n).contains(c)) by {
            let d = c.0 as int;
            let z = g0.clauses@[d].literals@;
            if g.clauses@[d].is_active_in(s) {
                assert(g0.clauses@[d].is_active_in(s0));
                assert(settled(g0, s0, stack, c) || (z.len() >= 1 && z[0].variable == variable && z[0].positive == value));
                assert(z.len() >= 1 ==> g0.lit(d, 0) == z[0]);
                assert(z.len() >= 2 ==> g0.lit(d, 1) == z[1]);
                if z.len() >= 1 && z[0].variable == variable && z[0].positive == value {
                    assert(z[0].is_true_in(s));
                    assert(!g.lit(d, 0).is_true_in(s));
                } else if z.len() >= 1 && unset(z[0], s0) && stack_asks(stack, z[0].variable.0 as int, z[0].positive) {
                    if z[0].variable == variable {
                        let k = choose|k: int| 0 <= k < stack.len() && (#[trigger] stack[k]).0.0 == z[0].variable.0 as int
                            && stack[k].1 == z[0].positive;
                        assert(g.value_of(stack[k].0.0 as int, s) == Some(!stack[k].1));
                    }
                } else {
                    assert(z.len() >= 2 && unset(z[0], s0) && unset(z[1], s0));
                    assert(distinct_in(z));
                    assert(z[0].variable != z[1].variable);
                    if z[0].variable == variable || z[1].variable == variable {
                        assert(g.watchers@[z[0].variable.0 as int]@.contains(c));
                        assert(g.watchers@[z[1].variable.0 as int]@.contains(c));
                        assert(waits_visit(g, s, variable, c));
                    }
                }
            }
        }
    }
}

/// The watch state holds in another store where variables have the same values
/// and clauses the same activity.
pub proof fn lemma_watch_state_frame(g: Problem, s0: Trail, s1: Trail, stack: Seq<(VariableIndex, bool, isize)>)
    requires
        g.wf(s0),
        forall|v: int| 0 <= v < g.nvars() ==> #[trigger] g.value_of(v, s1) == g.value_of(v, s0),
        forall|c: int| 0 <= c < g.nclauses() ==> (#[trigger] g.clauses@[c]).is_active_in(s1) == g.clauses@[c].is_active_in(s0),
        forall|k: int| 0 <= k < stack.len() ==> (#[trigger] stack[k]).0.0 < g.nvars(),
        watch_state(g, s0, stack),
    ensures
        watch_state(g, s1, stack),
{
    assert forall|d: int, k: int| 0 <= d < g.nclauses() && 0 <= k < g.clauses@[d].literals@.len()
        implies unset(#[trigger] g.lit(d, k), s1) == unset(g.lit(d, k), s0) by {
        let l = g.lit(d, k);
        assert(l.value == g.variables@[l.variable.0 as int].value);
        assert(g.value_of(l.variable.0 as int, s1) == g.value_of(l.variable.0 as int, s0));
    }
    if conflict_pending(g, s0, stack) {
        let k = choose|k: int| 0 <= k < stack.len() && g.value_of((#[trigger] stack[k]).0.0 as int, s0) == Some(!stack[k].1);
        assert(g.value_of(stack[k].0.0 as int, s1) == g.value_of(stack[k].0.0 as int, s0));
    } else {
        assert forall|c: ClauseIndex| c.0 < g.nclauses() implies #[trigger] settled(g, s1, stack, c) by {
            let z = g.clauses@[c.0 as int].literals@;
            assert(settled(g, s0, stack, c));
            assert(z.len() >= 1 ==> g.lit(c.0 as int, 0) == z[0]);
            assert(z.len() >= 2 ==> g.lit(c.0 as int, 1) == z[1]);
        }
    }
}

/// A request popped from the top of the stack: when its variable already has
/// the value asked for, the rest of the stack keeps the watch state; when its
/// variable is unset, the state is the one before that variable is fixed.
pub proof fn lemma_pop_request(g: Problem, s: Trail, stack: Seq<(VariableIndex, bool, isize)>)
    requires
        g.wf(s),
        g.active_clauses_unsatisfied(s),
        stack.len() > 0,
        stack.last().0.0 < g.nvars(),
        watch_state(g, s, stack),
        g.value_of(stack.last().0.0 as int, s) != Some(!stack.last().1),
    ensures
        g.value_of(stack.last().0.0 as int, s) == Some(stack.last().1) ==> watch_state(g, s, stack.drop_last()),
        g.value_of(stack.last().0.0 as int, s) is None
            ==> watch_state_before(g, s, stack.drop_last(), stack.last().0, stack.last().1),
{
    let e = stack.last();
    let rest = stack.drop_last();
    let n = rest.len() as int;
    assert forall|k: int| 0 <= k < n implies #[trigger] rest[k] == stack[k] by {}
    assert forall|d: int, k: int| 0 <= d < g.nclauses() && 0 <= k < g.clauses@[d].literals@.len()
        implies unset(#[trigger] g.lit(d, k), s) == (g.value_of(g.lit(d, k).variable.0 as int, s) is None)
        && g.lit(d, k).variable_value(s) == g.value_of(g.lit(d, k).variable.0 as int, s) by {
        let l = g.lit(d, k);
        assert(l.value == g.variables@[l.variable.0 as int].value);
    }
    if conflict_pending(g, s, stack) {
        let k = choose|k: int| 0 <= k < stack.len() && g.value_of((#[trigger] stack[k]).0.0 as int, s) == Some(!stack[k].1);
        assert(k != n);
        assert(rest[k] == stack[k]);
        assert(conflict_pending(g, s, rest));
    } else {
        assert forall|c: ClauseIndex| c.0 < g.nclauses() implies #[trigger] settled(g, s, rest, c) || {
            let lits = g.clauses@[c.0 as int].literals@;
            lits.len() >= 1 && lits[0].variable == e.0 && lits[0].positive == e.1
        } by {
            let d = c.0 as int;
            let z = g.clauses@[d].literals@;
            assert(settled(g, s, stack, c));
            assert(z.len() >= 1 ==> g.lit(d, 0) == z[0]);
            if g.clauses@[d].is_active_in(s) && z.len() >= 1 && unset(z[0], s)
                && stack_asks(stack, z[0].variable.0 as int, z[0].positive) {
                let k = choose|k: int| 0 <= k < stack.len() && (#[trigger] stack[k]).0.0 == z[0].variable.0 as int
                    && stack[k].1 == z[0].positive;
                if k < n {
                    assert(rest[k] == stack[k]);
                } else {
                    assert(z[0].variable.0 == e.0.0);
                }
            }
        }
        if g.value_of(e.0.0 as int, s) == Some(e.1) {
            assert forall|c: ClauseIndex| c.0 < g.nclauses() implies #[trigger] settled(g, s, rest, c) by {
                let d = c.0 as int;
                let z = g.clauses@[d].literals@;
                if g.clauses@[d].is_active_in(s) && z.len() >= 1 && z[0].variable == e.0 && z[0].positive == e.1 {
                    assert(g.lit(d, 0) == z[0]);
                    assert(g.lit(d, 0).is_true_in(s));
                }
            }
        }
    }
}

/// Once the whole watch list is visited, every clause is settled, or a conflict
/// is pending.
pub proof fn lemma_visited_all(g: Problem, s: Trail, stack: Seq<(VariableIndex, bool, isize)>, variable: VariableIndex)
    requires
        visit_state(g, s, stack, variable, 0),
    ensures
        watch_state(g, s, stack),
{
    if !conflict_pending(g, s, stack) {
        assert forall|c: ClauseIndex| c.0 < g.nclauses() implies #[trigger] settled(g, s, stack, c) by {
            assert(g.watchers@[variable.0 as int]@.take(0).len() == 0);
        }
    }
}

/// Exchanging two literals keeps the variables distinct.
pub proof fn lemma_swap_distinct(s: Seq<Literal>, i: int, j: int)
    requires
        0 <= i < s.len(),
        0 <= j < s.len(),
        distinct_in(s),
    ensures
        distinct_in(swap_literals_spec(s, i, j)),
{
    let t = swap_literals_spec(s, i, j);
    assert forall|a: int, b: int| 0 <= a < t.len() && 0 <= b < t.len() && a != b
        implies (#[trigger] t[a]).variable != (#[trigger] t[b]).variable by {
        let a2 = if a == i { j } else if a == j { i } else { a };
        let b2 = if b == i { j } else if b == j { i } else { b };
        assert(t[a] == s[a2]);
        assert(t[b] == s[b2]);
    }
}

/// Removing the entry at `i` of a list by moving its last entry there keeps every
/// other entry in the list.
pub proof fn lemma_swap_remove_keeps(l: Seq<ClauseIndex>, i: int, d: ClauseIndex)
    requires
        0 <= i < l.len(),
        l.contains(d),
        l[i] != d,
    ensures
        l.update(i, l.last()).drop_last().contains(d),
{
    let r = l.update(i, l.last()).drop_last();
    let j = choose|j: int| 0 <= j < l.len() && l[j] == d;
    if j == l.len() - 1 {
        assert(r[i] == d);
    } else {
        assert(r[j] == d);
    }
}

/// What the notification of `variable` does to the first two literals of a
/// clause with distinct variables: the first literal becomes the one of the
/// first two that is not of `variable`; the second is unset, or is the literal
/// of the first two that is of `variable` when no literal after them is unset.
pub proof fn lemma_notified_front(x: Seq<Literal>, variable: VariableIndex, s: Trail)
    requires
        x.len() >= 2,
        distinct_in(x),
    ensures
        ({
            let y = notified_literals(x, variable, s);
            let first = if x[0].variable == variable { x[1] } else { x[0] };
            let second = if x[0].variable == variable { x[0] } else { x[1] };
            &&& y.len() == x.len()
            &&& distinct_in(y)
            &&& y[0] == first
            &&& unset(y[1], s) || y[1] == second
        }),
{
    let s1 = if x[0].variable == variable { swap_literals_spec(x, 0, 1) } else { x };
    if x[0].variable == variable {
        lemma_swap_distinct(x, 0, 1);
    }
    let k = first_unfixed_from(s1, s, 2);
    lemma_first_unfixed_from(s1, s, 2);
    if k < s1.len() {
        lemma_swap_distinct(s1, 1, k);
    }
}

/// One visit of the watch list of `variable`, which has a value, at position
/// `i`: from a state where each clause is settled or waits for a visit at `i`
/// or below, to one where each waits below `i`; the watch lists stay complete
/// and the variables of each clause distinct.
pub proof fn lemma_visit_settles(
    p0: Propagator,
    g0: Problem,
    s0: Trail,
    p1: Propagator,
    g1: Problem,
    s1: Trail,
    variable: VariableIndex,
    i: int,
    level: isize,
)
    requires
        g0.wf(s0),
        visit_effect(p0, g0, s0, p1, g1, s1, variable, i, level),
        variable.0 < g0.nvars(),
        0 <= i < g0.watchers@[variable.0 as int]@.len(),
        g0.value_of(variable.0 as int, s0) is Some,
        forall|v: int| 0 <= v < g0.nvars() ==> #[trigger] g1.value_of(v, s1) == g0.value_of(v, s0),
        forall|c: int| 0 <= c < g0.nclauses() ==> (#[trigger] g1.clauses@[c]).is_active_in(s1)
            == g0.clauses@[c].is_active_in(s0),
        forall|k: int| 0 <= k < p0.propagation_stack@.len() ==> (#[trigger] p0.propagation_stack@[k]).0.0 < g0.nvars(),
        watches_complete(g0),
        distinct_variables(g0),
        visit_state(g0, s0, p0.propagation_stack@, variable, i + 1),
    ensures
        watches_complete(g1),
        distinct_variables(g1),
        visit_state(g1, s1, p1.propagation_stack@, variable, i),
{
    let v = variable.0 as int;
    let cc = g0.watchers@[v]@[i];
    let c = cc.0 as int;
    let st0 = p0.propagation_stack@;
    let st1 = p1.propagation_stack@;
    let w0 = g0.watchers@;
    let w1 = g1.watchers@;
    assert(c < g0.nclauses() && (g0.clause_has(c, v, true) || g0.clause_has(c, v, false)));
    let x = g0.clauses@[c].literals@;
    let active = g0.clauses@[c].is_active_in(s0);
    // The requests of `p0` stay, in place.
    assert(st1.len() >= st0.len());
    assert forall|k: int| 0 <= k < st0.len() implies #[trigger] st1[k] == st0[k] by {}
    assert forall|k: int| 0 <= k < st0.len() implies stack_asks(st1, (#[trigger] st0[k]).0.0 as int, st0[k].1) by {
        assert(st1[k] == st0[k]);
    }
    // A literal of a clause is unset exactly when its variable has no value, in
    // both stores.
    assert forall|d: int, k: int| 0 <= d < g0.nclauses() && 0 <= k < g0.clauses@[d].literals@.len()
        implies unset(#[trigger] g0.lit(d, k), s0) == (g0.value_of(g0.lit(d, k).variable.0 as int, s0) is None)
        && unset(g0.lit(d, k), s1) == unset(g0.lit(d, k), s0) by {
        let l = g0.lit(d, k);
        assert(l.value == g0.variables@[l.variable.0 as int].value);
        assert(g1.variables@[l.variable.0 as int] == g0.variables@[l.variable.0 as int]);
        assert(g1.value_of(l.variable.0 as int, s1) == g0.value_of(l.variable.0 as int, s0));
    }
    // Clauses other than `c` keep their literals; watch lists keep every entry
    // other than the visited one.
    assert forall|d: int| 0 <= d < g0.nclauses() && d != c implies #[trigger] g1.clauses@[d] == g0.clauses@[d] by {}
    assert forall|u: int, d: ClauseIndex| 0 <= u < g0.nvars() && (#[trigger] w0[u]@.contains(d)) && d != cc
        implies #[trigger] w1[u]@.contains(d) by {
        if active {
            let y = notified_literals(x, variable, s1);
            let w = if x.len() >= 2 { y[1].variable } else { x[0].variable };
            if w != variable {
                if u == v {
                    lemma_swap_remove_keeps(w0[v]@, i, d);
                } else if u == w.0 as int {
                    assert(w1[u]@ == w0[u]@.push(cc));
                    let j = choose|j: int| 0 <= j < w0[u]@.len() && w0[u]@[j] == d;
                    assert(w1[u]@[j] == d);
                } else {
                    assert(w1[u] == w0[u]);
                }
            }
        }
    }
    // The lists below position `i` of the visited list are kept.
    assert(w1[v]@.take(i) =~= w0[v]@.take(i)) by {
        if active {
            let y = notified_literals(x, variable, s1);
            let w = if x.len() >= 2 { y[1].variable } else { x[0].variable };
            if w != variable {
                assert forall|j: int| 0 <= j < i implies w1[v]@[j] == w0[v]@[j] by {}
            }
        }
    }
    if active && x.len() >= 2 {
        assert(distinct_in(x));
        lemma_notified_front(x, variable, s1);
    }
    if active && x.len() < 2 {
        let k = choose|k: int| 0 <= k < x.len() && (#[trigger] g0.lit(c, k)).variable.0 == v;
        assert(k == 0);
    }
    if conflict_pending(g0, s0, st0) {
        let k = choose|k: int| 0 <= k < st0.len() && g0.value_of((#[trigger] st0[k]).0.0 as int, s0) == Some(!st0[k].1);
        assert(st1[k] == st0[k]);
        assert(g1.value_of(st0[k].0.0 as int, s1) == g0.value_of(st0[k].0.0 as int, s0));
        assert(conflict_pending(g1, s1, st1));
    } else {
        assert forall|dd: ClauseIndex| dd.0 < g1.nclauses() implies #[trigger] settled(g1, s1, st1, dd) || (waits_visit(g1, s1, variable, dd)
            && g1.watchers@[v]@.take(i).contains(dd)) by {
            let d = dd.0 as int;
            assert(settled(g0, s0, st0, dd) || (waits_visit(g0, s0, variable, dd) && w0[v]@.take(i + 1).contains(dd)));
            let z = g0.clauses@[d].literals@;
            if z.len() >= 1 {
                assert(g0.lit(d, 0) == z[0]);
            }
            if z.len() >= 2 {
                assert(g0.lit(d, 1) == z[1]);
            }
            if !active {
                assert(g1 == g0 && s1 == s0 && st1 == st0);
                if !settled(g0, s0, st0, dd) {
                    let j = choose|j: int| 0 <= j < w0[v]@.take(i + 1).len() && #[trigger] w0[v]@.take(i + 1)[j] == dd;
                    assert(j != i);
                    assert(w0[v]@.take(i)[j] == dd);
                }
            } else if d != c {
                assert(g1.clauses@[d] == g0.clauses@[d]);
                assert(dd.0 != cc.0);
                if !settled(g0, s0, st0, dd) {
                    let j = choose|j: int| 0 <= j < w0[v]@.take(i + 1).len() && #[trigger] w0[v]@.take(i + 1)[j] == dd;
                    assert(j != i);
                    assert(w0[v]@.take(i)[j] == dd);
                    assert(w1[v]@.take(i)[j] == dd);
                }
            } else {
                assert(x.len() >= 2) by {
                    if x.len() < 2 {
                        assert(x[0].variable.0 == v);
                        assert(!unset(x[0], s0));
                    }
                }
                let y = notified_literals(x, variable, s1);
                assert(g1.clauses@[c].literals@ == y);
                assert(x[0].variable == variable ==> !unset(x[0], s0));
                assert(x[1].variable == variable ==> !unset(x[1], s0));
                if unset(y[1], s1) {
                    assert(unset(y[0], s1));
                } else if settled(g0, s0, st0, cc) && unset(x[0], s0) && stack_asks(st0, x[0].variable.0 as int, x[0].positive) {
                    assert(y[0] == x[0]);
                    let k = choose|k: int| 0 <= k < st0.len() && (#[trigger] st0[k]).0.0 == x[0].variable.0 as int && st0[k].1 == x[0].positive;
                    assert(st1[k] == st0[k]);
                } else {
                    assert(g1.clauses@[c].is_unit_in(s1));
                    let e = (y[0].variable, y[0].positive, level);
                    assert(st1 == st0.push(e));
                    assert(st1[st0.len() as int] == e);
                }
            }
        }
    }
    assert(watches_complete(g1)) by {
        assert forall|dd: ClauseIndex| dd.0 < g1.nclauses() && (#[trigger] g1.clauses@[dd.0 as int]).literals@.len() >= 2 implies {
            &&& g1.watchers@[g1.clauses@[dd.0 as int].literals@[0].variable.0 as int]@.contains(dd)
            &&& g1.watchers@[g1.clauses@[dd.0 as int].literals@[1].variable.0 as int]@.contains(dd)
        } by {
            let d = dd.0 as int;
            let z = g0.clauses@[d].literals@;
            assert(g0.watchers@[z[0].variable.0 as int]@.contains(dd));
            assert(g0.watchers@[z[1].variable.0 as int]@.contains(dd));
            assert(g0.lit(d, 0) == z[0] && g0.lit(d, 1) == z[1]);
            if !active {
                assert(g1 == g0);
            } else if d != c {
                assert(g1.clauses@[d] == g0.clauses@[d]);
                assert(dd.0 != cc.0);
            } else {
                let y = notified_literals(x, variable, s1);
                let w = y[1].variable;
                assert(g1.clauses@[c].literals@ == y);
                // The first literal: not of `variable`, and on its list already.
                let u0 = y[0].variable.0 as int;
                assert(y[0] == x[0] || y[0] == x[1]);
                assert(y[0].variable != variable);
                assert(w0[u0]@.contains(cc));
                assert(y[0].variable != w);
                if w != variable {
                    assert(w1[u0] == w0[u0]);
                    assert(w1[w.0 as int]@ == w0[w.0 as int]@.push(cc));
                    assert(w1[w.0 as int]@[w0[w.0 as int]@.len() as int] == cc);
                } else {
                    assert(w1 == w0);
                    assert(w0[v]@[i] == cc);
                }
            }
        }
    }
}

} // verus!
