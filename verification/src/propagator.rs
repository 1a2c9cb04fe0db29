//! Unit propagation over the watched literals of the clauses.
use vstd::prelude::*;
use crate::formula::clause::notified_literals;
use crate::formula::literal::Literal;
use crate::formula::problem::{
    lemma_inactive_frame, lemma_same_formula_sym, lemma_same_formula_trans, lemma_same_literals_refl_all,
    lemma_unfixed_count_decreases, lemma_unsatisfied_frame,
    unfixed_count, ClauseIndex, Problem, VariableIndex,
};
use crate::models::{
    admits, agrees, clause_forces, forced_in, grants, is_model, lemma_forced_granted, lemma_same_formula_models,
};
use crate::trail::{same_kind, Slot, Trail, UsizeId};
use crate::activity::{deactivations_justified, lemma_justified_frame, lemma_justified_trans};
use crate::watching::{
    at_fixpoint, distinct_variables, lemma_assigned_visit_state, lemma_fixpoint_settled, lemma_pop_request, lemma_settled_fixpoint,
    lemma_visit_settles, lemma_visited_all, lemma_watch_state_frame, visit_state, watch_state, watch_state_before,
    watches_complete,
};

verus! {

/// `Ok` when propagation ends without conflict; `Err` with the level of the
/// propagation when a variable is asked for both values.
pub type PropagationResult = Result<(), isize>;

/// The values of `s1` are those of `s0` up to what they hold: same positions,
/// same kinds, same saved states.
pub open spec fn same_kinds(s0: Trail, s1: Trail) -> bool {
    &&& s1.values().len() == s0.values().len()
    &&& forall|i: int| 0 <= i < s0.values().len() ==> same_kind(#[trigger] s1.values()[i], s0.values()[i])
    &&& s1.saved() == s0.saved()
}

/// A request to fix `e.0` to `e.1` that comes from a clause: it names a
/// literal of some clause of `g`, at the given level.
pub open spec fn is_forced(g: Problem, e: (VariableIndex, bool, isize), level: isize) -> bool {
    &&& e.0.0 < g.nvars()
    &&& e.2 == level
    &&& exists|c: int| 0 <= c < g.nclauses() && #[trigger] g.clause_has(c, e.0.0 as int, e.1)
}

/// The request stack `s0` was asked to fix `v` to `b`.
pub open spec fn stack_asks(s0: Seq<(VariableIndex, bool, isize)>, v: int, b: bool) -> bool {
    exists|i: int| 0 <= i < s0.len() && (#[trigger] s0[i]).0.0 == v && s0[i].1 == b
}

/// Variable `v` has value `!b` in `s`, and `b` was asked for it, by `requests`
/// or by a literal of a clause of `g`.
pub open spec fn is_conflict(g: Problem, s: Trail, requests: Seq<(VariableIndex, bool, isize)>, v: int, b: bool) -> bool {
    &&& 0 <= v < g.nvars()
    &&& g.value_of(v, s) == Some(!b)
    &&& (stack_asks(requests, v, b) || exists|c: int| 0 <= c < g.nclauses() && #[trigger] g.clause_has(c, v, b))
}

/// Position `i` of the store holds a value of `g`: the value or the assignment
/// position of a variable, or a flag of a clause.
pub open spec fn owned_by(g: Problem, i: int) -> bool {
    ||| exists|v: int| 0 <= v < g.nvars() && ((#[trigger] g.variables@[v]).value.0 == i
        || g.variables@[v].assignment_position.0 == i)
    ||| exists|c: int| 0 <= c < g.nclauses() && ((#[trigger] g.clauses@[c]).active.0 == i
        || g.clauses@[c].modified.0 == i)
}

/// Every value of `s` that differs in `s2` is a value of `g` or is at `extra`.
pub open spec fn changes_within(g: Problem, extra: int, s: Trail, s2: Trail) -> bool {
    forall|i: int| 0 <= i < s.values().len() && #[trigger] s2.values()[i] != s.values()[i]
        ==> i == extra || owned_by(g, i)
}

/// Changes within a problem, then within a problem with the same handles, are
/// changes within the first.
proof fn lemma_changes_trans(g: Problem, g2: Problem, extra: int, s0: Trail, s1: Trail, s2: Trail)
    requires
        g2.same_formula(g),
        s0.values().len() <= s1.values().len(),
        changes_within(g, extra, s0, s1),
        changes_within(g2, extra, s1, s2),
    ensures
        changes_within(g, extra, s0, s2),
{
    assert forall|i: int| 0 <= i < s0.values().len() && #[trigger] s2.values()[i] != s0.values()[i]
        implies i == extra || owned_by(g, i) by {
        if s1.values()[i] != s0.values()[i] {
        } else {
            assert(s2.values()[i] != s1.values()[i]);
            if i != extra {
                assert(owned_by(g2, i));
                if exists|v: int| 0 <= v < g2.nvars() && ((#[trigger] g2.variables@[v]).value.0 == i
                    || g2.variables@[v].assignment_position.0 == i) {
                    let v = choose|v: int| 0 <= v < g2.nvars() && ((#[trigger] g2.variables@[v]).value.0 == i
                        || g2.variables@[v].assignment_position.0 == i);
                    assert(g.variables@[v].value == g2.variables@[v].value);
                } else {
                    let c = choose|c: int| 0 <= c < g2.nclauses() && ((#[trigger] g2.clauses@[c]).active.0 == i
                        || g2.clauses@[c].modified.0 == i);
                    assert(g.clauses@[c].active == g2.clauses@[c].active);
                }
            }
        }
    }
}

/// What visiting position `i` of the watch list of `variable` does, from
/// propagator `p0`, problem `g0` and store `s0` to `p1`, `g1` and `s1`. An
/// inactive clause is left alone. An active one is marked as modified; it is told
/// of the value, which reorders its literals as `notified_literals` says; when its
/// second watched variable is no longer `variable`, the clause leaves that watch
/// list (the last entry takes its place) and joins the list of the new one; and
/// when it is then unit, its first literal is requested at `level`.
pub open spec fn visit_effect(
    p0: Propagator,
    g0: Problem,
    s0: Trail,
    p1: Propagator,
    g1: Problem,
    s1: Trail,
    variable: VariableIndex,
    i: int,
    level: isize,
) -> bool {
    let v = variable.0 as int;
    let c = g0.watchers@[v]@[i].0 as int;
    let x = g0.clauses@[c];
    let y = g1.clauses@[c];
    let lits = notified_literals(x.literals@, variable, s1);
    let w = if x.literals@.len() >= 2 { lits[1].variable } else { x.literals@[0].variable };
    &&& p1.assignments@ == p0.assignments@
    &&& p1.base_assignments == p0.base_assignments
    &&& g1.variables@ == g0.variables@
    &&& g1.number_clauses_problem == g0.number_clauses_problem
    &&& if !x.is_active_in(s0) {
        &&& g1 == g0
        &&& s1 == s0
        &&& p1.propagation_stack@ == p0.propagation_stack@
    } else {
        &&& s1.values() == s0.values().update(x.modified.0 as int, Slot::Bool(true))
        &&& s1.saved() == s0.saved()
        &&& g1.clauses@.len() == g0.clauses@.len()
        &&& forall|d: int| 0 <= d < g0.clauses@.len() && d != c ==> #[trigger] g1.clauses@[d] == g0.clauses@[d]
        &&& y.literals@ == lits
        &&& y.id == x.id
        &&& y.is_learned == x.is_learned
        &&& y.active == x.active
        &&& y.is_binary == x.is_binary
        &&& y.modified == x.modified
        &&& g1.watchers@.len() == g0.watchers@.len()
        &&& if w != variable {
            &&& g1.watchers@[v]@ == g0.watchers@[v]@.update(i, g0.watchers@[v]@.last()).drop_last()
            &&& g1.watchers@[w.0 as int]@ == g0.watchers@[w.0 as int]@.push(ClauseIndex(c as usize))
            &&& forall|u: int| 0 <= u < g0.watchers@.len() && u != v && u != w.0
                ==> #[trigger] g1.watchers@[u] == g0.watchers@[u]
        } else {
            g1.watchers@ == g0.watchers@
        }
        &&& p1.propagation_stack@ == (if y.is_unit_in(s1) {
            p0.propagation_stack@.push((lits[0].variable, lits[0].positive, level))
        } else {
            p0.propagation_stack@
        })
    }
}

/// The first `m` visits of the watch list of `variable`, which has `n` entries,
/// from its last position down: `ps`, `gs` and `ss` hold the propagator, the
/// problem and the store before each visit and after the last.
pub open spec fn visits_down(
    ps: Seq<Propagator>,
    gs: Seq<Problem>,
    ss: Seq<Trail>,
    variable: VariableIndex,
    level: isize,
    n: int,
    m: int,
) -> bool {
    &&& ps.len() == m + 1
    &&& gs.len() == m + 1
    &&& ss.len() == m + 1
    &&& forall|k: int| 0 <= k < m ==> #[trigger] visit_effect(ps[k], gs[k], ss[k], ps[k + 1], gs[k + 1], ss[k + 1],
        variable, n - 1 - k, level)
}

/// Runs Boolean unit propagation and records the assignments it makes.
pub struct Propagator {
    /// Requests: a variable, the value asked for, and the level
    pub propagation_stack: Vec<(VariableIndex, bool, isize)>,
    /// The literals fixed by propagation, in order
    pub assignments: Vec<Literal>,
    /// How many assignments there were when the last propagation started; reversible
    pub base_assignments: UsizeId,
}

impl Propagator {
    /// The propagator fits problem `g` in `s`: its base is a reversible `usize`
    /// that no variable uses, and every request names a variable of `g`.
    pub open spec fn wf_with(&self, g: Problem, s: Trail) -> bool {
        &&& s.is_usize(self.base_assignments)
        &&& forall|v: int| 0 <= v < g.nvars()
            ==> (#[trigger] g.variables@[v]).assignment_position.0 != self.base_assignments.0
        &&& forall|i: int| 0 <= i < self.propagation_stack@.len()
            ==> (#[trigger] self.propagation_stack@[i]).0.0 < g.nvars()
    }

    /// A propagator with no request and no assignment; its base is appended to
    /// the store.
    pub fn new(state: &mut Trail) -> (p: Propagator)
        ensures
            p.propagation_stack@.len() == 0,
            p.assignments@.len() == 0,
            p.base_assignments.0 == old(state).values().len(),
            final(state).values() == old(state).values().push(Slot::Usize(0)),
            final(state).saved() == old(state).saved(),
    {
        Propagator {
            propagation_stack: Vec::new(),
            assignments: Vec::new(),
            base_assignments: state.manage_usize(0),
        }
    }

    /// Adds a request to fix `variable` to `value`
    pub fn add_to_propagation_stack(&mut self, variable: VariableIndex, value: bool, level: isize)
        ensures
            final(self).propagation_stack@ == old(self).propagation_stack@.push((variable, value, level)),
            final(self).assignments@ == old(self).assignments@,
            final(self).base_assignments == old(self).base_assignments,
    {
        self.propagation_stack.push((variable, value, level));
    }

    /// Empties the request stack (after a conflict).
    fn clear(&mut self)
        ensures
            final(self).propagation_stack@.len() == 0,
            final(self).assignments@ == old(self).assignments@,
            final(self).base_assignments == old(self).base_assignments,
    {
        self.propagation_stack.clear();
    }

    /// The assignments made since the last propagation started
    pub fn assignments_iter(&self, state: &Trail) -> (r: Vec<Literal>)
        requires
            state.is_usize(self.base_assignments),
        ensures
            r@ == self.assignments@.skip(
                if state.usize_at(self.base_assignments) <= self.assignments@.len() {
                    state.usize_at(self.base_assignments) as int
                } else {
                    self.assignments@.len() as int
                },
            ),
    {
        let start = state.get_usize(self.base_assignments);
        let from = if start <= self.assignments.len() { start } else { self.assignments.len() };
        let mut r: Vec<Literal> = Vec::new();
        let mut i: usize = from;
        while i < self.assignments.len()
            invariant
                from <= i <= self.assignments@.len(),
                r@ == self.assignments@.subrange(from as int, i as int),
            decreases self.assignments@.len() - i,
        {
            r.push(self.assignments[i]);
            i += 1;
            assert(r@ =~= self.assignments@.subrange(from as int, i as int));
        }
        assert(r@ =~= self.assignments@.skip(from as int));
        r
    }

    /// Returns true iff the last propagation made an assignment
    pub fn has_assignments(&self, state: &Trail) -> (b: bool)
        requires
            state.is_usize(self.base_assignments),
        ensures
            b == (state.usize_at(self.base_assignments) < self.assignments@.len()),
    {
        let start = state.get_usize(self.base_assignments);
        start < self.assignments.len()
    }

    /// Forgets the assignments made after the base (used when the store is restored).
    pub fn restore(&mut self, state: &Trail)
        requires
            state.is_usize(old(self).base_assignments),
        ensures
            final(self).assignments@ == (if state.usize_at(old(self).base_assignments) < old(self).assignments@.len() {
                old(self).assignments@.take(state.usize_at(old(self).base_assignments) as int)
            } else {
                old(self).assignments@
            }),
            final(self).propagation_stack@ == old(self).propagation_stack@,
            final(self).base_assignments == old(self).base_assignments,
    {
        let limit = state.get_usize(self.base_assignments);
        self.assignments.truncate(limit);
    }

    /// All the assignments recorded
    pub fn iter_propagated_assignments(&self) -> (r: &Vec<Literal>)
        ensures
            r@ == self.assignments@,
    {
        &self.assignments
    }

    /// Forgets all the assignments
    pub fn reduce(&mut self)
        ensures
            final(self).assignments@.len() == 0,
            final(self).propagation_stack@ == old(self).propagation_stack@,
            final(self).base_assignments == old(self).base_assignments,
    {
        self.assignments.clear();
    }
}

/// Sets inactive every clause in which `variable` occurs with polarity `value`.
fn deactivate_occurrences(g: &Problem, variable: VariableIndex, value: bool, state: &mut Trail)
    requires
        g.wf(*old(state)),
        variable.0 < g.nvars(),
        g.value_of(variable.0 as int, *old(state)) == Some(value),
        forall|c: int, k: int| 0 <= c < g.nclauses() && 0 <= k < g.clauses@[c].literals@.len()
            && (#[trigger] g.clauses@[c]).is_active_in(*old(state)) && (#[trigger] g.lit(c, k)).is_true_in(*old(state))
            ==> g.lit(c, k).variable == variable,
    ensures
        g.wf(*final(state)),
        g.active_clauses_unsatisfied(*final(state)),
        same_kinds(*old(state), *final(state)),
        forall|v: int| 0 <= v < g.nvars() ==> #[trigger] g.value_of(v, *final(state)) == g.value_of(v, *old(state)),
        forall|c: int| 0 <= c < g.nclauses() && (#[trigger] g.clauses@[c]).is_active_in(*final(state))
            ==> g.clauses@[c].is_active_in(*old(state)),
        forall|i: int| 0 <= i < old(state).values().len() && !(old(state).values()[i] is Bool)
            ==> #[trigger] final(state).values()[i] == old(state).values()[i],
        changes_within(*g, -1, *old(state), *final(state)),
        g.inactive_clauses_satisfied(*old(state)) ==> g.inactive_clauses_satisfied(*final(state)),
        deactivations_justified(*g, *old(state), *final(state)),
{
    let list: &Vec<ClauseIndex> = if value {
        g.variables[variable.0].iter_clauses_positive_occurence()
    } else {
        g.variables[variable.0].iter_clauses_negative_occurence()
    };
    let ghost occ = if value { g.variables@[variable.0 as int].clauses_positive@ } else {
        g.variables@[variable.0 as int].clauses_negative@
    };
    proof {
        assert forall|c: int, k: int| 0 <= c < g.nclauses() && 0 <= k < g.clauses@[c].literals@.len()
            && (#[trigger] g.clauses@[c]).is_active_in(*old(state)) && (#[trigger] g.lit(c, k)).is_true_in(*old(state))
            implies exists|j: int| 0 <= j < occ.len() && occ[j] == ClauseIndex(c as usize) by {
            let l = g.lit(c, k);
            assert(l.positive == value);
            assert(occ.contains(ClauseIndex(c as usize)));
        }
    }
    let mut k: usize = 0;
    while k < list.len()
        invariant
            list@ == occ,
            k <= occ.len(),
            variable.0 < g.nvars(),
            g.wf(*old(state)),
            g.wf(*state),
            same_kinds(*old(state), *state),
            forall|j: int| 0 <= j < occ.len() ==> (#[trigger] occ[j]).0 < g.nclauses(),
            forall|v: int| 0 <= v < g.nvars() ==> #[trigger] g.value_of(v, *state) == g.value_of(v, *old(state)),
            forall|c: int| 0 <= c < g.nclauses() && (#[trigger] g.clauses@[c]).is_active_in(*state)
                ==> g.clauses@[c].is_active_in(*old(state)),
            forall|i: int| 0 <= i < old(state).values().len() && !(old(state).values()[i] is Bool)
                ==> #[trigger] state.values()[i] == old(state).values()[i],
            changes_within(*g, -1, *old(state), *state),
            g.inactive_clauses_satisfied(*old(state)) ==> g.inactive_clauses_satisfied(*state),
            deactivations_justified(*g, *old(state), *state),
            occ == (if value { g.variables@[variable.0 as int].clauses_positive@ } else {
                g.variables@[variable.0 as int].clauses_negative@
            }),
            g.value_of(variable.0 as int, *old(state)) == Some(value),
            forall|c: int, kk: int| 0 <= c < g.nclauses() && 0 <= kk < g.clauses@[c].literals@.len()
                && (#[trigger] g.clauses@[c]).is_active_in(*state) && (#[trigger] g.lit(c, kk)).is_true_in(*state)
                ==> exists|j: int| k <= j < occ.len() && occ[j] == ClauseIndex(c as usize),
        decreases occ.len() - k,
    {
        let c = list[k];
        proof {
            assert(g.clauses@[c.0 as int].wf_in(*state));
        }
        let ghost prev = *state;
        g.deactivate_clause(c, state);
        proof {
            let ai = g.clauses@[c.0 as int].active.0 as int;
            if g.inactive_clauses_satisfied(*old(state)) {
                assert forall|d: int| 0 <= d < g.nclauses() && !(#[trigger] g.clauses@[d]).is_active_in(*state)
                    implies exists|kk: int| 0 <= kk < g.clauses@[d].literals@.len() && (#[trigger] g.lit(d, kk)).is_true_in(*state) by {
                    if d == c.0 as int {
                        assert(occ[k as int] == c);
                        if value {
                            assert(g.variables@[variable.0 as int].clauses_positive@[k as int] == c);
                        } else {
                            assert(g.variables@[variable.0 as int].clauses_negative@[k as int] == c);
                        }
                        assert(g.clause_has(d, variable.0 as int, value));
                        let kk = choose|kk: int| 0 <= kk < g.clauses@[d].literals@.len() && (#[trigger] g.lit(d, kk)).variable.0
                            == variable.0 && g.lit(d, kk).positive == value;
                        assert(g.lit(d, kk).value == g.variables@[variable.0 as int].value);
                        assert(g.value_of(variable.0 as int, *state) == g.value_of(variable.0 as int, *old(state)));
                        assert(g.lit(d, kk).is_true_in(*state));
                    } else {
                        assert(g.clauses@[d].active.0 != ai);
                        assert(!g.clauses@[d].is_active_in(prev));
                        let kk = choose|kk: int| 0 <= kk < g.clauses@[d].literals@.len() && (#[trigger] g.lit(d, kk)).is_true_in(prev);
                        let l = g.lit(d, kk);
                        assert(g.variables@[l.variable.0 as int].wf_in(prev));
                        assert(l.value == g.variables@[l.variable.0 as int].value);
                        assert(l.is_true_in(*state));
                    }
                }
            }
            assert forall|i: int| 0 <= i < old(state).values().len() && #[trigger] state.values()[i] != old(state).values()[i]
                implies i == -1 || owned_by(*g, i) by {
                if i == ai {
                    assert(g.clauses@[c.0 as int].active.0 == i);
                } else {
                    assert(state.values()[i] == prev.values()[i]);
                }
            }
            assert forall|i: int| 0 <= i < old(state).values().len() implies same_kind(#[trigger] state.values()[i], old(state).values()[i]) by {
                if i == ai {
                    assert(same_kind(prev.values()[i], old(state).values()[i]));
                } else {
                    assert(same_kind(prev.values()[i], old(state).values()[i]));
                }
            }
            assert forall|v: int| 0 <= v < g.nvars() implies #[trigger] g.value_of(v, *state) == g.value_of(v, *old(state)) by {
                assert(g.variables@[v].wf_in(prev));
                assert(g.value_of(v, prev) == g.value_of(v, *old(state)));
            }
            assert forall|d: int| 0 <= d < g.nclauses() && (#[trigger] g.clauses@[d]).is_active_in(*state)
                implies g.clauses@[d].is_active_in(*old(state)) by {
                if d != c.0 {
                    assert(g.clauses@[d].is_active_in(prev));
                }
            }
            assert forall|i: int| 0 <= i < old(state).values().len() && !(old(state).values()[i] is Bool)
                implies #[trigger] state.values()[i] == old(state).values()[i] by {
                assert(prev.values()[i] == old(state).values()[i]);
            }
            g.lemma_wf_same_kinds(*old(state), *state);
            assert forall|d: int| 0 <= d < g.nclauses() implies {
                &&& ((#[trigger] g.clauses@[d]).is_active_in(*state) ==> g.clauses@[d].is_active_in(*old(state)))
                &&& (g.clauses@[d].is_active_in(*old(state)) && !g.clauses@[d].is_active_in(*state)
                    ==> exists|kk: int| 0 <= kk < g.clauses@[d].literals@.len() && (#[trigger] g.lit(d, kk)).is_true_in(*state))
            } by {
                if g.clauses@[d].is_active_in(*old(state)) && !g.clauses@[d].is_active_in(*state) {
                    if d == c.0 as int {
                        assert(occ[k as int] == c);
                        if value {
                            assert(g.variables@[variable.0 as int].clauses_positive@[k as int] == c);
                        } else {
                            assert(g.variables@[variable.0 as int].clauses_negative@[k as int] == c);
                        }
                        assert(g.clause_has(d, variable.0 as int, value));
                        let kk = choose|kk: int| 0 <= kk < g.clauses@[d].literals@.len() && (#[trigger] g.lit(d, kk)).variable.0
                            == variable.0 && g.lit(d, kk).positive == value;
                        assert(g.lit(d, kk).value == g.variables@[variable.0 as int].value);
                        assert(g.value_of(variable.0 as int, *state) == g.value_of(variable.0 as int, *old(state)));
                        assert(g.lit(d, kk).is_true_in(*state));
                    } else {
                        assert(g.clauses@[d].active.0 != g.clauses@[c.0 as int].active.0);
                        assert(!g.clauses@[d].is_active_in(prev));
                        let kk = choose|kk: int| 0 <= kk < g.clauses@[d].literals@.len() && (#[trigger] g.lit(d, kk)).is_true_in(prev);
                        let l = g.lit(d, kk);
                        assert(g.variables@[l.variable.0 as int].wf_in(prev));
                        assert(l.value == g.variables@[l.variable.0 as int].value);
                        assert(l.is_true_in(*state));
                    }
                }
            }
            assert forall|d: int, kk: int| 0 <= d < g.nclauses() && 0 <= kk < g.clauses@[d].literals@.len()
                && (#[trigger] g.clauses@[d]).is_active_in(*state) && (#[trigger] g.lit(d, kk)).is_true_in(*state)
                implies exists|j: int| k + 1 <= j < occ.len() && occ[j] == ClauseIndex(d as usize) by {
                assert(g.clauses@[d].is_active_in(prev));
                let l = g.lit(d, kk);
                assert(g.value_of(l.variable.0 as int, *state) == g.value_of(l.variable.0 as int, prev));
                assert(l.is_true_in(prev));
                let j = choose|j: int| k <= j < occ.len() && occ[j] == ClauseIndex(d as usize);
                if j == k {
                    assert(g.clauses.len() == g.clauses@.len());
                    assert(occ[j] == c);
                    assert(d == c.0 as int);
                    assert(state.values()[g.clauses@[d].active.0 as int] == Slot::Bool(false));
                }
            }
        }
        k += 1;
    }
}

impl Propagator {
    /// The requests of `self` are those of `before`, followed by requests that
    /// come from clauses of `g`, at `level`.
    pub open spec fn extends_requests(&self, before: Propagator, g: Problem, level: isize) -> bool {
        &&& self.propagation_stack@.len() >= before.propagation_stack@.len()
        &&& forall|i: int| 0 <= i < before.propagation_stack@.len()
            ==> #[trigger] self.propagation_stack@[i] == before.propagation_stack@[i]
        &&& forall|i: int| before.propagation_stack@.len() <= i < self.propagation_stack@.len()
            ==> is_forced(g, #[trigger] self.propagation_stack@[i], level)
    }

    /// Visits the clauses watched by `variable`, which just got a value: each
    /// active one is marked as modified and told of the value; when its second
    /// watched literal changes, it moves to the watch list of the new one; and
    /// when it becomes unit, its remaining literal is requested.
    fn process_watchers(&mut self, g: &mut Problem, variable: VariableIndex, level: isize, state: &mut Trail)
        requires
            old(g).wf(*old(state)),
            old(g).active_clauses_unsatisfied(*old(state)),
            old(self).wf_with(*old(g), *old(state)),
            variable.0 < old(g).nvars(),
        ensures
            final(g).wf(*final(state)),
            final(g).active_clauses_unsatisfied(*final(state)),
            final(g).same_formula(*old(g)),
            final(self).wf_with(*final(g), *final(state)),
            same_kinds(*old(state), *final(state)),
            forall|v: int| 0 <= v < old(g).nvars() ==> #[trigger] final(g).value_of(v, *final(state)) == old(g).value_of(v, *old(state)),
            forall|c: int| 0 <= c < old(g).nclauses() ==> (#[trigger] final(g).clauses@[c]).is_active_in(*final(state))
                == old(g).clauses@[c].is_active_in(*old(state)),
            forall|i: int| 0 <= i < old(state).values().len() && !(old(state).values()[i] is Bool)
                ==> #[trigger] final(state).values()[i] == old(state).values()[i],
            final(self).assignments@ == old(self).assignments@,
            final(self).base_assignments == old(self).base_assignments,
            final(self).extends_requests(*old(self), *final(g), level),
            final(g).variables@ == old(g).variables@,
            forall|i: int| old(self).propagation_stack@.len() <= i < final(self).propagation_stack@.len()
                ==> forced_in(*final(g), *final(state), #[trigger] final(self).propagation_stack@[i]),
            changes_within(*old(g), -1, *old(state), *final(state)),
            old(g).inactive_clauses_satisfied(*old(state)) ==> final(g).inactive_clauses_satisfied(*final(state)),
            (watches_complete(*old(g)) && distinct_variables(*old(g)) && old(g).value_of(variable.0 as int, *old(state)) is Some
                && visit_state(*old(g), *old(state), old(self).propagation_stack@, variable,
                    old(g).watchers@[variable.0 as int]@.len() as int))
                ==> watches_complete(*final(g)) && distinct_variables(*final(g))
                && watch_state(*final(g), *final(state), final(self).propagation_stack@),
            ({
                let n = old(g).watchers@[variable.0 as int]@.len() as int;
                exists|ps: Seq<Propagator>, gs: Seq<Problem>, ss: Seq<Trail>| {
                    &&& #[trigger] visits_down(ps, gs, ss, variable, level, n, n)
                    &&& ps[0] == *old(self)
                    &&& gs[0] == *old(g)
                    &&& ss[0] == *old(state)
                    &&& ps[n] == *final(self)
                    &&& gs[n] == *final(g)
                    &&& ss[n] == *final(state)
                }
            }),
    {
        let mut i: usize = g.number_watchers(variable);
        let ghost n = i as int;
        let ghost mut ps: Seq<Propagator> = seq![*self];
        let ghost mut gs: Seq<Problem> = seq![*g];
        let ghost mut ss: Seq<Trail> = seq![*state];
        let ghost watched = watches_complete(*g) && distinct_variables(*g) && g.value_of(variable.0 as int, *state) is Some
            && visit_state(*g, *state, self.propagation_stack@, variable, n);
        proof {
            lemma_same_literals_refl_all(*g);
        }
        while i > 0
            invariant
                watched == (watches_complete(*old(g)) && distinct_variables(*old(g))
                    && old(g).value_of(variable.0 as int, *old(state)) is Some
                    && visit_state(*old(g), *old(state), old(self).propagation_stack@, variable, n)),
                watched ==> watches_complete(*g) && distinct_variables(*g)
                    && visit_state(*g, *state, self.propagation_stack@, variable, i as int),
                g.wf(*state),
                g.active_clauses_unsatisfied(*state),
                g.same_formula(*old(g)),
                self.wf_with(*g, *state),
                variable.0 < g.nvars(),
                i <= g.watchers@[variable.0 as int]@.len(),
                same_kinds(*old(state), *state),
                forall|v: int| 0 <= v < old(g).nvars() ==> #[trigger] g.value_of(v, *state) == old(g).value_of(v, *old(state)),
                forall|c: int| 0 <= c < old(g).nclauses() ==> (#[trigger] g.clauses@[c]).is_active_in(*state)
                    == old(g).clauses@[c].is_active_in(*old(state)),
                forall|j: int| 0 <= j < old(state).values().len() && !(old(state).values()[j] is Bool)
                    ==> #[trigger] state.values()[j] == old(state).values()[j],
                self.assignments@ == old(self).assignments@,
                self.base_assignments == old(self).base_assignments,
                self.extends_requests(*old(self), *g, level),
                g.variables@ == old(g).variables@,
                forall|k: int| old(self).propagation_stack@.len() <= k < self.propagation_stack@.len()
                    ==> forced_in(*g, *state, #[trigger] self.propagation_stack@[k]),
                changes_within(*old(g), -1, *old(state), *state),
                n == old(g).watchers@[variable.0 as int]@.len(),
                visits_down(ps, gs, ss, variable, level, n, n - i),
                ps[0] == *old(self),
                gs[0] == *old(g),
                ss[0] == *old(state),
                ps[n - i] == *self,
                gs[n - i] == *g,
                ss[n - i] == *state,
                i <= n,
            decreases i,
        {
            i -= 1;
            let ghost g1 = *g;
            let ghost s1 = *state;
            let ghost p1 = *self;
            self.visit_watched(g, variable, i, level, state);
            proof {
                if watched {
                    assert forall|k: int| 0 <= k < p1.propagation_stack@.len()
                        implies (#[trigger] p1.propagation_stack@[k]).0.0 < g1.nvars() by {}
                    lemma_visit_settles(p1, g1, s1, *self, *g, *state, variable, i as int, level);
                }
                let m = n - i - 1;
                let ps0 = ps;
                let gs0 = gs;
                let ss0 = ss;
                ps = ps.push(*self);
                gs = gs.push(*g);
                ss = ss.push(*state);
                assert forall|k: int| 0 <= k < m + 1 implies #[trigger] visit_effect(ps[k], gs[k], ss[k], ps[k + 1], gs[k + 1],
                    ss[k + 1], variable, n - 1 - k, level) by {
                    if k < m {
                        assert(ps[k] == ps0[k] && ps[k + 1] == ps0[k + 1]);
                        assert(gs[k] == gs0[k] && gs[k + 1] == gs0[k + 1]);
                        assert(ss[k] == ss0[k] && ss[k + 1] == ss0[k + 1]);
                        assert(visit_effect(ps0[k], gs0[k], ss0[k], ps0[k + 1], gs0[k + 1], ss0[k + 1], variable, n - 1 - k, level));
                    } else {
                        assert(ps[k] == p1 && gs[k] == g1 && ss[k] == s1);
                    }
                }
                lemma_changes_trans(*old(g), g1, -1, *old(state), s1, *state);
                lemma_same_formula_models(g1, *g, s1, *state);
                assert forall|k: int| old(self).propagation_stack@.len() <= k < self.propagation_stack@.len()
                    implies forced_in(*g, *state, #[trigger] self.propagation_stack@[k]) by {
                    if k < p1.propagation_stack@.len() {
                        assert(self.propagation_stack@[k] == p1.propagation_stack@[k]);
                        assert(forced_in(g1, s1, p1.propagation_stack@[k]));
                    }
                }
                lemma_same_formula_trans(*g, g1, *old(g));
                lemma_same_formula_sym(*g, g1);
                assert forall|j: int| 0 <= j < old(state).values().len()
                    implies same_kind(#[trigger] state.values()[j], old(state).values()[j]) by {
                    assert(same_kind(s1.values()[j], old(state).values()[j]));
                    assert(same_kind(state.values()[j], s1.values()[j]));
                }
                assert forall|v: int| 0 <= v < old(g).nvars() implies #[trigger] g.value_of(v, *state) == old(g).value_of(v, *old(state)) by {
                    assert(g.value_of(v, *state) == g1.value_of(v, s1));
                }
                assert forall|c: int| 0 <= c < old(g).nclauses() implies (#[trigger] g.clauses@[c]).is_active_in(*state)
                    == old(g).clauses@[c].is_active_in(*old(state)) by {
                    assert(g.clauses@[c].is_active_in(*state) == g1.clauses@[c].is_active_in(s1));
                }
                assert forall|j: int| 0 <= j < old(state).values().len() && !(old(state).values()[j] is Bool)
                    implies #[trigger] state.values()[j] == old(state).values()[j] by {
                    assert(s1.values()[j] == old(state).values()[j]);
                }
                assert forall|k: int| old(self).propagation_stack@.len() <= k < self.propagation_stack@.len()
                    implies is_forced(*g, #[trigger] self.propagation_stack@[k], level) by {
                    if k < p1.propagation_stack@.len() {
                        assert(is_forced(g1, p1.propagation_stack@[k], level));
                        let e = p1.propagation_stack@[k];
                        let c = choose|c: int| 0 <= c < g1.nclauses() && #[trigger] g1.clause_has(c, e.0.0 as int, e.1);
                        assert(g.clause_has(c, e.0.0 as int, e.1));
                    }
                }
            }
        }
        proof {
            if old(g).inactive_clauses_satisfied(*old(state)) {
                lemma_inactive_frame(*old(g), *g, *old(state), *state);
            }
            if watched {
                lemma_visited_all(*g, *state, self.propagation_stack@, variable);
            }
            assert(visits_down(ps, gs, ss, variable, level, n, n));
        }
    }

    /// Visits the clause at position `i` of the watch list of `variable`.
    #[verifier::spinoff_prover]
    #[verifier::rlimit(40)]
    fn visit_watched(&mut self, g: &mut Problem, variable: VariableIndex, i: usize, level: isize, state: &mut Trail)
        requires
            old(g).wf(*old(state)),
            old(g).active_clauses_unsatisfied(*old(state)),
            old(self).wf_with(*old(g), *old(state)),
            variable.0 < old(g).nvars(),
            i < old(g).watchers@[variable.0 as int]@.len(),
        ensures
            final(g).wf(*final(state)),
            final(g).active_clauses_unsatisfied(*final(state)),
            final(g).same_formula(*old(g)),
            final(self).wf_with(*final(g), *final(state)),
            i <= final(g).watchers@[variable.0 as int]@.len(),
            same_kinds(*old(state), *final(state)),
            forall|v: int| 0 <= v < old(g).nvars() ==> #[trigger] final(g).value_of(v, *final(state)) == old(g).value_of(v, *old(state)),
            forall|c: int| 0 <= c < old(g).nclauses() ==> (#[trigger] final(g).clauses@[c]).is_active_in(*final(state))
                == old(g).clauses@[c].is_active_in(*old(state)),
            forall|j: int| 0 <= j < old(state).values().len() && !(old(state).values()[j] is Bool)
                ==> #[trigger] final(state).values()[j] == old(state).values()[j],
            final(self).assignments@ == old(self).assignments@,
            final(self).base_assignments == old(self).base_assignments,
            final(self).extends_requests(*old(self), *final(g), level),
            final(g).variables@ == old(g).variables@,
            forall|i: int| old(self).propagation_stack@.len() <= i < final(self).propagation_stack@.len()
                ==> forced_in(*final(g), *final(state), #[trigger] final(self).propagation_stack@[i]),
            changes_within(*old(g), -1, *old(state), *final(state)),
            visit_effect(*old(self), *old(g), *old(state), *final(self), *final(g), *final(state), variable, i as int, level),
    {
        let clause = g.get_clause_watched(variable, i);
        proof {
            lemma_same_literals_refl_all(*g);
            assert(g.clause_has(clause.0 as int, variable.0 as int, true) || g.clause_has(clause.0 as int, variable.0 as int, false));
            assert(g.clauses@[clause.0 as int].wf_in(*state));
        }
        if !g.clauses[clause.0].is_active(state) {
            return;
        }
        g.clauses[clause.0].modified(state);
        proof {
            let s1 = *old(state);
            assert forall|j: int| 0 <= j < s1.values().len() && #[trigger] state.values()[j] != s1.values()[j]
                implies j == -1 || owned_by(*g, j) by {
                assert(g.clauses@[clause.0 as int].modified.0 == j);
            }
            assert forall|j: int| 0 <= j < s1.values().len() implies same_kind(#[trigger] state.values()[j], s1.values()[j]) by {}
            assert forall|v: int| 0 <= v < g.nvars() implies #[trigger] g.value_of(v, *state) == g.value_of(v, s1) by {
                assert(g.variables@[v].wf_in(s1));
            }
            assert forall|c: int| 0 <= c < g.nclauses() implies (#[trigger] g.clauses@[c]).is_active_in(*state)
                == g.clauses@[c].is_active_in(s1) by {
                assert(g.clauses@[c].active.0 != g.clauses@[clause.0 as int].modified.0);
            }
            g.lemma_wf_same_kinds(s1, *state);
            lemma_unsatisfied_frame(*g, s1, *state);
        }
        let ghost g1 = *g;
        let new_watcher = g.notify_clause(clause, variable, state);
        let ghost g_notified = *g;
        if new_watcher != variable {
            g.remove_watcher(variable, i);
            g.add_watcher(new_watcher, clause);
            proof {
                assert forall|u: int| 0 <= u < g1.watchers@.len() && u != variable.0 && u != new_watcher.0
                    implies #[trigger] g.watchers@[u] == g1.watchers@[u] by {}
            }
        }
        let ghost p_mid = *self;
        proof {
            assert(g.clauses@ == g_notified.clauses@);
            assert(p_mid == *old(self));
        }
        proof {
            lemma_same_literals_refl_all(g1);
            g.lemma_same_formula_wf(g1, *state);
            lemma_same_formula_sym(*g, g1);
            assert(g.clauses@[clause.0 as int].wf_in(*state));
        }
        if g.clauses[clause.0].is_unit(state) {
            let l = g.clauses[clause.0].get_unit_assigment(state);
            proof {
                let c = clause.0 as int;
                let lits = g.clauses@[c].literals@;
                let old_lits = g1.clauses@[c].literals@;
                assert(lits == notified_literals(old_lits, variable, *state));
                assert(g.lit(c, 0) == l);
                if lits.len() >= 2 {
                    crate::formula::clause::lemma_notified_second_fixed(old_lits, variable, *state);
                }
                assert forall|k: int| 0 <= k < lits.len() && !((#[trigger] g.lit(c, k)).variable.0 == l.variable.0
                    && g.lit(c, k).positive == l.positive)
                    implies g.value_of(g.lit(c, k).variable.0 as int, *state) == Some(!g.lit(c, k).positive) by {
                    let x = g.lit(c, k);
                    assert(k != 0);
                    assert(lits[k] == x);
                    assert(x.variable_value(*state) is Some);
                    assert(!x.is_true_in(*state));
                    assert(x.value == g.variables@[x.variable.0 as int].value);
                }
                assert(clause_forces(*g, *state, c, l.variable.0 as int, l.positive));
            }
            self.add_to_propagation_stack(l.to_variable(), l.is_positive(), level);
            proof {
                assert(g.lit(clause.0 as int, 0) == l);
                assert(g.clause_has(clause.0 as int, l.variable.0 as int, l.positive));
                let n = old(self).propagation_stack@.len() as int;
                let e = self.propagation_stack@[n];
                assert(e == (l.variable, l.positive, level));
                assert(clause_forces(*g, *state, clause.0 as int, e.0.0 as int, e.1));
                assert(clause.0 < g.nclauses());
                assert(g.clauses@[clause.0 as int].literals@.len() > 0);
                assert(g.wf_literals());
                assert(l.variable.0 < g.nvars());
                assert(e.0.0 == l.variable.0 && e.1 == l.positive);
                assert(g.clause_has(clause.0 as int, e.0.0 as int, e.1));
                assert(is_forced(*g, e, level));
                assert forall|k: int| n <= k < self.propagation_stack@.len()
                    implies is_forced(*g, #[trigger] self.propagation_stack@[k], level) by {
                    assert(k == n);
                }
            }
        }
    }
}

impl Propagator {
    /// Fixes the unset `variable` to `value` at `l`: records the assignment and
    /// its position, sets inactive the clauses it satisfies, and visits the
    /// clauses it watches; requests that these make are at `level`.
    fn assign(&mut self, g: &mut Problem, variable: VariableIndex, value: bool, l: isize, level: isize, state: &mut Trail)
        requires
            old(g).wf(*old(state)),
            old(g).active_clauses_unsatisfied(*old(state)),
            old(self).wf_with(*old(g), *old(state)),
            variable.0 < old(g).nvars(),
            old(g).value_of(variable.0 as int, *old(state)) is None,
        ensures
            final(g).wf(*final(state)),
            final(g).active_clauses_unsatisfied(*final(state)),
            final(g).same_formula(*old(g)),
            final(self).wf_with(*final(g), *final(state)),
            same_kinds(*old(state), *final(state)),
            final(state).usize_at(old(self).base_assignments) == old(state).usize_at(old(self).base_assignments),
            final(g).value_of(variable.0 as int, *final(state)) == Some(value),
            forall|v: int| 0 <= v < old(g).nvars() && v != variable.0
                ==> #[trigger] final(g).value_of(v, *final(state)) == old(g).value_of(v, *old(state)),
            final(self).assignments@ == old(self).assignments@.push(
                Literal { variable, positive: value, value: old(g).variables@[variable.0 as int].value },
            ),
            final(self).base_assignments == old(self).base_assignments,
            final(self).extends_requests(*old(self), *final(g), level),
            final(g).variables@[variable.0 as int].decision == l,
            forall|v: int| 0 <= v < old(g).nvars() && v != variable.0
                ==> (#[trigger] final(g).variables@[v]).decision == old(g).variables@[v].decision,
            final(state).usize_at(old(g).variables@[variable.0 as int].assignment_position) == old(self).assignments@.len(),
            forall|v: int| 0 <= v < old(g).nvars() && v != variable.0
                ==> final(state).usize_at((#[trigger] old(g).variables@[v]).assignment_position)
                == old(state).usize_at(old(g).variables@[v].assignment_position),
            forall|i: int| old(self).propagation_stack@.len() <= i < final(self).propagation_stack@.len()
                ==> forced_in(*final(g), *final(state), #[trigger] final(self).propagation_stack@[i]),
            changes_within(*old(g), -1, *old(state), *final(state)),
            old(g).inactive_clauses_satisfied(*old(state)) ==> final(g).inactive_clauses_satisfied(*final(state)),
            (watches_complete(*old(g)) && distinct_variables(*old(g))
                && watch_state_before(*old(g), *old(state), old(self).propagation_stack@, variable, value))
                ==> watches_complete(*final(g)) && distinct_variables(*final(g))
                && watch_state(*final(g), *final(state), final(self).propagation_stack@),
            deactivations_justified(*final(g), *old(state), *final(state)),
    {
        let ghost s0 = *old(state);
        let ghost g0 = *old(g);
        proof {
            assert(g.variables@[variable.0 as int].wf_in(*state));
        }
        g.variables[variable.0].set_assignment_position(self.assignments.len(), state);
        let ghost s1 = *state;
        proof {
            let pi = g0.variables@[variable.0 as int].assignment_position.0 as int;
            assert forall|j: int| 0 <= j < s0.values().len() implies same_kind(#[trigger] s1.values()[j], s0.values()[j]) by {}
            g.lemma_wf_same_kinds(s0, s1);
            assert forall|v: int| 0 <= v < g.nvars() implies #[trigger] g.value_of(v, s1) == g.value_of(v, s0) by {
                assert(g.variables@[v].wf_in(s0));
            }
            assert forall|c: int| 0 <= c < g.nclauses() implies (#[trigger] g.clauses@[c]).is_active_in(s1)
                == g.clauses@[c].is_active_in(s0) by {
                assert(g.clauses@[c].wf_in(s0));
            }
            lemma_unsatisfied_frame(*g, s0, s1);
        }
        let value_index = g.variables[variable.0].get_value_index();
        self.assignments.push(Literal::from_variable(variable, value, value_index));
        g.set_variable(variable, value, l, state);
        let ghost s2 = *state;
        let ghost g2 = *g;
        proof {
            lemma_same_literals_refl_all(g0);
            g.lemma_same_formula_wf(g0, s1);
            lemma_same_formula_sym(*g, g0);
            let vi = g0.variables@[variable.0 as int].value.0 as int;
            assert forall|j: int| 0 <= j < s0.values().len() implies same_kind(#[trigger] s2.values()[j], s0.values()[j]) by {
                assert(same_kind(s1.values()[j], s0.values()[j]));
                if j == vi {
                    assert(g0.variables@[variable.0 as int].wf_in(s0));
                }
            }
            assert forall|v: int| 0 <= v < g.nvars() && v != variable.0 implies #[trigger] g.value_of(v, s2) == g.value_of(v, s0) by {
                assert(g.variables@[v].value.0 != g.variables@[variable.0 as int].value.0);
                assert(g.value_of(v, s1) == g.value_of(v, s0));
            }
            assert forall|c: int| 0 <= c < g.nclauses() implies (#[trigger] g.clauses@[c]).is_active_in(s2)
                == g.clauses@[c].is_active_in(s0) by {
                assert(g.clauses@[c].wf_in(s0));
                assert(g.variables@[variable.0 as int].wf_in(s0));
                assert(g.clauses@[c].is_active_in(s1) == g.clauses@[c].is_active_in(s0));
            }
            assert forall|c: int, k: int| 0 <= c < g.nclauses() && 0 <= k < g.clauses@[c].literals@.len()
                && (#[trigger] g.clauses@[c]).is_active_in(s2) && (#[trigger] g.lit(c, k)).is_true_in(s2)
                implies g.lit(c, k).variable == variable by {
                let lit = g.lit(c, k);
                assert(lit == g0.lit(c, k));
                if lit.variable != variable {
                    assert(g.value_of(lit.variable.0 as int, s2) == g.value_of(lit.variable.0 as int, s0));
                    assert(g0.clauses@[c].is_active_in(s0));
                }
            }
        }
        deactivate_occurrences(g, variable, value, state);
        let ghost s3 = *state;
        proof {
            if watches_complete(g0) && distinct_variables(g0)
                && watch_state_before(g0, s0, self.propagation_stack@, variable, value) {
                assert(g.clauses@ =~= g0.clauses@);
                let vi = g0.variables@[variable.0 as int].value;
                assert(s2.values()[vi.0 as int] == Slot::OptionBool(Some(value)));
                assert(g.value_of(variable.0 as int, s3) == Some(value));
                assert forall|u: int| 0 <= u < g0.nvars() && u != variable.0
                    implies #[trigger] g.value_of(u, s3) == g0.value_of(u, s0) by {
                    assert(g.value_of(u, s2) == g.value_of(u, s0));
                    assert(g.variables@[u].value == g0.variables@[u].value);
                }
                assert forall|k: int| 0 <= k < self.propagation_stack@.len()
                    implies (#[trigger] self.propagation_stack@[k]).0.0 < g0.nvars() by {}
                lemma_assigned_visit_state(g0, s0, *g, s3, self.propagation_stack@, variable, value);
            }
            assert(self.wf_with(*g, s3)) by {
                let b = self.base_assignments.0 as int;
                assert(s0.is_usize(self.base_assignments));
                assert(s3.values()[b] == s0.values()[b]) by {
                    assert(s1.values()[b] == s0.values()[b]);
                    assert(s2.values()[b] == s1.values()[b]) by {
                        assert(g0.variables@[variable.0 as int].wf_in(s0));
                    }
                }
            }
        }
        proof {
            assert(deactivations_justified(g2, s0, s2)) by {
                assert forall|c: int| 0 <= c < g2.nclauses() implies (#[trigger] g2.clauses@[c]).is_active_in(s2)
                    == g2.clauses@[c].is_active_in(s0) by {
                    assert(g2.clauses@[c] == g0.clauses@[c]);
                    assert(g0.clauses@[c].wf_in(s0));
                    assert(g0.variables@[variable.0 as int].wf_in(s0));
                }
            }
            lemma_same_literals_refl_all(g2);
            lemma_justified_trans(g2, g2, s0, s2, s3);
        }
        self.process_watchers(g, variable, level, state);
        proof {
            lemma_justified_frame(g2, *g, s0, s3, *state);
            let b = old(self).base_assignments.0 as int;
            assert(s3.values()[b] == s0.values()[b]) by {
                assert(s1.values()[b] == s0.values()[b]);
                assert(g0.variables@[variable.0 as int].wf_in(s0));
            }
            assert(state.values()[b] == s3.values()[b]);
            lemma_same_formula_trans(*g, g2, g0);
            assert forall|j: int| 0 <= j < s0.values().len() implies same_kind(#[trigger] state.values()[j], s0.values()[j]) by {
                assert(same_kind(s2.values()[j], s0.values()[j]));
                assert(same_kind(s3.values()[j], s2.values()[j]));
                assert(same_kind(state.values()[j], s3.values()[j]));
            }
            assert(g.value_of(variable.0 as int, *state) == g2.value_of(variable.0 as int, s3));
            assert forall|k: int| old(self).propagation_stack@.len() <= k < self.propagation_stack@.len()
                implies is_forced(*g, #[trigger] self.propagation_stack@[k], level) by {}
            let x = g0.variables@[variable.0 as int];
            assert(changes_within(g0, -1, s0, s2)) by {
                assert forall|j: int| 0 <= j < s0.values().len() && #[trigger] s2.values()[j] != s0.values()[j]
                    implies j == -1 || owned_by(g0, j) by {
                    assert(j == x.value.0 || j == x.assignment_position.0);
                    assert(g0.variables@[variable.0 as int] == x);
                }
            }
            lemma_changes_trans(g0, g2, -1, s0, s2, s3);
            lemma_changes_trans(g0, g2, -1, s0, s3, *state);
            if g0.inactive_clauses_satisfied(s0) {
                assert forall|v: int| 0 <= v < g0.nvars() && (#[trigger] g0.value_of(v, s0)) is Some
                    implies g0.value_of(v, s2) == g0.value_of(v, s0) by {
                    assert(v != variable.0);
                    assert(g2.value_of(v, s2) == g2.value_of(v, s0));
                    assert(g2.variables@[v].value == g0.variables@[v].value);
                }
                lemma_inactive_frame(g0, g2, s0, s2);
            }
        }
    }
}

/// `a` is `a0` followed by the assignments made from `s0` to `s` in problem `g`:
/// each fixes a variable that was unset in `s0` to the polarity it has in `s`,
/// asked for by `requests` or by a literal of a clause; no variable twice; values
/// set in `s0` are kept; and every variable that got a value is among them.
pub open spec fn assignments_recorded(
    g: Problem,
    s0: Trail,
    s: Trail,
    a0: Seq<Literal>,
    a: Seq<Literal>,
    requests: Seq<(VariableIndex, bool, isize)>,
) -> bool {
    &&& a.len() >= a0.len()
    &&& a.take(a0.len() as int) == a0
    &&& forall|k: int| a0.len() <= k < a.len() ==> {
        let l = #[trigger] a[k];
        &&& l.variable.0 < g.nvars()
        &&& l.value == g.variables@[l.variable.0 as int].value
        &&& g.value_of(l.variable.0 as int, s0) is None
        &&& g.value_of(l.variable.0 as int, s) == Some(l.positive)
        &&& (stack_asks(requests, l.variable.0 as int, l.positive) || exists|c: int| 0 <= c < g.nclauses()
            && #[trigger] g.clause_has(c, l.variable.0 as int, l.positive))
    }
    &&& forall|k1: int, k2: int| a0.len() <= k1 < a.len() && a0.len() <= k2 < a.len() && k1 != k2
        ==> (#[trigger] a[k1]).variable != (#[trigger] a[k2]).variable
    &&& forall|v: int| 0 <= v < g.nvars() && (#[trigger] g.value_of(v, s0)) is Some ==> g.value_of(v, s) == g.value_of(v, s0)
    &&& forall|v: int| 0 <= v < g.nvars() && (#[trigger] g.value_of(v, s0)) is None && g.value_of(v, s) is Some
        ==> exists|k: int| a0.len() <= k < a.len() && (#[trigger] a[k]).variable.0 == v
}

/// A model of `g0` that keeps the values of `s` grants every request from
/// position `from` on that a clause of `g` forces in `s`.
proof fn lemma_forced_requests_granted(
    g0: Problem,
    g: Problem,
    s: Trail,
    stack: Seq<(VariableIndex, bool, isize)>,
    from: int,
    sigma: Seq<bool>,
)
    requires
        g0.wf_literals(),
        g.wf_literals(),
        g.same_formula(g0),
        is_model(sigma, g0),
        agrees(sigma, g0, s),
        forall|i: int| from <= i < stack.len() ==> forced_in(g, s, #[trigger] stack[i]),
    ensures
        forall|i: int| from <= i < stack.len() ==> sigma[(#[trigger] stack[i]).0.0 as int] == stack[i].1,
{
    lemma_same_formula_models(g0, g, s, s);
    assert forall|i: int| from <= i < stack.len() implies sigma[(#[trigger] stack[i]).0.0 as int] == stack[i].1 by {
        let e = stack[i];
        assert(forced_in(g, s, e));
        let c = choose|c: int| #[trigger] clause_forces(g, s, c, e.0.0 as int, e.1);
        lemma_forced_granted(g, s, c, e.0.0 as int, e.1, sigma);
    }
}

/// The literal of `v` with polarity `b` is false once the assignments of `a`
/// from position `from` up to `k` are made over the values of `s0`.
pub open spec fn false_after(g: Problem, s0: Trail, a: Seq<Literal>, from: int, k: int, v: int, b: bool) -> bool {
    ||| g.value_of(v, s0) == Some(!b)
    ||| exists|j: int| from <= j < k && (#[trigger] a[j]).variable.0 == v && a[j].positive == !b
}

/// Clause `c` of `g` has the literal of `v` with polarity `b`, and each of its
/// other literals is false once the assignments of `a` from `from` up to `k`
/// are made over `s0`: the clause forces that literal then.
pub open spec fn forces_after(g: Problem, s0: Trail, a: Seq<Literal>, from: int, k: int, c: int, v: int, b: bool) -> bool {
    &&& 0 <= c < g.nclauses()
    &&& g.clause_has(c, v, b)
    &&& forall|i: int| 0 <= i < g.clauses@[c].literals@.len()
        && !((#[trigger] g.lit(c, i)).variable.0 == v && g.lit(c, i).positive == b)
        ==> false_after(g, s0, a, from, k, g.lit(c, i).variable.0 as int, g.lit(c, i).positive)
}

/// Some clause of `g` forces the literal of `v` with polarity `b` once the
/// assignments of `a` from `from` up to `k` are made over `s0`.
pub open spec fn forced_after(g: Problem, s0: Trail, a: Seq<Literal>, from: int, k: int, v: int, b: bool) -> bool {
    exists|c: int| #[trigger] forces_after(g, s0, a, from, k, c, v, b)
}

/// Each assignment of `a` from position `from` on is recorded in `g` and `s`: the
/// assignment position of its variable holds its place in `a`; and it was
/// either asked for by a request of `requests`, whose level its variable keeps,
/// or forced, at `level`, by a clause of `g0` once the assignments before it
/// were made over `s0`. So the assignments come in the order in which unit
/// propagation makes them.
pub open spec fn positions_and_levels(
    g: Problem,
    s: Trail,
    a: Seq<Literal>,
    from: int,
    requests: Seq<(VariableIndex, bool, isize)>,
    level: isize,
    g0: Problem,
    s0: Trail,
) -> bool {
    forall|k: int| from <= k < a.len() ==> {
        let x = g.variables@[(#[trigger] a[k]).variable.0 as int];
        &&& s.usize_at(x.assignment_position) == k
        &&& ((x.decision == level && forced_after(g0, s0, a, from, k, a[k].variable.0 as int, a[k].positive))
            || exists|i: int| 0 <= i < requests.len()
            && #[trigger] requests[i] == (a[k].variable, a[k].positive, x.decision))
    }
}

/// A conflict that unit propagation reaches: a variable has, in `s`, the value
/// opposite to one that a request asks for or that a clause of `g0` forces
/// after all the assignments of `a` from `from` on.
pub open spec fn conflict_reached(
    g0: Problem,
    s0: Trail,
    a: Seq<Literal>,
    from: int,
    requests: Seq<(VariableIndex, bool, isize)>,
    s: Trail,
) -> bool {
    exists|v: int, b: bool| #[trigger] conflict_at(g0, s0, a, from, requests, s, v, b)
}

/// Variable `v` has, in `s`, the value opposite to `b`, which a request asks for
/// or a clause of `g0` forces after all the assignments of `a` from `from` on.
pub open spec fn conflict_at(
    g0: Problem,
    s0: Trail,
    a: Seq<Literal>,
    from: int,
    requests: Seq<(VariableIndex, bool, isize)>,
    s: Trail,
    v: int,
    b: bool,
) -> bool {
    &&& 0 <= v < g0.nvars()
    &&& g0.value_of(v, s) == Some(!b)
    &&& (stack_asks(requests, v, b) || forced_after(g0, s0, a, from, a.len() as int, v, b))
}

/// Forcing and conflicts depend on the values of the starting store only.
pub proof fn lemma_trace_same_values(
    g0: Problem,
    sa: Trail,
    sb: Trail,
    g: Problem,
    s: Trail,
    a: Seq<Literal>,
    from: int,
    requests: Seq<(VariableIndex, bool, isize)>,
    level: isize,
)
    requires
        sa.values() == sb.values(),
    ensures
        positions_and_levels(g, s, a, from, requests, level, g0, sa)
            ==> positions_and_levels(g, s, a, from, requests, level, g0, sb),
        conflict_reached(g0, sa, a, from, requests, s) ==> conflict_reached(g0, sb, a, from, requests, s),
{
    assert forall|k: int, v: int, b: bool| #[trigger] forced_after(g0, sa, a, from, k, v, b)
        implies forced_after(g0, sb, a, from, k, v, b) by {
        let c = choose|c: int| #[trigger] forces_after(g0, sa, a, from, k, c, v, b);
        assert forall|i: int| 0 <= i < g0.clauses@[c].literals@.len()
            && !((#[trigger] g0.lit(c, i)).variable.0 == v && g0.lit(c, i).positive == b)
            implies false_after(g0, sb, a, from, k, g0.lit(c, i).variable.0 as int, g0.lit(c, i).positive) by {
            let u = g0.lit(c, i).variable.0 as int;
            assert(g0.value_of(u, sa) == g0.value_of(u, sb));
        }
        assert(forces_after(g0, sb, a, from, k, c, v, b));
    }
    if conflict_reached(g0, sa, a, from, requests, s) {
        let (v, b) = choose|v: int, b: bool| #[trigger] conflict_at(g0, sa, a, from, requests, s, v, b);
        assert(conflict_at(g0, sb, a, from, requests, s, v, b));
    }
}

/// A forcing stays one when more assignments come after: the assignments up to
/// `k` are kept, and `k2 >= k`.
proof fn lemma_forced_after_grows(g: Problem, s0: Trail, a: Seq<Literal>, a2: Seq<Literal>, from: int, k: int, k2: int, v: int, b: bool)
    requires
        forced_after(g, s0, a, from, k, v, b),
        0 <= from,
        k <= k2,
        k <= a.len(),
        k <= a2.len(),
        forall|j: int| 0 <= j < k ==> #[trigger] a2[j] == a[j],
    ensures
        forced_after(g, s0, a2, from, k2, v, b),
{
    let c = choose|c: int| #[trigger] forces_after(g, s0, a, from, k, c, v, b);
    assert forall|i: int| 0 <= i < g.clauses@[c].literals@.len()
        && !((#[trigger] g.lit(c, i)).variable.0 == v && g.lit(c, i).positive == b)
        implies false_after(g, s0, a2, from, k2, g.lit(c, i).variable.0 as int, g.lit(c, i).positive) by {
        let l = g.lit(c, i);
        if !(g.value_of(l.variable.0 as int, s0) == Some(!l.positive)) {
            let j = choose|j: int| from <= j < k && (#[trigger] a[j]).variable.0 == l.variable.0 as int && a[j].positive == !l.positive;
            assert(a2[j] == a[j]);
        }
    }
    assert(forces_after(g, s0, a2, from, k2, c, v, b));
}

/// A request that a clause of `g` forces in `s` is forced, in `g0`, once all the
/// assignments recorded from `s0` to `s` are made.
proof fn lemma_forced_after_recorded(
    g0: Problem,
    s0: Trail,
    g: Problem,
    s: Trail,
    a0: Seq<Literal>,
    a: Seq<Literal>,
    requests: Seq<(VariableIndex, bool, isize)>,
    e: (VariableIndex, bool, isize),
)
    requires
        g0.wf_literals(),
        g.same_formula(g0),
        assignments_recorded(g0, s0, s, a0, a, requests),
        forced_in(g, s, e),
    ensures
        forced_after(g0, s0, a, a0.len() as int, a.len() as int, e.0.0 as int, e.1),
{
    let v = e.0.0 as int;
    let b = e.1;
    let c = choose|c: int| #[trigger] clause_forces(g, s, c, v, b);
    lemma_same_formula_sym(g, g0);
    assert forall|i: int| 0 <= i < g0.clauses@[c].literals@.len()
        && !((#[trigger] g0.lit(c, i)).variable.0 == v && g0.lit(c, i).positive == b)
        implies false_after(g0, s0, a, a0.len() as int, a.len() as int, g0.lit(c, i).variable.0 as int, g0.lit(c, i).positive) by {
        let l = g0.lit(c, i);
        let u = l.variable.0 as int;
        assert(g0.clauses@[c].literals@.contains(l));
        assert(g.clauses@[c].literals@.contains(l));
        let i2 = choose|i2: int| 0 <= i2 < g.clauses@[c].literals@.len() && g.clauses@[c].literals@[i2] == l;
        assert(g.lit(c, i2) == l);
        assert(g.value_of(u, s) == Some(!l.positive));
        assert(g.variables@[u].value == g0.variables@[u].value);
        assert(g0.value_of(u, s) == Some(!l.positive));
        if g0.value_of(u, s0) is None {
            let j = choose|j: int| a0.len() <= j < a.len() && (#[trigger] a[j]).variable.0 == u;
            assert(g0.value_of(a[j].variable.0 as int, s) == Some(a[j].positive));
        }
    }
    assert(forces_after(g0, s0, a, a0.len() as int, a.len() as int, c, v, b));
}

impl Propagator {
    /// Adds a request and propagates it.
    pub fn propagate_variable(&mut self, variable: VariableIndex, value: bool, g: &mut Problem, state: &mut Trail, level: isize) -> (r: PropagationResult)
        requires
            old(g).wf(*old(state)),
            old(g).active_clauses_unsatisfied(*old(state)),
            old(self).wf_with(*old(g), *old(state)),
            variable.0 < old(g).nvars(),
        ensures
            final(g).wf(*final(state)),
            final(g).active_clauses_unsatisfied(*final(state)),
            final(g).same_formula(*old(g)),
            final(self).wf_with(*final(g), *final(state)),
            final(self).propagation_stack@.len() == 0,
            final(self).base_assignments == old(self).base_assignments,
            final(state).usize_at(old(self).base_assignments) == old(self).assignments@.len(),
            same_kinds(*old(state), *final(state)),
            assignments_recorded(*old(g), *old(state), *final(state), old(self).assignments@,
                final(self).assignments@, old(self).propagation_stack@.push((variable, value, level))),
            positions_and_levels(*final(g), *final(state), final(self).assignments@, old(self).assignments@.len() as int,
                old(self).propagation_stack@.push((variable, value, level)), level, *old(g), *old(state)),
            changes_within(*old(g), old(self).base_assignments.0 as int, *old(state), *final(state)),
            old(g).inactive_clauses_satisfied(*old(state)) ==> final(g).inactive_clauses_satisfied(*final(state)),
            deactivations_justified(*final(g), *old(state), *final(state)),
            // From a fixpoint of the watched-literal invariant, a propagation
            // without conflict reaches a fixpoint again.
            (watches_complete(*old(g)) && distinct_variables(*old(g)) && at_fixpoint(*old(g), *old(state)))
                ==> watches_complete(*final(g)) && distinct_variables(*final(g))
                && (r is Ok ==> at_fixpoint(*final(g), *final(state))),
            match r {
                Ok(()) => {
                    &&& old(g).value_of(variable.0 as int, *final(state)) == Some(value)
                    &&& forall|i: int| 0 <= i < old(self).propagation_stack@.len()
                        ==> old(g).value_of((#[trigger] old(self).propagation_stack@[i]).0.0 as int, *final(state))
                        == Some(old(self).propagation_stack@[i].1)
                    &&& forall|sigma: Seq<bool>| #[trigger] admits(*old(g), *old(state),
                        old(self).propagation_stack@.push((variable, value, level)), sigma)
                        ==> agrees(sigma, *old(g), *final(state))
                },
                Err(e) => {
                    &&& e == level
                    &&& exists|v: int, b: bool| #[trigger] is_conflict(*old(g), *final(state),
                        old(self).propagation_stack@.push((variable, value, level)), v, b)
                    &&& conflict_reached(*old(g), *old(state), final(self).assignments@, old(self).assignments@.len() as int,
                        old(self).propagation_stack@.push((variable, value, level)), *final(state))
                    &&& forall|sigma: Seq<bool>| !#[trigger] admits(*old(g), *old(state),
                        old(self).propagation_stack@.push((variable, value, level)), sigma)
                },
            },
    {
        self.add_to_propagation_stack(variable, value, level);
        proof {
            if at_fixpoint(*g, *state) {
                lemma_fixpoint_settled(*g, *state, self.propagation_stack@);
            }
        }
        let r = self.propagate(g, state, level);
        proof {
            let s0 = old(self).propagation_stack@.push((variable, value, level));
            if r is Ok {
                let n = old(self).propagation_stack@.len() as int;
                assert(s0[n] == (variable, value, level));
                assert forall|i: int| 0 <= i < old(self).propagation_stack@.len()
                    implies old(g).value_of((#[trigger] old(self).propagation_stack@[i]).0.0 as int, *state)
                    == Some(old(self).propagation_stack@[i].1) by {
                    assert(s0[i] == old(self).propagation_stack@[i]);
                }
            }
        }
        r
    }

    /// Pops and fixes the requested variables until no request is left, or until a
    /// variable is asked for the value opposite to the one it has. Each fixed
    /// variable sets inactive the clauses it satisfies, and each watched clause
    /// that becomes unit requests its last literal. What it fixes, every model of
    /// the formula that keeps the values and grants the requests also has; when it
    /// fails, there is no such model.
    #[verifier::spinoff_prover]
    #[verifier::rlimit(60)]
    pub fn propagate(&mut self, g: &mut Problem, state: &mut Trail, level: isize) -> (r: PropagationResult)
        requires
            old(g).wf(*old(state)),
            old(g).active_clauses_unsatisfied(*old(state)),
            old(self).wf_with(*old(g), *old(state)),
        ensures
            final(g).wf(*final(state)),
            final(g).active_clauses_unsatisfied(*final(state)),
            final(g).same_formula(*old(g)),
            final(self).wf_with(*final(g), *final(state)),
            final(self).propagation_stack@.len() == 0,
            final(self).base_assignments == old(self).base_assignments,
            final(state).usize_at(old(self).base_assignments) == old(self).assignments@.len(),
            same_kinds(*old(state), *final(state)),
            assignments_recorded(*old(g), *old(state), *final(state), old(self).assignments@,
                final(self).assignments@, old(self).propagation_stack@),
            positions_and_levels(*final(g), *final(state), final(self).assignments@, old(self).assignments@.len() as int,
                old(self).propagation_stack@, level, *old(g), *old(state)),
            changes_within(*old(g), old(self).base_assignments.0 as int, *old(state), *final(state)),
            old(g).inactive_clauses_satisfied(*old(state)) ==> final(g).inactive_clauses_satisfied(*final(state)),
            // Under the watched-literal invariant, a propagation without conflict
            // ends at a fixpoint: no active clause is unit or falsified.
            (watches_complete(*old(g)) && distinct_variables(*old(g))
                && watch_state(*old(g), *old(state), old(self).propagation_stack@))
                ==> watches_complete(*final(g)) && distinct_variables(*final(g))
                && (r is Ok ==> at_fixpoint(*final(g), *final(state))),
            // Clauses are only set inactive, and only once one of their literals holds.
            deactivations_justified(*final(g), *old(state), *final(state)),
            // With no request, nothing is fixed and nothing fails.
            old(self).propagation_stack@.len() == 0 ==> {
                &&& r is Ok
                &&& *final(g) == *old(g)
                &&& final(self).assignments@ == old(self).assignments@
                &&& forall|v: int| 0 <= v < old(g).nvars()
                    ==> #[trigger] final(g).value_of(v, *final(state)) == old(g).value_of(v, *old(state))
            },
            match r {
                Ok(()) => {
                    &&& forall|i: int| 0 <= i < old(self).propagation_stack@.len()
                        ==> old(g).value_of((#[trigger] old(self).propagation_stack@[i]).0.0 as int, *final(state))
                        == Some(old(self).propagation_stack@[i].1)
                    &&& forall|sigma: Seq<bool>| #[trigger] admits(*old(g), *old(state), old(self).propagation_stack@, sigma)
                        ==> agrees(sigma, *old(g), *final(state))
                },
                Err(e) => {
                    &&& e == level
                    &&& exists|v: int, b: bool| #[trigger] is_conflict(*old(g), *final(state), old(self).propagation_stack@, v, b)
                    &&& conflict_reached(*old(g), *old(state), final(self).assignments@, old(self).assignments@.len() as int,
                        old(self).propagation_stack@, *final(state))
                    &&& forall|sigma: Seq<bool>| !#[trigger] admits(*old(g), *old(state), old(self).propagation_stack@, sigma)
                },
            },
    {
        let ghost g0 = *old(g);
        let ghost st0 = *old(state);
        let ghost a0 = old(self).assignments@;
        let ghost req0 = old(self).propagation_stack@;
        state.set_usize(self.base_assignments, self.assignments.len());
        proof {
            let b = self.base_assignments.0 as int;
            assert forall|i: int| 0 <= i < st0.values().len() implies same_kind(#[trigger] state.values()[i], st0.values()[i]) by {}
            g.lemma_wf_same_kinds(st0, *state);
            assert forall|v: int| 0 <= v < g.nvars() implies #[trigger] g.value_of(v, *state) == g.value_of(v, st0) by {
                assert(g.variables@[v].wf_in(st0));
            }
            assert forall|c: int| 0 <= c < g.nclauses() implies (#[trigger] g.clauses@[c]).is_active_in(*state)
                == g.clauses@[c].is_active_in(st0) by {
                assert(g.clauses@[c].wf_in(st0));
            }
            lemma_unsatisfied_frame(*g, st0, *state);
            lemma_same_literals_refl_all(*g);
            assert(self.assignments@.take(a0.len() as int) =~= a0);
        }
        let ghost mut j: int = req0.len() as int;
        let ghost watched = watches_complete(g0) && distinct_variables(g0) && watch_state(g0, st0, req0);
        proof {
            assert forall|c: int| 0 <= c < g.nclauses() implies (#[trigger] g.clauses@[c]).is_active_in(*state)
                == g.clauses@[c].is_active_in(st0) by {
                assert(g.clauses@[c].wf_in(st0));
            }
            assert(deactivations_justified(*g, st0, *state));
            if watched {
                lemma_watch_state_frame(*g, st0, *state, req0);
            }
        }
        assert(g0 == *old(g));
        loop
            invariant
                watched == (watches_complete(g0) && distinct_variables(g0) && watch_state(g0, st0, req0)),
                watched ==> watches_complete(*g) && distinct_variables(*g) && watch_state(*g, *state, self.propagation_stack@),
                deactivations_justified(*g, st0, *state),
                req0.len() == 0 ==> {
                    &&& self.propagation_stack@.len() == 0
                    &&& *g == g0
                    &&& self.assignments@ == a0
                    &&& forall|v: int| 0 <= v < g0.nvars() ==> #[trigger] g.value_of(v, *state) == g0.value_of(v, st0)
                },
                forall|i: int| 0 <= i < req0.len() ==> (#[trigger] req0[i]).0.0 < g0.nvars(),
                g0 == *old(g),
                st0 == *old(state),
                req0 == old(self).propagation_stack@,
                a0 == old(self).assignments@,
                g.wf(*state),
                g.active_clauses_unsatisfied(*state),
                g.same_formula(g0),
                self.wf_with(*g, *state),
                same_kinds(st0, *state),
                self.base_assignments == old(self).base_assignments,
                state.usize_at(self.base_assignments) == a0.len(),
                assignments_recorded(g0, st0, *state, a0, self.assignments@, req0),
                positions_and_levels(*g, *state, self.assignments@, a0.len() as int, req0, level, g0, st0),
                forall|i: int| j <= i < self.propagation_stack@.len()
                    ==> forced_after(g0, st0, self.assignments@, a0.len() as int, self.assignments@.len() as int,
                        (#[trigger] self.propagation_stack@[i]).0.0 as int, self.propagation_stack@[i].1),
                0 <= j <= req0.len(),
                j <= self.propagation_stack@.len(),
                forall|i: int| 0 <= i < j ==> #[trigger] self.propagation_stack@[i] == req0[i],
                forall|i: int| j <= i < self.propagation_stack@.len()
                    ==> is_forced(g0, #[trigger] self.propagation_stack@[i], level),
                forall|i: int| j <= i < req0.len() ==> g0.value_of((#[trigger] req0[i]).0.0 as int, *state) == Some(req0[i].1),
                g0.wf(st0),
                changes_within(g0, self.base_assignments.0 as int, st0, *state),
                g0.inactive_clauses_satisfied(st0) ==> g.inactive_clauses_satisfied(*state),
                forall|sigma: Seq<bool>| #[trigger] admits(g0, st0, req0, sigma)
                    ==> agrees(sigma, g0, *state) && grants(sigma, self.propagation_stack@),
            decreases unfixed_count(g0.value_handles(), *state), self.propagation_stack@.len(),
        {
            let ghost stack_before = self.propagation_stack@;
            match self.propagation_stack.pop() {
                None => {
                    assert(g.same_formula(*old(g)));
                    proof {
                        if watched {
                            lemma_settled_fixpoint(*g, *state, stack_before);
                        }
                    }
                    return Ok(());
                },
                Some(entry) => {
                    let (variable, value, l) = entry;
                    let ghost n = self.propagation_stack@.len() as int;
                    let ghost j_old = j;
                    proof {
                        assert(entry == stack_before[n]);
                        assert(variable.0 < g.nvars());
                        if n < j {
                            assert(j == n + 1);
                            assert(entry == req0[n]);
                            j = n;
                        } else {
                            assert(is_forced(g0, entry, level));
                        }
                        assert(g.variables@[variable.0 as int].wf_in(*state));
                    }
                    assert(n < j_old ==> entry == req0[n]);
                    assert(n < j_old ==> j == n);
                    assert(n >= j_old ==> j == j_old && is_forced(g0, entry, level));
                    assert(n >= j_old ==> forced_after(g0, st0, self.assignments@, a0.len() as int,
                        self.assignments@.len() as int, variable.0 as int, value)) by {
                        if n >= j_old {
                            assert(stack_before[n] == entry);
                        }
                    }
                    proof {
                        if watched && !(g.value_of(variable.0 as int, *state) == Some(!value)) {
                            assert(stack_before.last() == entry);
                            assert(stack_before.drop_last() =~= self.propagation_stack@);
                            lemma_pop_request(*g, *state, stack_before);
                        }
                    }
                    match g.variables[variable.0].value(state) {
                        Some(v) => {
                            if v == value {
                                proof {
                                    assert(g.value_of(variable.0 as int, *state) == g0.value_of(variable.0 as int, *state));
                                    assert forall|i: int| 0 <= i < j implies #[trigger] self.propagation_stack@[i] == req0[i] by {
                                        assert(self.propagation_stack@[i] == stack_before[i]);
                                    }
                                    assert forall|i: int| j <= i < self.propagation_stack@.len()
                                        implies is_forced(g0, #[trigger] self.propagation_stack@[i], level) by {
                                        assert(self.propagation_stack@[i] == stack_before[i]);
                                    }
                                    assert forall|i: int| j <= i < self.propagation_stack@.len()
                                        implies forced_after(g0, st0, self.assignments@, a0.len() as int, self.assignments@.len() as int,
                                            (#[trigger] self.propagation_stack@[i]).0.0 as int, self.propagation_stack@[i].1) by {
                                        assert(self.propagation_stack@[i] == stack_before[i]);
                                    }
                                    assert forall|i: int| j <= i < req0.len()
                                        implies g0.value_of((#[trigger] req0[i]).0.0 as int, *state) == Some(req0[i].1) by {
                                        if i < j_old {
                                            assert(i == n);
                                            assert(req0[i] == entry);
                                        }
                                    }
                                    assert forall|sigma: Seq<bool>| #[trigger] admits(g0, st0, req0, sigma)
                                        implies agrees(sigma, g0, *state) && grants(sigma, self.propagation_stack@) by {
                                        assert(grants(sigma, stack_before));
                                        assert forall|i: int| 0 <= i < self.propagation_stack@.len()
                                            implies sigma[(#[trigger] self.propagation_stack@[i]).0.0 as int]
                                            == self.propagation_stack@[i].1 by {
                                            assert(self.propagation_stack@[i] == stack_before[i]);
                                        }
                                    }
                                }
                                continue;
                            }
                            self.clear();
                            proof {
                                let vv = variable.0 as int;
                                assert(g0.value_of(vv, *state) == Some(!value));
                                if j == n && n < req0.len() && req0[n] == entry {
                                    assert(stack_asks(req0, vv, value));
                                } else {
                                    assert(is_forced(g0, entry, level));
                                }
                                assert(is_conflict(g0, *state, req0, vv, value));
                                assert(conflict_at(g0, st0, self.assignments@, a0.len() as int, req0, *state, vv, value));
                            }
                            assert(g.same_formula(*old(g)));
                            assert(state.usize_at(old(self).base_assignments) == old(self).assignments@.len());
                            return Err(level);
                        },
                        None => {
                            let ghost s_before = *state;
                            let ghost g_before = *g;
                            let ghost p_before = *self;
                            proof {
                                assert(self.wf_with(*g, *state));
                                assert forall|i: int| j <= i < req0.len() implies g0.value_of((#[trigger] req0[i]).0.0 as int, *state)
                                    == Some(req0[i].1) || (i == n && req0[i] == entry) by {
                                    if i < j_old {
                                        assert(i == n);
                                    }
                                }
                                assert(stack_asks(req0, variable.0 as int, value) || is_forced(g0, entry, level)) by {
                                    if n < j_old {
                                        assert(req0[n] == entry);
                                    }
                                }
                                assert forall|i: int| 0 <= i < j implies #[trigger] self.propagation_stack@[i] == req0[i] by {
                                    assert(self.propagation_stack@[i] == stack_before[i]);
                                }
                                assert forall|i: int| j <= i < self.propagation_stack@.len()
                                    implies is_forced(g0, #[trigger] self.propagation_stack@[i], level) by {
                                    assert(self.propagation_stack@[i] == stack_before[i]);
                                }
                                lemma_same_formula_sym(*g, g0);
                                assert(g.value_of(variable.0 as int, *state) == g0.value_of(variable.0 as int, *state));
                            }
                            self.assign(g, variable, value, l, level, state);
                            proof {
                                assert forall|v: int| 0 <= v < g_before.nvars() && (#[trigger] g_before.value_of(v, s_before)) is Some
                                    implies g.value_of(v, *state) == g_before.value_of(v, s_before) by {
                                    assert(v != variable.0);
                                }
                                lemma_justified_trans(g_before, *g, st0, s_before, *state);
                                lemma_after_assign(g0, st0, s_before, *state, g_before, *g, p_before, *self, a0, req0,
                                    j, n, entry, level);
                                assert(changes_within(g_before, self.base_assignments.0 as int, s_before, *state)) by {
                                    assert(changes_within(g_before, -1, s_before, *state));
                                }
                                lemma_changes_trans(g0, g_before, self.base_assignments.0 as int, st0, s_before, *state);
                                assert forall|sigma: Seq<bool>| #[trigger] admits(g0, st0, req0, sigma)
                                    implies agrees(sigma, g0, *state) && grants(sigma, self.propagation_stack@) by {
                                    assert(agrees(sigma, g0, s_before) && grants(sigma, stack_before));
                                    let var = variable.0 as int;
                                    assert(sigma[var] == value) by {
                                        assert(stack_before[n] == entry);
                                    }
                                    assert forall|w: int| 0 <= w < g0.nvars() && (#[trigger] g0.value_of(w, *state)) is Some
                                        implies g0.value_of(w, *state) == Some(sigma[w]) by {
                                        assert(g.variables@[w].value == g0.variables@[w].value);
                                        assert(g_before.variables@[w].value == g0.variables@[w].value);
                                        assert(g0.value_of(w, *state) == g.value_of(w, *state));
                                        if w != var {
                                            assert(g.value_of(w, *state) == g_before.value_of(w, s_before));
                                            assert(g_before.value_of(w, s_before) == g0.value_of(w, s_before));
                                            assert(g0.value_of(w, s_before) is Some);
                                        } else {
                                            assert(g.value_of(var, *state) == Some(value));
                                        }
                                    }
                                    lemma_forced_requests_granted(g0, *g, *state, self.propagation_stack@, n, sigma);
                                    assert forall|i: int| 0 <= i < self.propagation_stack@.len()
                                        implies sigma[(#[trigger] self.propagation_stack@[i]).0.0 as int]
                                        == self.propagation_stack@[i].1 by {
                                        if i < n {
                                            assert(self.propagation_stack@[i] == p_before.propagation_stack@[i]);
                                            assert(p_before.propagation_stack@[i] == stack_before[i]);
                                        }
                                    }
                                }
                                let a1 = p_before.assignments@;
                                let a2 = self.assignments@;
                                assert forall|k: int| a0.len() <= k < a1.len() implies (#[trigger] a1[k]).variable != variable by {
                                    assert(g0.value_of(a1[k].variable.0 as int, s_before) == Some(a1[k].positive));
                                }
                                if n < j_old {
                                    assert(req0[n] == entry);
                                }
                                lemma_levels_after_assign(g0, st0, g_before, s_before, *g, *state, a0, a1, a2, req0, level,
                                    variable, value, l);
                                assert forall|i: int| j <= i < self.propagation_stack@.len()
                                    implies forced_after(g0, st0, a2, a0.len() as int, a2.len() as int,
                                        (#[trigger] self.propagation_stack@[i]).0.0 as int, self.propagation_stack@[i].1) by {
                                    let e = self.propagation_stack@[i];
                                    if i < n {
                                        assert(e == p_before.propagation_stack@[i]);
                                        assert(p_before.propagation_stack@[i] == stack_before[i]);
                                        assert(forced_after(g0, st0, a1, a0.len() as int, a1.len() as int, e.0.0 as int, e.1));
                                        lemma_forced_after_grows(g0, st0, a1, a2, a0.len() as int, a1.len() as int,
                                            a2.len() as int, e.0.0 as int, e.1);
                                    } else {
                                        assert(forced_in(*g, *state, e));
                                        lemma_forced_after_recorded(g0, st0, *g, *state, a0, a2, req0, e);
                                    }
                                }
                            }
                        },
                    }
                },
            }
        }
    }
}

/// After `variable` is fixed to `value` at level `l`, asked for by a request
/// of that level or forced at `level` by the assignments before, the record of
/// positions and levels extends to the new assignment.
proof fn lemma_levels_after_assign(
    g0: Problem,
    st0: Trail,
    g1: Problem,
    s1: Trail,
    g2: Problem,
    s2: Trail,
    a0: Seq<Literal>,
    a1: Seq<Literal>,
    a2: Seq<Literal>,
    req0: Seq<(VariableIndex, bool, isize)>,
    level: isize,
    variable: VariableIndex,
    value: bool,
    l: isize,
)
    requires
        a0.len() <= a1.len(),
        positions_and_levels(g1, s1, a1, a0.len() as int, req0, level, g0, st0),
        a2.len() == a1.len() + 1,
        forall|k: int| 0 <= k < a1.len() ==> #[trigger] a2[k] == a1[k],
        a2[a1.len() as int].variable == variable,
        a2[a1.len() as int].positive == value,
        g2.same_formula(g1),
        variable.0 < g1.nvars(),
        g2.variables@[variable.0 as int].decision == l,
        forall|v: int| 0 <= v < g1.nvars() && v != variable.0
            ==> (#[trigger] g2.variables@[v]).decision == g1.variables@[v].decision,
        s2.usize_at(g1.variables@[variable.0 as int].assignment_position) == a1.len(),
        forall|v: int| 0 <= v < g1.nvars() && v != variable.0
            ==> s2.usize_at((#[trigger] g1.variables@[v]).assignment_position) == s1.usize_at(g1.variables@[v].assignment_position),
        forall|k: int| a0.len() <= k < a1.len() ==> (#[trigger] a1[k]).variable != variable,
        forall|k: int| a0.len() <= k < a1.len() ==> (#[trigger] a1[k]).variable.0 < g1.nvars(),
        (exists|i: int| 0 <= i < req0.len() && #[trigger] req0[i] == (variable, value, l))
            || (l == level && forced_after(g0, st0, a1, a0.len() as int, a1.len() as int, variable.0 as int, value)),
    ensures
        positions_and_levels(g2, s2, a2, a0.len() as int, req0, level, g0, st0),
{
    assert forall|k: int| a0.len() <= k < a2.len() implies {
        let x = g2.variables@[(#[trigger] a2[k]).variable.0 as int];
        &&& s2.usize_at(x.assignment_position) == k
        &&& ((x.decision == level && forced_after(g0, st0, a2, a0.len() as int, k, a2[k].variable.0 as int, a2[k].positive))
            || exists|i: int| 0 <= i < req0.len()
            && #[trigger] req0[i] == (a2[k].variable, a2[k].positive, x.decision))
    } by {
        if k < a1.len() {
            let w = a1[k].variable.0 as int;
            assert(a2[k] == a1[k]);
            assert(g2.variables@[w].assignment_position == g1.variables@[w].assignment_position);
            if g1.variables@[w].decision == level && forced_after(g0, st0, a1, a0.len() as int, k, w, a1[k].positive) {
                lemma_forced_after_grows(g0, st0, a1, a2, a0.len() as int, k, k, w, a1[k].positive);
            }
        } else {
            assert(g2.variables@[variable.0 as int].assignment_position == g1.variables@[variable.0 as int].assignment_position);
            if !(exists|i: int| 0 <= i < req0.len() && #[trigger] req0[i] == (variable, value, l)) {
                lemma_forced_after_grows(g0, st0, a1, a2, a0.len() as int, a1.len() as int, a1.len() as int,
                    variable.0 as int, value);
            }
        }
    }
}

/// After a variable that was requested and unset is fixed, the invariant of the
/// propagation loop holds again, with one unset variable less.
proof fn lemma_after_assign(
    g0: Problem,
    st0: Trail,
    s1: Trail,
    s2: Trail,
    g1: Problem,
    g2: Problem,
    p1: Propagator,
    p2: Propagator,
    a0: Seq<Literal>,
    req0: Seq<(VariableIndex, bool, isize)>,
    j: int,
    n: int,
    entry: (VariableIndex, bool, isize),
    level: isize,
)
    requires
        g1.wf(s1),
        g1.same_formula(g0),
        p1.wf_with(g1, s1),
        same_kinds(st0, s1),
        s1.usize_at(p1.base_assignments) == a0.len(),
        assignments_recorded(g0, st0, s1, a0, p1.assignments@, req0),
        0 <= j <= req0.len(),
        forall|i: int| 0 <= i < req0.len() ==> (#[trigger] req0[i]).0.0 < g0.nvars(),
        j <= p1.propagation_stack@.len(),
        n == p1.propagation_stack@.len(),
        forall|i: int| 0 <= i < j ==> #[trigger] p1.propagation_stack@[i] == req0[i],
        forall|i: int| j <= i < p1.propagation_stack@.len() ==> is_forced(g0, #[trigger] p1.propagation_stack@[i], level),
        forall|i: int| j <= i < req0.len() ==> g0.value_of((#[trigger] req0[i]).0.0 as int, s1) == Some(req0[i].1)
            || (i == n && req0[i] == entry),
        stack_asks(req0, entry.0.0 as int, entry.1) || is_forced(g0, entry, level),
        entry.0.0 < g1.nvars(),
        g1.value_of(entry.0.0 as int, s1) is None,
        // what `assign` gives
        g2.wf(s2),
        g2.same_formula(g1),
        p2.wf_with(g2, s2),
        same_kinds(s1, s2),
        s2.usize_at(p1.base_assignments) == s1.usize_at(p1.base_assignments),
        g2.value_of(entry.0.0 as int, s2) == Some(entry.1),
        forall|v: int| 0 <= v < g1.nvars() && v != entry.0.0 ==> #[trigger] g2.value_of(v, s2) == g1.value_of(v, s1),
        p2.assignments@ == p1.assignments@.push(
            Literal { variable: entry.0, positive: entry.1, value: g1.variables@[entry.0.0 as int].value },
        ),
        p2.base_assignments == p1.base_assignments,
        p2.extends_requests(p1, g2, level),
    ensures
        g2.same_formula(g0),
        same_kinds(st0, s2),
        s2.usize_at(p2.base_assignments) == a0.len(),
        assignments_recorded(g0, st0, s2, a0, p2.assignments@, req0),
        j <= p2.propagation_stack@.len(),
        forall|i: int| 0 <= i < j ==> #[trigger] p2.propagation_stack@[i] == req0[i],
        forall|i: int| j <= i < p2.propagation_stack@.len() ==> is_forced(g0, #[trigger] p2.propagation_stack@[i], level),
        forall|i: int| j <= i < req0.len() ==> g0.value_of((#[trigger] req0[i]).0.0 as int, s2) == Some(req0[i].1),
        unfixed_count(g0.value_handles(), s2) < unfixed_count(g0.value_handles(), s1),
{
    lemma_same_formula_trans(g2, g1, g0);
    lemma_same_formula_sym(g2, g0);
    lemma_same_formula_sym(g1, g0);
    let var = entry.0.0 as int;
    assert forall|v: int| 0 <= v < g0.nvars() implies #[trigger] g0.value_of(v, s2) == (if v == var {
        Some(entry.1)
    } else {
        g0.value_of(v, s1)
    }) by {
        assert(g0.value_of(v, s2) == g2.value_of(v, s2));
        assert(g0.value_of(v, s1) == g1.value_of(v, s1));
    }
    assert forall|i: int| 0 <= i < st0.values().len() implies same_kind(#[trigger] s2.values()[i], st0.values()[i]) by {
        assert(same_kind(s1.values()[i], st0.values()[i]));
        assert(same_kind(s2.values()[i], s1.values()[i]));
    }
    let a1 = p1.assignments@;
    let a2 = p2.assignments@;
    let lit = a2[a1.len() as int];
    assert(g0.value_of(var, st0) is None) by {
        if g0.value_of(var, st0) is Some {
            assert(g0.value_of(var, s1) == g0.value_of(var, st0));
        }
    }
    assert(a2.take(a0.len() as int) =~= a0) by {
        assert(a1.take(a0.len() as int) == a0);
        assert forall|k: int| 0 <= k < a0.len() implies a2[k] == a1[k] by {}
    }
    assert forall|k: int| a0.len() <= k < a2.len() implies {
        let l = #[trigger] a2[k];
        &&& l.variable.0 < g0.nvars()
        &&& l.value == g0.variables@[l.variable.0 as int].value
        &&& g0.value_of(l.variable.0 as int, st0) is None
        &&& g0.value_of(l.variable.0 as int, s2) == Some(l.positive)
        &&& (stack_asks(req0, l.variable.0 as int, l.positive) || exists|c: int| 0 <= c < g0.nclauses()
            && #[trigger] g0.clause_has(c, l.variable.0 as int, l.positive))
    } by {
        if k < a1.len() {
            assert(a2[k] == a1[k]);
            let l = a1[k];
            assert(g0.value_of(l.variable.0 as int, s1) == Some(l.positive));
            assert(l.variable.0 != var);
        } else {
            if !stack_asks(req0, var, entry.1) {
                assert(is_forced(g0, entry, level));
            }
        }
    }
    assert forall|k1: int, k2: int| a0.len() <= k1 < a2.len() && a0.len() <= k2 < a2.len() && k1 != k2
        implies (#[trigger] a2[k1]).variable != (#[trigger] a2[k2]).variable by {
        if k1 < a1.len() && k2 < a1.len() {
            assert(a1[k1] == a2[k1] && a1[k2] == a2[k2]);
        } else if k1 < a1.len() {
            assert(a1[k1] == a2[k1]);
            assert(g0.value_of(a1[k1].variable.0 as int, s1) is Some);
        } else {
            assert(a1[k2] == a2[k2]);
            assert(g0.value_of(a1[k2].variable.0 as int, s1) is Some);
        }
    }
    assert forall|v: int| 0 <= v < g0.nvars() && (#[trigger] g0.value_of(v, st0)) is None && g0.value_of(v, s2) is Some
        implies exists|k: int| a0.len() <= k < a2.len() && (#[trigger] a2[k]).variable.0 == v by {
        if v == var {
            assert(a2[a1.len() as int].variable.0 == v);
        } else {
            let k = choose|k: int| a0.len() <= k < a1.len() && (#[trigger] a1[k]).variable.0 == v;
            assert(a2[k] == a1[k]);
        }
    }
    assert forall|i: int| 0 <= i < j implies #[trigger] p2.propagation_stack@[i] == req0[i] by {
        assert(p2.propagation_stack@[i] == p1.propagation_stack@[i]);
    }
    assert forall|i: int| j <= i < p2.propagation_stack@.len() implies is_forced(g0, #[trigger] p2.propagation_stack@[i], level) by {
        let e = p2.propagation_stack@[i];
        if i < p1.propagation_stack@.len() {
            assert(e == p1.propagation_stack@[i]);
        } else {
            assert(is_forced(g2, e, level));
            let c = choose|c: int| 0 <= c < g2.nclauses() && #[trigger] g2.clause_has(c, e.0.0 as int, e.1);
            assert(g0.clause_has(c, e.0.0 as int, e.1));
        }
    }
    assert forall|i: int| j <= i < req0.len() implies g0.value_of((#[trigger] req0[i]).0.0 as int, s2) == Some(req0[i].1) by {
        let w = req0[i].0.0 as int;
        assert(0 <= w < g0.nvars());
        if w != var {
            assert(g0.value_of(w, s2) == g0.value_of(w, s1));
            assert(g0.value_of(w, s1) == Some(req0[i].1) || (i == n && req0[i] == entry));
        } else {
            assert(g0.value_of(w, s1) is None);
            assert(i == n && req0[i] == entry);
        }
    }
    let h = g0.value_handles();
    assert forall|i: int| 0 <= i < h.len() && s2.option_bool_at(#[trigger] h[i]) is None
        implies s1.option_bool_at(h[i]) is None by {
        assert(h[i] == g0.variables@[i].value);
        assert(g0.value_of(i, s2) == s2.option_bool_at(h[i]));
    }
    assert(h[var] == g0.variables@[var].value);
    assert(s1.option_bool_at(h[var]) is None && s2.option_bool_at(h[var]) is Some);
    lemma_unfixed_count_decreases(h, s1, s2);
}

} // verus!
