//! The search: its parameters, and the opening and closing of its branches.
use vstd::prelude::*;
use std::time::{Duration, Instant};
use crate::args::Args;
use crate::branching::{lemma_can_branch, BranchingDecision, First};
use crate::formula::clause::{first_unfixed_from, lemma_first_unfixed_from};
use crate::formula::problem::{
    lemma_inactive_frame, lemma_same_formula_trans, lemma_same_literals_refl_all, lemma_unfixed_count_decreases,
    lemma_unsatisfied_frame, unfixed_count, ClauseIndex, Problem, VariableIndex,
};
use crate::common::{natural, natural_add, natural_clone, natural_value, Solution};
use crate::propagator::{
    assignments_recorded, changes_within, conflict_reached, is_conflict, lemma_trace_same_values, positions_and_levels, PropagationResult, Propagator,
};
use crate::models::{
    admitted, admitted_with, admits, agrees, count_where, grants, holds, is_model, keeps, lemma_count_ext, lemma_count_keeps, lemma_count_none,
    lemma_count_split, lemma_same_formula_models, model_count_spec, some_holds, two_to, unset_from,
};
use crate::preprocess::Preprocessor;
use malachite::Natural;
use crate::parser::{has_empty_clause, has_zero_literal, parse_lines_spec, problem_from_cnf, reads_clauses, views, CnfError};
use crate::trail::{same_kind, Slot, Trail};
use crate::activity::deactivations_justified;
use crate::watching::{at_fixpoint, distinct_variables, unset, watches_complete};

verus! {

#[verifier::external_type_specification]
#[verifier::external_body]
pub struct ExInstant(std::time::Instant);

/// The current time (`Instant::now`); nothing is known of its value.
#[verifier::external_body]
fn now() -> Instant {
    Instant::now()
}

/// The time passed since `start` (`Instant::elapsed`); it depends on the clock.
#[verifier::external_body]
fn elapsed(start: &Instant) -> Duration {
    start.elapsed()
}

/// The whole seconds of `d` (`Duration::as_secs`).
#[verifier::external_body]
fn whole_seconds(d: &Duration) -> u64 {
    d.as_secs()
}

/// Limits of the search, and the time at which it started.
pub struct SolverParameters {
    /// Memory limit of the search, in megabytes
    pub memory_limit: u64,
    /// Time limit for the search, in seconds
    pub timeout: u64,
    /// Time at which the solving started
    pub start: Instant,
}

impl SolverParameters {
    /// The limits given by `args`, starting now: the start is the reading of the
    /// clock taken during the call.
    pub fn new(args: &Args) -> (p: Self)
        ensures
            p.memory_limit == args.memory,
            p.timeout == args.timeout,
    {
        Self::starting_at(args, now())
    }

    /// The limits given by `args`, starting at `start`.
    pub fn starting_at(args: &Args, start: Instant) -> (p: Self)
        ensures
            p.memory_limit == args.memory,
            p.timeout == args.timeout,
            p.start == start,
    {
        Self { memory_limit: args.memory(), timeout: args.timeout(), start }
    }
}

/// The state of a search: the problem, the store of its reversible values, and
/// the propagator.
pub struct Solver {
    /// The problem to count the models of
    pub problem: Problem,
    /// Reversible values, saved and restored along the search
    pub state: Trail,
    /// Runs unit propagation at each decision
    pub propagator: Propagator,
}

impl Solver {
    /// The problem is well formed in the store, its active clauses are those with
    /// no true literal, and the propagator fits it with no pending request.
    pub open spec fn ready(&self) -> bool {
        &&& self.problem.wf(self.state)
        &&& self.problem.active_clauses_unsatisfied(self.state)
        &&& self.problem.inactive_clauses_satisfied(self.state)
        &&& self.propagator.wf_with(self.problem, self.state)
        &&& self.propagator.propagation_stack@.len() == 0
    }

    /// `self` is what opening the branch `variable = value` at `level` gives from
    /// `before`, with result `r`: the store was saved, then the value propagated.
    pub open spec fn branched_from(
        &self,
        before: Solver,
        variable: VariableIndex,
        value: bool,
        level: isize,
        r: PropagationResult,
    ) -> bool {
        let g0 = before.problem;
        let s0 = before.state;
        let base = before.propagator.base_assignments;
        let requests = before.propagator.propagation_stack@.push((variable, value, level));
        &&& self.ready()
        &&& self.problem.same_formula(g0)
        &&& self.propagator.base_assignments == base
        &&& self.state.saved() == s0.saved().push(s0.values())
        &&& self.state.values().len() == s0.values().len()
        &&& forall|i: int| 0 <= i < s0.values().len() ==> same_kind(#[trigger] self.state.values()[i], s0.values()[i])
        &&& self.state.usize_at(base) == before.propagator.assignments@.len()
        &&& assignments_recorded(g0, s0, self.state, before.propagator.assignments@, self.propagator.assignments@, requests)
        &&& positions_and_levels(self.problem, self.state, self.propagator.assignments@,
            before.propagator.assignments@.len() as int, requests, level, g0, s0)
        &&& changes_within(g0, base.0 as int, s0, self.state)
        &&& match r {
            Ok(()) => {
                &&& g0.value_of(variable.0 as int, self.state) == Some(value)
                &&& forall|sigma: Seq<bool>| #[trigger] admits(g0, s0, requests, sigma) ==> agrees(sigma, g0, self.state)
            },
            Err(e) => {
                &&& e == level
                &&& exists|v: int, b: bool| #[trigger] is_conflict(g0, self.state, requests, v, b)
                &&& conflict_reached(g0, s0, self.propagator.assignments@, before.propagator.assignments@.len() as int,
                    requests, self.state)
                &&& forall|sigma: Seq<bool>| !#[trigger] admits(g0, s0, requests, sigma)
            },
        }
    }

    /// `self` is what restoring `before` gives: the assignments made since the
    /// base are forgotten and the store goes back to its last saved state.
    pub open spec fn restored_from(&self, before: Solver) -> bool {
        let a = before.propagator.assignments@;
        let limit = before.state.usize_at(before.propagator.base_assignments);
        &&& self.problem == before.problem
        &&& self.propagator.propagation_stack@ == before.propagator.propagation_stack@
        &&& self.propagator.base_assignments == before.propagator.base_assignments
        &&& self.propagator.assignments@ == (if limit < a.len() { a.take(limit as int) } else { a })
        &&& self.state.restored_from(before.state)
    }

    /// A solver over `problem`, its store and its propagator.
    pub fn new(problem: Problem, state: Trail, propagator: Propagator) -> (s: Self)
        ensures
            s.problem == problem,
            s.state == state,
            s.propagator == propagator,
    {
        Self { problem, state, propagator }
    }

    /// A solver for the problem that the lines of a DIMACS text describe, over a
    /// new store and a new propagator. Fails as `problem_from_cnf` does.
    pub fn from_cnf(lines: &Vec<Vec<char>>) -> (r: Result<Solver, CnfError>)
        ensures
            match parse_lines_spec(views(lines@)) {
                None => r == Err::<Solver, CnfError>(CnfError::InvalidNumber),
                Some(cls) => if has_empty_clause(cls) {
                    r == Err::<Solver, CnfError>(CnfError::EmptyClause)
                } else if has_zero_literal(cls) {
                    r == Err::<Solver, CnfError>(CnfError::ZeroVariable)
                } else {
                    &&& r is Ok
                    &&& r->Ok_0.ready()
                    &&& reads_clauses(r->Ok_0.problem, r->Ok_0.state, cls)
                    &&& watches_complete(r->Ok_0.problem)
                    &&& r->Ok_0.propagator.assignments@.len() == 0
                    &&& r->Ok_0.state.saved().len() == 0
                },
            },
    {
        let mut state = Trail::new();
        let propagator = Propagator::new(&mut state);
        match problem_from_cnf(lines, &mut state) {
            Ok(problem) => {
                proof {
                    assert(state.is_usize(propagator.base_assignments)) by {
                        assert(state.values()[0] == Slot::Usize(0));
                    }
                }
                Ok(Solver::new(problem, state, propagator))
            },
            Err(e) => Err(e),
        }
    }

    /// Opens the branch `variable = value` of the search: saves the store, then
    /// propagates the value.
    pub fn branch(&mut self, variable: VariableIndex, value: bool, level: isize) -> (r: PropagationResult)
        requires
            old(self).ready(),
            variable.0 < old(self).problem.nvars(),
        ensures
            final(self).branched_from(*old(self), variable, value, level, r),
            deactivations_justified(final(self).problem, old(self).state, final(self).state),
            (watches_complete(old(self).problem) && distinct_variables(old(self).problem)
                && at_fixpoint(old(self).problem, old(self).state))
                ==> watches_complete(final(self).problem) && distinct_variables(final(self).problem)
                && (r is Ok ==> at_fixpoint(final(self).problem, final(self).state)),
    {
        let ghost s0 = self.state;
        let ghost g0 = self.problem;
        self.state.save_state();
        let ghost s1 = self.state;
        proof {
            assert(s1.values() == s0.values());
            if at_fixpoint(g0, s0) {
                assert forall|c: ClauseIndex| c.0 < g0.nclauses() && (#[trigger] g0.clauses@[c.0 as int]).is_active_in(s1) implies {
                    let lits = g0.clauses@[c.0 as int].literals@;
                    lits.len() >= 2 && unset(lits[0], s1) && unset(lits[1], s1)
                } by {
                    assert(g0.clauses@[c.0 as int].is_active_in(s0));
                }
            }
            assert forall|v: int| 0 <= v < g0.nvars() implies #[trigger] g0.value_of(v, s1) == g0.value_of(v, s0) by {}
            self.problem.lemma_wf_same_kinds(s0, self.state);
            lemma_unsatisfied_frame(self.problem, s0, self.state);
        }
        let r = self.propagator.propagate_variable(variable, value, &mut self.problem, &mut self.state, level);
        proof {
            let requests = old(self).propagator.propagation_stack@.push((variable, value, level));
            assert(requests[0] == (variable, value, level));
            let a0 = old(self).propagator.assignments@;
            let a = self.propagator.assignments@;
            assert forall|k: int| a0.len() <= k < a.len() implies g0.value_of((#[trigger] a[k]).variable.0 as int, s0) is None by {
                assert(g0.value_of(a[k].variable.0 as int, s1) is None);
            }
            assert forall|v: int| 0 <= v < g0.nvars() && (#[trigger] g0.value_of(v, s0)) is Some
                implies g0.value_of(v, self.state) == g0.value_of(v, s0) by {
                assert(g0.value_of(v, s1) is Some);
            }
            assert forall|v: int| 0 <= v < g0.nvars() && (#[trigger] g0.value_of(v, s0)) is None && g0.value_of(v, self.state) is Some
                implies exists|k: int| a0.len() <= k < a.len() && (#[trigger] a[k]).variable.0 == v by {
                assert(g0.value_of(v, s1) is None);
            }
            assert forall|sigma: Seq<bool>| #[trigger] admits(g0, s0, requests, sigma) implies admits(g0, s1, requests, sigma) by {
                assert forall|v: int| 0 <= v < g0.nvars() && (#[trigger] g0.value_of(v, s1)) is Some
                    implies g0.value_of(v, s1) == Some(sigma[v]) by {
                    assert(g0.value_of(v, s0) == g0.value_of(v, s1));
                }
            }
        }
        proof {
            lemma_trace_same_values(g0, s1, s0, self.problem, self.state, self.propagator.assignments@,
                old(self).propagator.assignments@.len() as int, old(self).propagator.propagation_stack@.push((variable, value, level)), level);
        }
        r
    }

    /// Restores the state of the solver to the previous state
    pub fn restore(&mut self)
        requires
            old(self).state.saved().len() > 0,
            old(self).state.is_usize(old(self).propagator.base_assignments),
        ensures
            final(self).restored_from(*old(self)),
    {
        self.propagator.restore(&self.state);
        self.state.restore_state();
    }
}

/// Backtracking: opening a branch from a ready solver and then restoring it gives
/// the solver back as it was, its store and its assignments exactly, its problem
/// up to the order of the literals and the watch lists, and ready for the next
/// branch.
pub proof fn law_branch_then_restore(
    s0: Solver,
    s1: Solver,
    s2: Solver,
    variable: VariableIndex,
    value: bool,
    level: isize,
    r: PropagationResult,
)
    requires
        s0.ready(),
        variable.0 < s0.problem.nvars(),
        s1.branched_from(s0, variable, value, level, r),
        s2.restored_from(s1),
    ensures
        s2.state.values() == s0.state.values(),
        s2.state.saved() == s0.state.saved(),
        s2.propagator.assignments@ == s0.propagator.assignments@,
        s2.propagator.base_assignments == s0.propagator.base_assignments,
        s2.problem.same_formula(s0.problem),
        s2.ready(),
{
    lemma_same_literals_refl_all(s1.problem);
    lemma_restore_after_branch(s0, s1, s1, s2, variable, value, level, r);
}

/// Restoring a solver whose branch was opened from `s0`, and which since then
/// kept its store values, saved states and assignments (`s2`), gives `s0` back.
proof fn lemma_restore_after_branch(
    s0: Solver,
    s1: Solver,
    s2: Solver,
    s3: Solver,
    variable: VariableIndex,
    value: bool,
    level: isize,
    r: PropagationResult,
)
    requires
        s0.ready(),
        variable.0 < s0.problem.nvars(),
        s1.branched_from(s0, variable, value, level, r),
        s2.ready(),
        s2.problem.same_formula(s1.problem),
        s2.state.values() == s1.state.values(),
        s2.state.saved() == s1.state.saved(),
        s2.propagator.assignments@ == s1.propagator.assignments@,
        s2.propagator.base_assignments == s1.propagator.base_assignments,
        s3.restored_from(s2),
    ensures
        s3.state.values() == s0.state.values(),
        s3.state.saved() == s0.state.saved(),
        s3.propagator.assignments@ == s0.propagator.assignments@,
        s3.propagator.base_assignments == s0.propagator.base_assignments,
        s3.problem.same_formula(s0.problem),
        s3.ready(),
{
    let a0 = s0.propagator.assignments@;
    let a1 = s1.propagator.assignments@;
    assert(s2.state.saved().last() == s0.state.values());
    assert(s3.state.values() =~= s0.state.values());
    if a0.len() < a1.len() {
        assert(s3.propagator.assignments@ == a1.take(a0.len() as int));
    } else {
        assert(a1 =~= a1.take(a0.len() as int));
    }
    let g = s3.problem;
    lemma_same_formula_trans(g, s1.problem, s0.problem);
    g.lemma_same_formula_wf(s0.problem, s0.state);
    g.lemma_wf_same_kinds(s0.state, s3.state);
    lemma_unsatisfied_frame(g, s0.state, s3.state);
    lemma_inactive_frame(s0.problem, g, s0.state, s3.state);
}


/// What the search does next in a ready solver.
enum BranchChoice {
    /// No clause is active: every assignment that keeps the values is a model
    Free,
    /// Some active clause has no unset literal left
    Falsified,
    /// Every active clause has an unset literal: the search branches
    Branch,
}

/// No clause of `g` is active in `s`.
pub open spec fn no_active_clause(g: Problem, s: Trail) -> bool {
    forall|c: int| 0 <= c < g.nclauses() ==> !(#[trigger] g.clauses@[c]).is_active_in(s)
}

/// Some active clause of `g` has every literal fixed in `s`.
pub open spec fn falsified_clause(g: Problem, s: Trail) -> bool {
    exists|c: int| 0 <= c < g.nclauses() && (#[trigger] g.clauses@[c]).is_active_in(s)
        && forall|k: int| 0 <= k < g.clauses@[c].literals@.len() ==> g.value_of(g.lit(c, k).variable.0 as int, s) is Some
}

/// The number of variables of `g` with no value in `s`.
pub open spec fn unset_variables(g: Problem, s: Trail) -> nat {
    unset_from(values_of(g, s), 0)
}

/// The models of `g` that agree with `s` and give `x` the value `b`.
pub open spec fn models_with(g: Problem, s: Trail, x: int, b: bool) -> nat {
    count_where(g.nvars() as nat, admitted_with(g, s, x, b), Seq::<bool>::empty())
}

/// The count of unset values depends on the values only.
proof fn lemma_unfixed_count_same_values(handles: Seq<crate::trail::OptionBoolId>, a: Trail, b: Trail)
    requires
        a.values() == b.values(),
    ensures
        unfixed_count(handles, a) == unfixed_count(handles, b),
    decreases handles.len(),
{
    if handles.len() > 0 {
        lemma_unfixed_count_same_values(handles.drop_last(), a, b);
    }
}

/// The values of the variables of `g` in `s`, in order.
pub open spec fn values_of(g: Problem, s: Trail) -> Seq<Option<bool>> {
    Seq::new(g.nvars() as nat, |v: int| g.value_of(v, s))
}

proof fn lemma_unfixed_count_bound(handles: Seq<crate::trail::OptionBoolId>, s: Trail)
    ensures
        unfixed_count(handles, s) <= handles.len(),
    decreases handles.len(),
{
    if handles.len() > 0 {
        lemma_unfixed_count_bound(handles.drop_last(), s);
    }
}

impl Solver {
    /// Looks at every clause: is one active with every literal fixed, is none
    /// active, or has every active clause an unset literal?
    fn choose_branch(&self) -> (r: BranchChoice)
        requires
            self.problem.wf(self.state),
        ensures
            match r {
                BranchChoice::Free => no_active_clause(self.problem, self.state),
                BranchChoice::Falsified => falsified_clause(self.problem, self.state),
                BranchChoice::Branch => {
                    &&& !no_active_clause(self.problem, self.state)
                    &&& !falsified_clause(self.problem, self.state)
                    &&& forall|c: int| 0 <= c < self.problem.nclauses() && (#[trigger] self.problem.clauses@[c]).is_active_in(self.state)
                        ==> first_unfixed_from(self.problem.clauses@[c].literals@, self.state, 0) < self.problem.clauses@[c].literals@.len()
                },
            },
    {
        let g = &self.problem;
        let mut falsified = false;
        let mut active = false;
        let mut i: usize = 0;
        while i < g.clauses.len()
            invariant
                g.wf(self.state),
                i <= g.clauses@.len(),
                *g == self.problem,
                falsified ==> falsified_clause(*g, self.state),
                !falsified ==> forall|c: int| 0 <= c < i && (#[trigger] g.clauses@[c]).is_active_in(self.state)
                    ==> first_unfixed_from(g.clauses@[c].literals@, self.state, 0) < g.clauses@[c].literals@.len(),
                active == exists|c: int| 0 <= c < i && (#[trigger] g.clauses@[c]).is_active_in(self.state),
            decreases g.clauses@.len() - i,
        {
            proof {
                assert(g.clauses@[i as int].wf_in(self.state));
            }
            if g.clauses[i].is_active(&self.state) {
                active = true;
                let mut k: usize = 0;
                let mut found = false;
                while k < g.clauses[i].literals.len() && !found
                    invariant
                        g.wf(self.state),
                        *g == self.problem,
                        i < g.clauses@.len(),
                        k <= g.clauses@[i as int].literals@.len(),
                        !found ==> forall|j: int| 0 <= j < k ==> g.value_of(g.lit(i as int, j).variable.0 as int, self.state) is Some,
                        found ==> first_unfixed_from(g.clauses@[i as int].literals@, self.state, 0) < g.clauses@[i as int].literals@.len(),
                    decreases g.clauses@[i as int].literals@.len() - k + (if found { 0int } else { 1int }),
                {
                    let l = g.clauses[i].literals[k];
                    proof {
                        assert(g.lit(i as int, k as int) == l);
                        assert(g.variables@[l.variable.0 as int].wf_in(self.state));
                    }
                    if !g.variables[l.variable.0].is_fixed(&self.state) {
                        found = true;
                        proof {
                            let lits = g.clauses@[i as int].literals@;
                            lemma_first_unfixed_from(lits, self.state, 0);
                            assert(lits[k as int].variable_value(self.state) is None);
                        }
                    } else {
                        k += 1;
                    }
                }
                if !found {
                    falsified = true;
                }
            }
            i += 1;
        }
        if falsified {
            BranchChoice::Falsified
        } else if !active {
            BranchChoice::Free
        } else {
            proof {
                assert forall|c: int| 0 <= c < g.nclauses() && (#[trigger] g.clauses@[c]).is_active_in(self.state)
                    implies exists|k: int| 0 <= k < g.clauses@[c].literals@.len()
                        && g.value_of(g.lit(c, k).variable.0 as int, self.state) is None by {
                    let lits = g.clauses@[c].literals@;
                    lemma_first_unfixed_from(lits, self.state, 0);
                    let k = first_unfixed_from(lits, self.state, 0);
                    assert(g.lit(c, k) == lits[k]);
                    assert(lits[k].value == g.variables@[lits[k].variable.0 as int].value);
                }
            }
            BranchChoice::Branch
        }
    }

    /// Opens the branch `variable = value`, counts its models when propagation
    /// succeeds, and restores the solver. The second part of the result is false
    /// when the time limit was reached on the way.
    fn count_branch(&mut self, variable: VariableIndex, value: bool, level: isize, parameters: &SolverParameters)
        -> (r: (Natural, bool))
        requires
            old(self).ready(),
            variable.0 < old(self).problem.nvars(),
            old(self).problem.value_of(variable.0 as int, old(self).state) is None,
            level + unfixed_count(old(self).problem.value_handles(), old(self).state) <= isize::MAX,
        ensures
            final(self).ready(),
            final(self).problem.same_formula(old(self).problem),
            final(self).state.values() == old(self).state.values(),
            final(self).state.saved() == old(self).state.saved(),
            final(self).propagator.assignments@ == old(self).propagator.assignments@,
            final(self).propagator.base_assignments == old(self).propagator.base_assignments,
            natural_value(r.0) <= models_with(old(self).problem, old(self).state, variable.0 as int, value),
            r.1 ==> natural_value(r.0) == models_with(old(self).problem, old(self).state, variable.0 as int, value),
            parameters.timeout == u64::MAX ==> r.1,
        decreases unfixed_count(old(self).problem.value_handles(), old(self).state), 0nat,
    {
        let ghost s0 = *self;
        let res = self.branch(variable, value, level);
        let ghost s1 = *self;
        let ghost g0 = s0.problem;
        let ghost n = g0.nvars() as nat;
        let ghost target = admitted_with(g0, s0.state, variable.0 as int, value);
        let ghost requests = s0.propagator.propagation_stack@.push((variable, value, level));
        proof {
            assert(requests.len() == 1 && requests[0] == (variable, value, level));
            assert forall|sigma: Seq<bool>| #[trigger] grants(sigma, requests) == (sigma[variable.0 as int] == value) by {
                if sigma[variable.0 as int] == value {
                    assert forall|i: int| 0 <= i < requests.len() implies sigma[(#[trigger] requests[i]).0.0 as int] == requests[i].1 by {
                        assert(i == 0);
                    }
                }
            }
        }
        let out = match res {
            Ok(()) => {
                proof {
                    let h0 = g0.value_handles();
                    let h1 = s1.problem.value_handles();
                    assert(h1 =~= h0) by {
                        assert forall|v: int| 0 <= v < h0.len() implies h1[v] == h0[v] by {
                            assert(s1.problem.variables@[v].value == g0.variables@[v].value);
                        }
                    }
                    assert forall|v: int| 0 <= v < h0.len() && s1.state.option_bool_at(#[trigger] h0[v]) is None
                        implies s0.state.option_bool_at(h0[v]) is None by {
                        assert(g0.value_of(v, s1.state) == s1.state.option_bool_at(h0[v]));
                        if g0.value_of(v, s0.state) is Some {
                            assert(g0.value_of(v, s1.state) == g0.value_of(v, s0.state));
                        }
                    }
                    assert(h0[variable.0 as int] == g0.variables@[variable.0 as int].value);
                    lemma_unfixed_count_decreases(h0, s0.state, s1.state);
                }
                let r = self.model_count(level + 1, parameters);
                proof {
                    let g1 = s1.problem;
                    lemma_same_formula_models(g0, g1, s1.state, s1.state);
                    assert forall|sigma: Seq<bool>| sigma.len() == n && sigma.take(0) == Seq::<bool>::empty() implies
                        (is_model(sigma, g1) && agrees(sigma, g1, s1.state)) == target(sigma) by {
                        if target(sigma) {
                            assert(admits(g0, s0.state, requests, sigma));
                        }
                        if is_model(sigma, g1) && agrees(sigma, g1, s1.state) {
                            assert(agrees(sigma, g0, s1.state));
                            assert(g0.value_of(variable.0 as int, s1.state) == Some(value));
                            assert forall|v: int| 0 <= v < g0.nvars() && (#[trigger] g0.value_of(v, s0.state)) is Some
                                implies g0.value_of(v, s0.state) == Some(sigma[v]) by {
                                assert(g0.value_of(v, s1.state) == g0.value_of(v, s0.state));
                            }
                        }
                    }
                    lemma_count_ext(n, admitted(g1, s1.state), target, Seq::<bool>::empty());
                }
                r
            },
            Err(_) => {
                proof {
                    assert forall|sigma: Seq<bool>| sigma.len() == n && sigma.take(0) == Seq::<bool>::empty()
                        implies !target(sigma) by {
                        assert(!admits(g0, s0.state, requests, sigma));
                    }
                    lemma_count_none(n, target, Seq::<bool>::empty());
                }
                (natural(0), true)
            },
        };
        let ghost s2 = *self;
        self.restore();
        proof {
            lemma_restore_after_branch(s0, s1, s2, *self, variable, value, level, res);
        }
        out
    }

    /// Counts the models of the problem that agree with the store, reading the
    /// clock at each decision: past the time limit the count is 0. The second
    /// part of the result is false when the time limit was reached; the count is
    /// then a lower bound. The solver comes back as it was.
    pub fn model_count(&mut self, level: isize, parameters: &SolverParameters) -> (r: (Natural, bool))
        requires
            old(self).ready(),
            level + unfixed_count(old(self).problem.value_handles(), old(self).state) <= isize::MAX,
        ensures
            final(self).ready(),
            final(self).problem.same_formula(old(self).problem),
            final(self).state.values() == old(self).state.values(),
            final(self).state.saved() == old(self).state.saved(),
            final(self).propagator.assignments@ == old(self).propagator.assignments@,
            final(self).propagator.base_assignments == old(self).propagator.base_assignments,
            natural_value(r.0) <= model_count_spec(old(self).problem, old(self).state),
            r.1 ==> natural_value(r.0) == model_count_spec(old(self).problem, old(self).state),
            parameters.timeout == 0 ==> natural_value(r.0) == 0 && !r.1 && *final(self) == *old(self),
            // The largest time limit is no limit: the count is then complete, and
            // it is the number of models.
            parameters.timeout == u64::MAX ==> r.1 && natural_value(r.0) == model_count_spec(old(self).problem, old(self).state),
        decreases unfixed_count(old(self).problem.value_handles(), old(self).state), 2nat,
    {
        let seconds = if parameters.timeout < u64::MAX {
            whole_seconds(&elapsed(&parameters.start))
        } else {
            0
        };
        self.count_at(seconds, level, parameters)
    }

    /// One step of the count, `seconds` after the start: past the time limit,
    /// the count is 0 and incomplete, and nothing changes; when an active clause
    /// has every literal fixed, there is no model; when no clause is active, each
    /// unset variable doubles the count; otherwise the count is the sum of those
    /// of the two branches on the variable that the branching rule picks, and it
    /// is complete when both are.
    pub fn count_at(&mut self, seconds: u64, level: isize, parameters: &SolverParameters) -> (r: (Natural, bool))
        requires
            old(self).ready(),
            level + unfixed_count(old(self).problem.value_handles(), old(self).state) <= isize::MAX,
        ensures
            final(self).ready(),
            final(self).problem.same_formula(old(self).problem),
            final(self).state.values() == old(self).state.values(),
            final(self).state.saved() == old(self).state.saved(),
            final(self).propagator.assignments@ == old(self).propagator.assignments@,
            final(self).propagator.base_assignments == old(self).propagator.base_assignments,
            natural_value(r.0) <= model_count_spec(old(self).problem, old(self).state),
            r.1 ==> natural_value(r.0) == model_count_spec(old(self).problem, old(self).state),
            seconds >= parameters.timeout ==> natural_value(r.0) == 0 && !r.1 && *final(self) == *old(self),
            seconds < parameters.timeout && falsified_clause(old(self).problem, old(self).state)
                ==> natural_value(r.0) == 0 && r.1,
            seconds < parameters.timeout && no_active_clause(old(self).problem, old(self).state)
                ==> r.1 && natural_value(r.0) == two_to(unset_variables(old(self).problem, old(self).state)),
            // Below the time limit, the count is given up only where a later
            // reading of the clock reaches it: with no limit it is complete.
            parameters.timeout == u64::MAX && seconds < u64::MAX ==> r.1,
        decreases unfixed_count(old(self).problem.value_handles(), old(self).state), 1nat,
    {
        proof {
            lemma_same_literals_refl_all(self.problem);
        }
        if seconds >= parameters.timeout {
            return (natural(0), false);
        }
        let ghost g0 = self.problem;
        let ghost s0 = self.state;
        let ghost n = g0.nvars() as nat;
        let ghost all = admitted(g0, s0);
        match self.choose_branch() {
            BranchChoice::Free => {
                let ghost vals = values_of(self.problem, self.state);
                let mut unset: usize = 0;
                let mut i: usize = self.problem.variables.len();
                while i > 0
                    invariant
                        i <= self.problem.variables@.len(),
                        self.problem.wf(self.state),
                        vals == values_of(self.problem, self.state),
                        unset == unset_from(vals, i as int),
                        unset <= self.problem.variables@.len() - i,
                        self.problem.variables@.len() <= usize::MAX,
                    decreases i,
                {
                    i -= 1;
                    proof {
                        assert(self.problem.variables@[i as int].wf_in(self.state));
                    }
                    if !self.problem.variables[i].is_fixed(&self.state) {
                        unset += 1;
                    }
                }
                let mut count = natural(1);
                let mut j: usize = 0;
                while j < unset
                    invariant
                        j <= unset,
                        natural_value(count) == two_to(j as nat),
                    decreases unset - j,
                {
                    let copy = natural_clone(&count);
                    count = natural_add(copy, count);
                    j += 1;
                }
                proof {
                    assert forall|sigma: Seq<bool>| sigma.len() == n && sigma.take(0) == Seq::<bool>::empty()
                        implies all(sigma) == keeps(vals)(sigma) by {
                        if keeps(vals)(sigma) {
                            assert forall|c: int| 0 <= c < g0.nclauses() implies some_holds(sigma, (#[trigger] g0.clauses@[c]).literals@) by {
                                assert(!g0.clauses@[c].is_active_in(s0));
                                let k = choose|k: int| 0 <= k < g0.clauses@[c].literals@.len() && (#[trigger] g0.lit(c, k)).is_true_in(s0);
                                let l = g0.lit(c, k);
                                assert(l.value == g0.variables@[l.variable.0 as int].value);
                                assert(vals[l.variable.0 as int] == Some(l.positive));
                                assert(holds(sigma, g0.clauses@[c].literals@[k]));
                            }
                            assert forall|v: int| 0 <= v < g0.nvars() && (#[trigger] g0.value_of(v, s0)) is Some
                                implies g0.value_of(v, s0) == Some(sigma[v]) by {
                                assert(vals[v] == g0.value_of(v, s0));
                            }
                        }
                        if all(sigma) {
                            assert forall|v: int| 0 <= v < vals.len() && (#[trigger] vals[v]) is Some
                                implies sigma[v] == vals[v]->Some_0 by {
                                assert(g0.value_of(v, s0) is Some);
                            }
                        }
                    }
                    lemma_count_ext(n, all, keeps(vals), Seq::<bool>::empty());
                    lemma_count_keeps(vals, Seq::<bool>::empty());
                }
                (count, true)
            },
            BranchChoice::Falsified => {
                proof {
                    let c = choose|c: int| 0 <= c < g0.nclauses() && (#[trigger] g0.clauses@[c]).is_active_in(s0)
                        && forall|k: int| 0 <= k < g0.clauses@[c].literals@.len()
                            ==> g0.value_of(g0.lit(c, k).variable.0 as int, s0) is Some;
                    assert forall|sigma: Seq<bool>| sigma.len() == n && sigma.take(0) == Seq::<bool>::empty()
                        implies !all(sigma) by {
                        if all(sigma) {
                            assert(some_holds(sigma, g0.clauses@[c].literals@));
                            let k = choose|k: int| 0 <= k < g0.clauses@[c].literals@.len() && holds(sigma, #[trigger] g0.clauses@[c].literals@[k]);
                            let l = g0.lit(c, k);
                            assert(g0.value_of(l.variable.0 as int, s0) is Some);
                            assert(l.value == g0.variables@[l.variable.0 as int].value);
                            assert(!l.is_true_in(s0));
                        }
                    }
                    lemma_count_none(n, all, Seq::<bool>::empty());
                }
                (natural(0), true)
            },
            BranchChoice::Branch => {
                let clauses = self.problem.clauses_iter();
                let mut rule = First {};
                proof {
                    lemma_can_branch(self.problem, self.state, clauses@);
                }
                let x = rule.branch_on(&self.problem, &self.state, &clauses);
                proof {
                    let h = g0.value_handles();
                    assert(h[x.0 as int] == g0.variables@[x.0 as int].value);
                    assert(s0.option_bool_at(h[x.0 as int]) is None);
                    lemma_unfixed_count_decreases(h, s0, s0);
                }
                let (c1, ok1) = self.count_branch(x, true, level, parameters);
                let ghost s1 = *self;
                proof {
                    lemma_same_formula_models(g0, s1.problem, s0, s0);
                    assert(s1.problem.value_handles() =~= g0.value_handles()) by {
                        assert forall|v: int| 0 <= v < g0.nvars() implies s1.problem.value_handles()[v] == g0.value_handles()[v] by {
                            assert(s1.problem.variables@[v].value == g0.variables@[v].value);
                        }
                    }
                    assert(s1.problem.value_of(x.0 as int, s1.state) == g0.value_of(x.0 as int, s0)) by {
                        assert(s1.problem.variables@[x.0 as int].value == g0.variables@[x.0 as int].value);
                    }
                    lemma_unfixed_count_same_values(g0.value_handles(), s1.state, s0);
                    assert(unfixed_count(s1.problem.value_handles(), s1.state) == unfixed_count(g0.value_handles(), s0));
                }
                let (c2, ok2) = self.count_branch(x, false, level, parameters);
                proof {
                    let g1 = s1.problem;
                    let f1 = admitted_with(g1, s1.state, x.0 as int, false);
                    let f0 = admitted_with(g0, s0, x.0 as int, false);
                    assert forall|sigma: Seq<bool>| sigma.len() == n && sigma.take(0) == Seq::<bool>::empty()
                        implies f1(sigma) == f0(sigma) by {
                        assert forall|v: int| 0 <= v < g0.nvars() implies #[trigger] g0.value_of(v, s1.state) == g0.value_of(v, s0) by {}
                        if agrees(sigma, g0, s1.state) {
                            assert forall|v: int| 0 <= v < g0.nvars() && (#[trigger] g0.value_of(v, s0)) is Some
                                implies g0.value_of(v, s0) == Some(sigma[v]) by {
                                assert(g0.value_of(v, s1.state) == g0.value_of(v, s0));
                            }
                        }
                        if agrees(sigma, g0, s0) {
                            assert forall|v: int| 0 <= v < g0.nvars() && (#[trigger] g0.value_of(v, s1.state)) is Some
                                implies g0.value_of(v, s1.state) == Some(sigma[v]) by {
                                assert(g0.value_of(v, s1.state) == g0.value_of(v, s0));
                            }
                        }
                    }
                    lemma_count_ext(n, f1, f0, Seq::<bool>::empty());
                    let q = |sigma: Seq<bool>| sigma[x.0 as int];
                    lemma_count_split(n, all, q, Seq::<bool>::empty());
                    let t0 = admitted_with(g0, s0, x.0 as int, true);
                    lemma_count_ext(n, |sigma: Seq<bool>| all(sigma) && q(sigma), t0, Seq::<bool>::empty());
                    lemma_count_ext(n, |sigma: Seq<bool>| all(sigma) && !q(sigma), f0, Seq::<bool>::empty());
                }
                let total = natural_add(c1, c2);
                (total, ok1 && ok2)
            },
        }
    }

    /// Preprocesses the problem, then counts its models; the time the count took
    /// is recorded in the solution. The second part of the result is false when
    /// the time limit was reached, the count being then a lower bound. Started on
    /// a problem with no value set, the count is that of the models of the
    /// formula. With a time limit of 0, the count is 0.
    pub fn search(&mut self, parameters: &SolverParameters) -> (r: (Solution, bool))
        requires
            old(self).ready(),
            old(self).problem.nvars() < isize::MAX,
            forall|c: int| 0 <= c < old(self).problem.nclauses() ==> (#[trigger] old(self).problem.clauses@[c]).literals@.len() > 0,
        ensures
            (forall|v: int| 0 <= v < old(self).problem.nvars() ==> #[trigger] old(self).problem.value_of(v, old(self).state) is None)
                ==> {
                &&& natural_value(r.0.count) <= model_count_spec(old(self).problem, old(self).state)
                &&& r.1 ==> natural_value(r.0.count) == model_count_spec(old(self).problem, old(self).state)
            },
            parameters.timeout == 0 ==> natural_value(r.0.count) == 0,
            parameters.timeout == u64::MAX ==> r.1,
    {
        let ghost g0 = self.problem;
        let ghost s0 = self.state;
        let ghost n = g0.nvars() as nat;
        let mut preprocessor = Preprocessor::new(&mut self.problem, &mut self.state, &mut self.propagator);
        let pre = preprocessor.preprocess();
        let ghost g = self.problem;
        let ghost s_pre = self.state;
        let r = self.count_preprocessed(pre, parameters);
        proof {
            if forall|v: int| 0 <= v < g0.nvars() ==> #[trigger] g0.value_of(v, s0) is None {
                if pre is Err {
                    lemma_count_none(n, admitted(g0, s0), Seq::<bool>::empty());
                } else {
                    lemma_same_formula_models(g0, g, s_pre, s_pre);
                    assert forall|sigma: Seq<bool>| sigma.len() == n && sigma.take(0) == Seq::<bool>::empty()
                        implies admitted(g, s_pre)(sigma) == admitted(g0, s0)(sigma) by {
                        if is_model(sigma, g0) {
                            assert(agrees(sigma, g0, s_pre));
                        }
                    }
                    lemma_count_ext(n, admitted(g, s_pre), admitted(g0, s0), Seq::<bool>::empty());
                }
            }
        }
        r
    }

    /// Counts the models after the preprocessing, whose result is
    /// `preprocessed`: when it failed, there is none and the count is complete;
    /// otherwise the count is that of `model_count` from level 1. The time the
    /// count took is recorded in the solution.
    pub fn count_preprocessed(&mut self, preprocessed: PropagationResult, parameters: &SolverParameters)
        -> (r: (Solution, bool))
        requires
            preprocessed is Ok ==> old(self).ready() && old(self).problem.nvars() < isize::MAX,
        ensures
            preprocessed is Err ==> natural_value(r.0.count) == 0 && r.1,
            preprocessed is Ok ==> {
                &&& natural_value(r.0.count) <= model_count_spec(old(self).problem, old(self).state)
                &&& r.1 ==> natural_value(r.0.count) == model_count_spec(old(self).problem, old(self).state)
                &&& parameters.timeout == 0 ==> natural_value(r.0.count) == 0 && !r.1
                &&& parameters.timeout == u64::MAX ==> r.1
            },
    {
        if preprocessed.is_err() {
            let seconds = whole_seconds(&elapsed(&parameters.start));
            return (Solution::new(natural(0), seconds), true);
        }
        self.propagator.reduce();
        proof {
            lemma_unfixed_count_bound(self.problem.value_handles(), self.state);
        }
        let (count, complete) = self.model_count(1, parameters);
        let seconds = whole_seconds(&elapsed(&parameters.start));
        (Solution::new(count, seconds), complete)
    }
}
} // verus!
