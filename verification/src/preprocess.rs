//! Preprocessing: the literals of the unit clauses are propagated before the search.
use vstd::prelude::*;
use crate::formula::problem::{Problem, VariableIndex};
use crate::propagator::{
    assignments_recorded, changes_within, conflict_reached, is_conflict, positions_and_levels, same_kinds, PropagationResult,
    Propagator,
};
use crate::models::{admits, agrees, grants, holds, is_model, some_holds};
use crate::trail::Trail;
use crate::activity::deactivations_justified;
use crate::formula::problem::ClauseIndex;
use crate::propagator::stack_asks;
use crate::watching::{at_fixpoint, distinct_variables, settled, unset, watches_complete};

verus! {

/// The requests that the unit clauses of `g` among the first `n` make in `s`:
/// the literal of each, at level 0, in the order of the clauses.
pub open spec fn unit_requests(g: Problem, s: Trail, n: int) -> Seq<(VariableIndex, bool, isize)>
    decreases n,
{
    if n <= 0 {
        Seq::empty()
    } else {
        let rest = unit_requests(g, s, n - 1);
        let c = g.clauses@[n - 1];
        if c.is_unit_in(s) {
            rest.push((c.literals@[0].variable, c.literals@[0].positive, 0isize))
        } else {
            rest
        }
    }
}

/// Every literal requested by `unit_requests` names a variable of `g`.
pub proof fn lemma_unit_requests(g: Problem, s: Trail, n: int)
    requires
        g.wf(s),
        0 <= n <= g.nclauses(),
    ensures
        forall|i: int| 0 <= i < unit_requests(g, s, n).len() ==> (#[trigger] unit_requests(g, s, n)[i]).0.0 < g.nvars(),
    decreases n,
{
    if n > 0 {
        lemma_unit_requests(g, s, n - 1);
        let rest = unit_requests(g, s, n - 1);
        let c = g.clauses@[n - 1];
        let r = unit_requests(g, s, n);
        assert forall|i: int| 0 <= i < r.len() implies (#[trigger] r[i]).0.0 < g.nvars() by {
            if i < rest.len() {
                assert(r[i] == rest[i]);
            } else {
                assert(g.lit(n - 1, 0) == c.literals@[0]);
            }
        }
    }
}

/// The requests of the unit clauses among the first `n` ask for the first
/// literal of each.
proof fn lemma_unit_requests_ask(g: Problem, s: Trail, n: int, c: int)
    requires
        0 <= c < n <= g.nclauses(),
        g.clauses@[c].is_unit_in(s),
    ensures
        stack_asks(unit_requests(g, s, n), g.clauses@[c].literals@[0].variable.0 as int, g.clauses@[c].literals@[0].positive),
    decreases n,
{
    let r = unit_requests(g, s, n);
    let rest = unit_requests(g, s, n - 1);
    if c < n - 1 {
        lemma_unit_requests_ask(g, s, n - 1, c);
        let k = choose|k: int| 0 <= k < rest.len() && (#[trigger] rest[k]).0.0 == g.clauses@[c].literals@[0].variable.0 as int
            && rest[k].1 == g.clauses@[c].literals@[0].positive;
        assert(r[k] == rest[k]);
    } else {
        assert(r[rest.len() as int] == (g.clauses@[c].literals@[0].variable, g.clauses@[c].literals@[0].positive, 0isize));
    }
}

/// When no variable of `g` has a value, every model of `g` grants the requests
/// of its unit clauses: these clauses then have a single literal.
proof fn lemma_unit_requests_granted(g: Problem, s: Trail, n: int, sigma: Seq<bool>)
    requires
        g.wf(s),
        0 <= n <= g.nclauses(),
        forall|v: int| 0 <= v < g.nvars() ==> #[trigger] g.value_of(v, s) is None,
        is_model(sigma, g),
    ensures
        grants(sigma, unit_requests(g, s, n)),
    decreases n,
{
    if n > 0 {
        lemma_unit_requests_granted(g, s, n - 1, sigma);
        let rest = unit_requests(g, s, n - 1);
        let r = unit_requests(g, s, n);
        let c = g.clauses@[n - 1];
        if c.is_unit_in(s) {
            let l = c.literals@[0];
            assert(g.lit(n - 1, 0) == l);
            if c.literals@.len() >= 2 {
                let l1 = c.literals@[1];
                assert(g.lit(n - 1, 1) == l1);
                assert(g.value_of(l1.variable.0 as int, s) is None);
            }
            assert(some_holds(sigma, c.literals@));
            let k = choose|k: int| 0 <= k < c.literals@.len() && holds(sigma, #[trigger] c.literals@[k]);
            assert(k == 0);
            assert forall|i: int| 0 <= i < r.len() implies sigma[(#[trigger] r[i]).0.0 as int] == r[i].1 by {
                if i < rest.len() {
                    assert(r[i] == rest[i]);
                }
            }
        }
    }
}

/// Runs propagation from the unit clauses of the problem.
pub struct Preprocessor<'b> {
    /// The problem to preprocess
    pub problem: &'b mut Problem,
    /// The store of reversible values
    pub state: &'b mut Trail,
    /// The propagator
    pub propagator: &'b mut Propagator,
}

impl<'b> Preprocessor<'b> {
    pub fn new(problem: &'b mut Problem, state: &'b mut Trail, propagator: &'b mut Propagator) -> (p: Self)
        ensures
            *p.problem == *old(problem),
            *p.state == *old(state),
            *p.propagator == *old(propagator),
            *final(p.problem) == *final(problem),
            *final(p.state) == *final(state),
            *final(p.propagator) == *final(propagator),
    {
        Preprocessor { problem, state, propagator }
    }

    /// Requests the literal of every unit clause, at level 0, then propagates.
    pub fn preprocess(&mut self) -> (r: PropagationResult)
        requires
            old(self).problem.wf(*old(self).state),
            old(self).problem.active_clauses_unsatisfied(*old(self).state),
            old(self).propagator.wf_with(*old(self).problem, *old(self).state),
            forall|c: int| 0 <= c < old(self).problem.nclauses() ==> (#[trigger] old(self).problem.clauses@[c]).literals@.len() > 0,
        ensures
            *final(final(self).problem) == *final(old(self).problem),
            *final(final(self).state) == *final(old(self).state),
            *final(final(self).propagator) == *final(old(self).propagator),
            ({
                let g0 = *old(self).problem;
                let s0 = *old(self).state;
                let g = *final(self).problem;
                let s = *final(self).state;
                let requests = old(self).propagator.propagation_stack@ + unit_requests(g0, s0, g0.nclauses());
                &&& g.wf(s)
                &&& g.active_clauses_unsatisfied(s)
                &&& g.same_formula(g0)
                &&& final(self).propagator.wf_with(g, s)
                &&& final(self).propagator.propagation_stack@.len() == 0
                &&& same_kinds(s0, s)
                &&& assignments_recorded(g0, s0, s, old(self).propagator.assignments@, final(self).propagator.assignments@, requests)
                &&& positions_and_levels(g, s, final(self).propagator.assignments@,
                    old(self).propagator.assignments@.len() as int, requests, 0, g0, s0)
                &&& changes_within(g0, old(self).propagator.base_assignments.0 as int, s0, s)
                &&& g0.inactive_clauses_satisfied(s0) ==> g.inactive_clauses_satisfied(s)
                &&& deactivations_justified(g, s0, s)
                &&& match r {
                    Ok(()) => {
                        &&& forall|i: int| 0 <= i < requests.len()
                            ==> g0.value_of((#[trigger] requests[i]).0.0 as int, s) == Some(requests[i].1)
                        &&& forall|sigma: Seq<bool>| #[trigger] admits(g0, s0, requests, sigma) ==> agrees(sigma, g0, s)
                    },
                    Err(e) => {
                        &&& e == 0
                        &&& exists|v: int, b: bool| #[trigger] is_conflict(g0, s, requests, v, b)
                        &&& conflict_reached(g0, s0, final(self).propagator.assignments@,
                            old(self).propagator.assignments@.len() as int, requests, s)
                        &&& forall|sigma: Seq<bool>| !#[trigger] admits(g0, s0, requests, sigma)
                    },
                }
                // Starting with no value and no pending request, a failure means
                // that the formula has no model, and a success sets only values
                // that every model has.
                // Started with no value, on watch lists that are complete and
                // clauses that name each variable once, a success ends at a
                // fixpoint.
                &&& (watches_complete(g0) && distinct_variables(g0)
                    && forall|v: int| 0 <= v < g0.nvars() ==> #[trigger] g0.value_of(v, s0) is None)
                    ==> watches_complete(g) && distinct_variables(g) && (r is Ok ==> at_fixpoint(g, s))
                &&& (old(self).propagator.propagation_stack@.len() == 0
                    && forall|v: int| 0 <= v < g0.nvars() ==> #[trigger] g0.value_of(v, s0) is None) ==> match r {
                    Ok(()) => forall|sigma: Seq<bool>| #[trigger] is_model(sigma, g0) ==> agrees(sigma, g0, s),
                    Err(_) => forall|sigma: Seq<bool>| !#[trigger] is_model(sigma, g0),
                }
            }),
    {
        let ghost g0 = *self.problem;
        let ghost s0 = *self.state;
        let ghost stack0 = self.propagator.propagation_stack@;
        let n = self.problem.number_clauses();
        let mut i: usize = 0;
        proof {
            lemma_unit_requests(g0, s0, g0.nclauses());
        }
        assert(stack0 + unit_requests(g0, s0, 0) =~= stack0);
        while i < n
            invariant
                i <= n,
                n == g0.nclauses(),
                *self.problem == g0,
                *self.state == s0,
                *final(self.problem) == *final(old(self).problem),
                *final(self.state) == *final(old(self).state),
                *final(self.propagator) == *final(old(self).propagator),
                g0.wf(s0),
                forall|c: int| 0 <= c < g0.nclauses() ==> (#[trigger] g0.clauses@[c]).literals@.len() > 0,
                self.propagator.propagation_stack@ == stack0 + unit_requests(g0, s0, i as int),
                self.propagator.assignments@ == old(self).propagator.assignments@,
                self.propagator.base_assignments == old(self).propagator.base_assignments,
            decreases n - i,
        {
            proof {
                assert(g0.clauses@[i as int].wf_in(s0));
            }
            if self.problem.clauses[i].is_unit(self.state) {
                let l = self.problem.clauses[i].get_unit_assigment(self.state);
                self.propagator.add_to_propagation_stack(l.to_variable(), l.is_positive(), 0);
                assert(self.propagator.propagation_stack@ =~= stack0 + unit_requests(g0, s0, i + 1));
            } else {
                assert(unit_requests(g0, s0, i + 1) == unit_requests(g0, s0, i as int));
            }
            i += 1;
        }
        proof {
            let st = self.propagator.propagation_stack@;
            assert forall|k: int| 0 <= k < st.len() implies (#[trigger] st[k]).0.0 < g0.nvars() by {
                if k < stack0.len() {
                    assert(st[k] == stack0[k]);
                } else {
                    assert(st[k] == unit_requests(g0, s0, g0.nclauses())[k - stack0.len()]);
                }
            }
        }
        proof {
            let requests = stack0 + unit_requests(g0, s0, g0.nclauses());
            if forall|v: int| 0 <= v < g0.nvars() ==> #[trigger] g0.value_of(v, s0) is None {
                assert forall|c: ClauseIndex| c.0 < g0.nclauses() implies #[trigger] settled(g0, s0, requests, c) by {
                    let d = c.0 as int;
                    let z = g0.clauses@[d].literals@;
                    assert(z.len() > 0);
                    assert(g0.lit(d, 0) == z[0]);
                    assert(g0.lit(d, 0).value == g0.variables@[z[0].variable.0 as int].value);
                    assert(g0.value_of(z[0].variable.0 as int, s0) is None);
                    assert(unset(z[0], s0));
                    if z.len() >= 2 {
                        assert(g0.lit(d, 1) == z[1]);
                        assert(g0.lit(d, 1).value == g0.variables@[z[1].variable.0 as int].value);
                        assert(g0.value_of(z[1].variable.0 as int, s0) is None);
                    } else if g0.clauses@[d].is_active_in(s0) {
                        lemma_unit_requests_ask(g0, s0, g0.nclauses(), d);
                        let ur = unit_requests(g0, s0, g0.nclauses());
                        let k = choose|k: int| 0 <= k < ur.len() && (#[trigger] ur[k]).0.0 == z[0].variable.0 as int
                            && ur[k].1 == z[0].positive;
                        assert(requests[stack0.len() + k] == ur[k]);
                    }
                }
            }
        }
        let r = self.propagator.propagate(self.problem, self.state, 0);
        proof {
            let requests = stack0 + unit_requests(g0, s0, g0.nclauses());
            if stack0.len() == 0 && forall|v: int| 0 <= v < g0.nvars() ==> #[trigger] g0.value_of(v, s0) is None {
                assert(requests =~= unit_requests(g0, s0, g0.nclauses()));
                assert forall|sigma: Seq<bool>| #[trigger] is_model(sigma, g0) implies admits(g0, s0, requests, sigma) by {
                    lemma_unit_requests_granted(g0, s0, g0.nclauses(), sigma);
                }
            }
        }
        r
    }
}

} // verus!
