//! Choosing the variable to branch on.
use vstd::prelude::*;
use crate::formula::clause::first_unfixed_from;
use crate::formula::problem::{ClauseIndex, Problem, VariableIndex};
use crate::trail::Trail;

verus! {

/// The first position from `i` on in `clauses` whose clause is active in `s`,
/// or the length of `clauses`.
pub open spec fn first_active_from(p: Problem, s: Trail, clauses: Seq<ClauseIndex>, i: int) -> int
    decreases clauses.len() - i,
{
    if i >= clauses.len() || i < 0 {
        clauses.len() as int
    } else if p.clauses@[clauses[i].0 as int].is_active_in(s) {
        i
    } else {
        first_active_from(p, s, clauses, i + 1)
    }
}

proof fn lemma_first_active_from(p: Problem, s: Trail, clauses: Seq<ClauseIndex>, i: int)
    requires
        0 <= i <= clauses.len(),
    ensures
        i <= first_active_from(p, s, clauses, i) <= clauses.len(),
        first_active_from(p, s, clauses, i) < clauses.len()
            ==> p.clauses@[clauses[first_active_from(p, s, clauses, i)].0 as int].is_active_in(s),
        forall|k: int| i <= k < first_active_from(p, s, clauses, i)
            ==> !p.clauses@[(#[trigger] clauses[k]).0 as int].is_active_in(s),
    decreases clauses.len() - i,
{
    if i < clauses.len() && !p.clauses@[clauses[i].0 as int].is_active_in(s) {
        lemma_first_active_from(p, s, clauses, i + 1);
    }
}

/// Among `clauses`, an active one exists, and the first active one has a
/// literal whose variable is unset.
pub open spec fn can_branch(p: Problem, s: Trail, clauses: Seq<ClauseIndex>) -> bool {
    let i = first_active_from(p, s, clauses, 0);
    &&& i < clauses.len()
    &&& first_unfixed_from(p.clauses@[clauses[i].0 as int].literals@, s, 0)
        < p.clauses@[clauses[i].0 as int].literals@.len()
}

/// The clauses listed in order can be branched on when one of them is active
/// and every active one has an unset literal.
pub proof fn lemma_can_branch(p: Problem, s: Trail, clauses: Seq<ClauseIndex>)
    requires
        clauses.len() == p.nclauses(),
        forall|c: int| 0 <= c < p.nclauses() ==> (#[trigger] clauses[c]).0 == c,
        exists|c: int| 0 <= c < p.nclauses() && (#[trigger] p.clauses@[c]).is_active_in(s),
        forall|c: int| 0 <= c < p.nclauses() && (#[trigger] p.clauses@[c]).is_active_in(s)
            ==> first_unfixed_from(p.clauses@[c].literals@, s, 0) < p.clauses@[c].literals@.len(),
    ensures
        can_branch(p, s, clauses),
{
    lemma_first_active_from(p, s, clauses, 0);
    let c = choose|c: int| 0 <= c < p.nclauses() && (#[trigger] p.clauses@[c]).is_active_in(s);
    let i = first_active_from(p, s, clauses, 0);
    if i >= clauses.len() {
        assert(clauses[c].0 == c);
        assert(!p.clauses@[clauses[c].0 as int].is_active_in(s));
    } else {
        assert(clauses[i].0 == i);
    }
}

/// A rule that picks the next variable to branch on among the variables of a
/// set of clauses.
pub trait BranchingDecision {
    /// Picks an unset variable of an active clause among `clauses`.
    fn branch_on(&mut self, p: &Problem, state: &Trail, clauses: &Vec<ClauseIndex>) -> (v: VariableIndex)
        requires
            p.wf(*state),
            forall|i: int| 0 <= i < clauses@.len() ==> (#[trigger] clauses@[i]).0 < p.nclauses(),
            can_branch(*p, *state, clauses@),
        ensures
            v.0 < p.nvars(),
            p.value_of(v.0 as int, *state) is None,
            exists|i: int| 0 <= i < clauses@.len() && p.clauses@[(#[trigger] clauses@[i]).0 as int].is_active_in(*state)
                && (p.clause_has(clauses@[i].0 as int, v.0 as int, true) || p.clause_has(clauses@[i].0 as int, v.0 as int, false)),
    ;
}

/// Branches on the first unset variable of the first active clause.
pub struct First {}

impl BranchingDecision for First {
    /// Returns the variable of the first unset literal of the first active clause.
    fn branch_on(&mut self, p: &Problem, state: &Trail, clauses: &Vec<ClauseIndex>) -> (v: VariableIndex)
        ensures
            ({
                let c = clauses@[first_active_from(*p, *state, clauses@, 0)].0 as int;
                v == p.clauses@[c].literals@[first_unfixed_from(p.clauses@[c].literals@, *state, 0)].variable
            }),
    {
        proof {
            lemma_first_active_from(*p, *state, clauses@, 0);
        }
        let mut i: usize = 0;
        while i < clauses.len()
            invariant
                i <= clauses@.len(),
                p.wf(*state),
                forall|j: int| 0 <= j < clauses@.len() ==> (#[trigger] clauses@[j]).0 < p.nclauses(),
                first_active_from(*p, *state, clauses@, 0) == first_active_from(*p, *state, clauses@, i as int),
                can_branch(*p, *state, clauses@),
            decreases clauses@.len() - i,
        {
            let c = clauses[i];
            proof {
                assert(p.clauses@[c.0 as int].wf_in(*state));
            }
            if p.clauses[c.0].is_active(state) {
                let ghost lits = p.clauses@[c.0 as int].literals@;
                proof {
                    lemma_first_active_from(*p, *state, clauses@, i as int);
                    assert(first_active_from(*p, *state, clauses@, i as int) == i);
                    crate::formula::clause::lemma_first_unfixed_from(lits, *state, 0);
                }
                let mut k: usize = 0;
                while k < p.clauses[c.0].literals.len()
                    invariant
                        k <= lits.len(),
                        lits == p.clauses@[c.0 as int].literals@,
                        c.0 < p.nclauses(),
                        p.wf(*state),
                        first_unfixed_from(lits, *state, 0) == first_unfixed_from(lits, *state, k as int),
                        first_unfixed_from(lits, *state, 0) < lits.len(),
                        first_active_from(*p, *state, clauses@, 0) == i,
                        i < clauses@.len(),
                        clauses@[i as int] == c,
                        p.clauses@[c.0 as int].is_active_in(*state),
                    decreases lits.len() - k,
                {
                    let l = p.clauses[c.0].literals[k];
                    proof {
                        assert(p.lit(c.0 as int, k as int) == l);
                        assert(p.variables@[l.variable.0 as int].wf_in(*state));
                    }
                    if !p.variables[l.variable.0].is_fixed(state) {
                        proof {
                            assert(first_unfixed_from(lits, *state, k as int) == k);
                            assert(p.clause_has(c.0 as int, l.variable.0 as int, l.positive));
                            assert(p.clauses@[clauses@[i as int].0 as int].is_active_in(*state));
                        }
                        return l.variable;
                    }
                    k += 1;
                }
                proof {
                    assert(first_unfixed_from(lits, *state, k as int) == lits.len());
                }
            }
            i += 1;
        }
        proof {
            lemma_first_active_from(*p, *state, clauses@, i as int);
        }
        VariableIndex(0)
    }
}

} // verus!
