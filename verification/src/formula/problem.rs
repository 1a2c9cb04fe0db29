//! The problem: its variables, its clauses and the watch lists.
use vstd::prelude::*;
use crate::formula::clause::{lemma_notified_same, notified_literals, same_literals, Clause};
use crate::formula::literal::Literal;
use crate::formula::variable::Variable;
use crate::trail::{same_kind, OptionBoolId, Slot, Trail};
use crate::watching::{lemma_added_clause_watched, watches_complete};

verus! {

/// Position of a variable in the problem
#[derive(Clone, Copy, PartialEq, Eq, Structural, Debug, Hash, PartialOrd, Ord)]
pub struct VariableIndex(pub usize);

/// Position of a clause in the problem
#[derive(Clone, Copy, PartialEq, Eq, Structural, Debug, Hash, PartialOrd, Ord)]
pub struct ClauseIndex(pub usize);

/// The problem: variables, clauses, and for each variable the clauses it watches.
#[derive(Debug)]
pub struct Problem {
    /// The variables of the problem
    pub variables: Vec<Variable>,
    /// The clauses of the problem
    pub clauses: Vec<Clause>,
    /// For each variable, the clauses it watches
    pub watchers: Vec<Vec<ClauseIndex>>,
    /// Number of clauses in the problem
    pub number_clauses_problem: usize,
}

/// The values of the store that were there before are still there.
pub open spec fn extends(before: Trail, after: Trail) -> bool {
    &&& before.values().len() <= after.values().len()
    &&& forall|i: int| 0 <= i < before.values().len() ==> #[trigger] after.values()[i] == before.values()[i]
    &&& after.saved() == before.saved()
}

/// `cid` once for each literal of `lits` on variable `v` whose polarity
/// matches `polarity` (any polarity for `None`), in order.
pub open spec fn occurrences_of(lits: Seq<Literal>, v: int, polarity: Option<bool>, cid: ClauseIndex) -> Seq<ClauseIndex>
    decreases lits.len(),
{
    if lits.len() == 0 {
        Seq::<ClauseIndex>::empty()
    } else {
        let rest = occurrences_of(lits.drop_last(), v, polarity, cid);
        let l = lits.last();
        if l.variable.0 == v && (polarity is None || polarity == Some(l.positive)) {
            rest.push(cid)
        } else {
            rest
        }
    }
}

/// The number of watched literals of a clause with literals `lits`: its first two.
pub open spec fn watched_count(lits: Seq<Literal>) -> int {
    if lits.len() < 2 { lits.len() as int } else { 2 }
}

/// The watch list of variable `v` that the first `n` clauses give: each clause,
/// in order, once for each of its watched literals over `v`.
pub open spec fn watch_list(clauses: Seq<Clause>, v: int, n: int) -> Seq<ClauseIndex>
    decreases n,
{
    if n <= 0 {
        Seq::<ClauseIndex>::empty()
    } else {
        let lits = clauses[n - 1].literals@;
        watch_list(clauses, v, n - 1) + occurrences_of(lits.take(watched_count(lits)), v, None, ClauseIndex((n - 1) as usize))
    }
}

/// The occurrence list of variable `v` with the given polarity that the first `n`
/// clauses give: each clause, in order, once for each of its literals over `v`
/// with that polarity.
pub open spec fn occurrence_list(clauses: Seq<Clause>, v: int, positive: bool, n: int) -> Seq<ClauseIndex>
    decreases n,
{
    if n <= 0 {
        Seq::<ClauseIndex>::empty()
    } else {
        occurrence_list(clauses, v, positive, n - 1) + occurrences_of(
            clauses[n - 1].literals@,
            v,
            Some(positive),
            ClauseIndex((n - 1) as usize),
        )
    }
}

/// The lists that the first `n` clauses give depend on those clauses only.
pub proof fn lemma_lists_prefix(a: Seq<Clause>, b: Seq<Clause>, v: int, n: int)
    requires
        0 <= n <= a.len(),
        n <= b.len(),
        forall|i: int| 0 <= i < n ==> #[trigger] a[i] == b[i],
    ensures
        watch_list(a, v, n) == watch_list(b, v, n),
        occurrence_list(a, v, true, n) == occurrence_list(b, v, true, n),
        occurrence_list(a, v, false, n) == occurrence_list(b, v, false, n),
    decreases n,
{
    if n > 0 {
        lemma_lists_prefix(a, b, v, n - 1);
        assert(a[n - 1] == b[n - 1]);
    }
}

pub proof fn lemma_occurrences_of(lits: Seq<Literal>, v: int, polarity: Option<bool>, cid: ClauseIndex)
    ensures
        forall|x: ClauseIndex| (#[trigger] occurrences_of(lits, v, polarity, cid).contains(x)) ==> x == cid,
        (exists|k: int| 0 <= k < lits.len() && (#[trigger] lits[k]).variable.0 == v && (polarity is None
            || polarity == Some(lits[k].positive))) ==> occurrences_of(lits, v, polarity, cid).contains(cid),
    decreases lits.len(),
{
    if lits.len() > 0 {
        let rest = lits.drop_last();
        lemma_occurrences_of(rest, v, polarity, cid);
        if exists|k: int| 0 <= k < lits.len() && (#[trigger] lits[k]).variable.0 == v && (polarity is None
            || polarity == Some(lits[k].positive)) {
            let k = choose|k: int| 0 <= k < lits.len() && (#[trigger] lits[k]).variable.0 == v && (polarity is None
                || polarity == Some(lits[k].positive));
            if k < lits.len() - 1 {
                assert(rest[k] == lits[k]);
                let r = occurrences_of(rest, v, polarity, cid);
                assert(r.contains(cid));
                let j = choose|j: int| 0 <= j < r.len() && r[j] == cid;
                let full = occurrences_of(lits, v, polarity, cid);
                assert(full[j] == cid);
            } else {
                let full = occurrences_of(lits, v, polarity, cid);
                assert(full[full.len() - 1] == cid);
            }
        }
        assert forall|x: ClauseIndex| (#[trigger] occurrences_of(lits, v, polarity, cid).contains(x)) implies x == cid by {
            let full = occurrences_of(lits, v, polarity, cid);
            let r = occurrences_of(rest, v, polarity, cid);
            let j = choose|j: int| 0 <= j < full.len() && full[j] == x;
            if j < r.len() {
                assert(r[j] == x);
                assert(r.contains(x));
            }
        }
    }
}

pub proof fn lemma_occurrences_of_absent(lits: Seq<Literal>, v: int, polarity: Option<bool>, cid: ClauseIndex)
    requires
        forall|k: int| 0 <= k < lits.len() ==> (#[trigger] lits[k]).variable.0 != v,
    ensures
        occurrences_of(lits, v, polarity, cid).len() == 0,
    decreases lits.len(),
{
    if lits.len() > 0 {
        lemma_occurrences_of_absent(lits.drop_last(), v, polarity, cid);
    }
}

pub proof fn lemma_occurrences_of_witness(lits: Seq<Literal>, v: int, polarity: Option<bool>, cid: ClauseIndex)
    requires
        occurrences_of(lits, v, polarity, cid).len() > 0,
    ensures
        exists|k: int| 0 <= k < lits.len() && (#[trigger] lits[k]).variable.0 == v && (polarity is None
            || polarity == Some(lits[k].positive)),
    decreases lits.len(),
{
    let rest = lits.drop_last();
    let l = lits.last();
    if l.variable.0 == v && (polarity is None || polarity == Some(l.positive)) {
        assert(lits[lits.len() - 1] == l);
    } else {
        lemma_occurrences_of_witness(rest, v, polarity, cid);
        let k = choose|k: int| 0 <= k < rest.len() && (#[trigger] rest[k]).variable.0 == v && (polarity is None
            || polarity == Some(rest[k].positive));
        assert(lits[k] == rest[k]);
    }
}

impl Problem {
    pub open spec fn nvars(&self) -> int {
        self.variables@.len() as int
    }

    pub open spec fn nclauses(&self) -> int {
        self.clauses@.len() as int
    }

    /// The `k`-th literal of clause `c`.
    pub open spec fn lit(&self, c: int, k: int) -> Literal {
        self.clauses@[c].literals@[k]
    }

    /// The handles of the values of the variables, in order.
    pub open spec fn value_handles(&self) -> Seq<OptionBoolId> {
        self.variables@.map_values(|x: Variable| x.value)
    }

    /// The value of variable `v` in `state`.
    pub open spec fn value_of(&self, v: int, state: Trail) -> Option<bool> {
        self.variables@[v].value_in(state)
    }

    /// Handles of variables lead to values of the right kind, and no two
    /// variables share a value or an assignment position.
    pub open spec fn wf_variables(&self, state: Trail) -> bool {
        &&& forall|v: int| 0 <= v < self.nvars() ==> (#[trigger] self.variables@[v]).wf_in(state)
        &&& forall|v: int, w: int| 0 <= v < self.nvars() && 0 <= w < self.nvars() && v != w
            ==> (#[trigger] self.variables@[v]).value.0 != (#[trigger] self.variables@[w]).value.0
        &&& forall|v: int, w: int| 0 <= v < self.nvars() && 0 <= w < self.nvars() && v != w
            ==> (#[trigger] self.variables@[v]).assignment_position.0
                != (#[trigger] self.variables@[w]).assignment_position.0
    }

    /// Handles of clauses lead to values of the right kind, and no two clauses
    /// share a flag.
    pub open spec fn wf_clauses(&self, state: Trail) -> bool {
        &&& forall|c: int| 0 <= c < self.nclauses() ==> (#[trigger] self.clauses@[c]).wf_in(state)
        &&& forall|c: int, d: int| 0 <= c < self.nclauses() && 0 <= d < self.nclauses() && c != d
            ==> (#[trigger] self.clauses@[c]).active.0 != (#[trigger] self.clauses@[d]).active.0
        &&& forall|c: int, d: int| 0 <= c < self.nclauses() && 0 <= d < self.nclauses()
            ==> (#[trigger] self.clauses@[c]).active.0 != (#[trigger] self.clauses@[d]).modified.0
    }

    /// Every literal names a variable of the problem and that variable's value.
    pub open spec fn wf_literals(&self) -> bool {
        forall|c: int, k: int| 0 <= c < self.nclauses() && 0 <= k < self.clauses@[c].literals@.len()
            ==> {
                let l = #[trigger] self.lit(c, k);
                &&& l.variable.0 < self.nvars()
                &&& l.value == self.variables@[l.variable.0 as int].value
            }
    }

    /// Clause `c` holds a literal of variable `v` with the given polarity.
    pub open spec fn clause_has(&self, c: int, v: int, positive: bool) -> bool {
        exists|k: int| 0 <= k < self.clauses@[c].literals@.len() && (#[trigger] self.lit(c, k)).variable.0
            == v && self.lit(c, k).positive == positive
    }

    /// The occurrence lists of each variable hold exactly the clauses where it
    /// occurs with that polarity.
    pub open spec fn wf_occurrences(&self) -> bool {
        &&& forall|c: int, k: int| 0 <= c < self.nclauses() && 0 <= k < self.clauses@[c].literals@.len()
            ==> {
                let l = #[trigger] self.lit(c, k);
                if l.positive {
                    self.variables@[l.variable.0 as int].clauses_positive@.contains(ClauseIndex(c as usize))
                } else {
                    self.variables@[l.variable.0 as int].clauses_negative@.contains(ClauseIndex(c as usize))
                }
            }
        &&& forall|v: int, k: int| 0 <= v < self.nvars() && 0 <= k < self.variables@[v].clauses_positive@.len()
            ==> {
                let c = (#[trigger] self.variables@[v].clauses_positive@[k]).0 as int;
                c < self.nclauses() && self.clause_has(c, v, true)
            }
        &&& forall|v: int, k: int| 0 <= v < self.nvars() && 0 <= k < self.variables@[v].clauses_negative@.len()
            ==> {
                let c = (#[trigger] self.variables@[v].clauses_negative@[k]).0 as int;
                c < self.nclauses() && self.clause_has(c, v, false)
            }
    }

    /// Each variable has a watch list, and it watches only clauses in which it occurs.
    pub open spec fn wf_watchers(&self) -> bool {
        &&& self.watchers@.len() == self.variables@.len()
        &&& forall|v: int, k: int| 0 <= v < self.nvars() && 0 <= k < self.watchers@[v]@.len()
            ==> {
                let c = (#[trigger] self.watchers@[v]@[k]).0 as int;
                &&& c < self.nclauses()
                &&& (self.clause_has(c, v, true) || self.clause_has(c, v, false))
            }
    }

    /// The problem is well formed in `state`.
    pub open spec fn wf(&self, state: Trail) -> bool {
        &&& self.wf_variables(state)
        &&& self.wf_clauses(state)
        &&& self.wf_literals()
        &&& self.wf_occurrences()
        &&& self.wf_watchers()
    }

    /// No active clause holds a literal that is true in `state`: a clause is
    /// set inactive as soon as one of its literals holds.
    pub open spec fn active_clauses_unsatisfied(&self, state: Trail) -> bool {
        forall|c: int, k: int| 0 <= c < self.nclauses() && 0 <= k < self.clauses@[c].literals@.len()
            && (#[trigger] self.clauses@[c]).is_active_in(state) ==> !(#[trigger] self.lit(c, k)).is_true_in(state)
    }

    /// Every inactive clause holds a literal that is true in `state`: a clause is
    /// set inactive only once one of its literals holds.
    pub open spec fn inactive_clauses_satisfied(&self, state: Trail) -> bool {
        forall|c: int| 0 <= c < self.nclauses() && !(#[trigger] self.clauses@[c]).is_active_in(state)
            ==> exists|k: int| 0 <= k < self.clauses@[c].literals@.len() && (#[trigger] self.lit(c, k)).is_true_in(state)
    }

    /// A problem with `n_var` variables, no value, no clause, and room for
    /// `n_clause` clauses. The values of the variables are appended to the store.
    pub fn new(state: &mut Trail, n_var: usize, n_clause: usize) -> (p: Problem)
        ensures
            p.wf(*final(state)),
            p.nvars() == n_var,
            p.nclauses() == 0,
            p.number_clauses_problem == n_clause,
            forall|v: int| 0 <= v < n_var ==> p.value_of(v, *final(state)) is None,
            forall|v: int| 0 <= v < n_var ==> {
                let x = #[trigger] p.variables@[v];
                &&& x.id == v
                &&& x.decision == -1
                &&& x.clauses_positive@.len() == 0
                &&& x.clauses_negative@.len() == 0
            },
            forall|v: int| 0 <= v < n_var ==> (#[trigger] p.watchers@[v])@.len() == 0,
            watches_complete(p),
            forall|v: int| 0 <= v < n_var ==> (#[trigger] p.variables@[v]).assignment_position.0
                >= old(state).values().len(),
            extends(*old(state), *final(state)),
    {
        let ghost base = state.values().len();
        let mut variables: Vec<Variable> = Vec::new();
        let mut watchers: Vec<Vec<ClauseIndex>> = Vec::new();
        let mut i: usize = 0;
        while i < n_var
            invariant
                i <= n_var,
                variables@.len() == i,
                watchers@.len() == i,
                state.values().len() == base + 2 * i,
                extends(*old(state), *state),
                forall|v: int| 0 <= v < i ==> (#[trigger] watchers@[v])@.len() == 0,
                forall|v: int| 0 <= v < i ==> {
                    let x = #[trigger] variables@[v];
                    &&& x.id == v
                    &&& x.decision == -1
                    &&& x.value.0 == base + 2 * v
                    &&& x.assignment_position.0 == base + 2 * v + 1
                    &&& x.clauses_positive@.len() == 0
                    &&& x.clauses_negative@.len() == 0
                    &&& state.values()[base + 2 * v] == Slot::OptionBool(None)
                    &&& state.values()[base + 2 * v + 1] == Slot::Usize(0)
                },
            decreases n_var - i,
        {
            let ghost prev_values = state.values();
            let ghost prev_variables = variables@;
            let ghost prev_watchers = watchers@;
            let v = Variable::new(i, state);
            variables.push(v);
            watchers.push(Vec::new());
            proof {
                assert forall|v: int| 0 <= v < i implies (#[trigger] watchers@[v])@.len() == 0 by {
                    assert(watchers@[v] == prev_watchers[v]);
                }
                assert forall|v: int| 0 <= v < i + 1 implies {
                    let x = #[trigger] variables@[v];
                    &&& x.id == v
                    &&& x.decision == -1
                    &&& x.value.0 == base + 2 * v
                    &&& x.assignment_position.0 == base + 2 * v + 1
                    &&& x.clauses_positive@.len() == 0
                    &&& x.clauses_negative@.len() == 0
                    &&& state.values()[base + 2 * v] == Slot::OptionBool(None)
                    &&& state.values()[base + 2 * v + 1] == Slot::Usize(0)
                } by {
                    if v < i {
                        assert(variables@[v] == prev_variables[v]);
                        assert(state.values()[base + 2 * v] == prev_values[base + 2 * v]);
                        assert(state.values()[base + 2 * v + 1] == prev_values[base + 2 * v + 1]);
                    }
                }
                assert forall|j: int| 0 <= j < old(state).values().len() implies #[trigger] state.values()[j] == old(state).values()[j] by {
                    assert(state.values()[j] == prev_values[j]);
                }
            }
            i += 1;
        }
        let p = Problem { variables, clauses: Vec::new(), watchers, number_clauses_problem: n_clause };
        assert(p.wf_variables(*state));
        p
    }

    /// Adds a clause with the given literals, watched by the variables of its first
    /// two literals, and records it in the occurrence lists of its variables. Its
    /// two flags are appended to the store.
    pub fn add_clause(&mut self, literals: Vec<Literal>, state: &mut Trail, is_learned: bool) -> (cid: ClauseIndex)
        requires
            old(self).wf(*old(state)),
            forall|k: int| 0 <= k < literals@.len() ==> {
                let l = #[trigger] literals@[k];
                &&& l.variable.0 < old(self).nvars()
                &&& l.value == old(self).variables@[l.variable.0 as int].value
            },
        ensures
            final(self).wf(*final(state)),
            cid.0 == old(self).nclauses(),
            final(self).clauses@.len() == old(self).clauses@.len() + 1,
            forall|c: int| 0 <= c < old(self).nclauses() ==> #[trigger] final(self).clauses@[c] == old(self).clauses@[c],
            final(self).clauses@[cid.0 as int].literals@ == literals@,
            final(self).clauses@[cid.0 as int].id == cid.0,
            final(self).clauses@[cid.0 as int].is_learned == is_learned,
            final(self).clauses@[cid.0 as int].is_active_in(*final(state)),
            final(self).clauses@[cid.0 as int].active.0 == old(state).values().len(),
            final(self).clauses@[cid.0 as int].modified.0 == old(state).values().len() + 1,
            !final(state).bool_at(final(self).clauses@[cid.0 as int].modified),
            final(self).nvars() == old(self).nvars(),
            final(self).number_clauses_problem == old(self).number_clauses_problem,
            forall|v: int| 0 <= v < old(self).nvars() ==> {
                let x = #[trigger] final(self).variables@[v];
                let y = old(self).variables@[v];
                &&& x.id == y.id
                &&& x.value == y.value
                &&& x.decision == y.decision
                &&& x.assignment_position == y.assignment_position
                &&& x.clauses_positive@ == y.clauses_positive@ + occurrences_of(literals@, v, Some(true), cid)
                &&& x.clauses_negative@ == y.clauses_negative@ + occurrences_of(literals@, v, Some(false), cid)
            },
            forall|v: int| 0 <= v < old(self).nvars() ==> (#[trigger] final(self).watchers@[v])@
                == old(self).watchers@[v]@ + occurrences_of(
                    literals@.take(if literals@.len() < 2 { literals@.len() as int } else { 2 }),
                    v,
                    None,
                    cid,
                ),
            final(state).values() == old(state).values().push(Slot::Bool(true)).push(Slot::Bool(false)),
            final(state).saved() == old(state).saved(),
            old(self).active_clauses_unsatisfied(*old(state)) && (forall|k: int| 0 <= k < literals@.len()
                ==> !(#[trigger] literals@[k]).is_true_in(*old(state)))
                ==> final(self).active_clauses_unsatisfied(*final(state)),
            watches_complete(*old(self)) ==> watches_complete(*final(self)),
    {
        let cid = ClauseIndex(self.clauses.len());
        let n_watch: usize = if literals.len() < 2 { literals.len() } else { 2 };
        let ghost lits = literals@;
        let ghost wlits = lits.take(n_watch as int);
        let mut k: usize = 0;
        while k < n_watch
            invariant
                k <= n_watch,
                n_watch <= lits.len(),
                wlits == lits.take(n_watch as int),
                literals@ == lits,
                self.variables@ == old(self).variables@,
                self.clauses@ == old(self).clauses@,
                self.number_clauses_problem == old(self).number_clauses_problem,
                self.watchers@.len() == old(self).watchers@.len(),
                old(self).watchers@.len() == old(self).variables@.len(),
                forall|j: int| 0 <= j < lits.len() ==> (#[trigger] lits[j]).variable.0 < old(self).nvars(),
                forall|v: int| 0 <= v < old(self).nvars() ==> (#[trigger] self.watchers@[v])@
                    == old(self).watchers@[v]@ + occurrences_of(wlits.take(k as int), v, None, cid),
            decreases n_watch - k,
        {
            let variable = literals[k].to_variable();
            self.watchers[variable.0].push(cid);
            proof {
                assert(wlits.take(k + 1).drop_last() =~= wlits.take(k as int));
                assert forall|v: int| 0 <= v < old(self).nvars() implies (#[trigger] self.watchers@[v])@
                    == old(self).watchers@[v]@ + occurrences_of(wlits.take(k + 1), v, None, cid) by {
                    assert(wlits.take(k + 1).last() == lits[k as int]);
                }
            }
            k += 1;
        }
        assert(wlits.take(n_watch as int) =~= wlits);
        let clause = Clause::new(cid.0, literals, is_learned, state);
        let ghost watchers_after = self.watchers@;
        let mut k: usize = 0;
        while k < clause.literals.len()
            invariant
                k <= lits.len(),
                self.watchers@ == watchers_after,
                clause.literals@ == lits,
                self.clauses@ == old(self).clauses@,
                self.number_clauses_problem == old(self).number_clauses_problem,
                self.variables@.len() == old(self).variables@.len(),
                forall|j: int| 0 <= j < lits.len() ==> (#[trigger] lits[j]).variable.0 < old(self).nvars(),
                forall|v: int| 0 <= v < old(self).nvars() ==> {
                    let x = #[trigger] self.variables@[v];
                    let y = old(self).variables@[v];
                    &&& x.id == y.id
                    &&& x.value == y.value
                    &&& x.decision == y.decision
                    &&& x.assignment_position == y.assignment_position
                    &&& x.clauses_positive@ == y.clauses_positive@ + occurrences_of(lits.take(k as int), v, Some(true), cid)
                    &&& x.clauses_negative@ == y.clauses_negative@ + occurrences_of(lits.take(k as int), v, Some(false), cid)
                },
            decreases lits.len() - k,
        {
            let literal = clause.literals[k];
            let variable = literal.to_variable();
            if literal.is_positive() {
                self.variables[variable.0].add_clause_positive_occurence(cid);
            } else {
                self.variables[variable.0].add_clause_negative_occurence(cid);
            }
            proof {
                assert(lits.take(k + 1).drop_last() =~= lits.take(k as int));
                assert(lits.take(k + 1).last() == lits[k as int]);
            }
            k += 1;
        }
        assert(lits.take(lits.len() as int) =~= lits);
        self.clauses.push(clause);
        proof {
            self.lemma_add_clause_wf(*old(self), *old(state), *state, lits, cid, n_watch as int);
            if watches_complete(*old(self)) {
                lemma_added_clause_watched(*old(self), *self, lits, cid);
            }
        }
        cid
    }

    proof fn lemma_add_clause_wf(self, before: Problem, s0: Trail, s1: Trail, lits: Seq<Literal>, cid: ClauseIndex, n_watch: int)
        requires
            before.wf(s0),
            cid.0 == before.nclauses(),
            n_watch == (if lits.len() < 2 { lits.len() as int } else { 2 }),
            forall|k: int| 0 <= k < lits.len() ==> {
                let l = #[trigger] lits[k];
                &&& l.variable.0 < before.nvars()
                &&& l.value == before.variables@[l.variable.0 as int].value
            },
            s1.values() == s0.values().push(Slot::Bool(true)).push(Slot::Bool(false)),
            s1.saved() == s0.saved(),
            self.clauses@.len() == before.clauses@.len() + 1,
            forall|c: int| 0 <= c < before.nclauses() ==> #[trigger] self.clauses@[c] == before.clauses@[c],
            self.clauses@[cid.0 as int].literals@ == lits,
            self.clauses@[cid.0 as int].active.0 == s0.values().len(),
            self.clauses@[cid.0 as int].modified.0 == s0.values().len() + 1,
            self.variables@.len() == before.variables@.len(),
            self.watchers@.len() == before.watchers@.len(),
            forall|v: int| 0 <= v < before.nvars() ==> {
                let x = #[trigger] self.variables@[v];
                let y = before.variables@[v];
                &&& x.value == y.value
                &&& x.assignment_position == y.assignment_position
                &&& x.clauses_positive@ == y.clauses_positive@ + occurrences_of(lits, v, Some(true), cid)
                &&& x.clauses_negative@ == y.clauses_negative@ + occurrences_of(lits, v, Some(false), cid)
            },
            forall|v: int| 0 <= v < before.nvars() ==> (#[trigger] self.watchers@[v])@
                == before.watchers@[v]@ + occurrences_of(lits.take(n_watch), v, None, cid),
        ensures
            self.wf(s1),
            before.active_clauses_unsatisfied(s0) && (forall|k: int| 0 <= k < lits.len()
                ==> !(#[trigger] lits[k]).is_true_in(s0)) ==> self.active_clauses_unsatisfied(s1),
    {
        let n = s0.values().len();
        assert forall|i: int| 0 <= i < n implies #[trigger] s1.values()[i] == s0.values()[i] by {}
        assert(self.wf_variables(s1)) by {
            assert forall|v: int| 0 <= v < self.nvars() implies (#[trigger] self.variables@[v]).wf_in(s1) by {
                assert(before.variables@[v].wf_in(s0));
            }
        }
        assert(self.wf_clauses(s1)) by {
            assert forall|c: int| 0 <= c < self.nclauses() implies (#[trigger] self.clauses@[c]).wf_in(s1) by {
                if c < before.nclauses() {
                    assert(before.clauses@[c].wf_in(s0));
                } else {
                    assert forall|i: int| 0 <= i < self.clauses@[c].literals@.len()
                        implies s1.is_option_bool(#[trigger] self.clauses@[c].literals@[i].value) by {
                        let l = lits[i];
                        assert(before.variables@[l.variable.0 as int].wf_in(s0));
                    }
                }
            }
            assert forall|c: int, d: int| 0 <= c < self.nclauses() && 0 <= d < self.nclauses()
                implies (#[trigger] self.clauses@[c]).active.0 != (#[trigger] self.clauses@[d]).modified.0 by {
                if c < before.nclauses() {
                    assert(before.clauses@[c].wf_in(s0));
                }
                if d < before.nclauses() {
                    assert(before.clauses@[d].wf_in(s0));
                }
            }
            assert forall|c: int, d: int| 0 <= c < self.nclauses() && 0 <= d < self.nclauses() && c != d
                implies (#[trigger] self.clauses@[c]).active.0 != (#[trigger] self.clauses@[d]).active.0 by {
                if c < before.nclauses() {
                    assert(before.clauses@[c].wf_in(s0));
                }
                if d < before.nclauses() {
                    assert(before.clauses@[d].wf_in(s0));
                }
            }
        }
        assert(self.wf_literals()) by {
            assert forall|c: int, k: int| 0 <= c < self.nclauses() && 0 <= k < self.clauses@[c].literals@.len()
                implies {
                    let l = #[trigger] self.lit(c, k);
                    &&& l.variable.0 < self.nvars()
                    &&& l.value == self.variables@[l.variable.0 as int].value
                } by {
                if c < before.nclauses() {
                    assert(self.lit(c, k) == before.lit(c, k));
                } else {
                    assert(self.lit(c, k) == lits[k]);
                }
            }
        }
        lemma_occurrences_of(lits, 0, None, cid);
        assert forall|v: int, pol: Option<bool>, x: ClauseIndex|
            (#[trigger] occurrences_of(lits, v, pol, cid).contains(x)) implies x == cid by {
            lemma_occurrences_of(lits, v, pol, cid);
        }
        assert forall|v: int, x: ClauseIndex|
            (#[trigger] occurrences_of(lits.take(n_watch), v, None, cid).contains(x)) implies {
                &&& x == cid
                &&& exists|k: int| 0 <= k < lits.len() && (#[trigger] lits[k]).variable.0 == v
            } by {
            let w = lits.take(n_watch);
            lemma_occurrences_of(w, v, None, cid);
            if forall|k: int| 0 <= k < lits.len() ==> (#[trigger] lits[k]).variable.0 != v {
                assert(forall|k: int| 0 <= k < w.len() ==> (#[trigger] w[k]).variable.0 != v);
                lemma_occurrences_of_absent(w, v, None, cid);
            }
        }
        assert(self.wf_occurrences()) by {
            assert forall|c: int, k: int| 0 <= c < self.nclauses() && 0 <= k < self.clauses@[c].literals@.len()
                implies {
                    let l = #[trigger] self.lit(c, k);
                    if l.positive {
                        self.variables@[l.variable.0 as int].clauses_positive@.contains(ClauseIndex(c as usize))
                    } else {
                        self.variables@[l.variable.0 as int].clauses_negative@.contains(ClauseIndex(c as usize))
                    }
                } by {
                let l = self.lit(c, k);
                let v = l.variable.0 as int;
                let y = before.variables@[v];
                if c < before.nclauses() {
                    assert(l == before.lit(c, k));
                    if l.positive {
                        assert(y.clauses_positive@.contains(ClauseIndex(c as usize)));
                        let j = choose|j: int| 0 <= j < y.clauses_positive@.len() && y.clauses_positive@[j] == ClauseIndex(c as usize);
                        assert(self.variables@[v].clauses_positive@[j] == ClauseIndex(c as usize));
                    } else {
                        assert(y.clauses_negative@.contains(ClauseIndex(c as usize)));
                        let j = choose|j: int| 0 <= j < y.clauses_negative@.len() && y.clauses_negative@[j] == ClauseIndex(c as usize);
                        assert(self.variables@[v].clauses_negative@[j] == ClauseIndex(c as usize));
                    }
                } else {
                    assert(l == lits[k]);
                    lemma_occurrences_of(lits, v, Some(l.positive), cid);
                    let o = occurrences_of(lits, v, Some(l.positive), cid);
                    assert(o.contains(cid));
                    let j = choose|j: int| 0 <= j < o.len() && o[j] == cid;
                    if l.positive {
                        assert(self.variables@[v].clauses_positive@[y.clauses_positive@.len() + j] == cid);
                    } else {
                        assert(self.variables@[v].clauses_negative@[y.clauses_negative@.len() + j] == cid);
                    }
                }
            }
            assert forall|v: int, k: int| 0 <= v < self.nvars() && 0 <= k < self.variables@[v].clauses_positive@.len()
                implies {
                    let c = (#[trigger] self.variables@[v].clauses_positive@[k]).0 as int;
                    c < self.nclauses() && self.clause_has(c, v, true)
                } by {
                let y = before.variables@[v];
                if k < y.clauses_positive@.len() {
                    let c = y.clauses_positive@[k].0 as int;
                    assert(before.clause_has(c, v, true));
                    let j = choose|j: int| 0 <= j < before.clauses@[c].literals@.len() && (#[trigger] before.lit(c, j)).variable.0
                        == v && before.lit(c, j).positive == true;
                    assert(self.lit(c, j) == before.lit(c, j));
                } else {
                    let o = occurrences_of(lits, v, Some(true), cid);
                    assert(o.contains(o[k - y.clauses_positive@.len()]));
                    lemma_occurrences_of_witness(lits, v, Some(true), cid);
                    let j = choose|j: int| 0 <= j < lits.len() && (#[trigger] lits[j]).variable.0 == v && (Some(true) is None
                        || Some(true) == Some(lits[j].positive));
                    assert(self.lit(cid.0 as int, j) == lits[j]);
                }
            }
            assert forall|v: int, k: int| 0 <= v < self.nvars() && 0 <= k < self.variables@[v].clauses_negative@.len()
                implies {
                    let c = (#[trigger] self.variables@[v].clauses_negative@[k]).0 as int;
                    c < self.nclauses() && self.clause_has(c, v, false)
                } by {
                let y = before.variables@[v];
                if k < y.clauses_negative@.len() {
                    let c = y.clauses_negative@[k].0 as int;
                    assert(before.clause_has(c, v, false));
                    let j = choose|j: int| 0 <= j < before.clauses@[c].literals@.len() && (#[trigger] before.lit(c, j)).variable.0
                        == v && before.lit(c, j).positive == false;
                    assert(self.lit(c, j) == before.lit(c, j));
                } else {
                    let o = occurrences_of(lits, v, Some(false), cid);
                    assert(o.contains(o[k - y.clauses_negative@.len()]));
                    lemma_occurrences_of_witness(lits, v, Some(false), cid);
                    let j = choose|j: int| 0 <= j < lits.len() && (#[trigger] lits[j]).variable.0 == v && (Some(false) is None
                        || Some(false) == Some(lits[j].positive));
                    assert(self.lit(cid.0 as int, j) == lits[j]);
                }
            }
        }
        assert(self.wf_watchers()) by {
            assert forall|v: int, k: int| 0 <= v < self.nvars() && 0 <= k < self.watchers@[v]@.len()
                implies {
                    let c = (#[trigger] self.watchers@[v]@[k]).0 as int;
                    &&& c < self.nclauses()
                    &&& (self.clause_has(c, v, true) || self.clause_has(c, v, false))
                } by {
                let wv = before.watchers@[v]@;
                if k < wv.len() {
                    let c = wv[k].0 as int;
                    if before.clause_has(c, v, true) {
                        let j = choose|j: int| 0 <= j < before.clauses@[c].literals@.len() && (#[trigger] before.lit(c, j)).variable.0
                            == v && before.lit(c, j).positive == true;
                        assert(self.lit(c, j) == before.lit(c, j));
                    } else {
                        let j = choose|j: int| 0 <= j < before.clauses@[c].literals@.len() && (#[trigger] before.lit(c, j)).variable.0
                            == v && before.lit(c, j).positive == false;
                        assert(self.lit(c, j) == before.lit(c, j));
                    }
                } else {
                    let o = occurrences_of(lits.take(n_watch), v, None, cid);
                    assert(o.contains(o[k - wv.len()]));
                    let j = choose|j: int| 0 <= j < lits.len() && (#[trigger] lits[j]).variable.0 == v;
                    assert(self.lit(cid.0 as int, j) == lits[j]);
                    if lits[j].positive {
                        assert(self.clause_has(cid.0 as int, v, true));
                    } else {
                        assert(self.clause_has(cid.0 as int, v, false));
                    }
                }
            }
        }
        if before.active_clauses_unsatisfied(s0) && (forall|k: int| 0 <= k < lits.len()
            ==> !(#[trigger] lits[k]).is_true_in(s0)) {
            assert forall|c: int, k: int| 0 <= c < self.nclauses() && 0 <= k < self.clauses@[c].literals@.len()
                && (#[trigger] self.clauses@[c]).is_active_in(s1) implies !(#[trigger] self.lit(c, k)).is_true_in(s1) by {
                if c < before.nclauses() {
                    assert(before.clauses@[c].wf_in(s0));
                    assert(before.lit(c, k) == self.lit(c, k));
                    assert(before.clauses@[c].literals@[k] == before.lit(c, k));
                } else {
                    assert(self.lit(c, k) == lits[k]);
                    let l = lits[k];
                    assert(before.variables@[l.variable.0 as int].wf_in(s0));
                }
            }
        }
    }

    /// `other` is this problem up to the order of the literals in each clause, the
    /// decision levels and the watch lists.
    pub open spec fn same_formula(&self, other: Problem) -> bool {
        &&& self.nvars() == other.nvars()
        &&& self.nclauses() == other.nclauses()
        &&& self.number_clauses_problem == other.number_clauses_problem
        &&& forall|v: int| 0 <= v < self.nvars() ==> {
            let x = #[trigger] self.variables@[v];
            let y = other.variables@[v];
            &&& x.id == y.id
            &&& x.value == y.value
            &&& x.assignment_position == y.assignment_position
            &&& x.clauses_positive@ == y.clauses_positive@
            &&& x.clauses_negative@ == y.clauses_negative@
        }
        &&& forall|c: int| 0 <= c < self.nclauses() ==> {
            let x = #[trigger] self.clauses@[c];
            let y = other.clauses@[c];
            &&& x.id == y.id
            &&& x.is_learned == y.is_learned
            &&& x.active == y.active
            &&& x.is_binary == y.is_binary
            &&& x.modified == y.modified
            &&& same_literals(x.literals@, y.literals@)
        }
    }

    /// Sets a variable to true or false and records the level of the decision.
    pub fn set_variable(&mut self, variable: VariableIndex, value: bool, level: isize, state: &mut Trail)
        requires
            old(self).wf(*old(state)),
            variable.0 < old(self).nvars(),
        ensures
            final(self).wf(*final(state)),
            final(self).same_formula(*old(self)),
            final(self).watchers@ == old(self).watchers@,
            forall|c: int| 0 <= c < old(self).nclauses() ==> #[trigger] final(self).clauses@[c] == old(self).clauses@[c],
            final(self).variables@[variable.0 as int].decision == level,
            forall|v: int| 0 <= v < old(self).nvars() && v != variable.0
                ==> (#[trigger] final(self).variables@[v]).decision == old(self).variables@[v].decision,
            final(state).values() == old(state).values().update(
                old(self).variables@[variable.0 as int].value.0 as int,
                Slot::OptionBool(Some(value)),
            ),
            final(state).saved() == old(state).saved(),
    {
        self.variables[variable.0].set_value(value, state);
        self.variables[variable.0].set_decision_level(level);
        proof {
            lemma_same_literals_refl_all(*self);
            self.lemma_same_formula_wf(*old(self), *old(state));
            let i = old(self).variables@[variable.0 as int].value.0 as int;
            assert(old(self).variables@[variable.0 as int].wf_in(*old(state)));
            assert forall|j: int| 0 <= j < old(state).values().len()
                implies same_kind(#[trigger] state.values()[j], old(state).values()[j]) by {}
            self.lemma_wf_same_kinds(*old(state), *state);
        }
    }

    /// The number of clauses watched by the variable
    pub fn number_watchers(&self, variable: VariableIndex) -> (r: usize)
        requires
            variable.0 < self.watchers@.len(),
        ensures
            r == self.watchers@[variable.0 as int]@.len(),
    {
        self.watchers[variable.0].len()
    }

    /// The clause watched by the variable at position `watcher_id` of its watch list
    pub fn get_clause_watched(&self, variable: VariableIndex, watcher_id: usize) -> (r: ClauseIndex)
        requires
            variable.0 < self.watchers@.len(),
            watcher_id < self.watchers@[variable.0 as int]@.len(),
        ensures
            r == self.watchers@[variable.0 as int]@[watcher_id as int],
    {
        self.watchers[variable.0][watcher_id]
    }

    /// Removes the clause at position `watcher_id` from the watch list of the
    /// variable; the last clause of the list takes its place.
    pub fn remove_watcher(&mut self, variable: VariableIndex, watcher_id: usize)
        requires
            variable.0 < old(self).watchers@.len(),
            watcher_id < old(self).watchers@[variable.0 as int]@.len(),
        ensures
            final(self).watchers@ == old(self).watchers@.update(
                variable.0 as int,
                final(self).watchers@[variable.0 as int],
            ),
            final(self).watchers@[variable.0 as int]@ == old(self).watchers@[variable.0 as int]@.update(
                watcher_id as int,
                old(self).watchers@[variable.0 as int]@.last(),
            ).drop_last(),
            final(self).variables@ == old(self).variables@,
            final(self).clauses@ == old(self).clauses@,
            final(self).number_clauses_problem == old(self).number_clauses_problem,
            forall|s: Trail| old(self).wf(s) ==> final(self).wf(s),
    {
        self.watchers[variable.0].swap_remove(watcher_id);
        proof {
            assert forall|s: Trail| old(self).wf(s) implies self.wf(s) by {
                let w = old(self).watchers@[variable.0 as int]@;
                lemma_clause_has_same_clauses(*self, *old(self));
                assert(old(self).wf_watchers());
                lemma_clause_has_same_clauses(*self, *old(self));
                assert forall|v: int, k: int| 0 <= v < self.nvars() && 0 <= k < self.watchers@[v]@.len()
                    implies {
                        let c = (#[trigger] self.watchers@[v]@[k]).0 as int;
                        &&& c < self.nclauses()
                        &&& (self.clause_has(c, v, true) || self.clause_has(c, v, false))
                    } by {
                    let k0 = if v == variable.0 && k == watcher_id { w.len() - 1 } else { k };
                    assert(self.watchers@[v]@[k] == old(self).watchers@[v]@[k0]);
                    let c = self.watchers@[v]@[k].0 as int;
                    assert(0 <= k0 < old(self).watchers@[v]@.len());
                    assert(c < old(self).nclauses());
                    assert(old(self).clause_has(c, v, true) || old(self).clause_has(c, v, false));
                    assert(self.clause_has(c, v, true) == old(self).clause_has(c, v, true));
                    assert(self.clause_has(c, v, false) == old(self).clause_has(c, v, false));
                }
                assert(self.wf_watchers());
                lemma_same_literals_refl_all(*self);
                self.lemma_same_formula_wf(*old(self), s);
            }
        }
    }

    /// Adds the clause to the watch list of the variable
    pub fn add_watcher(&mut self, variable: VariableIndex, clause: ClauseIndex)
        requires
            variable.0 < old(self).watchers@.len(),
        ensures
            final(self).watchers@ == old(self).watchers@.update(
                variable.0 as int,
                final(self).watchers@[variable.0 as int],
            ),
            final(self).watchers@[variable.0 as int]@ == old(self).watchers@[variable.0 as int]@.push(clause),
            final(self).variables@ == old(self).variables@,
            final(self).clauses@ == old(self).clauses@,
            final(self).number_clauses_problem == old(self).number_clauses_problem,
            forall|s: Trail| old(self).wf(s) && clause.0 < old(self).nclauses() && (old(self).clause_has(
                clause.0 as int,
                variable.0 as int,
                true,
            ) || old(self).clause_has(clause.0 as int, variable.0 as int, false)) ==> final(self).wf(s),
    {
        self.watchers[variable.0].push(clause);
        proof {
            assert forall|s: Trail| old(self).wf(s) && clause.0 < old(self).nclauses() && (old(self).clause_has(
                clause.0 as int,
                variable.0 as int,
                true,
            ) || old(self).clause_has(clause.0 as int, variable.0 as int, false)) implies self.wf(s) by {
                assert(old(self).wf_watchers());
                lemma_clause_has_same_clauses(*self, *old(self));
                assert forall|v: int, k: int| 0 <= v < self.nvars() && 0 <= k < self.watchers@[v]@.len()
                    implies {
                        let c = (#[trigger] self.watchers@[v]@[k]).0 as int;
                        &&& c < self.nclauses()
                        &&& (self.clause_has(c, v, true) || self.clause_has(c, v, false))
                    } by {
                    let c = self.watchers@[v]@[k].0 as int;
                    if v != variable.0 || k < old(self).watchers@[v]@.len() {
                        assert(self.watchers@[v]@[k] == old(self).watchers@[v]@[k]);
                        assert(old(self).clause_has(c, v, true) || old(self).clause_has(c, v, false));
                    }
                    assert(self.clause_has(c, v, true) == old(self).clause_has(c, v, true));
                    assert(self.clause_has(c, v, false) == old(self).clause_has(c, v, false));
                }
                assert(self.wf_watchers());
                lemma_same_literals_refl_all(*self);
                self.lemma_same_formula_wf(*old(self), s);
            }
        }
    }

    /// Sets a clause as inactive
    pub fn deactivate_clause(&self, clause: ClauseIndex, state: &mut Trail)
        requires
            clause.0 < self.nclauses(),
            old(state).is_bool(self.clauses@[clause.0 as int].active),
        ensures
            final(state).values() == old(state).values().update(
                self.clauses@[clause.0 as int].active.0 as int,
                Slot::Bool(false),
            ),
            final(state).saved() == old(state).saved(),
    {
        self.clauses[clause.0].deactivate(state);
    }

    /// Tells clause `clause` that `variable` got a value; returns its new second
    /// watched variable.
    pub fn notify_clause(&mut self, clause: ClauseIndex, variable: VariableIndex, state: &Trail) -> (r: VariableIndex)
        requires
            old(self).wf(*state),
            clause.0 < old(self).nclauses(),
            old(self).clauses@[clause.0 as int].literals@.len() >= 1,
        ensures
            final(self).wf(*state),
            final(self).same_formula(*old(self)),
            final(self).watchers@ == old(self).watchers@,
            final(self).variables@ == old(self).variables@,
            forall|c: int| 0 <= c < old(self).nclauses() && c != clause.0
                ==> #[trigger] final(self).clauses@[c] == old(self).clauses@[c],
            final(self).clauses@[clause.0 as int].literals@ == notified_literals(
                old(self).clauses@[clause.0 as int].literals@,
                variable,
                *state,
            ),
            r == (if old(self).clauses@[clause.0 as int].literals@.len() >= 2 {
                final(self).clauses@[clause.0 as int].literals@[1].variable
            } else {
                old(self).clauses@[clause.0 as int].literals@[0].variable
            }),
            old(self).clause_has(clause.0 as int, r.0 as int, true) || old(self).clause_has(clause.0 as int, r.0 as int, false),
    {
        proof {
            assert(old(self).clauses@[clause.0 as int].wf_in(*state));
        }
        let r = self.clauses[clause.0].notify_variable_value(variable, state);
        proof {
            let c = clause.0 as int;
            let s0 = old(self).clauses@[c].literals@;
            let s1 = self.clauses@[c].literals@;
            lemma_notified_same(s0, variable, *state);
            lemma_same_literals_refl_all(*old(self));
            assert(self.same_formula(*old(self)));
            self.lemma_same_formula_wf(*old(self), *state);
            if s0.len() >= 2 {
                assert(s0.contains(s1[1]));
                let j = choose|j: int| 0 <= j < s0.len() && s0[j] == s1[1];
                assert(old(self).lit(c, j) == s0[j]);
            } else {
                assert(old(self).lit(c, 0) == s0[0]);
            }
        }
        r
    }

    /// The variable at `variable`
    pub fn get_variable(&self, variable: VariableIndex) -> (r: &Variable)
        requires
            variable.0 < self.nvars(),
        ensures
            *r == self.variables@[variable.0 as int],
    {
        &self.variables[variable.0]
    }

    /// The clause at `clause`
    pub fn get_clause(&self, clause: ClauseIndex) -> (r: &Clause)
        requires
            clause.0 < self.nclauses(),
        ensures
            *r == self.clauses@[clause.0 as int],
    {
        &self.clauses[clause.0]
    }

    /// Returns the number of clauses in the problem
    pub fn number_clauses(&self) -> (r: usize)
        ensures
            r == self.nclauses(),
    {
        self.clauses.len()
    }

    /// The last clause of the problem
    pub fn last_clause_subproblem(&self) -> (r: ClauseIndex)
        requires
            self.nclauses() > 0,
        ensures
            r.0 == self.nclauses() - 1,
    {
        ClauseIndex(self.clauses.len() - 1)
    }

    /// Returns the number of clauses of the problem as it was read (or as it was
    /// left by the clean-up after preprocessing)
    pub fn number_clauses_problem(&self) -> (r: usize)
        ensures
            r == self.number_clauses_problem,
    {
        self.number_clauses_problem
    }

    /// Returns the number of variables in the problem
    pub fn number_variables(&self) -> (r: usize)
        ensures
            r == self.nvars(),
    {
        self.variables.len()
    }

    /// All the clauses of the problem, active or not, in order
    pub fn clauses_iter(&self) -> (r: Vec<ClauseIndex>)
        ensures
            r@.len() == self.nclauses(),
            forall|c: int| 0 <= c < self.nclauses() ==> (#[trigger] r@[c]).0 == c,
    {
        let mut r: Vec<ClauseIndex> = Vec::new();
        let mut i: usize = 0;
        while i < self.clauses.len()
            invariant
                i <= self.clauses@.len(),
                r@.len() == i,
                forall|c: int| 0 <= c < i ==> (#[trigger] r@[c]).0 == c,
            decreases self.clauses@.len() - i,
        {
            r.push(ClauseIndex(i));
            i += 1;
        }
        r
    }

    /// All the variables of the problem, in order
    pub fn variables_iter(&self) -> (r: Vec<VariableIndex>)
        ensures
            r@.len() == self.nvars(),
            forall|v: int| 0 <= v < self.nvars() ==> (#[trigger] r@[v]).0 == v,
    {
        let mut r: Vec<VariableIndex> = Vec::new();
        let mut i: usize = 0;
        while i < self.variables.len()
            invariant
                i <= self.variables@.len(),
                r@.len() == i,
                forall|v: int| 0 <= v < i ==> (#[trigger] r@[v]).0 == v,
            decreases self.variables@.len() - i,
        {
            r.push(VariableIndex(i));
            i += 1;
        }
        r
    }

    /// A problem with the same formula and well-formed watch lists is well formed;
    /// and it leaves the same clauses unsatisfied.
    pub proof fn lemma_same_formula_wf(self, other: Problem, s: Trail)
        requires
            other.wf(s),
            self.same_formula(other),
            self.wf_watchers() || self.watchers@ == other.watchers@,
        ensures
            self.wf(s),
            other.active_clauses_unsatisfied(s) ==> self.active_clauses_unsatisfied(s),
            forall|c: int, v: int, p: bool| 0 <= c < self.nclauses() ==> (#[trigger] self.clause_has(c, v, p) <==> other.clause_has(c, v, p)),
    {
        assert forall|c: int, v: int, p: bool| 0 <= c < self.nclauses() implies (#[trigger] self.clause_has(c, v, p) <==> other.clause_has(c, v, p)) by {
            let a = self.clauses@[c].literals@;
            let b = other.clauses@[c].literals@;
            if self.clause_has(c, v, p) {
                let k = choose|k: int| 0 <= k < a.len() && (#[trigger] self.lit(c, k)).variable.0 == v && self.lit(c, k).positive == p;
                assert(a.contains(a[k]));
                let j = choose|j: int| 0 <= j < b.len() && b[j] == a[k];
                assert(other.lit(c, j) == b[j]);
            }
            if other.clause_has(c, v, p) {
                let k = choose|k: int| 0 <= k < b.len() && (#[trigger] other.lit(c, k)).variable.0 == v && other.lit(c, k).positive == p;
                assert(b.contains(b[k]));
                let j = choose|j: int| 0 <= j < a.len() && a[j] == b[k];
                assert(self.lit(c, j) == a[j]);
            }
        }
        assert(self.wf_variables(s)) by {
            assert forall|v: int| 0 <= v < self.nvars() implies (#[trigger] self.variables@[v]).wf_in(s) by {
                assert(other.variables@[v].wf_in(s));
            }
        }
        assert(self.wf_clauses(s)) by {
            assert forall|c: int| 0 <= c < self.nclauses() implies (#[trigger] self.clauses@[c]).wf_in(s) by {
                assert(other.clauses@[c].wf_in(s));
                let a = self.clauses@[c].literals@;
                let b = other.clauses@[c].literals@;
                assert forall|i: int| 0 <= i < a.len() implies s.is_option_bool(#[trigger] a[i].value) by {
                    assert(a.contains(a[i]));
                    let j = choose|j: int| 0 <= j < b.len() && b[j] == a[i];
                    assert(s.is_option_bool(b[j].value));
                }
            }
        }
        assert(self.wf_literals()) by {
            assert forall|c: int, k: int| 0 <= c < self.nclauses() && 0 <= k < self.clauses@[c].literals@.len()
                implies {
                    let l = #[trigger] self.lit(c, k);
                    &&& l.variable.0 < self.nvars()
                    &&& l.value == self.variables@[l.variable.0 as int].value
                } by {
                let a = self.clauses@[c].literals@;
                let b = other.clauses@[c].literals@;
                assert(a.contains(a[k]));
                let j = choose|j: int| 0 <= j < b.len() && b[j] == a[k];
                assert(other.lit(c, j) == b[j]);
            }
        }
        assert(self.wf_occurrences()) by {
            assert forall|c: int, k: int| 0 <= c < self.nclauses() && 0 <= k < self.clauses@[c].literals@.len()
                implies {
                    let l = #[trigger] self.lit(c, k);
                    if l.positive {
                        self.variables@[l.variable.0 as int].clauses_positive@.contains(ClauseIndex(c as usize))
                    } else {
                        self.variables@[l.variable.0 as int].clauses_negative@.contains(ClauseIndex(c as usize))
                    }
                } by {
                let a = self.clauses@[c].literals@;
                let b = other.clauses@[c].literals@;
                assert(a.contains(a[k]));
                let j = choose|j: int| 0 <= j < b.len() && b[j] == a[k];
                assert(other.lit(c, j) == b[j]);
            }
            assert forall|v: int, k: int| 0 <= v < self.nvars() && 0 <= k < self.variables@[v].clauses_positive@.len()
                implies {
                    let c = (#[trigger] self.variables@[v].clauses_positive@[k]).0 as int;
                    c < self.nclauses() && self.clause_has(c, v, true)
                } by {
                assert(other.variables@[v].clauses_positive@[k] == self.variables@[v].clauses_positive@[k]);
            }
            assert forall|v: int, k: int| 0 <= v < self.nvars() && 0 <= k < self.variables@[v].clauses_negative@.len()
                implies {
                    let c = (#[trigger] self.variables@[v].clauses_negative@[k]).0 as int;
                    c < self.nclauses() && self.clause_has(c, v, false)
                } by {
                assert(other.variables@[v].clauses_negative@[k] == self.variables@[v].clauses_negative@[k]);
            }
        }
        assert(self.wf_watchers()) by {
            if self.watchers@ == other.watchers@ {
                assert forall|v: int, k: int| 0 <= v < self.nvars() && 0 <= k < self.watchers@[v]@.len()
                    implies {
                        let c = (#[trigger] self.watchers@[v]@[k]).0 as int;
                        &&& c < self.nclauses()
                        &&& (self.clause_has(c, v, true) || self.clause_has(c, v, false))
                    } by {
                    assert(other.watchers@[v]@[k] == self.watchers@[v]@[k]);
                }
            }
        }
        if other.active_clauses_unsatisfied(s) {
            assert forall|c: int, k: int| 0 <= c < self.nclauses() && 0 <= k < self.clauses@[c].literals@.len()
                && (#[trigger] self.clauses@[c]).is_active_in(s) implies !(#[trigger] self.lit(c, k)).is_true_in(s) by {
                let a = self.clauses@[c].literals@;
                let b = other.clauses@[c].literals@;
                assert(a.contains(a[k]));
                let j = choose|j: int| 0 <= j < b.len() && b[j] == a[k];
                assert(other.lit(c, j) == b[j]);
                assert(other.clauses@[c].is_active_in(s));
            }
        }
    }

    /// Well-formedness does not depend on what the values are, only on their kinds.
    pub proof fn lemma_wf_same_kinds(self, s0: Trail, s1: Trail)
        requires
            s0.values().len() == s1.values().len(),
            forall|i: int| 0 <= i < s0.values().len() ==> same_kind(#[trigger] s1.values()[i], s0.values()[i]),
        ensures
            self.wf(s0) ==> self.wf(s1),
    {
        if self.wf(s0) {
            assert forall|v: int| 0 <= v < self.nvars() implies (#[trigger] self.variables@[v]).wf_in(s1) by {
                let x = self.variables@[v];
                assert(x.wf_in(s0));
                assert(same_kind(s1.values()[x.value.0 as int], s0.values()[x.value.0 as int]));
                assert(same_kind(s1.values()[x.assignment_position.0 as int], s0.values()[x.assignment_position.0 as int]));
            }
            assert forall|c: int| 0 <= c < self.nclauses() implies (#[trigger] self.clauses@[c]).wf_in(s1) by {
                let x = self.clauses@[c];
                assert(x.wf_in(s0));
                assert(same_kind(s1.values()[x.active.0 as int], s0.values()[x.active.0 as int]));
                assert(same_kind(s1.values()[x.modified.0 as int], s0.values()[x.modified.0 as int]));
                assert forall|i: int| 0 <= i < x.literals@.len() implies s1.is_option_bool(#[trigger] x.literals@[i].value) by {
                    assert(s0.is_option_bool(x.literals@[i].value));
                    assert(same_kind(s1.values()[x.literals@[i].value.0 as int], s0.values()[x.literals@[i].value.0 as int]));
                }
            }
        }
    }
}

/// How many of the values behind `handles` are unset in `s`.
pub open spec fn unfixed_count(handles: Seq<OptionBoolId>, s: Trail) -> nat
    decreases handles.len(),
{
    if handles.len() == 0 {
        0
    } else {
        unfixed_count(handles.drop_last(), s) + (if s.option_bool_at(handles.last()) is None { 1nat } else { 0nat })
    }
}

/// Fixing values never adds unset ones, and fixing one that was unset removes one.
pub proof fn lemma_unfixed_count_decreases(handles: Seq<OptionBoolId>, s0: Trail, s1: Trail)
    requires
        forall|i: int| 0 <= i < handles.len() && s1.option_bool_at(#[trigger] handles[i]) is None
            ==> s0.option_bool_at(handles[i]) is None,
    ensures
        unfixed_count(handles, s1) <= unfixed_count(handles, s0),
        (exists|i: int| 0 <= i < handles.len() && s0.option_bool_at(#[trigger] handles[i]) is None
            && s1.option_bool_at(handles[i]) is Some) ==> unfixed_count(handles, s1) < unfixed_count(handles, s0),
    decreases handles.len(),
{
    if handles.len() > 0 {
        let rest = handles.drop_last();
        assert forall|i: int| 0 <= i < rest.len() && s1.option_bool_at(#[trigger] rest[i]) is None
            implies s0.option_bool_at(rest[i]) is None by {
            assert(rest[i] == handles[i]);
        }
        lemma_unfixed_count_decreases(rest, s0, s1);
        if exists|i: int| 0 <= i < handles.len() && s0.option_bool_at(#[trigger] handles[i]) is None
            && s1.option_bool_at(handles[i]) is Some {
            let i = choose|i: int| 0 <= i < handles.len() && s0.option_bool_at(#[trigger] handles[i]) is None
                && s1.option_bool_at(handles[i]) is Some;
            if i < handles.len() - 1 {
                assert(rest[i] == handles[i]);
            }
        }
        assert(handles[handles.len() - 1] == handles.last());
    }
}

/// Problems with the same clauses hold the same literals.
pub proof fn lemma_clause_has_same_clauses(a: Problem, b: Problem)
    requires
        a.clauses@ == b.clauses@,
    ensures
        forall|c: int, v: int, p: bool| #[trigger] a.clause_has(c, v, p) == b.clause_has(c, v, p),
{
    assert forall|c: int, v: int, p: bool| #[trigger] a.clause_has(c, v, p) == b.clause_has(c, v, p) by {
        if a.clause_has(c, v, p) {
            let k = choose|k: int| 0 <= k < a.clauses@[c].literals@.len() && (#[trigger] a.lit(c, k)).variable.0
                == v && a.lit(c, k).positive == p;
            assert(b.lit(c, k) == a.lit(c, k));
        }
        if b.clause_has(c, v, p) {
            let k = choose|k: int| 0 <= k < b.clauses@[c].literals@.len() && (#[trigger] b.lit(c, k)).variable.0
                == v && b.lit(c, k).positive == p;
            assert(b.lit(c, k) == a.lit(c, k));
        }
    }
}

/// The clauses that are active and the values of the variables decide whether
/// active clauses are unsatisfied.
pub proof fn lemma_unsatisfied_frame(g: Problem, s0: Trail, s1: Trail)
    requires
        g.wf(s0),
        g.active_clauses_unsatisfied(s0),
        forall|c: int| 0 <= c < g.nclauses() ==> (#[trigger] g.clauses@[c]).is_active_in(s1) ==> g.clauses@[c].is_active_in(s0),
        forall|v: int| 0 <= v < g.nvars() ==> #[trigger] g.value_of(v, s1) == g.value_of(v, s0),
    ensures
        g.active_clauses_unsatisfied(s1),
{
    assert forall|c: int, k: int| 0 <= c < g.nclauses() && 0 <= k < g.clauses@[c].literals@.len()
        && (#[trigger] g.clauses@[c]).is_active_in(s1) implies !(#[trigger] g.lit(c, k)).is_true_in(s1) by {
        let l = g.lit(c, k);
        assert(g.value_of(l.variable.0 as int, s1) == g.value_of(l.variable.0 as int, s0));
        assert(g.clauses@[c].is_active_in(s0));
    }
}

/// Having the same formula is transitive.
/// An inactive clause keeps a true literal while its literals are only reordered,
/// no clause becomes inactive, and the values already given stay.
pub proof fn lemma_inactive_frame(g: Problem, g2: Problem, s: Trail, s2: Trail)
    requires
        g.inactive_clauses_satisfied(s),
        g.wf_literals(),
        g2.same_formula(g),
        forall|c: int| 0 <= c < g.nclauses() && !(#[trigger] g2.clauses@[c]).is_active_in(s2)
            ==> !g.clauses@[c].is_active_in(s),
        forall|v: int| 0 <= v < g.nvars() && (#[trigger] g.value_of(v, s)) is Some ==> g.value_of(v, s2) == g.value_of(v, s),
    ensures
        g2.inactive_clauses_satisfied(s2),
{
    assert forall|c: int| 0 <= c < g2.nclauses() && !(#[trigger] g2.clauses@[c]).is_active_in(s2)
        implies exists|k: int| 0 <= k < g2.clauses@[c].literals@.len() && (#[trigger] g2.lit(c, k)).is_true_in(s2) by {
        assert(!g.clauses@[c].is_active_in(s));
        let k = choose|k: int| 0 <= k < g.clauses@[c].literals@.len() && (#[trigger] g.lit(c, k)).is_true_in(s);
        let l = g.lit(c, k);
        let x = g2.clauses@[c];
        let y = g.clauses@[c];
        assert(same_literals(x.literals@, y.literals@));
        assert(y.literals@.contains(l)) by {
            assert(y.literals@[k] == l);
        }
        assert(x.literals@.contains(l));
        let k2 = choose|k2: int| 0 <= k2 < x.literals@.len() && x.literals@[k2] == l;
        assert(g2.lit(c, k2) == l);
        assert(g.value_of(l.variable.0 as int, s) == Some(l.positive));
        assert(g.value_of(l.variable.0 as int, s2) == Some(l.positive));
    }
}

pub proof fn lemma_same_formula_trans(a: Problem, b: Problem, c: Problem)
    requires
        a.same_formula(b),
        b.same_formula(c),
    ensures
        a.same_formula(c),
{
    assert forall|k: int| 0 <= k < a.nclauses() implies same_literals(
        (#[trigger] a.clauses@[k]).literals@,
        c.clauses@[k].literals@,
    ) by {
        assert(same_literals(a.clauses@[k].literals@, b.clauses@[k].literals@));
        assert(same_literals(b.clauses@[k].literals@, c.clauses@[k].literals@));
    }
}

/// Having the same formula is symmetric, and problems with the same formula
/// hold the same literals.
pub proof fn lemma_same_formula_sym(a: Problem, b: Problem)
    requires
        a.same_formula(b),
    ensures
        b.same_formula(a),
        forall|c: int, v: int, p: bool| 0 <= c < a.nclauses() ==> (#[trigger] a.clause_has(c, v, p) <==> b.clause_has(c, v, p)),
{
    assert forall|c: int, v: int, p: bool| 0 <= c < a.nclauses() implies (#[trigger] a.clause_has(c, v, p) <==> b.clause_has(c, v, p)) by {
        let x = a.clauses@[c].literals@;
        let y = b.clauses@[c].literals@;
        assert(same_literals(x, y));
        if a.clause_has(c, v, p) {
            let k = choose|k: int| 0 <= k < x.len() && (#[trigger] a.lit(c, k)).variable.0 == v && a.lit(c, k).positive == p;
            assert(x.contains(x[k]));
            let j = choose|j: int| 0 <= j < y.len() && y[j] == x[k];
            assert(b.lit(c, j) == y[j]);
        }
        if b.clause_has(c, v, p) {
            let k = choose|k: int| 0 <= k < y.len() && (#[trigger] b.lit(c, k)).variable.0 == v && b.lit(c, k).positive == p;
            assert(y.contains(y[k]));
            let j = choose|j: int| 0 <= j < x.len() && x[j] == y[k];
            assert(a.lit(c, j) == x[j]);
        }
    }
}

/// Every clause has the same literals as itself.
pub proof fn lemma_same_literals_refl_all(p: Problem)
    ensures
        forall|c: int| 0 <= c < p.nclauses() ==> same_literals((#[trigger] p.clauses@[c]).literals@, p.clauses@[c].literals@),
{
}

} // verus!
