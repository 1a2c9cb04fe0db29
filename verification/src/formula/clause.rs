//! A clause: a disjunction of literals. The first two literals are the clause's
//! watched literals.
use vstd::prelude::*;
use crate::formula::literal::Literal;
use crate::formula::problem::VariableIndex;
use crate::fxmap::{index_map_get, IndexMap};
use crate::trail::{BoolId, Slot, Trail};
use crate::formula::cleanup::{kept_renamed, lemma_cleared_literals_permutation};

verus! {

/// `a` and `b` have the same length and the same literals.
pub open spec fn same_literals(a: Seq<Literal>, b: Seq<Literal>) -> bool {
    &&& a.len() == b.len()
    &&& forall|x: Literal| a.contains(x) <==> b.contains(x)
}

pub proof fn lemma_swap_same(s: Seq<Literal>, i: int, j: int)
    requires
        0 <= i < s.len(),
        0 <= j < s.len(),
    ensures
        same_literals(swap_literals_spec(s, i, j), s),
{
    let t = swap_literals_spec(s, i, j);
    assert forall|x: Literal| t.contains(x) <==> s.contains(x) by {
        if t.contains(x) {
            let k = choose|k: int| 0 <= k < t.len() && t[k] == x;
            if k == i {
                assert(s[j] == x);
            } else if k == j {
                assert(s[i] == x);
            } else {
                assert(s[k] == x);
            }
        }
        if s.contains(x) {
            let k = choose|k: int| 0 <= k < s.len() && s[k] == x;
            if k == i {
                assert(t[j] == x);
            } else if k == j {
                assert(t[i] == x);
            } else {
                assert(t[k] == x);
            }
        }
    }
}

/// The literals of a clause that is told of a value are its literals, reordered.
pub proof fn lemma_notified_same(s: Seq<Literal>, variable: VariableIndex, state: Trail)
    ensures
        same_literals(notified_literals(s, variable, state), s),
{
    if s.len() >= 2 {
        let s1 = if s[0].variable == variable { swap_literals_spec(s, 0, 1) } else { s };
        if s[0].variable == variable {
            lemma_swap_same(s, 0, 1);
        }
        let k = first_unfixed_from(s1, state, 2);
        lemma_first_unfixed_from(s1, state, 2);
        if k < s1.len() {
            lemma_swap_same(s1, 1, k);
        }
    }
}

/// `s` with the literals at `i` and `j` exchanged.
pub open spec fn swap_literals_spec(s: Seq<Literal>, i: int, j: int) -> Seq<Literal> {
    s.update(i, s[j]).update(j, s[i])
}

/// The first position from `i` on whose literal's variable has no value in
/// `state`, or the length of `s` if there is none.
pub open spec fn first_unfixed_from(s: Seq<Literal>, state: Trail, i: int) -> int
    decreases s.len() - i,
{
    if i >= s.len() || i < 0 {
        s.len() as int
    } else if s[i].variable_value(state) is None {
        i
    } else {
        first_unfixed_from(s, state, i + 1)
    }
}

pub proof fn lemma_first_unfixed_from(s: Seq<Literal>, state: Trail, i: int)
    requires
        0 <= i <= s.len(),
    ensures
        i <= first_unfixed_from(s, state, i) <= s.len(),
        first_unfixed_from(s, state, i) < s.len()
            ==> s[first_unfixed_from(s, state, i)].variable_value(state) is None,
        forall|k: int| i <= k < first_unfixed_from(s, state, i)
            ==> (#[trigger] s[k]).variable_value(state) is Some,
    decreases s.len() - i,
{
    if i < s.len() && s[i].variable_value(state) is Some {
        lemma_first_unfixed_from(s, state, i + 1);
    }
}

/// The literals after the clause is told that `variable` got a value: if
/// `variable` is the first literal's, the first two literals are exchanged;
/// then the first unfixed literal from the third on, if any, takes the second
/// place.
pub open spec fn notified_literals(s: Seq<Literal>, variable: VariableIndex, state: Trail) -> Seq<Literal> {
    if s.len() < 2 {
        s
    } else {
        let s1 = if s[0].variable == variable { swap_literals_spec(s, 0, 1) } else { s };
        let k = first_unfixed_from(s1, state, 2);
        if k < s1.len() { swap_literals_spec(s1, 1, k) } else { s1 }
    }
}

/// After a clause of two literals or more is told of a value, its second literal
/// is fixed only if every literal after it is fixed too.
pub proof fn lemma_notified_second_fixed(s: Seq<Literal>, variable: VariableIndex, state: Trail)
    requires
        s.len() >= 2,
    ensures
        notified_literals(s, variable, state).len() == s.len(),
        notified_literals(s, variable, state)[1].variable_value(state) is Some ==> forall|k: int| 2 <= k < s.len()
            ==> (#[trigger] notified_literals(s, variable, state)[k]).variable_value(state) is Some,
{
    let s1 = if s[0].variable == variable { swap_literals_spec(s, 0, 1) } else { s };
    lemma_first_unfixed_from(s1, state, 2);
}

/// `s` after the literal at `j` is removed by moving the last literal into its place.
pub open spec fn swap_remove_spec(s: Seq<Literal>, j: int) -> Seq<Literal> {
    s.update(j, s.last()).drop_last()
}

/// Processes the literals of `s` below position `i`, from the last down: a
/// literal whose variable `m` keeps is renamed, the others are swap-removed.
pub open spec fn clear_literals_below(s: Seq<Literal>, m: Map<usize, usize>, i: int) -> Seq<Literal>
    decreases i,
{
    if i <= 0 || i > s.len() {
        s
    } else {
        let j = i - 1;
        let s2 = if m.contains_key(s[j].variable.0) {
            s.update(j, Literal { variable: VariableIndex(m[s[j].variable.0]), ..s[j] })
        } else {
            swap_remove_spec(s, j)
        };
        clear_literals_below(s2, m, j)
    }
}

/// The literals that remain after the variables are renumbered by `m`.
pub open spec fn cleared_literals(s: Seq<Literal>, m: Map<usize, usize>) -> Seq<Literal> {
    clear_literals_below(s, m, s.len() as int)
}

/// Exchanges two literals of `v`.
fn swap_literals(v: &mut Vec<Literal>, i: usize, j: usize)
    requires
        i < old(v)@.len(),
        j < old(v)@.len(),
    ensures
        final(v)@ == swap_literals_spec(old(v)@, i as int, j as int),
{
    let a = v[i];
    let b = v[j];
    v[i] = b;
    v[j] = a;
}

/// A clause of the problem.
#[derive(Debug)]
pub struct Clause {
    /// id of the clause in the input problem
    pub id: usize,
    /// The literals of the clause; the first two are watched
    pub literals: Vec<Literal>,
    /// Has the clause been learned during the search
    pub is_learned: bool,
    /// Is the clause active (i.e., not yet satisfied)
    pub active: BoolId,
    /// Does the clause have two literals
    pub is_binary: bool,
    /// Has the clause been touched by propagation
    pub modified: BoolId,
}

impl Clause {
    pub open spec fn is_active_in(&self, state: Trail) -> bool {
        state.bool_at(self.active)
    }

    /// The handles of the clause lead to values of the right kind in `state`.
    pub open spec fn wf_in(&self, state: Trail) -> bool {
        &&& state.is_bool(self.active)
        &&& state.is_bool(self.modified)
        &&& self.active.0 != self.modified.0
        &&& forall|i: int| 0 <= i < self.literals@.len()
            ==> state.is_option_bool(#[trigger] self.literals@[i].value)
    }

    /// The clause is unit: active, and either it has one literal or its first
    /// literal is unfixed while the second is fixed.
    pub open spec fn is_unit_in(&self, state: Trail) -> bool {
        &&& self.is_active_in(state)
        &&& self.literals@.len() > 0
        &&& (self.literals@.len() == 1 || (self.literals@[0].variable_value(state) is None
            && self.literals@[1].variable_value(state) is Some))
    }

    /// A new active, unmodified clause. Its two flags are appended to the store.
    pub fn new(id: usize, literals: Vec<Literal>, is_learned: bool, state: &mut Trail) -> (c: Clause)
        ensures
            c.id == id,
            c.literals@ == literals@,
            c.is_learned == is_learned,
            c.is_binary == (literals@.len() == 2),
            c.active.0 == old(state).values().len(),
            c.modified.0 == old(state).values().len() + 1,
            final(state).values() == old(state).values().push(Slot::Bool(true)).push(
                Slot::Bool(false),
            ),
            final(state).saved() == old(state).saved(),
    {
        let is_binary = literals.len() == 2;
        let active = state.manage_bool(true);
        let modified = state.manage_bool(false);
        Clause { id, literals, is_learned, active, is_binary, modified }
    }

    /// Marks the clause as satisfied. This is undone when the store is restored.
    pub fn deactivate(&self, state: &mut Trail)
        requires
            old(state).is_bool(self.active),
        ensures
            final(state).values() == old(state).values().update(self.active.0 as int, Slot::Bool(false)),
            final(state).saved() == old(state).saved(),
    {
        state.set_bool(self.active, false);
    }

    /// Returns true iff the clause is active
    pub fn is_active(&self, state: &Trail) -> (b: bool)
        requires
            state.is_bool(self.active),
        ensures
            b == self.is_active_in(*state),
    {
        state.get_bool(self.active)
    }

    /// Tells the clause that `variable` got a value and moves the watched literals
    /// accordingly; returns the variable of the second watched literal.
    ///
    /// A clause of one literal keeps its literal and returns its variable.
    pub fn notify_variable_value(&mut self, variable: VariableIndex, state: &Trail) -> (r: VariableIndex)
        requires
            old(self).literals@.len() >= 1,
            forall|i: int| 0 <= i < old(self).literals@.len()
                ==> state.is_option_bool(#[trigger] old(self).literals@[i].value),
        ensures
            final(self).literals@ == notified_literals(old(self).literals@, variable, *state),
            r == (if old(self).literals@.len() >= 2 { final(self).literals@[1].variable } else {
                old(self).literals@[0].variable
            }),
            final(self).id == old(self).id,
            final(self).is_learned == old(self).is_learned,
            final(self).active == old(self).active,
            final(self).is_binary == old(self).is_binary,
            final(self).modified == old(self).modified,
    {
        let len = self.literals.len();
        if len < 2 {
            return self.literals[0].to_variable();
        }
        if self.literals[0].to_variable() == variable {
            swap_literals(&mut self.literals, 0, 1);
        }
        let ghost s1 = self.literals@;
        let mut i: usize = 2;
        while i < len
            invariant
                2 <= i <= len,
                len == s1.len(),
                self.literals@ == s1,
                s1 == (if old(self).literals@[0].variable == variable {
                    swap_literals_spec(old(self).literals@, 0, 1)
                } else {
                    old(self).literals@
                }),
                old(self).literals@.len() == len,
                self.id == old(self).id,
                self.is_learned == old(self).is_learned,
                self.active == old(self).active,
                self.is_binary == old(self).is_binary,
                self.modified == old(self).modified,
                forall|k: int| 0 <= k < s1.len() ==> state.is_option_bool(#[trigger] s1[k].value),
                first_unfixed_from(s1, *state, 2) == first_unfixed_from(s1, *state, i as int),
            decreases len - i,
        {
            if !self.literals[i].is_variable_fixed(state) {
                swap_literals(&mut self.literals, 1, i);
                return self.literals[1].to_variable();
            }
            i += 1;
        }
        self.literals[1].to_variable()
    }

    /// Returns true iff the clause is unit
    pub fn is_unit(&self, state: &Trail) -> (b: bool)
        requires
            self.wf_in(*state),
            self.is_active_in(*state) ==> self.literals@.len() > 0,
        ensures
            b == self.is_unit_in(*state),
    {
        if !self.is_active(state) {
            return false;
        }
        if self.literals.len() == 1 {
            return true;
        }
        !self.literals[0].is_variable_fixed(state) && self.literals[1].is_variable_fixed(state)
    }

    /// Returns the unfixed literal of a unit clause
    pub fn get_unit_assigment(&self, state: &Trail) -> (l: Literal)
        requires
            self.is_unit_in(*state),
        ensures
            l == self.literals@[0],
    {
        self.literals[0]
    }

    /// Returns true iff the clause is learned
    pub fn is_learned(&self) -> (b: bool)
        ensures
            b == self.is_learned,
    {
        self.is_learned
    }

    /// The literals of the clause
    pub fn iter(&self) -> (r: &Vec<Literal>)
        ensures
            r@ == self.literals@,
    {
        &self.literals
    }

    /// The variables of the literals of the clause, in order
    pub fn iter_variables(&self) -> (r: Vec<VariableIndex>)
        ensures
            r@ == self.literals@.map_values(|l: Literal| l.variable),
    {
        let mut r: Vec<VariableIndex> = Vec::new();
        let mut i: usize = 0;
        while i < self.literals.len()
            invariant
                i <= self.literals@.len(),
                r@ == self.literals@.take(i as int).map_values(|l: Literal| l.variable),
            decreases self.literals@.len() - i,
        {
            r.push(self.literals[i].to_variable());
            i += 1;
            assert(r@ =~= self.literals@.take(i as int).map_values(|l: Literal| l.variable));
        }
        assert(self.literals@.take(i as int) =~= self.literals@);
        r
    }

    /// Renumbers the variables of the clause by `map`; the literals whose variable
    /// `map` drops are removed.
    pub fn clear_literals(&mut self, map: &IndexMap)
        ensures
            final(self).literals@ == cleared_literals(old(self).literals@, map@),
            final(self).literals@.to_multiset() =~= kept_renamed(old(self).literals@, map@).to_multiset(),
            final(self).id == old(self).id,
            final(self).is_learned == old(self).is_learned,
            final(self).active == old(self).active,
            final(self).is_binary == old(self).is_binary,
            final(self).modified == old(self).modified,
    {
        let mut i: usize = self.literals.len();
        while i > 0
            invariant
                i <= self.literals@.len(),
                clear_literals_below(self.literals@, map@, i as int) == cleared_literals(
                    old(self).literals@,
                    map@,
                ),
                self.id == old(self).id,
                self.is_learned == old(self).is_learned,
                self.active == old(self).active,
                self.is_binary == old(self).is_binary,
                self.modified == old(self).modified,
            decreases i,
        {
            let j = i - 1;
            let v = self.literals[j].to_variable();
            match index_map_get(map, v.0) {
                Some(new_v) => {
                    self.literals[j].update_variable(VariableIndex(new_v));
                },
                None => {
                    self.literals.swap_remove(j);
                },
            }
            i = j;
        }
        proof {
            lemma_cleared_literals_permutation(old(self).literals@, map@);
        }
    }

    /// The variables of the (at most two) watched literals
    pub fn get_watchers(&self) -> (r: Vec<VariableIndex>)
        ensures
            r@ == self.literals@.take(
                if self.literals@.len() < 2 { self.literals@.len() as int } else { 2 },
            ).map_values(|l: Literal| l.variable),
    {
        let mut r: Vec<VariableIndex> = Vec::new();
        if self.literals.len() > 0 {
            r.push(self.literals[0].to_variable());
        }
        if self.literals.len() > 1 {
            r.push(self.literals[1].to_variable());
        }
        assert(r@ =~= self.literals@.take(
            if self.literals@.len() < 2 { self.literals@.len() as int } else { 2 },
        ).map_values(|l: Literal| l.variable));
        r
    }

    /// Marks the clause as modified. This is undone when the store is restored.
    pub fn modified(&self, state: &mut Trail)
        requires
            old(state).is_bool(self.modified),
        ensures
            final(state).values() == old(state).values().update(self.modified.0 as int, Slot::Bool(true)),
            final(state).saved() == old(state).saved(),
    {
        state.set_bool(self.modified, true);
    }

    /// Returns true iff the clause is marked as modified
    pub fn is_modified(&self, state: &Trail) -> (b: bool)
        requires
            state.is_bool(self.modified),
        ensures
            b == state.bool_at(self.modified),
    {
        state.get_bool(self.modified)
    }

    /// Returns true iff the clause had two literals when it was built
    pub fn is_binary(&self) -> (b: bool)
        ensures
            b == self.is_binary,
    {
        self.is_binary
    }
}

} // verus!
