//! A variable of the problem and the clauses in which it occurs.
use vstd::prelude::*;
use rustc_hash::FxHashMap;
use crate::formula::problem::ClauseIndex;
use crate::fxmap::index_map_get;
use crate::trail::{OptionBoolId, Slot, Trail, UsizeId};
use crate::text::{decimal, decimal_text};
use vstd::string::*;

verus! {

/// The clauses of `s` that `m` keeps, in order, renamed by `m`.
pub open spec fn remap_clauses(s: Seq<ClauseIndex>, m: Map<usize, usize>) -> Seq<ClauseIndex>
    decreases s.len(),
{
    if s.len() == 0 {
        Seq::<ClauseIndex>::empty()
    } else {
        let rest = remap_clauses(s.drop_last(), m);
        if m.contains_key(s.last().0) {
            rest.push(ClauseIndex(m[s.last().0]))
        } else {
            rest
        }
    }
}

pub proof fn lemma_remap_clauses_len(s: Seq<ClauseIndex>, m: Map<usize, usize>)
    ensures
        remap_clauses(s, m).len() <= s.len(),
    decreases s.len(),
{
    if s.len() > 0 {
        lemma_remap_clauses_len(s.drop_last(), m);
    }
}

/// Data of one variable of the input problem.
#[derive(Debug)]
pub struct Variable {
    /// The id of the variable in the input problem
    pub id: usize,
    /// The clauses in which the variable appears with positive polarity
    pub clauses_positive: Vec<ClauseIndex>,
    /// The clauses in which the variable appears with negative polarity
    pub clauses_negative: Vec<ClauseIndex>,
    /// The value assigned to the variable
    pub value: OptionBoolId,
    /// Level at which the decision was made for this variable
    pub decision: isize,
    /// Index in the assignment stack at which the variable was assigned
    pub assignment_position: UsizeId,
}

/// Rebuilds `s` with the clauses that `map` keeps, renamed.
fn remap_clause_list(s: &Vec<ClauseIndex>, map: &FxHashMap<usize, usize>) -> (r: Vec<ClauseIndex>)
    ensures
        r@ == remap_clauses(s@, map@),
{
    let mut r: Vec<ClauseIndex> = Vec::new();
    let mut i: usize = 0;
    while i < s.len()
        invariant
            i <= s.len(),
            r@ == remap_clauses(s@.take(i as int), map@),
        decreases s.len() - i,
    {
        assert(s@.take(i + 1).drop_last() =~= s@.take(i as int));
        match index_map_get(map, s[i].0) {
            Some(new_index) => r.push(ClauseIndex(new_index)),
            None => {},
        }
        i += 1;
    }
    assert(s@.take(s.len() as int) =~= s@);
    r
}

impl Variable {
    /// The value of the variable in `state`.
    pub open spec fn value_in(&self, state: Trail) -> Option<bool> {
        state.option_bool_at(self.value)
    }

    /// The handles of the variable lead to values of the right kind in `state`.
    pub open spec fn wf_in(&self, state: Trail) -> bool {
        &&& state.is_option_bool(self.value)
        &&& state.is_usize(self.assignment_position)
    }

    /// The printed form of the variable: `V` and its number, counted from one.
    pub fn describe(&self) -> (r: String)
        requires
            self.id < usize::MAX,
        ensures
            r@ == seq!['V'] + decimal(self.id as nat + 1),
    {
        let mut s = String::from_str("V");
        proof {
            reveal_strlit("V");
        }
        let number = decimal_text((self.id + 1) as u64);
        s.append(number.as_str());
        s
    }

    /// A new variable, with no value and no clause. Its two reversible values are
    /// appended to the store.
    pub fn new(id: usize, state: &mut Trail) -> (v: Variable)
        ensures
            v.id == id,
            v.clauses_positive@ == Seq::<ClauseIndex>::empty(),
            v.clauses_negative@ == Seq::<ClauseIndex>::empty(),
            v.decision == -1,
            v.value.0 == old(state).values().len(),
            v.assignment_position.0 == old(state).values().len() + 1,
            final(state).values() == old(state).values().push(Slot::OptionBool(None)).push(
                Slot::Usize(0),
            ),
            final(state).saved() == old(state).saved(),
    {
        let value = state.manage_option_bool(None);
        let assignment_position = state.manage_usize(0);
        Variable {
            id,
            clauses_positive: Vec::new(),
            clauses_negative: Vec::new(),
            value,
            decision: -1,
            assignment_position,
        }
    }

    /// Sets the variable to the given value. This is undone when the store is restored.
    pub fn set_value(&self, value: bool, state: &mut Trail)
        requires
            old(state).is_option_bool(self.value),
        ensures
            final(state).values() == old(state).values().update(
                self.value.0 as int,
                Slot::OptionBool(Some(value)),
            ),
            final(state).saved() == old(state).saved(),
    {
        state.set_option_bool(self.value, value);
    }

    /// Returns the value of the variable
    pub fn value(&self, state: &Trail) -> (r: Option<bool>)
        requires
            state.is_option_bool(self.value),
        ensures
            r == self.value_in(*state),
    {
        state.get_option_bool(self.value)
    }

    /// Returns the handle of the variable's value in the store
    pub fn get_value_index(&self) -> (r: OptionBoolId)
        ensures
            r == self.value,
    {
        self.value
    }

    /// Returns true iff the variable is fixed
    pub fn is_fixed(&self, state: &Trail) -> (b: bool)
        requires
            state.is_option_bool(self.value),
        ensures
            b == self.value_in(*state) is Some,
    {
        state.get_option_bool(self.value).is_some()
    }

    /// Adds the clause to the positive occurrences
    pub fn add_clause_positive_occurence(&mut self, clause: ClauseIndex)
        ensures
            final(self).clauses_positive@ == old(self).clauses_positive@.push(clause),
            final(self).clauses_negative@ == old(self).clauses_negative@,
            final(self).id == old(self).id,
            final(self).value == old(self).value,
            final(self).decision == old(self).decision,
            final(self).assignment_position == old(self).assignment_position,
    {
        self.clauses_positive.push(clause);
    }

    /// Adds the clause to the negative occurrences
    pub fn add_clause_negative_occurence(&mut self, clause: ClauseIndex)
        ensures
            final(self).clauses_negative@ == old(self).clauses_negative@.push(clause),
            final(self).clauses_positive@ == old(self).clauses_positive@,
            final(self).id == old(self).id,
            final(self).value == old(self).value,
            final(self).decision == old(self).decision,
            final(self).assignment_position == old(self).assignment_position,
    {
        self.clauses_negative.push(clause);
    }

    /// Sets the decision level of the variable
    pub fn set_decision_level(&mut self, level: isize)
        ensures
            final(self).decision == level,
            final(self).clauses_positive == old(self).clauses_positive,
            final(self).clauses_negative == old(self).clauses_negative,
            final(self).id == old(self).id,
            final(self).value == old(self).value,
            final(self).assignment_position == old(self).assignment_position,
    {
        self.decision = level;
    }

    /// Returns the decision level of the variable. The level is not reversible: it
    /// is meaningful for fixed variables only.
    pub fn decision_level(&self) -> (r: isize)
        ensures
            r == self.decision,
    {
        self.decision
    }

    /// Sets the position of the variable in the assignment stack
    pub fn set_assignment_position(&self, position: usize, state: &mut Trail)
        requires
            old(state).is_usize(self.assignment_position),
        ensures
            final(state).values() == old(state).values().update(
                self.assignment_position.0 as int,
                Slot::Usize(position),
            ),
            final(state).saved() == old(state).saved(),
    {
        state.set_usize(self.assignment_position, position);
    }

    /// Returns the position of the variable in the assignment stack
    pub fn get_assignment_position(&self, state: &Trail) -> (r: usize)
        requires
            state.is_usize(self.assignment_position),
        ensures
            r == state.usize_at(self.assignment_position),
    {
        state.get_usize(self.assignment_position)
    }

    /// Number of clauses in which the variable occurs
    pub fn number_clauses(&self) -> (r: usize)
        requires
            self.clauses_positive@.len() + self.clauses_negative@.len() <= usize::MAX,
        ensures
            r == self.clauses_positive@.len() + self.clauses_negative@.len(),
    {
        self.clauses_positive.len() + self.clauses_negative.len()
    }

    /// The clauses in which the variable occurs positively
    pub fn iter_clauses_positive_occurence(&self) -> (r: &Vec<ClauseIndex>)
        ensures
            r@ == self.clauses_positive@,
    {
        &self.clauses_positive
    }

    /// The clauses in which the variable occurs negatively
    pub fn iter_clauses_negative_occurence(&self) -> (r: &Vec<ClauseIndex>)
        ensures
            r@ == self.clauses_negative@,
    {
        &self.clauses_negative
    }

    /// Keeps, in both occurrence lists, the clauses that `map` keeps, renamed by
    /// `map`, and returns how many remain.
    pub fn clear_clauses(&mut self, map: &FxHashMap<usize, usize>) -> (r: usize)
        requires
            old(self).clauses_positive@.len() + old(self).clauses_negative@.len() <= usize::MAX,
        ensures
            final(self).clauses_positive@ == remap_clauses(old(self).clauses_positive@, map@),
            final(self).clauses_negative@ == remap_clauses(old(self).clauses_negative@, map@),
            r == final(self).clauses_positive@.len() + final(self).clauses_negative@.len(),
            final(self).id == old(self).id,
            final(self).value == old(self).value,
            final(self).decision == old(self).decision,
            final(self).assignment_position == old(self).assignment_position,
    {
        self.clauses_positive = remap_clause_list(&self.clauses_positive, map);
        self.clauses_negative = remap_clause_list(&self.clauses_negative, map);
        proof {
            lemma_remap_clauses_len(old(self).clauses_positive@, map@);
            lemma_remap_clauses_len(old(self).clauses_negative@, map@);
        }
        self.clauses_positive.len() + self.clauses_negative.len()
    }
}

} // verus!
