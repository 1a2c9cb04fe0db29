//! A literal: a variable with a polarity.
use vstd::prelude::*;
use crate::formula::problem::VariableIndex;
use crate::trail::{OptionBoolId, Trail};

verus! {

/// A variable of the problem taken positively or negatively. It keeps the handle
/// of the variable's value in the store, so that it can tell whether it is fixed.
#[derive(Clone, Copy, PartialEq, Eq, Debug)]
pub struct Literal {
    pub variable: VariableIndex,
    pub positive: bool,
    pub value: OptionBoolId,
}

impl Literal {
    /// The literal of `variable` with the given polarity.
    pub fn from_variable(variable: VariableIndex, positive: bool, value: OptionBoolId) -> (l: Literal)
        ensures
            l.variable == variable,
            l.positive == positive,
            l.value == value,
    {
        Literal { variable, positive, value }
    }

    pub fn to_variable(&self) -> (v: VariableIndex)
        ensures
            v == self.variable,
    {
        self.variable
    }

    pub fn is_positive(&self) -> (b: bool)
        ensures
            b == self.positive,
    {
        self.positive
    }

    /// The value of the literal's variable in `state`.
    pub open spec fn variable_value(self, state: Trail) -> Option<bool> {
        state.option_bool_at(self.value)
    }

    /// The literal holds: its variable is fixed to its polarity.
    pub open spec fn is_true_in(self, state: Trail) -> bool {
        self.variable_value(state) == Some(self.positive)
    }

    /// Returns true iff the variable of the literal has a value.
    pub fn is_variable_fixed(&self, state: &Trail) -> (b: bool)
        requires
            state.is_option_bool(self.value),
        ensures
            b == self.variable_value(*state) is Some,
    {
        state.get_option_bool(self.value).is_some()
    }

    /// Points the literal to another variable (after the variables are renumbered).
    pub fn update_variable(&mut self, variable: VariableIndex)
        ensures
            final(self).variable == variable,
            final(self).positive == old(self).positive,
            final(self).value == old(self).value,
    {
        self.variable = variable;
    }
}

} // verus!
