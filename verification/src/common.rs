//! Choices offered to the user, and the solution of a count.
use vstd::prelude::*;
use vstd::string::*;
use malachite::Natural;
use crate::text::{decimal, decimal_text};

verus! {

#[verifier::external_type_specification]
#[verifier::external_body]
pub struct ExNatural(malachite::Natural);

/// The number that a `Natural` stands for.
pub uninterp spec fn natural_value(n: Natural) -> nat;

/// `n` as a `Natural` (`Natural::from`, which gives the natural number `n`).
#[verifier::external_body]
pub fn natural(n: usize) -> (r: Natural)
    ensures
        natural_value(r) == n,
{
    Natural::from(n)
}

/// `a + b` (`Add` for `Natural`, which gives the sum of the two numbers).
#[verifier::external_body]
pub(crate) fn natural_add(a: Natural, b: Natural) -> (r: Natural)
    ensures
        natural_value(r) == natural_value(a) + natural_value(b),
{
    a + b
}

/// A copy of `n` (`Natural::clone`, derived: it copies the representation).
#[verifier::external_body]
pub(crate) fn natural_clone(n: &Natural) -> (r: Natural)
    ensures
        r == *n,
{
    n.clone()
}

/// The decimal text of `n` (`Natural`'s `Display`, through `to_string`): the
/// digits of the number, most significant first, with no leading zero.
#[verifier::external_body]
fn natural_text(n: &Natural) -> (r: String)
    ensures
        r@ == decimal(natural_value(*n)),
{
    n.to_string()
}

/// Distribution selection heuristic
#[derive(Debug, Copy, Clone, PartialEq, Eq, Structural, PartialOrd, Ord)]
pub enum Branching {
    First,
}

/// Caching strategy
#[derive(Debug, Copy, Clone, PartialEq, Eq, Structural, PartialOrd, Ord)]
pub enum Caching {
    Hybrid,
    OmitBinary,
    OmitImplicit,
}

/// The result of a count
pub struct Solution {
    /// The model count
    pub count: Natural,
    /// Number of seconds, since the start of the solver, at which the solution was found
    pub time_found: u64,
}

impl Solution {
    pub fn new(count: Natural, time_found: u64) -> (s: Self)
        ensures
            s.count == count,
            s.time_found == time_found,
    {
        Self { count, time_found }
    }

    /// The printed form of the solution: its count and the seconds it took.
    pub fn describe(&self) -> (r: String)
        ensures
            r@ == "Model count is "@ + decimal(natural_value(self.count)) + " found in "@ + decimal(
                self.time_found as nat,
            ) + " seconds"@,
    {
        let mut s = String::from_str("Model count is ");
        let count = natural_text(&self.count);
        s.append(count.as_str());
        s.append(" found in ");
        let time = decimal_text(self.time_found);
        s.append(time.as_str());
        s.append(" seconds");
        s
    }

    /// The model count
    pub fn count(&self) -> (r: Natural)
        ensures
            r == self.count,
    {
        natural_clone(&self.count)
    }
}

} // verus!
