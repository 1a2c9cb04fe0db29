//! The options of a run.
use vstd::prelude::*;
use std::path::PathBuf;
use crate::common::{Branching, Caching};

verus! {

#[verifier::external_type_specification]
#[verifier::external_body]
pub struct ExPathBuf(std::path::PathBuf);

/// An empty path (`PathBuf::default`).
#[verifier::external_body]
fn empty_path() -> PathBuf {
    PathBuf::default()
}

/// The options of a run.
pub struct Args {
    /// The input file
    pub input: PathBuf,
    /// Stops the search after timeout seconds
    pub timeout: u64,
    /// Distribution selection heuristic
    pub branching: Branching,
    /// Caching strategy
    pub caching: Caching,
    /// Collect stats during the search
    pub statistics: bool,
    /// The memory limit, in mega-bytes
    pub memory: u64,
}

impl Default for Args {
    /// No input, no time or memory limit, first-variable branching, hybrid caching,
    /// no statistics.
    fn default() -> (r: Self)
        ensures
            r.timeout == u64::MAX,
            r.branching == Branching::First,
            r.caching == Caching::Hybrid,
            !r.statistics,
            r.memory == u64::MAX,
    {
        Self {
            input: empty_path(),
            timeout: u64::MAX,
            branching: Branching::First,
            caching: Caching::Hybrid,
            statistics: false,
            memory: u64::MAX,
        }
    }
}

impl Args {
    pub fn input(&self) -> (r: &PathBuf)
        ensures
            *r == self.input,
    {
        &self.input
    }

    pub fn timeout(&self) -> (r: u64)
        ensures
            r == self.timeout,
    {
        self.timeout
    }

    pub fn branching(&self) -> (r: Branching)
        ensures
            r == self.branching,
    {
        self.branching
    }

    pub fn caching(&self) -> (r: Caching)
        ensures
            r == self.caching,
    {
        self.caching
    }

    pub fn statistics(&self) -> (r: bool)
        ensures
            r == self.statistics,
    {
        self.statistics
    }

    pub fn memory(&self) -> (r: u64)
        ensures
            r == self.memory,
    {
        self.memory
    }

    pub fn set_input(&mut self, value: PathBuf)
        ensures
            final(self).input == value,
            final(self).timeout == old(self).timeout,
            final(self).branching == old(self).branching,
            final(self).caching == old(self).caching,
            final(self).statistics == old(self).statistics,
            final(self).memory == old(self).memory,
    {
        self.input = value;
    }

    pub fn set_timeout(&mut self, value: u64)
        ensures
            final(self).timeout == value,
            final(self).input == old(self).input,
            final(self).branching == old(self).branching,
            final(self).caching == old(self).caching,
            final(self).statistics == old(self).statistics,
            final(self).memory == old(self).memory,
    {
        self.timeout = value;
    }

    pub fn set_branching(&mut self, value: Branching)
        ensures
            final(self).branching == value,
            final(self).input == old(self).input,
            final(self).timeout == old(self).timeout,
            final(self).caching == old(self).caching,
            final(self).statistics == old(self).statistics,
            final(self).memory == old(self).memory,
    {
        self.branching = value;
    }

    pub fn set_caching(&mut self, value: Caching)
        ensures
            final(self).caching == value,
            final(self).input == old(self).input,
            final(self).timeout == old(self).timeout,
            final(self).branching == old(self).branching,
            final(self).statistics == old(self).statistics,
            final(self).memory == old(self).memory,
    {
        self.caching = value;
    }

    pub fn set_statistics(&mut self, value: bool)
        ensures
            final(self).statistics == value,
            final(self).input == old(self).input,
            final(self).timeout == old(self).timeout,
            final(self).branching == old(self).branching,
            final(self).caching == old(self).caching,
            final(self).memory == old(self).memory,
    {
        self.statistics = value;
    }

    pub fn set_memory(&mut self, value: u64)
        ensures
            final(self).memory == value,
            final(self).input == old(self).input,
            final(self).timeout == old(self).timeout,
            final(self).branching == old(self).branching,
            final(self).caching == old(self).caching,
            final(self).statistics == old(self).statistics,
    {
        self.memory = value;
    }
}

} // verus!
