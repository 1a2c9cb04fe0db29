//! How the activity of clauses may change while values are fixed: a clause is
//! set inactive only once one of its literals holds, and never set active.
use vstd::prelude::*;
use crate::formula::problem::Problem;
use crate::trail::Trail;

verus! {

/// From `s0` to `s`: no clause of `g` becomes active, and each clause that becomes
/// inactive has a literal that holds in `s`.
pub open spec fn deactivations_justified(g: Problem, s0: Trail, s: Trail) -> bool {
    forall|c: int| 0 <= c < g.nclauses() ==> {
        &&& ((#[trigger] g.clauses@[c]).is_active_in(s) ==> g.clauses@[c].is_active_in(s0))
        &&& (g.clauses@[c].is_active_in(s0) && !g.clauses@[c].is_active_in(s)
            ==> exists|k: int| 0 <= k < g.clauses@[c].literals@.len() && (#[trigger] g.lit(c, k)).is_true_in(s))
    }
}

/// A literal of a clause of `g` holds in `s2` when it holds in `s1` and its
/// variable keeps its value in `g2`, a problem with the same formula.
proof fn lemma_literal_kept(g: Problem, g2: Problem, s1: Trail, s2: Trail, c: int, k: int)
    requires
        g.wf_literals(),
        g2.same_formula(g),
        0 <= c < g.nclauses(),
        0 <= k < g.clauses@[c].literals@.len(),
        g.lit(c, k).is_true_in(s1),
        forall|v: int| 0 <= v < g.nvars() && (#[trigger] g.value_of(v, s1)) is Some
            ==> g2.value_of(v, s2) == g.value_of(v, s1),
    ensures
        exists|k2: int| 0 <= k2 < g2.clauses@[c].literals@.len() && (#[trigger] g2.lit(c, k2)).is_true_in(s2),
{
    let l = g.lit(c, k);
    let v = l.variable.0 as int;
    assert(l.value == g.variables@[v].value);
    assert(g.value_of(v, s1) is Some);
    assert(g2.variables@[v].value == g.variables@[v].value);
    assert(g.clauses@[c].literals@.contains(l));
    assert(g2.clauses@[c].literals@.contains(l));
    let k2 = choose|k2: int| 0 <= k2 < g2.clauses@[c].literals@.len() && g2.clauses@[c].literals@[k2] == l;
    assert(g2.lit(c, k2) == l);
}

/// Two steps of justified deactivations make one, when the values that hold
/// after the first stay through the second, over problems with the same formula.
pub proof fn lemma_justified_trans(g: Problem, g2: Problem, s0: Trail, s1: Trail, s2: Trail)
    requires
        g.wf_literals(),
        g2.same_formula(g),
        deactivations_justified(g, s0, s1),
        deactivations_justified(g2, s1, s2),
        forall|v: int| 0 <= v < g.nvars() && (#[trigger] g.value_of(v, s1)) is Some
            ==> g2.value_of(v, s2) == g.value_of(v, s1),
    ensures
        deactivations_justified(g2, s0, s2),
{
    assert forall|c: int| 0 <= c < g2.nclauses() implies {
        &&& ((#[trigger] g2.clauses@[c]).is_active_in(s2) ==> g2.clauses@[c].is_active_in(s0))
        &&& (g2.clauses@[c].is_active_in(s0) && !g2.clauses@[c].is_active_in(s2)
            ==> exists|k: int| 0 <= k < g2.clauses@[c].literals@.len() && (#[trigger] g2.lit(c, k)).is_true_in(s2))
    } by {
        assert(g2.clauses@[c].active == g.clauses@[c].active);
        assert(g.clauses@[c].is_active_in(s1) == g2.clauses@[c].is_active_in(s1));
        if g2.clauses@[c].is_active_in(s0) && !g2.clauses@[c].is_active_in(s2) && !g.clauses@[c].is_active_in(s1) {
            let k = choose|k: int| 0 <= k < g.clauses@[c].literals@.len() && (#[trigger] g.lit(c, k)).is_true_in(s1);
            lemma_literal_kept(g, g2, s1, s2, c, k);
        }
    }
}

/// Justified deactivations carry over to a problem with the same formula, in a
/// store where clauses keep their activity and variables their values.
pub proof fn lemma_justified_frame(g: Problem, g2: Problem, s0: Trail, s1: Trail, s2: Trail)
    requires
        g.wf_literals(),
        g2.same_formula(g),
        deactivations_justified(g, s0, s1),
        forall|c: int| 0 <= c < g.nclauses() ==> (#[trigger] g2.clauses@[c]).is_active_in(s2) == g.clauses@[c].is_active_in(s1),
        forall|v: int| 0 <= v < g.nvars() ==> #[trigger] g2.value_of(v, s2) == g.value_of(v, s1),
    ensures
        deactivations_justified(g2, s0, s2),
{
    assert forall|c: int| 0 <= c < g2.nclauses() implies {
        &&& ((#[trigger] g2.clauses@[c]).is_active_in(s2) ==> g2.clauses@[c].is_active_in(s0))
        &&& (g2.clauses@[c].is_active_in(s0) && !g2.clauses@[c].is_active_in(s2)
            ==> exists|k: int| 0 <= k < g2.clauses@[c].literals@.len() && (#[trigger] g2.lit(c, k)).is_true_in(s2))
    } by {
        assert(g2.clauses@[c].active == g.clauses@[c].active);
        if g2.clauses@[c].is_active_in(s0) && !g2.clauses@[c].is_active_in(s2) {
            let k = choose|k: int| 0 <= k < g.clauses@[c].literals@.len() && (#[trigger] g.lit(c, k)).is_true_in(s1);
            assert forall|v: int| 0 <= v < g.nvars() && (#[trigger] g.value_of(v, s1)) is Some
                implies g2.value_of(v, s2) == g.value_of(v, s1) by {}
            lemma_literal_kept(g, g2, s1, s2, c, k);
        }
    }
}

} // verus!
