//! What values mean for the formula: total assignments that satisfy it, and the
//! literals that a clause forces once its other literals are false.
use vstd::prelude::*;
use crate::formula::clause::same_literals;
use crate::formula::literal::Literal;
use crate::formula::problem::{lemma_same_formula_sym, Problem, VariableIndex};
use crate::trail::Trail;

verus! {

/// Literal `l` is true under the total assignment `sigma`.
pub open spec fn holds(sigma: Seq<bool>, l: Literal) -> bool {
    sigma[l.variable.0 as int] == l.positive
}

/// Some literal of `lits` is true under `sigma`.
pub open spec fn some_holds(sigma: Seq<bool>, lits: Seq<Literal>) -> bool {
    exists|k: int| 0 <= k < lits.len() && holds(sigma, #[trigger] lits[k])
}

/// `sigma` gives a value to every variable of `g` and makes a literal of every
/// clause of `g` true.
pub open spec fn is_model(sigma: Seq<bool>, g: Problem) -> bool {
    &&& sigma.len() == g.nvars()
    &&& forall|c: int| 0 <= c < g.nclauses() ==> some_holds(sigma, (#[trigger] g.clauses@[c]).literals@)
}

/// `sigma` agrees with every value that `s` gives to a variable of `g`.
pub open spec fn agrees(sigma: Seq<bool>, g: Problem, s: Trail) -> bool {
    forall|v: int| 0 <= v < g.nvars() && (#[trigger] g.value_of(v, s)) is Some ==> g.value_of(v, s) == Some(sigma[v])
}

/// `sigma` gives every requested variable the value asked for it.
pub open spec fn grants(sigma: Seq<bool>, requests: Seq<(VariableIndex, bool, isize)>) -> bool {
    forall|i: int| 0 <= i < requests.len() ==> sigma[(#[trigger] requests[i]).0.0 as int] == requests[i].1
}

/// `sigma` is a model of `g` that keeps the values of `s` and grants `requests`.
pub open spec fn admits(g: Problem, s: Trail, requests: Seq<(VariableIndex, bool, isize)>, sigma: Seq<bool>) -> bool {
    &&& is_model(sigma, g)
    &&& agrees(sigma, g, s)
    &&& grants(sigma, requests)
}

/// Clause `c` of `g` forces variable `v` to `b` in `s`: it holds that literal,
/// and each of its other literals is false in `s`.
pub open spec fn clause_forces(g: Problem, s: Trail, c: int, v: int, b: bool) -> bool {
    &&& 0 <= c < g.nclauses()
    &&& g.clause_has(c, v, b)
    &&& forall|k: int| 0 <= k < g.clauses@[c].literals@.len()
        && !((#[trigger] g.lit(c, k)).variable.0 == v && g.lit(c, k).positive == b)
        ==> g.value_of(g.lit(c, k).variable.0 as int, s) == Some(!g.lit(c, k).positive)
}

/// Request `e` is forced by some clause of `g` in `s`.
pub open spec fn forced_in(g: Problem, s: Trail, e: (VariableIndex, bool, isize)) -> bool {
    exists|c: int| #[trigger] clause_forces(g, s, c, e.0.0 as int, e.1)
}

/// A model that keeps the values of `s` gives a forced variable its forced value.
pub proof fn lemma_forced_granted(g: Problem, s: Trail, c: int, v: int, b: bool, sigma: Seq<bool>)
    requires
        g.wf_literals(),
        clause_forces(g, s, c, v, b),
        is_model(sigma, g),
        agrees(sigma, g, s),
    ensures
        sigma[v] == b,
{
    let lits = g.clauses@[c].literals@;
    assert(some_holds(sigma, lits));
    let k = choose|k: int| 0 <= k < lits.len() && holds(sigma, #[trigger] lits[k]);
    let l = g.lit(c, k);
    assert(l == lits[k]);
    if !(l.variable.0 == v && l.positive == b) {
        assert(g.value_of(l.variable.0 as int, s) == Some(!l.positive));
        assert(g.value_of(l.variable.0 as int, s) == Some(sigma[l.variable.0 as int]));
    }
}

/// A literal of `a` holds when a literal of `b` does and both have the same literals.
proof fn lemma_some_holds_same(sigma: Seq<bool>, a: Seq<Literal>, b: Seq<Literal>)
    requires
        same_literals(a, b),
        some_holds(sigma, b),
    ensures
        some_holds(sigma, a),
{
    let k = choose|k: int| 0 <= k < b.len() && holds(sigma, #[trigger] b[k]);
    assert(b.contains(b[k]));
    assert(a.contains(b[k]));
    let j = choose|j: int| 0 <= j < a.len() && a[j] == b[k];
    assert(holds(sigma, a[j]));
}

/// A model of a problem is a model of any problem with the same clauses up to
/// the order of their literals.
proof fn lemma_model_transfer(sigma: Seq<bool>, g: Problem, g2: Problem)
    requires
        g2.same_formula(g),
        is_model(sigma, g),
    ensures
        is_model(sigma, g2),
{
    assert forall|c: int| 0 <= c < g2.nclauses() implies some_holds(sigma, (#[trigger] g2.clauses@[c]).literals@) by {
        assert(some_holds(sigma, g.clauses@[c].literals@));
        lemma_some_holds_same(sigma, g2.clauses@[c].literals@, g.clauses@[c].literals@);
    }
}

/// Problems that differ only in the order of the literals of their clauses have
/// the same models, and keep what their clauses force as long as the values
/// already given stay.
pub proof fn lemma_same_formula_models(g: Problem, g2: Problem, s: Trail, s2: Trail)
    requires
        g.wf_literals(),
        g2.same_formula(g),
        forall|w: int| 0 <= w < g.nvars() && (#[trigger] g.value_of(w, s)) is Some ==> g.value_of(w, s2) == g.value_of(w, s),
    ensures
        forall|sigma: Seq<bool>| #[trigger] is_model(sigma, g2) <==> is_model(sigma, g),
        forall|sigma: Seq<bool>, t: Trail| #[trigger] agrees(sigma, g2, t) <==> agrees(sigma, g, t),
        forall|c: int, v: int, b: bool| #[trigger] clause_forces(g, s, c, v, b) ==> clause_forces(g2, s2, c, v, b),
        forall|e: (VariableIndex, bool, isize)| #[trigger] forced_in(g, s, e) ==> forced_in(g2, s2, e),
{
    lemma_same_formula_sym(g2, g);
    assert forall|sigma: Seq<bool>| #[trigger] is_model(sigma, g2) <==> is_model(sigma, g) by {
        if is_model(sigma, g) {
            lemma_model_transfer(sigma, g, g2);
        }
        if is_model(sigma, g2) {
            lemma_model_transfer(sigma, g2, g);
        }
    }
    assert forall|sigma: Seq<bool>, t: Trail| #[trigger] agrees(sigma, g2, t) <==> agrees(sigma, g, t) by {
        assert forall|v: int| 0 <= v < g.nvars() implies #[trigger] g2.value_of(v, t) == g.value_of(v, t) by {
            assert(g2.variables@[v].value == g.variables@[v].value);
        }
        if agrees(sigma, g, t) {
            assert forall|v: int| 0 <= v < g2.nvars() && (#[trigger] g2.value_of(v, t)) is Some
                implies g2.value_of(v, t) == Some(sigma[v]) by {
                assert(g.value_of(v, t) is Some);
            }
        }
        if agrees(sigma, g2, t) {
            assert forall|v: int| 0 <= v < g.nvars() && (#[trigger] g.value_of(v, t)) is Some
                implies g.value_of(v, t) == Some(sigma[v]) by {
                assert(g2.value_of(v, t) is Some);
            }
        }
    }
    assert forall|c: int, v: int, b: bool| #[trigger] clause_forces(g, s, c, v, b) implies clause_forces(g2, s2, c, v, b) by {
        assert forall|k: int| 0 <= k < g2.clauses@[c].literals@.len()
            && !((#[trigger] g2.lit(c, k)).variable.0 == v && g2.lit(c, k).positive == b)
            implies g2.value_of(g2.lit(c, k).variable.0 as int, s2) == Some(!g2.lit(c, k).positive) by {
            let l = g2.lit(c, k);
            let x = g2.clauses@[c];
            let y = g.clauses@[c];
            assert(same_literals(x.literals@, y.literals@));
            assert(x.literals@.contains(l)) by {
                assert(x.literals@[k] == l);
            }
            assert(y.literals@.contains(l));
            let j = choose|j: int| 0 <= j < y.literals@.len() && y.literals@[j] == l;
            assert(g.lit(c, j) == l);
            let w = l.variable.0 as int;
            assert(0 <= w < g.nvars());
            assert(g.value_of(w, s) == Some(!l.positive));
            assert(g2.variables@[w].value == g.variables@[w].value);
        }
    }
    assert forall|e: (VariableIndex, bool, isize)| #[trigger] forced_in(g, s, e) implies forced_in(g2, s2, e) by {
        let c = choose|c: int| #[trigger] clause_forces(g, s, c, e.0.0 as int, e.1);
        assert(clause_forces(g2, s2, c, e.0.0 as int, e.1));
    }
}


/// The number of assignments of length `n` that extend `prefix` and satisfy `p`.
pub open spec fn count_where(n: nat, p: spec_fn(Seq<bool>) -> bool, prefix: Seq<bool>) -> nat
    decreases n - prefix.len(),
{
    if prefix.len() >= n {
        if p(prefix) { 1 } else { 0 }
    } else {
        count_where(n, p, prefix.push(false)) + count_where(n, p, prefix.push(true))
    }
}

/// The models of `g` that agree with the values of `s`.
pub open spec fn admitted(g: Problem, s: Trail) -> spec_fn(Seq<bool>) -> bool {
    |sigma: Seq<bool>| is_model(sigma, g) && agrees(sigma, g, s)
}

/// The models of `g` that agree with the values of `s` and give `x` the value `b`.
pub open spec fn admitted_with(g: Problem, s: Trail, x: int, b: bool) -> spec_fn(Seq<bool>) -> bool {
    |sigma: Seq<bool>| is_model(sigma, g) && agrees(sigma, g, s) && sigma[x] == b
}

/// The number of models of `g` that agree with the values of `s`.
pub open spec fn model_count_spec(g: Problem, s: Trail) -> nat {
    count_where(g.nvars() as nat, admitted(g, s), Seq::<bool>::empty())
}

/// `2` to the power `k`.
pub open spec fn two_to(k: nat) -> nat
    decreases k,
{
    if k == 0 { 1 } else { 2 * two_to((k - 1) as nat) }
}

/// The number of positions from `i` on at which `vals` holds no value.
pub open spec fn unset_from(vals: Seq<Option<bool>>, i: int) -> nat
    decreases vals.len() - i,
{
    if i >= vals.len() || i < 0 {
        0
    } else {
        (if vals[i] is None { 1nat } else { 0nat }) + unset_from(vals, i + 1)
    }
}

/// Counting splits along any condition `q`.
pub proof fn lemma_count_split(n: nat, p: spec_fn(Seq<bool>) -> bool, q: spec_fn(Seq<bool>) -> bool, prefix: Seq<bool>)
    requires
        prefix.len() <= n,
    ensures
        count_where(n, p, prefix) == count_where(n, |sigma: Seq<bool>| p(sigma) && q(sigma), prefix)
            + count_where(n, |sigma: Seq<bool>| p(sigma) && !q(sigma), prefix),
    decreases n - prefix.len(),
{
    if prefix.len() < n {
        lemma_count_split(n, p, q, prefix.push(false));
        lemma_count_split(n, p, q, prefix.push(true));
    }
}

/// Conditions that agree on the assignments of length `n` that extend `prefix`
/// count alike.
pub proof fn lemma_count_ext(n: nat, p: spec_fn(Seq<bool>) -> bool, q: spec_fn(Seq<bool>) -> bool, prefix: Seq<bool>)
    requires
        prefix.len() <= n,
        forall|sigma: Seq<bool>| sigma.len() == n && sigma.take(prefix.len() as int) == prefix ==> p(sigma) == q(sigma),
    ensures
        count_where(n, p, prefix) == count_where(n, q, prefix),
    decreases n - prefix.len(),
{
    if prefix.len() < n {
        assert forall|sigma: Seq<bool>| sigma.len() == n && sigma.take(prefix.len() as int + 1) == prefix.push(false)
            implies p(sigma) == q(sigma) by {
            assert(sigma.take(prefix.len() as int) =~= sigma.take(prefix.len() as int + 1).take(prefix.len() as int));
            assert(prefix.push(false).take(prefix.len() as int) =~= prefix);
        }
        assert forall|sigma: Seq<bool>| sigma.len() == n && sigma.take(prefix.len() as int + 1) == prefix.push(true)
            implies p(sigma) == q(sigma) by {
            assert(sigma.take(prefix.len() as int) =~= sigma.take(prefix.len() as int + 1).take(prefix.len() as int));
            assert(prefix.push(true).take(prefix.len() as int) =~= prefix);
        }
        lemma_count_ext(n, p, q, prefix.push(false));
        lemma_count_ext(n, p, q, prefix.push(true));
    } else {
        assert(prefix.take(prefix.len() as int) =~= prefix);
    }
}

/// A condition that no assignment of length `n` extending `prefix` meets counts 0.
pub proof fn lemma_count_none(n: nat, p: spec_fn(Seq<bool>) -> bool, prefix: Seq<bool>)
    requires
        prefix.len() <= n,
        forall|sigma: Seq<bool>| sigma.len() == n && sigma.take(prefix.len() as int) == prefix ==> !p(sigma),
    ensures
        count_where(n, p, prefix) == 0,
    decreases n - prefix.len(),
{
    if prefix.len() < n {
        assert forall|sigma: Seq<bool>| sigma.len() == n && sigma.take(prefix.len() as int + 1) == prefix.push(false) implies !p(sigma) by {
            assert(sigma.take(prefix.len() as int) =~= sigma.take(prefix.len() as int + 1).take(prefix.len() as int));
            assert(prefix.push(false).take(prefix.len() as int) =~= prefix);
        }
        assert forall|sigma: Seq<bool>| sigma.len() == n && sigma.take(prefix.len() as int + 1) == prefix.push(true) implies !p(sigma) by {
            assert(sigma.take(prefix.len() as int) =~= sigma.take(prefix.len() as int + 1).take(prefix.len() as int));
            assert(prefix.push(true).take(prefix.len() as int) =~= prefix);
        }
        lemma_count_none(n, p, prefix.push(false));
        lemma_count_none(n, p, prefix.push(true));
    } else {
        assert(prefix.take(prefix.len() as int) =~= prefix);
    }
}

/// The assignments that keep the values of `vals`.
pub open spec fn keeps(vals: Seq<Option<bool>>) -> spec_fn(Seq<bool>) -> bool {
    |sigma: Seq<bool>| forall|v: int| 0 <= v < vals.len() && (#[trigger] vals[v]) is Some ==> sigma[v] == vals[v]->Some_0
}

/// There are `2` to the number of unset positions assignments that keep given
/// values, among those that extend a prefix keeping them.
pub proof fn lemma_count_keeps(vals: Seq<Option<bool>>, prefix: Seq<bool>)
    requires
        prefix.len() <= vals.len(),
        forall|v: int| 0 <= v < prefix.len() && (#[trigger] vals[v]) is Some ==> prefix[v] == vals[v]->Some_0,
    ensures
        count_where(vals.len(), keeps(vals), prefix) == two_to(unset_from(vals, prefix.len() as int)),
    decreases vals.len() - prefix.len(),
{
    let n = vals.len();
    let i = prefix.len() as int;
    if i < n {
        let pf = prefix.push(false);
        let pt = prefix.push(true);
        match vals[i] {
            None => {
                lemma_count_keeps(vals, pf);
                lemma_count_keeps(vals, pt);
            },
            Some(b) => {
                let good = if b { pt } else { pf };
                let bad = if b { pf } else { pt };
                lemma_count_keeps(vals, good);
                assert forall|sigma: Seq<bool>| sigma.len() == n && sigma.take(i + 1) == bad implies !keeps(vals)(sigma) by {
                    assert(sigma[i] == sigma.take(i + 1)[i]);
                    assert(vals[i] is Some);
                }
                lemma_count_none(n, keeps(vals), bad);
            },
        }
    } else {
        assert(keeps(vals)(prefix));
    }
}

} // verus!
