//! Clean-up of the problem after preprocessing: satisfied clauses, and variables
//! that are fixed or occur in no clause left, are removed, and what remains is
//! renumbered.
use vstd::prelude::*;
use crate::formula::clause::{clear_literals_below, cleared_literals, swap_remove_spec, Clause};
use crate::formula::literal::Literal;
use crate::formula::problem::{
    lemma_lists_prefix, occurrences_of, watch_list, watched_count, ClauseIndex, Problem, VariableIndex,
};
use crate::formula::variable::Variable;
use crate::fxmap::{index_map_insert, index_map_new};
use crate::models::{agrees, holds, is_model, some_holds};
use crate::trail::Trail;
use crate::formula::variable::remap_clauses;

verus! {

/// The positions below `n` that `keep` selects, in order.
pub open spec fn kept_indices(keep: spec_fn(int) -> bool, n: int) -> Seq<int>
    decreases n,
{
    if n <= 0 {
        Seq::<int>::empty()
    } else {
        let r = kept_indices(keep, n - 1);
        if keep(n - 1) { r.push(n - 1) } else { r }
    }
}

/// The new position of each position below `n` that `keep` selects: how many
/// selected positions come before it.
pub open spec fn ranks(keep: spec_fn(int) -> bool, n: int) -> Map<usize, usize>
    decreases n,
{
    if n <= 0 {
        Map::<usize, usize>::empty()
    } else {
        let m = ranks(keep, n - 1);
        if keep(n - 1) {
            m.insert((n - 1) as usize, kept_indices(keep, n - 1).len() as usize)
        } else {
            m
        }
    }
}

/// Renumbering keeps the selected positions, in order, and gives them the
/// positions `0..` one to one.
pub proof fn lemma_ranks(keep: spec_fn(int) -> bool, n: int)
    requires
        0 <= n <= usize::MAX,
    ensures
        kept_indices(keep, n).len() <= n,
        forall|r: int| 0 <= r < kept_indices(keep, n).len() ==> {
            let c = #[trigger] kept_indices(keep, n)[r];
            &&& 0 <= c < n
            &&& keep(c)
            &&& ranks(keep, n).contains_key(c as usize)
            &&& ranks(keep, n)[c as usize] == r
        },
        forall|k: usize| #[trigger] ranks(keep, n).contains_key(k) ==> {
            &&& k < n
            &&& keep(k as int)
            &&& ranks(keep, n)[k] < kept_indices(keep, n).len()
            &&& kept_indices(keep, n)[ranks(keep, n)[k] as int] == k
        },
        forall|c: int| 0 <= c < n && keep(c) ==> #[trigger] ranks(keep, n).contains_key(c as usize),
        forall|r1: int, r2: int| 0 <= r1 < r2 < kept_indices(keep, n).len()
            ==> #[trigger] kept_indices(keep, n)[r1] < #[trigger] kept_indices(keep, n)[r2],
    decreases n,
{
    if n > 0 {
        lemma_ranks(keep, n - 1);
        let r0 = kept_indices(keep, n - 1);
        let m0 = ranks(keep, n - 1);
        let r = kept_indices(keep, n);
        let m = ranks(keep, n);
        assert forall|i: int| 0 <= i < r.len() implies {
            let c = #[trigger] r[i];
            &&& 0 <= c < n
            &&& keep(c)
            &&& m.contains_key(c as usize)
            &&& m[c as usize] == i
        } by {
            if i < r0.len() {
                assert(r[i] == r0[i]);
            }
        }
        assert forall|k: usize| #[trigger] m.contains_key(k) implies {
            &&& k < n
            &&& keep(k as int)
            &&& m[k] < r.len()
            &&& r[m[k] as int] == k
        } by {
            if k != (n - 1) as usize || !keep(n - 1) {
                assert(m0.contains_key(k));
                assert(r[m0[k] as int] == r0[m0[k] as int]);
            }
        }
        assert forall|c: int| 0 <= c < n && keep(c) implies #[trigger] m.contains_key(c as usize) by {
            if c < n - 1 {
                assert(m0.contains_key(c as usize));
            }
        }
        assert forall|r1: int, r2: int| 0 <= r1 < r2 < r.len() implies #[trigger] r[r1] < #[trigger] r[r2] by {
            if r2 < r0.len() {
                assert(r[r1] == r0[r1] && r[r2] == r0[r2]);
            } else {
                assert(r[r1] == r0[r1]);
            }
        }
    }
}

/// `l` on the variable that `m` gives for its own.
pub open spec fn renamed(l: Literal, m: Map<usize, usize>) -> Literal {
    Literal { variable: VariableIndex(m[l.variable.0]), ..l }
}

/// `x` is a clause of `s` that `m` keeps, renamed.
pub open spec fn remapped_from(s: Seq<ClauseIndex>, m: Map<usize, usize>, x: ClauseIndex) -> bool {
    exists|j: int| 0 <= j < s.len() && m.contains_key(s[j].0) && x == ClauseIndex(m[#[trigger] s[j].0])
}

/// The clauses that remain in an occurrence list are the clauses of the list
/// that `m` keeps, renamed.
pub proof fn lemma_remap_clauses(s: Seq<ClauseIndex>, m: Map<usize, usize>)
    ensures
        forall|i: int| 0 <= i < remap_clauses(s, m).len() ==> remapped_from(s, m, #[trigger] remap_clauses(s, m)[i]),
        forall|j: int| 0 <= j < s.len() && m.contains_key(s[j].0)
            ==> remap_clauses(s, m).contains(ClauseIndex(m[(#[trigger] s[j]).0])),
    decreases s.len(),
{
    if s.len() > 0 {
        let rest = s.drop_last();
        lemma_remap_clauses(rest, m);
        let r0 = remap_clauses(rest, m);
        let r = remap_clauses(s, m);
        assert forall|i: int| 0 <= i < r.len() implies remapped_from(s, m, #[trigger] r[i]) by {
            if i < r0.len() {
                assert(r[i] == r0[i]);
                assert(remapped_from(rest, m, r0[i]));
                let j = choose|j: int| 0 <= j < rest.len() && m.contains_key(rest[j].0) && r0[i] == ClauseIndex(m[#[trigger] rest[j].0]);
                assert(s[j] == rest[j]);
            } else {
                assert(r.len() != r0.len());
                assert(m.contains_key(s.last().0));
                assert(s[s.len() - 1] == s.last());
                assert(r[i] == ClauseIndex(m[s[s.len() - 1].0]));
            }
        }
        assert forall|j: int| 0 <= j < s.len() && m.contains_key(s[j].0)
            implies r.contains(ClauseIndex(m[(#[trigger] s[j]).0])) by {
            if j < s.len() - 1 {
                assert(rest[j] == s[j]);
                assert(r0.contains(ClauseIndex(m[rest[j].0])));
                let k = choose|k: int| 0 <= k < r0.len() && r0[k] == ClauseIndex(m[rest[j].0]);
                assert(r[k] == r0[k]);
            } else {
                assert(r[r.len() - 1] == ClauseIndex(m[s.last().0]));
            }
        }
    }
}

proof fn lemma_clear_below(s: Seq<Literal>, m: Map<usize, usize>, i: int)
    requires
        0 <= i <= s.len(),
    ensures
        forall|x: Literal| #[trigger] clear_literals_below(s, m, i).contains(x) ==> (exists|j: int| 0 <= j < i
            && m.contains_key(s[j].variable.0) && x == renamed(s[j], m)) || (exists|j: int| i <= j < s.len() && x == s[j]),
        forall|j: int| 0 <= j < i && m.contains_key(s[j].variable.0)
            ==> clear_literals_below(s, m, i).contains(renamed(#[trigger] s[j], m)),
        forall|j: int| i <= j < s.len() ==> clear_literals_below(s, m, i).contains(#[trigger] s[j]),
    decreases i,
{
    let r = clear_literals_below(s, m, i);
    if i == 0 {
        assert forall|j: int| i <= j < s.len() implies r.contains(#[trigger] s[j]) by {
            assert(r[j] == s[j]);
        }
    } else {
        let j = i - 1;
        if m.contains_key(s[j].variable.0) {
            let s2 = s.update(j, Literal { variable: VariableIndex(m[s[j].variable.0]), ..s[j] });
            assert(s2[j] == renamed(s[j], m));
            lemma_clear_below(s2, m, j);
            assert(r == clear_literals_below(s2, m, j));
            assert forall|x: Literal| #[trigger] r.contains(x) implies (exists|jj: int| 0 <= jj < i
                && m.contains_key(s[jj].variable.0) && x == renamed(s[jj], m)) || (exists|jj: int| i <= jj < s.len() && x == s[jj]) by {
                if exists|jj: int| 0 <= jj < j && m.contains_key(s2[jj].variable.0) && x == renamed(s2[jj], m) {
                    let jj = choose|jj: int| 0 <= jj < j && m.contains_key(s2[jj].variable.0) && x == renamed(s2[jj], m);
                    assert(s2[jj] == s[jj]);
                } else {
                    let jj = choose|jj: int| j <= jj < s2.len() && x == s2[jj];
                    if jj > j {
                        assert(s2[jj] == s[jj]);
                    }
                }
            }
            assert forall|jj: int| 0 <= jj < i && m.contains_key(s[jj].variable.0)
                implies r.contains(renamed(#[trigger] s[jj], m)) by {
                if jj < j {
                    assert(s2[jj] == s[jj]);
                } else {
                    assert(r.contains(s2[j]));
                }
            }
            assert forall|jj: int| i <= jj < s.len() implies r.contains(#[trigger] s[jj]) by {
                assert(s2[jj] == s[jj]);
            }
        } else {
            let s2 = swap_remove_spec(s, j);
            lemma_clear_below(s2, m, j);
            assert(r == clear_literals_below(s2, m, j));
            let n = s.len();
            assert forall|x: Literal| #[trigger] r.contains(x) implies (exists|jj: int| 0 <= jj < i
                && m.contains_key(s[jj].variable.0) && x == renamed(s[jj], m)) || (exists|jj: int| i <= jj < s.len() && x == s[jj]) by {
                if exists|jj: int| 0 <= jj < j && m.contains_key(s2[jj].variable.0) && x == renamed(s2[jj], m) {
                    let jj = choose|jj: int| 0 <= jj < j && m.contains_key(s2[jj].variable.0) && x == renamed(s2[jj], m);
                    assert(s2[jj] == s[jj]);
                } else {
                    let jj = choose|jj: int| j <= jj < s2.len() && x == s2[jj];
                    if jj == j {
                        assert(s2[jj] == s[n - 1]);
                    } else {
                        assert(s2[jj] == s[jj]);
                    }
                }
            }
            assert forall|jj: int| 0 <= jj < i && m.contains_key(s[jj].variable.0)
                implies r.contains(renamed(#[trigger] s[jj], m)) by {
                assert(jj < j);
                assert(s2[jj] == s[jj]);
            }
            assert forall|jj: int| i <= jj < s.len() implies r.contains(#[trigger] s[jj]) by {
                if jj < n - 1 {
                    assert(s2[jj] == s[jj]);
                } else {
                    assert(s2[j] == s[n - 1]);
                }
            }
        }
    }
}

/// The literals that remain in a clause are its literals over the variables
/// that `m` keeps, renamed.
pub proof fn lemma_cleared_literals(s: Seq<Literal>, m: Map<usize, usize>)
    ensures
        forall|x: Literal| #[trigger] cleared_literals(s, m).contains(x) ==> exists|j: int| 0 <= j < s.len()
            && m.contains_key(s[j].variable.0) && x == renamed(s[j], m),
        forall|j: int| 0 <= j < s.len() && m.contains_key(s[j].variable.0)
            ==> cleared_literals(s, m).contains(renamed(#[trigger] s[j], m)),
{
    lemma_clear_below(s, m, s.len() as int);
}

/// The literals of `s` whose variable `m` keeps, renamed, in order.
pub open spec fn kept_renamed(s: Seq<Literal>, m: Map<usize, usize>) -> Seq<Literal>
    decreases s.len(),
{
    if s.len() == 0 {
        Seq::empty()
    } else if m.contains_key(s.last().variable.0) {
        kept_renamed(s.drop_last(), m).push(renamed(s.last(), m))
    } else {
        kept_renamed(s.drop_last(), m)
    }
}

proof fn lemma_clear_below_multiset(t: Seq<Literal>, m: Map<usize, usize>, i: int)
    requires
        0 <= i <= t.len(),
    ensures
        clear_literals_below(t, m, i).to_multiset() =~= kept_renamed(t.take(i), m).to_multiset().add(
            t.skip(i).to_multiset(),
        ),
    decreases i,
{
    broadcast use vstd::multiset::group_multiset_axioms, vstd::seq_lib::group_to_multiset_ensures,
        vstd::seq_lib::lemma_multiset_commutative, vstd::multiset::lemma_multiset_empty_len;
    assert(Seq::<Literal>::empty().to_multiset().len() == 0);
    if i == 0 {
        assert(t.take(0) =~= Seq::<Literal>::empty());
        assert(t.skip(0) =~= t);
        assert(kept_renamed(t.take(0), m) =~= Seq::<Literal>::empty());
    } else {
        let j = i - 1;
        assert(t.take(i).drop_last() =~= t.take(j));
        assert(t.take(i).last() == t[j]);
        if m.contains_key(t[j].variable.0) {
            let r = Literal { variable: VariableIndex(m[t[j].variable.0]), ..t[j] };
            let t2 = t.update(j, r);
            lemma_clear_below_multiset(t2, m, j);
            assert(t2.take(j) =~= t.take(j));
            assert(t2.skip(j) =~= seq![r] + t.skip(i));
            assert(seq![r].to_multiset() =~= vstd::multiset::Multiset::<Literal>::empty().insert(r)) by {
                assert(seq![r] =~= Seq::<Literal>::empty().push(r));
            }
        } else {
            let t2 = t.update(j, t.last()).drop_last();
            lemma_clear_below_multiset(t2, m, j);
            assert(t2.take(j) =~= t.take(j));
            if j == t.len() - 1 {
                assert(t2.skip(j) =~= t.skip(i));
            } else {
                let rest = t.skip(i);
                assert(rest.last() == t.last());
                assert(t2.skip(j) =~= seq![t.last()] + rest.drop_last());
                assert(rest =~= rest.drop_last().push(t.last()));
                assert(seq![t.last()].to_multiset() =~= vstd::multiset::Multiset::<Literal>::empty().insert(t.last())) by {
                    assert(seq![t.last()] =~= Seq::<Literal>::empty().push(t.last()));
                }
            }
        }
    }
}

/// The literals left by `cleared_literals` are those of `s` whose variable `m`
/// keeps, renamed, in some order: the same multiset.
pub proof fn lemma_cleared_literals_permutation(s: Seq<Literal>, m: Map<usize, usize>)
    ensures
        cleared_literals(s, m).to_multiset() =~= kept_renamed(s, m).to_multiset(),
{
    broadcast use vstd::multiset::group_multiset_axioms, vstd::seq_lib::group_to_multiset_ensures,
        vstd::multiset::lemma_multiset_empty_len;
    lemma_clear_below_multiset(s, m, s.len() as int);
    assert(Seq::<Literal>::empty().to_multiset().len() == 0);
    assert(s.take(s.len() as int) =~= s);
    assert(s.skip(s.len() as int) =~= Seq::<Literal>::empty());
}

/// Exchanges two elements of `v` (`<[T]>::swap`).
#[verifier::external_body]
fn vec_swap<T>(v: &mut Vec<T>, i: usize, j: usize)
    requires
        i < old(v)@.len(),
        j < old(v)@.len(),
    ensures
        final(v)@ == old(v)@.update(i as int, old(v)@[j as int]).update(j as int, old(v)@[i as int]),
{
    v.swap(i, j)
}

/// Frees the unused capacity of `v` (`Vec::shrink_to_fit`); its elements stay.
#[verifier::external_body]
fn vec_shrink_to_fit<T>(v: &mut Vec<T>)
    ensures
        final(v)@ == old(v)@,
{
    v.shrink_to_fit()
}

/// The clauses that stay: the active ones.
pub open spec fn clause_keep(p: Problem, s: Trail) -> spec_fn(int) -> bool {
    |c: int| p.clauses@[c].is_active_in(s)
}

/// The new position of each clause that stays.
pub open spec fn clause_renaming(p: Problem, s: Trail) -> Map<usize, usize> {
    ranks(clause_keep(p, s), p.nclauses())
}

/// The variables that stay: the unset ones that occur in a clause that stays.
pub open spec fn variable_keep(p: Problem, s: Trail) -> spec_fn(int) -> bool {
    |v: int| remap_clauses(p.variables@[v].clauses_positive@, clause_renaming(p, s)).len()
        + remap_clauses(p.variables@[v].clauses_negative@, clause_renaming(p, s)).len() > 0
        && p.variables@[v].value_in(s) is None
}

/// The new position of each variable that stays.
pub open spec fn variable_renaming(p: Problem, s: Trail) -> Map<usize, usize> {
    ranks(variable_keep(p, s), p.nvars())
}

/// `x` is `y` with its occurrence lists renamed by `m`.
pub open spec fn is_cleared(x: Variable, y: Variable, m: Map<usize, usize>) -> bool {
    &&& x.id == y.id
    &&& x.value == y.value
    &&& x.decision == y.decision
    &&& x.assignment_position == y.assignment_position
    &&& x.clauses_positive@ == remap_clauses(y.clauses_positive@, m)
    &&& x.clauses_negative@ == remap_clauses(y.clauses_negative@, m)
}

/// `x` is `y` with its literals renamed by `m`.
pub open spec fn is_cleared_clause(x: Clause, y: Clause, m: Map<usize, usize>) -> bool {
    &&& x.id == y.id
    &&& x.is_learned == y.is_learned
    &&& x.active == y.active
    &&& x.is_binary == y.is_binary
    &&& x.modified == y.modified
    &&& x.literals@ == cleared_literals(y.literals@, m)
}

/// Problems whose clauses are the same except at `c` hold the same literals in
/// every clause but `c`.
proof fn lemma_clause_has_same_clauses_except(a: Problem, b: Problem, c: int)
    requires
        a.clauses@.len() == b.clauses@.len(),
        forall|d: int| 0 <= d < a.clauses@.len() && d != c ==> #[trigger] a.clauses@[d] == b.clauses@[d],
    ensures
        forall|d: int, v: int, p: bool| 0 <= d < a.clauses@.len() && d != c ==> (#[trigger] a.clause_has(d, v, p) <==> b.clause_has(d, v, p)),
{
    assert forall|d: int, v: int, p: bool| 0 <= d < a.clauses@.len() && d != c implies (#[trigger] a.clause_has(d, v, p) <==> b.clause_has(d, v, p)) by {
        if a.clause_has(d, v, p) {
            let k = choose|k: int| 0 <= k < a.clauses@[d].literals@.len() && (#[trigger] a.lit(d, k)).variable.0 == v && a.lit(d, k).positive == p;
            assert(b.lit(d, k) == a.lit(d, k));
        }
        if b.clause_has(d, v, p) {
            let k = choose|k: int| 0 <= k < b.clauses@[d].literals@.len() && (#[trigger] b.lit(d, k)).variable.0 == v && b.lit(d, k).positive == p;
            assert(b.lit(d, k) == a.lit(d, k));
        }
    }
}

/// What the clean-up builds is well formed, and no active clause of it is satisfied.
proof fn lemma_cleanup_wf(p: Problem, p0: Problem, s: Trail)
    requires
        p0.wf(s),
        p0.active_clauses_unsatisfied(s),
        p.clauses@.len() == kept_indices(clause_keep(p0, s), p0.nclauses()).len(),
        forall|r: int| 0 <= r < p.clauses@.len() ==> is_cleared_clause(#[trigger] p.clauses@[r],
            p0.clauses@[kept_indices(clause_keep(p0, s), p0.nclauses())[r]], variable_renaming(p0, s)),
        p.variables@.len() == kept_indices(variable_keep(p0, s), p0.nvars()).len(),
        forall|r: int| 0 <= r < p.variables@.len() ==> is_cleared(#[trigger] p.variables@[r],
            p0.variables@[kept_indices(variable_keep(p0, s), p0.nvars())[r]], clause_renaming(p0, s)),
        p.watchers@.len() == p.variables@.len(),
        forall|v: int, j: int| 0 <= v < p.nvars() && 0 <= j < p.watchers@[v]@.len() ==> {
            let w = (#[trigger] p.watchers@[v]@[j]).0 as int;
            &&& w < p.nclauses()
            &&& (p.clause_has(w, v, true) || p.clause_has(w, v, false))
        },
    ensures
        p.wf(s),
        p.active_clauses_unsatisfied(s),
{
    let kc = kept_indices(clause_keep(p0, s), p0.nclauses());
    let kv = kept_indices(variable_keep(p0, s), p0.nvars());
    let cmap = clause_renaming(p0, s);
    let vmap = variable_renaming(p0, s);
    assert(p0.clauses@.len() <= usize::MAX && p0.variables@.len() <= usize::MAX) by {
        assert(p0.clauses.len() == p0.clauses@.len());
        assert(p0.variables.len() == p0.variables@.len());
    }
    lemma_ranks(clause_keep(p0, s), p0.nclauses());
    lemma_ranks(variable_keep(p0, s), p0.nvars());
    // Each literal of a clause that stays comes from a literal of the clause it was.
    assert forall|r: int, k: int| 0 <= r < p.nclauses() && 0 <= k < p.clauses@[r].literals@.len() implies {
        let x = #[trigger] p.lit(r, k);
        let y_lits = p0.clauses@[kc[r]].literals@;
        exists|j: int| 0 <= j < y_lits.len() && vmap.contains_key(y_lits[j].variable.0) && x == renamed(#[trigger] y_lits[j], vmap)
    } by {
        let y_lits = p0.clauses@[kc[r]].literals@;
        lemma_cleared_literals(y_lits, vmap);
        let lits = p.clauses@[r].literals@;
        assert(lits.contains(lits[k]));
    }
    assert(p.wf_variables(s)) by {
        assert forall|v: int| 0 <= v < p.nvars() implies (#[trigger] p.variables@[v]).wf_in(s) by {
            assert(p0.variables@[kv[v]].wf_in(s));
        }
        assert forall|v: int, w: int| 0 <= v < p.nvars() && 0 <= w < p.nvars() && v != w
            implies (#[trigger] p.variables@[v]).value.0 != (#[trigger] p.variables@[w]).value.0 by {
            if v < w {
                assert(kv[v] < kv[w]);
            } else {
                assert(kv[w] < kv[v]);
            }
        }
        assert forall|v: int, w: int| 0 <= v < p.nvars() && 0 <= w < p.nvars() && v != w
            implies (#[trigger] p.variables@[v]).assignment_position.0 != (#[trigger] p.variables@[w]).assignment_position.0 by {
            if v < w {
                assert(kv[v] < kv[w]);
            } else {
                assert(kv[w] < kv[v]);
            }
        }
    }
    assert(p.wf_clauses(s)) by {
        assert forall|c: int| 0 <= c < p.nclauses() implies (#[trigger] p.clauses@[c]).wf_in(s) by {
            let y = p0.clauses@[kc[c]];
            assert(y.wf_in(s));
            assert forall|i: int| 0 <= i < p.clauses@[c].literals@.len() implies s.is_option_bool(#[trigger] p.clauses@[c].literals@[i].value) by {
                assert(p.lit(c, i) == p.clauses@[c].literals@[i]);
                let j = choose|j: int| 0 <= j < y.literals@.len() && vmap.contains_key(y.literals@[j].variable.0)
                    && p.lit(c, i) == renamed(#[trigger] y.literals@[j], vmap);
                assert(s.is_option_bool(y.literals@[j].value));
            }
        }
        assert forall|c: int, d: int| 0 <= c < p.nclauses() && 0 <= d < p.nclauses() && c != d
            implies (#[trigger] p.clauses@[c]).active.0 != (#[trigger] p.clauses@[d]).active.0 by {
            if c < d {
                assert(kc[c] < kc[d]);
            } else {
                assert(kc[d] < kc[c]);
            }
        }
        assert forall|c: int, d: int| 0 <= c < p.nclauses() && 0 <= d < p.nclauses()
            implies (#[trigger] p.clauses@[c]).active.0 != (#[trigger] p.clauses@[d]).modified.0 by {
            assert(p0.clauses@[kc[c]].active.0 != p0.clauses@[kc[d]].modified.0);
        }
    }
    assert(p.wf_literals()) by {
        assert forall|c: int, k: int| 0 <= c < p.nclauses() && 0 <= k < p.clauses@[c].literals@.len()
            implies {
                let l = #[trigger] p.lit(c, k);
                &&& l.variable.0 < p.nvars()
                &&& l.value == p.variables@[l.variable.0 as int].value
            } by {
            let y_lits = p0.clauses@[kc[c]].literals@;
            let j = choose|j: int| 0 <= j < y_lits.len() && vmap.contains_key(y_lits[j].variable.0)
                && p.lit(c, k) == renamed(#[trigger] y_lits[j], vmap);
            let u = y_lits[j].variable.0;
            assert(p0.lit(kc[c], j) == y_lits[j]);
            assert(kv[vmap[u] as int] == u);
        }
    }
    assert(p.wf_occurrences()) by {
        assert forall|c: int, k: int| 0 <= c < p.nclauses() && 0 <= k < p.clauses@[c].literals@.len()
            implies {
                let l = #[trigger] p.lit(c, k);
                if l.positive {
                    p.variables@[l.variable.0 as int].clauses_positive@.contains(ClauseIndex(c as usize))
                } else {
                    p.variables@[l.variable.0 as int].clauses_negative@.contains(ClauseIndex(c as usize))
                }
            } by {
            let y_lits = p0.clauses@[kc[c]].literals@;
            let j = choose|j: int| 0 <= j < y_lits.len() && vmap.contains_key(y_lits[j].variable.0)
                && p.lit(c, k) == renamed(#[trigger] y_lits[j], vmap);
            let y = y_lits[j];
            let u = y.variable.0;
            let oc = kc[c];
            assert(p0.lit(oc, j) == y);
            assert(kv[vmap[u] as int] == u);
            assert(cmap.contains_key(oc as usize));
            assert(cmap[oc as usize] == c);
            let x0 = p0.variables@[u as int];
            lemma_remap_clauses(x0.clauses_positive@, cmap);
            lemma_remap_clauses(x0.clauses_negative@, cmap);
            if y.positive {
                assert(x0.clauses_positive@.contains(ClauseIndex(oc as usize)));
                let jj = choose|jj: int| 0 <= jj < x0.clauses_positive@.len() && x0.clauses_positive@[jj] == ClauseIndex(oc as usize);
                assert(cmap.contains_key(x0.clauses_positive@[jj].0));
            } else {
                assert(x0.clauses_negative@.contains(ClauseIndex(oc as usize)));
                let jj = choose|jj: int| 0 <= jj < x0.clauses_negative@.len() && x0.clauses_negative@[jj] == ClauseIndex(oc as usize);
                assert(cmap.contains_key(x0.clauses_negative@[jj].0));
            }
        }
        assert forall|w: int, k: int| 0 <= w < p.nvars() && 0 <= k < p.variables@[w].clauses_positive@.len()
            implies {
                let c = (#[trigger] p.variables@[w].clauses_positive@[k]).0 as int;
                c < p.nclauses() && p.clause_has(c, w, true)
            } by {
            let x0 = p0.variables@[kv[w]];
            lemma_remap_clauses(x0.clauses_positive@, cmap);
            let e = p.variables@[w].clauses_positive@[k];
            assert(remapped_from(x0.clauses_positive@, cmap, e));
            let jj = choose|jj: int| 0 <= jj < x0.clauses_positive@.len() && cmap.contains_key(x0.clauses_positive@[jj].0)
                && e == ClauseIndex(cmap[#[trigger] x0.clauses_positive@[jj].0]);
            let oc = x0.clauses_positive@[jj].0;
            assert(p0.clause_has(oc as int, kv[w], true));
            let r = cmap[oc];
            assert(kc[r as int] == oc);
            let j = choose|j: int| 0 <= j < p0.clauses@[oc as int].literals@.len() && (#[trigger] p0.lit(oc as int, j)).variable.0
                == kv[w] && p0.lit(oc as int, j).positive == true;
            let y_lits = p0.clauses@[oc as int].literals@;
            assert(y_lits[j] == p0.lit(oc as int, j));
            lemma_cleared_literals(y_lits, vmap);
            assert(vmap.contains_key(kv[w] as usize));
            let x = renamed(y_lits[j], vmap);
            let lits = p.clauses@[r as int].literals@;
            assert(lits.contains(x));
            let kk = choose|kk: int| 0 <= kk < lits.len() && lits[kk] == x;
            assert(p.lit(r as int, kk) == x);
        }
        assert forall|w: int, k: int| 0 <= w < p.nvars() && 0 <= k < p.variables@[w].clauses_negative@.len()
            implies {
                let c = (#[trigger] p.variables@[w].clauses_negative@[k]).0 as int;
                c < p.nclauses() && p.clause_has(c, w, false)
            } by {
            let x0 = p0.variables@[kv[w]];
            lemma_remap_clauses(x0.clauses_negative@, cmap);
            let e = p.variables@[w].clauses_negative@[k];
            assert(remapped_from(x0.clauses_negative@, cmap, e));
            let jj = choose|jj: int| 0 <= jj < x0.clauses_negative@.len() && cmap.contains_key(x0.clauses_negative@[jj].0)
                && e == ClauseIndex(cmap[#[trigger] x0.clauses_negative@[jj].0]);
            let oc = x0.clauses_negative@[jj].0;
            assert(p0.clause_has(oc as int, kv[w], false));
            let r = cmap[oc];
            assert(kc[r as int] == oc);
            let j = choose|j: int| 0 <= j < p0.clauses@[oc as int].literals@.len() && (#[trigger] p0.lit(oc as int, j)).variable.0
                == kv[w] && p0.lit(oc as int, j).positive == false;
            let y_lits = p0.clauses@[oc as int].literals@;
            assert(y_lits[j] == p0.lit(oc as int, j));
            lemma_cleared_literals(y_lits, vmap);
            assert(vmap.contains_key(kv[w] as usize));
            let x = renamed(y_lits[j], vmap);
            let lits = p.clauses@[r as int].literals@;
            assert(lits.contains(x));
            let kk = choose|kk: int| 0 <= kk < lits.len() && lits[kk] == x;
            assert(p.lit(r as int, kk) == x);
        }
    }
    assert forall|c: int, k: int| 0 <= c < p.nclauses() && 0 <= k < p.clauses@[c].literals@.len()
        && (#[trigger] p.clauses@[c]).is_active_in(s) implies !(#[trigger] p.lit(c, k)).is_true_in(s) by {
        let y_lits = p0.clauses@[kc[c]].literals@;
        let j = choose|j: int| 0 <= j < y_lits.len() && vmap.contains_key(y_lits[j].variable.0)
            && p.lit(c, k) == renamed(#[trigger] y_lits[j], vmap);
        assert(p0.lit(kc[c], j) == y_lits[j]);
        assert(p0.clauses@[kc[c]].is_active_in(s));
    }
}

/// `p` is what the clean-up makes of `p0` in `s` when some clause stays: the
/// active clauses, in order, with the literals of the variables that go removed
/// and the others renamed; the unset variables that occur in them, in order, with
/// their occurrence lists renamed; the watch lists rebuilt from the first two
/// literals of each clause. It is well formed and every clause of it is active
/// with no true literal.
pub open spec fn cleaned_from(p: Problem, p0: Problem, s: Trail) -> bool {
    let kc = kept_indices(clause_keep(p0, s), p0.nclauses());
    let kv = kept_indices(variable_keep(p0, s), p0.nvars());
    &&& p.wf(s)
    &&& p.active_clauses_unsatisfied(s)
    &&& p.nclauses() == kc.len()
    &&& p.number_clauses_problem == kc.len()
    &&& p.nvars() == kv.len()
    &&& forall|r: int| 0 <= r < kc.len() ==> is_cleared_clause(
        #[trigger] p.clauses@[r],
        p0.clauses@[kc[r]],
        variable_renaming(p0, s),
    )
    &&& forall|r: int| 0 <= r < kv.len() ==> is_cleared(
        #[trigger] p.variables@[r],
        p0.variables@[kv[r]],
        clause_renaming(p0, s),
    )
    &&& forall|v: int| 0 <= v < kv.len() ==> #[trigger] p.watchers@[v]@ == watch_list(p.clauses@, v, kc.len() as int)
}

/// After the clean-up, every variable of the problem is unset and occurs in one
/// of its clauses: fixed variables, and those that only occurred in removed
/// clauses, are gone.
pub proof fn law_cleanup_variables_occur(p0: Problem, s: Trail, p: Problem)
    requires
        p0.wf(s),
        cleaned_from(p, p0, s),
    ensures
        forall|v: int| 0 <= v < p.nvars() ==> {
            &&& #[trigger] p.value_of(v, s) is None
            &&& exists|c: int| 0 <= c < p.nclauses() && (p.clause_has(c, v, true) || p.clause_has(c, v, false))
        },
{
    let keep = variable_keep(p0, s);
    let kv = kept_indices(keep, p0.nvars());
    let cmap = clause_renaming(p0, s);
    assert(p0.variables@.len() <= usize::MAX) by {
        assert(p0.variables.len() == p0.variables@.len());
    }
    lemma_ranks(keep, p0.nvars());
    assert forall|v: int| 0 <= v < p.nvars() implies {
        &&& #[trigger] p.value_of(v, s) is None
        &&& exists|c: int| 0 <= c < p.nclauses() && (p.clause_has(c, v, true) || p.clause_has(c, v, false))
    } by {
        let y = p0.variables@[kv[v]];
        let x = p.variables@[v];
        assert(is_cleared(x, y, cmap));
        assert(keep(kv[v]));
        if x.clauses_positive@.len() > 0 {
            let c = x.clauses_positive@[0].0 as int;
            assert(c < p.nclauses() && p.clause_has(c, v, true));
        } else {
            let c = x.clauses_negative@[0].0 as int;
            assert(c < p.nclauses() && p.clause_has(c, v, false));
        }
    }
}

/// After the clean-up, every variable that was unset and occurred in a clause
/// still active is still there, under some new position.
pub proof fn law_cleanup_keeps_occurring_variables(p0: Problem, s: Trail, p: Problem)
    requires
        p0.wf(s),
        cleaned_from(p, p0, s),
    ensures
        forall|v0: int, c: int| 0 <= v0 < p0.nvars() && 0 <= c < p0.nclauses() && #[trigger] p0.value_of(v0, s) is None
            && p0.clauses@[c].is_active_in(s) && (#[trigger] p0.clause_has(c, v0, true) || p0.clause_has(c, v0, false))
            ==> exists|v: int| 0 <= v < p.nvars() && p.variables@[v].id == p0.variables@[v0].id,
{
    let keep = variable_keep(p0, s);
    let kv = kept_indices(keep, p0.nvars());
    let cmap = clause_renaming(p0, s);
    let vmap = variable_renaming(p0, s);
    assert(p0.variables@.len() <= usize::MAX && p0.clauses@.len() <= usize::MAX) by {
        assert(p0.variables.len() == p0.variables@.len());
        assert(p0.clauses.len() == p0.clauses@.len());
    }
    lemma_ranks(keep, p0.nvars());
    lemma_ranks(clause_keep(p0, s), p0.nclauses());
    assert forall|v0: int, c: int| 0 <= v0 < p0.nvars() && 0 <= c < p0.nclauses() && #[trigger] p0.value_of(v0, s) is None
        && p0.clauses@[c].is_active_in(s) && (#[trigger] p0.clause_has(c, v0, true) || p0.clause_has(c, v0, false))
        implies exists|v: int| 0 <= v < p.nvars() && p.variables@[v].id == p0.variables@[v0].id by {
        let x = p0.variables@[v0];
        let cc = ClauseIndex(c as usize);
        assert(clause_keep(p0, s)(c));
        assert(cmap.contains_key(c as usize));
        lemma_remap_clauses(x.clauses_positive@, cmap);
        lemma_remap_clauses(x.clauses_negative@, cmap);
        let pos = p0.clause_has(c, v0, true);
        let k = choose|k: int| 0 <= k < p0.clauses@[c].literals@.len() && (#[trigger] p0.lit(c, k)).variable.0 == v0
            && p0.lit(c, k).positive == pos;
        assert(p0.lit(c, k).variable.0 as int == v0);
        if pos {
            assert(x.clauses_positive@.contains(cc));
            let j = choose|j: int| 0 <= j < x.clauses_positive@.len() && x.clauses_positive@[j] == cc;
            assert(remap_clauses(x.clauses_positive@, cmap).contains(ClauseIndex(cmap[x.clauses_positive@[j].0])));
        } else {
            assert(x.clauses_negative@.contains(cc));
            let j = choose|j: int| 0 <= j < x.clauses_negative@.len() && x.clauses_negative@[j] == cc;
            assert(remap_clauses(x.clauses_negative@, cmap).contains(ClauseIndex(cmap[x.clauses_negative@[j].0])));
        }
        assert(keep(v0));
        assert(vmap.contains_key(v0 as usize));
        let r = vmap[v0 as usize] as int;
        assert(kv[r] == v0);
        assert(is_cleared(p.variables@[r], p0.variables@[kv[r]], cmap));
    }
}

/// `sigma` read on the variables that stay, in their new order.
pub open spec fn restrict(sigma: Seq<bool>, kv: Seq<int>) -> Seq<bool> {
    Seq::new(kv.len(), |r: int| sigma[kv[r]])
}

/// `tau`, an assignment of the variables that stay, extended to all the variables
/// of `p0`: a variable that stays takes the value of its new position, one that
/// has a value in `s` takes it, and one that went unset takes `false`.
pub open spec fn extend(tau: Seq<bool>, p0: Problem, s: Trail) -> Seq<bool> {
    Seq::new(
        p0.nvars() as nat,
        |v: int|
            if variable_renaming(p0, s).contains_key(v as usize) {
                tau[variable_renaming(p0, s)[v as usize] as int]
            } else {
                match p0.value_of(v, s) {
                    Some(b) => b,
                    None => false,
                }
            },
    )
}

/// The clean-up keeps the meaning of the problem: a model of the old problem
/// that agrees with the store, read on the variables that stay, is a model of the
/// new one; and every model of the new problem is so read from a model of the old
/// one that agrees with the store.
pub proof fn law_cleanup_keeps_models(p0: Problem, s: Trail, p: Problem)
    requires
        p0.wf(s),
        p0.active_clauses_unsatisfied(s),
        p0.inactive_clauses_satisfied(s),
        cleaned_from(p, p0, s),
    ensures
        forall|sigma: Seq<bool>| #[trigger] is_model(sigma, p0) && agrees(sigma, p0, s)
            ==> is_model(restrict(sigma, kept_indices(variable_keep(p0, s), p0.nvars())), p),
        forall|tau: Seq<bool>| #[trigger] is_model(tau, p) ==> {
            &&& is_model(extend(tau, p0, s), p0)
            &&& agrees(extend(tau, p0, s), p0, s)
            &&& restrict(extend(tau, p0, s), kept_indices(variable_keep(p0, s), p0.nvars())) == tau
        },
{
    let kc = kept_indices(clause_keep(p0, s), p0.nclauses());
    let kv = kept_indices(variable_keep(p0, s), p0.nvars());
    let cmap = clause_renaming(p0, s);
    let vmap = variable_renaming(p0, s);
    assert(p0.clauses@.len() <= usize::MAX && p0.variables@.len() <= usize::MAX) by {
        assert(p0.clauses.len() == p0.clauses@.len());
        assert(p0.variables.len() == p0.variables@.len());
    }
    lemma_ranks(clause_keep(p0, s), p0.nclauses());
    lemma_ranks(variable_keep(p0, s), p0.nvars());
    assert forall|sigma: Seq<bool>| #[trigger] is_model(sigma, p0) && agrees(sigma, p0, s)
        implies is_model(restrict(sigma, kv), p) by {
        let t = restrict(sigma, kv);
        assert forall|r: int| 0 <= r < p.nclauses() implies some_holds(t, (#[trigger] p.clauses@[r]).literals@) by {
            let c = kc[r];
            let lits = p0.clauses@[c].literals@;
            assert(some_holds(sigma, lits));
            let k = choose|k: int| 0 <= k < lits.len() && holds(sigma, #[trigger] lits[k]);
            let l = lits[k];
            let u = l.variable.0;
            assert(p0.lit(c, k) == l);
            assert(p0.clauses@[c].is_active_in(s));
            if vmap.contains_key(u) {
                lemma_cleared_literals(lits, vmap);
                let x = renamed(l, vmap);
                let new_lits = p.clauses@[r].literals@;
                assert(new_lits.contains(x));
                let j = choose|j: int| 0 <= j < new_lits.len() && new_lits[j] == x;
                assert(kv[vmap[u] as int] == u);
                assert(holds(t, new_lits[j]));
            } else {
                assert(0 <= u < p0.nvars());
                if variable_keep(p0, s)(u as int) {
                    assert(vmap.contains_key((u as int) as usize));
                }
                if p0.value_of(u as int, s) is Some {
                    assert(p0.value_of(u as int, s) == Some(sigma[u as int]));
                    assert(l.value == p0.variables@[u as int].value);
                    assert(l.is_true_in(s));
                } else {
                    let x0 = p0.variables@[u as int];
                    lemma_remap_clauses(x0.clauses_positive@, cmap);
                    lemma_remap_clauses(x0.clauses_negative@, cmap);
                    assert(cmap.contains_key(c as usize));
                    if l.positive {
                        assert(x0.clauses_positive@.contains(ClauseIndex(c as usize)));
                        let jj = choose|jj: int| 0 <= jj < x0.clauses_positive@.len() && x0.clauses_positive@[jj] == ClauseIndex(c as usize);
                        assert(remap_clauses(x0.clauses_positive@, cmap).contains(ClauseIndex(cmap[x0.clauses_positive@[jj].0])));
                    } else {
                        assert(x0.clauses_negative@.contains(ClauseIndex(c as usize)));
                        let jj = choose|jj: int| 0 <= jj < x0.clauses_negative@.len() && x0.clauses_negative@[jj] == ClauseIndex(c as usize);
                        assert(remap_clauses(x0.clauses_negative@, cmap).contains(ClauseIndex(cmap[x0.clauses_negative@[jj].0])));
                    }
                }
            }
        }
    }
    assert forall|tau: Seq<bool>| #[trigger] is_model(tau, p) implies {
        &&& is_model(extend(tau, p0, s), p0)
        &&& agrees(extend(tau, p0, s), p0, s)
        &&& restrict(extend(tau, p0, s), kv) == tau
    } by {
        let sigma = extend(tau, p0, s);
        assert forall|c: int| 0 <= c < p0.nclauses() implies some_holds(sigma, (#[trigger] p0.clauses@[c]).literals@) by {
            let lits = p0.clauses@[c].literals@;
            if p0.clauses@[c].is_active_in(s) {
                assert(clause_keep(p0, s)(c));
                assert(cmap.contains_key(c as usize));
                let r = cmap[c as usize] as int;
                assert(kc[r] == c);
                let new_lits = p.clauses@[r].literals@;
                assert(some_holds(tau, new_lits));
                let j = choose|j: int| 0 <= j < new_lits.len() && holds(tau, #[trigger] new_lits[j]);
                let x = new_lits[j];
                lemma_cleared_literals(lits, vmap);
                assert(cleared_literals(lits, vmap).contains(x));
                let jj = choose|jj: int| 0 <= jj < lits.len() && vmap.contains_key(lits[jj].variable.0)
                    && x == renamed(#[trigger] lits[jj], vmap);
                assert(holds(sigma, lits[jj]));
            } else {
                let k = choose|k: int| 0 <= k < lits.len() && (#[trigger] p0.lit(c, k)).is_true_in(s);
                let l = p0.lit(c, k);
                let u = l.variable.0;
                assert(l.value == p0.variables@[u as int].value);
                assert(p0.value_of(u as int, s) == Some(l.positive));
                assert(!vmap.contains_key(u));
                assert(lits[k] == l);
                assert(holds(sigma, lits[k]));
            }
        }
        assert forall|v: int| 0 <= v < p0.nvars() && (#[trigger] p0.value_of(v, s)) is Some
            implies p0.value_of(v, s) == Some(sigma[v]) by {
            assert(!vmap.contains_key(v as usize));
        }
        assert forall|r: int| 0 <= r < kv.len() implies #[trigger] restrict(sigma, kv)[r] == tau[r] by {
            assert(vmap.contains_key(kv[r] as usize));
            assert(vmap[kv[r] as usize] == r);
        }
        assert(restrict(sigma, kv) =~= tau);
    }
}

impl Problem {
    /// Removes what preprocessing left useless. The active clauses stay, in order;
    /// if there is none, nothing else changes. Otherwise the variables that are
    /// unset and occur in a clause that stays stay, in order; both are renumbered
    /// from 0; occurrence lists and clauses are renamed, the literals of the
    /// variables that go are removed, and the watch lists are rebuilt from the
    /// first two literals of each clause.
    pub fn clear_after_preprocess(&mut self, state: &mut Trail)
        requires
            old(self).wf(*old(state)),
            old(self).active_clauses_unsatisfied(*old(state)),
            forall|v: int| 0 <= v < old(self).nvars() ==> (#[trigger] old(self).variables@[v]).clauses_positive@.len()
                + old(self).variables@[v].clauses_negative@.len() <= usize::MAX,
        ensures
            *final(state) == *old(state),
            ({
                let p0 = *old(self);
                let s = *old(state);
                let kc = kept_indices(clause_keep(p0, s), p0.nclauses());
                let kv = kept_indices(variable_keep(p0, s), p0.nvars());
                if kc.len() == 0 {
                    &&& final(self).clauses@.len() == 0
                    &&& final(self).variables@ == p0.variables@
                    &&& final(self).watchers@ == p0.watchers@
                    &&& final(self).number_clauses_problem == p0.number_clauses_problem
                } else {
                    &&& cleaned_from(*final(self), p0, s)
                    &&& forall|v: int| 0 <= v < final(self).nvars() ==> {
                        &&& #[trigger] final(self).value_of(v, s) is None
                        &&& exists|c: int| 0 <= c < final(self).nclauses()
                            && (final(self).clause_has(c, v, true) || final(self).clause_has(c, v, false))
                    }
                    &&& forall|v0: int, c: int| 0 <= v0 < p0.nvars() && 0 <= c < p0.nclauses()
                        && #[trigger] p0.value_of(v0, s) is None && p0.clauses@[c].is_active_in(s)
                        && (#[trigger] p0.clause_has(c, v0, true) || p0.clause_has(c, v0, false))
                        ==> exists|v: int| 0 <= v < final(self).nvars() && final(self).variables@[v].id == p0.variables@[v0].id
                }
            }),
    {
        let ghost p0 = *self;
        let ghost s = *state;
        let ghost keep_c = clause_keep(p0, s);
        let ghost c0 = p0.clauses@;
        let n0 = self.clauses.len();
        proof {
            lemma_ranks(keep_c, n0 as int);
        }
        let mut clauses_map = index_map_new();
        let mut new_clause_index: usize = 0;
        let mut i: usize = 0;
        assert(clauses_map@ =~= ranks(keep_c, 0));
        while i < n0
            invariant
                i <= n0,
                n0 == c0.len(),
                c0 == p0.clauses@,
                p0.wf(s),
                s == *state,
                keep_c == clause_keep(p0, s),
                self.clauses@.len() == n0,
                new_clause_index == kept_indices(keep_c, i as int).len(),
                new_clause_index <= i,
                forall|r: int| 0 <= r < new_clause_index ==> #[trigger] self.clauses@[r] == c0[kept_indices(keep_c, i as int)[r]],
                forall|j: int| i <= j < n0 ==> #[trigger] self.clauses@[j] == c0[j],
                clauses_map@ == ranks(keep_c, i as int),
                self.variables@ == p0.variables@,
                self.watchers@ == p0.watchers@,
                self.number_clauses_problem == p0.number_clauses_problem,
            decreases n0 - i,
        {
            proof {
                lemma_ranks(keep_c, i as int);
                assert(self.clauses@[i as int] == c0[i as int]);
                assert(c0[i as int].wf_in(s)) by {
                    assert(p0.wf(s));
                }
            }
            if self.clauses[i].is_active(state) {
                index_map_insert(&mut clauses_map, i, new_clause_index);
                vec_swap(&mut self.clauses, i, new_clause_index);
                proof {
                    assert(keep_c(i as int));
                    assert forall|r: int| 0 <= r < new_clause_index + 1 implies #[trigger] self.clauses@[r]
                        == c0[kept_indices(keep_c, i + 1)[r]] by {
                        if r < new_clause_index {
                            assert(kept_indices(keep_c, i + 1)[r] == kept_indices(keep_c, i as int)[r]);
                        }
                    }
                }
                new_clause_index += 1;
            } else {
                proof {
                    assert(!keep_c(i as int));
                }
            }
            i += 1;
        }
        self.clauses.truncate(new_clause_index);
        vec_shrink_to_fit(&mut self.clauses);
        if self.clauses.len() == 0 {
            return;
        }
        self.number_clauses_problem = self.clauses.len();
        let ghost kc = kept_indices(keep_c, n0 as int);
        let ghost cmap = clause_renaming(p0, s);
        assert(self.clauses@.len() == kc.len());
        assert(clauses_map@ == cmap);
        let ghost keep_v = variable_keep(p0, s);
        let ghost v0 = p0.variables@;
        let nv = self.variables.len();
        proof {
            lemma_ranks(keep_v, nv as int);
        }
        let mut variables_map = index_map_new();
        let mut new_variable_index: usize = 0;
        let mut i: usize = 0;
        assert(variables_map@ =~= ranks(keep_v, 0));
        while i < nv
            invariant
                i <= nv,
                nv == v0.len(),
                v0 == p0.variables@,
                p0.wf(s),
                s == *state,
                keep_v == variable_keep(p0, s),
                cmap == clause_renaming(p0, s),
                clauses_map@ == cmap,
                self.variables@.len() == nv,
                self.watchers@.len() == nv,
                new_variable_index == kept_indices(keep_v, i as int).len(),
                new_variable_index <= i,
                forall|r: int| 0 <= r < new_variable_index ==> is_cleared(#[trigger] self.variables@[r],
                    v0[kept_indices(keep_v, i as int)[r]], cmap),
                forall|j: int| i <= j < nv ==> #[trigger] self.variables@[j] == v0[j],
                forall|j: int| 0 <= j < i ==> (#[trigger] self.watchers@[j])@.len() == 0,
                variables_map@ == ranks(keep_v, i as int),
                forall|v: int| 0 <= v < nv ==> (#[trigger] v0[v]).clauses_positive@.len()
                    + v0[v].clauses_negative@.len() <= usize::MAX,
                self.clauses@.len() == kc.len(),
                forall|r: int| 0 <= r < kc.len() ==> #[trigger] self.clauses@[r] == c0[kc[r]],
                self.number_clauses_problem == kc.len(),
            decreases nv - i,
        {
            proof {
                lemma_ranks(keep_v, i as int);
                assert(self.variables@[i as int] == v0[i as int]);
                assert(v0[i as int].wf_in(s));
            }
            self.watchers[i].clear();
            let remaining = self.variables[i].clear_clauses(&clauses_map);
            let fixed = self.variables[i].is_fixed(state);
            proof {
                assert(is_cleared(self.variables@[i as int], v0[i as int], cmap));
                assert(keep_v(i as int) == (remaining > 0 && !fixed));
            }
            if remaining == 0 || fixed {
                proof {
                    assert forall|r: int| 0 <= r < new_variable_index implies is_cleared(#[trigger] self.variables@[r],
                        v0[kept_indices(keep_v, i + 1)[r]], cmap) by {
                        assert(kept_indices(keep_v, i + 1) == kept_indices(keep_v, i as int));
                    }
                }
            } else {
                index_map_insert(&mut variables_map, i, new_variable_index);
                vec_swap(&mut self.variables, i, new_variable_index);
                vec_swap(&mut self.watchers, i, new_variable_index);
                proof {
                    assert forall|r: int| 0 <= r < new_variable_index + 1 implies is_cleared(#[trigger] self.variables@[r],
                        v0[kept_indices(keep_v, i + 1)[r]], cmap) by {
                        if r < new_variable_index {
                            assert(kept_indices(keep_v, i + 1)[r] == kept_indices(keep_v, i as int)[r]);
                        }
                    }
                }
                new_variable_index += 1;
            }
            i += 1;
        }
        self.variables.truncate(new_variable_index);
        vec_shrink_to_fit(&mut self.variables);
        self.watchers.truncate(new_variable_index);
        vec_shrink_to_fit(&mut self.watchers);
        let ghost kv = kept_indices(keep_v, nv as int);
        let ghost vmap = variable_renaming(p0, s);
        let ghost vars2 = self.variables@;
        assert(variables_map@ == vmap);
        let nk = self.clauses.len();
        let mut c: usize = 0;
        assert forall|v: int, j: int| 0 <= v < self.nvars() && 0 <= j < self.watchers@[v]@.len()
            implies (#[trigger] self.watchers@[v]@[j]).0 < c by {
            assert(self.watchers@[v]@.len() == 0);
        }
        assert forall|v: int| 0 <= v < self.nvars() implies #[trigger] self.watchers@[v]@
            == watch_list(self.clauses@, v, c as int) by {
            assert(self.watchers@[v]@.len() == 0);
        }
        while c < nk
            invariant
                c <= nk,
                nk == kc.len(),
                p0.wf(s),
                kv == kept_indices(keep_v, nv as int),
                kv.len() == self.variables@.len(),
                nv == p0.nvars(),
                keep_v == variable_keep(p0, s),
                vmap == variable_renaming(p0, s),
                variables_map@ == vmap,
                self.variables@ == vars2,
                self.watchers@.len() == vars2.len(),
                self.clauses@.len() == nk,
                self.number_clauses_problem == kc.len(),
                kc == kept_indices(clause_keep(p0, s), p0.nclauses()),
                cmap == clause_renaming(p0, s),
                c0 == p0.clauses@,
                forall|r: int| 0 <= r < kv.len() ==> is_cleared(#[trigger] vars2[r], p0.variables@[kv[r]], cmap),
                forall|r: int| 0 <= r < c ==> is_cleared_clause(#[trigger] self.clauses@[r], c0[kc[r]], vmap),
                forall|r: int| c <= r < nk ==> #[trigger] self.clauses@[r] == c0[kc[r]],
                forall|v: int, j: int| 0 <= v < self.nvars() && 0 <= j < self.watchers@[v]@.len() ==> {
                    let w = (#[trigger] self.watchers@[v]@[j]).0 as int;
                    &&& w < c
                    &&& (self.clause_has(w, v, true) || self.clause_has(w, v, false))
                },
                forall|v: int| 0 <= v < self.nvars() ==> #[trigger] self.watchers@[v]@
                    == watch_list(self.clauses@, v, c as int),
            decreases nk - c,
        {
            let ghost before = *self;
            self.clauses[c].clear_literals(&variables_map);
            let ws = self.clauses[c].get_watchers();
            let ghost lits = self.clauses@[c as int].literals@;
            let ghost cleared = self.clauses@;
            assert(forall|r: int| 0 <= r < nk && r != c ==> #[trigger] cleared[r] == before.clauses@[r]);
            proof {
                lemma_ranks(keep_v, nv as int);
                lemma_cleared_literals(c0[kc[c as int]].literals@, vmap);
                assert forall|k: int| 0 <= k < lits.len() implies (#[trigger] lits[k]).variable.0 < vars2.len() by {
                    assert(lits.contains(lits[k]));
                }
                lemma_clause_has_same_clauses_except(before, *self, c as int);
                assert forall|v: int| 0 <= v < self.nvars() implies #[trigger] self.watchers@[v]@
                    == watch_list(self.clauses@, v, c as int) by {
                    lemma_lists_prefix(before.clauses@, self.clauses@, v, c as int);
                }
            }
            let mut w: usize = 0;
            while w < ws.len()
                invariant
                    w <= ws@.len(),
                    c < nk,
                    ws@ == lits.take(if lits.len() < 2 { lits.len() as int } else { 2 }).map_values(|l: crate::formula::literal::Literal| l.variable),
                    lits == self.clauses@[c as int].literals@,
                    self.clauses@ == cleared,
                    self.number_clauses_problem == before.number_clauses_problem,
                    forall|k: int| 0 <= k < lits.len() ==> (#[trigger] lits[k]).variable.0 < vars2.len(),
                    self.variables@ == vars2,
                    self.watchers@.len() == vars2.len(),
                    self.clauses@.len() == nk,
                    forall|v: int, j: int| 0 <= v < self.nvars() && 0 <= j < self.watchers@[v]@.len() ==> {
                        let x = (#[trigger] self.watchers@[v]@[j]).0 as int;
                        &&& x <= c
                        &&& (self.clause_has(x, v, true) || self.clause_has(x, v, false))
                    },
                    forall|v: int| 0 <= v < self.nvars() ==> #[trigger] self.watchers@[v]@
                        == watch_list(self.clauses@, v, c as int) + occurrences_of(lits.take(w as int), v, None, ClauseIndex(c)),
                decreases ws@.len() - w,
            {
                let v = ws[w];
                proof {
                    assert(v == lits[w as int].variable);
                    assert(self.lit(c as int, w as int) == lits[w as int]);
                    assert(self.clause_has(c as int, v.0 as int, lits[w as int].positive));
                }
                let ghost sb = *self;
                let ghost wb = self.watchers@;
                self.watchers[v.0].push(ClauseIndex(c));
                proof {
                    assert(self.clauses@ == sb.clauses@);
                    assert forall|vv: int, j: int| 0 <= vv < self.nvars() && 0 <= j < self.watchers@[vv]@.len() implies {
                        let x = (#[trigger] self.watchers@[vv]@[j]).0 as int;
                        &&& x <= c
                        &&& (self.clause_has(x, vv, true) || self.clause_has(x, vv, false))
                    } by {
                        if vv != v.0 || j < wb[vv]@.len() {
                            assert(self.watchers@[vv]@[j] == wb[vv]@[j]);
                            let x = wb[vv]@[j].0 as int;
                            assert(sb.clause_has(x, vv, true) || sb.clause_has(x, vv, false));
                            if sb.clause_has(x, vv, true) {
                                let k = choose|k: int| 0 <= k < sb.clauses@[x].literals@.len() && (#[trigger] sb.lit(x, k)).variable.0 == vv && sb.lit(x, k).positive == true;
                                assert(self.lit(x, k) == sb.lit(x, k));
                            } else {
                                let k = choose|k: int| 0 <= k < sb.clauses@[x].literals@.len() && (#[trigger] sb.lit(x, k)).variable.0 == vv && sb.lit(x, k).positive == false;
                                assert(self.lit(x, k) == sb.lit(x, k));
                            }
                        } else {
                            assert(self.watchers@[vv]@[j] == ClauseIndex(c));
                            assert(self.lit(c as int, w as int) == lits[w as int]);
                        }
                    }
                    assert forall|vv: int| 0 <= vv < self.nvars() implies #[trigger] self.watchers@[vv]@
                        == watch_list(self.clauses@, vv, c as int) + occurrences_of(lits.take(w + 1), vv, None, ClauseIndex(c)) by {
                        assert(lits.take(w + 1).drop_last() =~= lits.take(w as int));
                        if vv == v.0 {
                            assert(self.watchers@[vv]@ =~= wb[vv]@.push(ClauseIndex(c)));
                        } else {
                            assert(self.watchers@[vv]@ == wb[vv]@);
                        }
                    }
                }
                w += 1;
            }
            proof {
                assert forall|v: int| 0 <= v < self.nvars() implies #[trigger] self.watchers@[v]@
                    == watch_list(self.clauses@, v, c + 1) by {
                    assert(w == watched_count(lits));
                    assert(self.clauses@[c as int].literals@ == lits);
                }
                assert forall|r: int| 0 <= r < c + 1 implies is_cleared_clause(#[trigger] self.clauses@[r], c0[kc[r]], vmap) by {
                    if r < c {
                        assert(self.clauses@[r] == before.clauses@[r]);
                    }
                }
            }
            c += 1;
        }
        proof {
            lemma_cleanup_wf(*self, p0, s);
            if kept_indices(clause_keep(p0, s), p0.nclauses()).len() > 0 {
                law_cleanup_variables_occur(p0, s, *self);
                law_cleanup_keeps_occurring_variables(p0, s, *self);
            }
        }
    }
}

} // verus!
