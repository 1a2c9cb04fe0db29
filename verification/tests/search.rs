use crount::branching::{BranchingDecision, First};
use crount::formula::problem::{ClauseIndex, Problem, VariableIndex};
use crount::parser::{problem_from_cnf, CnfError};
use crount::preprocess::Preprocessor;
use crount::propagator::Propagator;
use crount::args::Args;
use crount::solver::{Solver, SolverParameters};
use malachite::Natural;
use std::time::Instant;
use crount::trail::Trail;

fn load(text: &str) -> (Problem, Trail, Propagator) {
    let mut state = Trail::new();
    let propagator = Propagator::new(&mut state);
    let lines: Vec<Vec<char>> = text.lines().map(|l| l.chars().collect()).collect();
    let problem = problem_from_cnf(&lines, &mut state).unwrap();
    (problem, state, propagator)
}

fn values(p: &Problem, state: &Trail) -> Vec<Option<bool>> {
    (0..p.number_variables()).map(|v| p.variables[v].value(state)).collect()
}

fn active(p: &Problem, state: &Trail) -> Vec<bool> {
    (0..p.number_clauses()).map(|c| p.clauses[c].is_active(state)).collect()
}

fn assigned(prop: &Propagator) -> Vec<(usize, bool)> {
    prop.iter_propagated_assignments().iter().map(|l| (l.variable.0, l.positive)).collect()
}

#[test]
fn preprocess_propagates_the_unit_clauses() {
    let (mut p, mut state, mut prop) = load("1 -2 0\n2 3 0\n-3 0\n");
    let r = {
        let mut pre = Preprocessor::new(&mut p, &mut state, &mut prop);
        pre.preprocess()
    };
    assert_eq!(r, Ok(()));
    assert_eq!(values(&p, &state), vec![Some(true), Some(true), Some(false)]);
    assert_eq!(active(&p, &state), vec![false, false, false]);
    assert_eq!(assigned(&prop), vec![(2, false), (1, true), (0, true)]);
    assert!(prop.has_assignments(&state));
    assert_eq!(prop.assignments_iter(&state).len(), 3);
    assert_eq!(p.get_variable(VariableIndex(0)).get_assignment_position(&state), 2);
    prop.reduce();
    assert!(prop.iter_propagated_assignments().is_empty());
    assert!(!prop.has_assignments(&state));
}

#[test]
fn preprocess_without_unit_clause_assigns_nothing() {
    let (mut p, mut state, mut prop) = load("1 2 0\n-1 -2 0\n");
    let r = Preprocessor::new(&mut p, &mut state, &mut prop).preprocess();
    assert_eq!(r, Ok(()));
    assert_eq!(values(&p, &state), vec![None, None]);
    assert_eq!(active(&p, &state), vec![true, true]);
    assert!(!prop.has_assignments(&state));
}

#[test]
fn propagation_finds_a_conflict() {
    let (mut p, mut state, mut prop) = load("1 2 0\n1 -2 0\n");
    let r = prop.propagate_variable(VariableIndex(0), false, &mut p, &mut state, 3);
    assert_eq!(r, Err(3));
    assert!(prop.propagation_stack.is_empty());
    assert_eq!(values(&p, &state), vec![Some(false), Some(true)]);
}

#[test]
fn propagation_of_a_satisfying_value_deactivates_its_clauses() {
    let (mut p, mut state, mut prop) = load("1 2 0\n1 -2 0\n-1 3 0\n");
    let r = prop.propagate_variable(VariableIndex(0), true, &mut p, &mut state, 1);
    assert_eq!(r, Ok(()));
    assert_eq!(values(&p, &state), vec![Some(true), None, Some(true)]);
    assert_eq!(active(&p, &state), vec![false, false, false]);
    assert_eq!(assigned(&prop), vec![(0, true), (2, true)]);
    assert_eq!(p.get_variable(VariableIndex(2)).decision_level(), 1);
    assert!(p.get_clause(ClauseIndex(2)).is_modified(&state));
}

#[test]
fn solver_restore_undoes_a_branch() {
    let (p, state, prop) = load("1 2 0\n1 -2 0\n-1 3 0\n");
    let mut s = Solver::new(p, state, prop);
    assert_eq!(s.branch(VariableIndex(0), true, 1), Ok(()));
    assert_eq!(values(&s.problem, &s.state), vec![Some(true), None, Some(true)]);
    s.restore();
    assert_eq!(values(&s.problem, &s.state), vec![None, None, None]);
    assert_eq!(active(&s.problem, &s.state), vec![true, true, true]);
    assert!(s.propagator.iter_propagated_assignments().is_empty());
    // the other branch can now be tried
    assert_eq!(s.branch(VariableIndex(0), false, 1), Err(1));
    s.restore();
    assert_eq!(values(&s.problem, &s.state), vec![None, None, None]);
    assert_eq!(active(&s.problem, &s.state), vec![true, true, true]);
    assert!(s.propagator.iter_propagated_assignments().is_empty());
}

#[test]
fn nested_branches_restore_one_level_at_a_time() {
    let (p, state, prop) = load("1 2 3 0\n-1 -2 0\n");
    let mut s = Solver::new(p, state, prop);
    assert_eq!(s.branch(VariableIndex(2), false, 1), Ok(()));
    assert_eq!(s.branch(VariableIndex(0), true, 2), Ok(()));
    assert_eq!(values(&s.problem, &s.state), vec![Some(true), Some(false), Some(false)]);
    s.restore();
    assert_eq!(values(&s.problem, &s.state), vec![None, None, Some(false)]);
    assert_eq!(assigned(&s.propagator), vec![(2, false)]);
    s.restore();
    assert_eq!(values(&s.problem, &s.state), vec![None, None, None]);
    assert!(s.propagator.iter_propagated_assignments().is_empty());
}

#[test]
fn first_branches_on_the_first_unset_variable_of_the_first_active_clause() {
    let (mut p, mut state, _prop) = load("1 2 0\n-2 3 4 0\n");
    let clauses = vec![ClauseIndex(0), ClauseIndex(1)];
    let mut first = First {};
    assert_eq!(first.branch_on(&p, &state, &clauses), VariableIndex(0));
    p.deactivate_clause(ClauseIndex(0), &mut state);
    assert_eq!(first.branch_on(&p, &state, &clauses), VariableIndex(1));
    p.set_variable(VariableIndex(1), false, 1, &mut state);
    assert_eq!(first.branch_on(&p, &state, &clauses), VariableIndex(2));
    assert_eq!(first.branch_on(&p, &state, &vec![ClauseIndex(1), ClauseIndex(0)]), VariableIndex(2));
}

#[test]
fn clean_up_keeps_the_active_clauses_and_their_unset_variables() {
    let (mut p, mut state, mut prop) = load("1 2 0\n-3 0\n3 4 0\n5 -6 0\n");
    assert_eq!(Preprocessor::new(&mut p, &mut state, &mut prop).preprocess(), Ok(()));
    assert_eq!(values(&p, &state), vec![None, None, Some(false), Some(true), None, None]);
    p.clear_after_preprocess(&mut state);
    assert_eq!(p.number_clauses(), 2);
    assert_eq!(p.number_clauses_problem(), 2);
    assert_eq!(p.number_variables(), 4);
    let ids: Vec<usize> = p.variables.iter().map(|x| x.id).collect();
    assert_eq!(ids, vec![0, 1, 4, 5]);
    let clause_ids: Vec<usize> = p.clauses.iter().map(|c| c.id).collect();
    assert_eq!(clause_ids, vec![0, 3]);
    let lits: Vec<Vec<(usize, bool)>> = p.clauses.iter()
        .map(|c| c.literals.iter().map(|l| (l.variable.0, l.positive)).collect()).collect();
    assert_eq!(lits, vec![vec![(0, true), (1, true)], vec![(2, true), (3, false)]]);
    assert_eq!(p.get_variable(VariableIndex(2)).iter_clauses_positive_occurence(), &vec![ClauseIndex(1)]);
    assert_eq!(p.get_variable(VariableIndex(3)).iter_clauses_negative_occurence(), &vec![ClauseIndex(1)]);
    for v in 0..4 {
        assert_eq!(p.number_watchers(VariableIndex(v)), 1);
    }
    assert_eq!(p.get_clause_watched(VariableIndex(3), 0), ClauseIndex(1));
    assert_eq!(active(&p, &state), vec![true, true]);
}

#[test]
fn clean_up_with_no_active_clause_changes_nothing_else() {
    let (mut p, mut state, mut prop) = load("1 0\n-2 0\n");
    assert_eq!(Preprocessor::new(&mut p, &mut state, &mut prop).preprocess(), Ok(()));
    p.clear_after_preprocess(&mut state);
    assert_eq!(p.number_clauses(), 0);
    assert_eq!(p.number_variables(), 2);
    assert_eq!(p.number_clauses_problem(), 2);
}

#[test]
fn solver_from_cnf_starts_ready_to_search() {
    let lines: Vec<Vec<char>> = "p cnf 2 1\n1 -2 0\n".lines().map(|l| l.chars().collect()).collect();
    let mut s = Solver::from_cnf(&lines).unwrap();
    assert_eq!(s.problem.number_variables(), 2);
    assert_eq!(s.problem.number_clauses(), 1);
    assert!(s.propagator.iter_propagated_assignments().is_empty());
    assert_eq!(s.branch(VariableIndex(1), true, 1), Ok(()));
    assert_eq!(values(&s.problem, &s.state), vec![Some(true), Some(true)]);
    s.restore();
    assert_eq!(values(&s.problem, &s.state), vec![None, None]);
    let bad: Vec<Vec<char>> = vec!["1 0 0 x".chars().collect()];
    assert_eq!(Solver::from_cnf(&bad).err(), Some(CnfError::InvalidNumber));
}

#[test]
fn preprocess_of_an_unsatisfiable_formula_fails() {
    let (mut p, mut state, mut prop) = load("1 2 0\n1 -2 0\n-1 0\n");
    let r = Preprocessor::new(&mut p, &mut state, &mut prop).preprocess();
    assert_eq!(r, Err(0));
    assert!(prop.propagation_stack.is_empty());
}

fn satisfies(clauses: &[Vec<(usize, bool)>], sigma: &[bool]) -> bool {
    clauses.iter().all(|c| c.iter().any(|&(v, b)| sigma[v] == b))
}

fn assignments(n: usize) -> Vec<Vec<bool>> {
    (0..(1usize << n)).map(|m| (0..n).map(|i| m & (1 << i) != 0).collect()).collect()
}

#[test]
fn clean_up_keeps_the_models() {
    let (mut p, mut state, mut prop) = load("1 2 0\n-3 0\n3 4 -1 0\n5 -6 0\n2 -5 6 0\n");
    assert_eq!(Preprocessor::new(&mut p, &mut state, &mut prop).preprocess(), Ok(()));
    let old_clauses: Vec<Vec<(usize, bool)>> = p.clauses.iter()
        .map(|c| c.literals.iter().map(|l| (l.variable.0, l.positive)).collect()).collect();
    let old_values = values(&p, &state);
    let n_old = p.number_variables();
    p.clear_after_preprocess(&mut state);
    let kept: Vec<usize> = p.variables.iter().map(|x| x.id).collect();
    let new_clauses: Vec<Vec<(usize, bool)>> = p.clauses.iter()
        .map(|c| c.literals.iter().map(|l| (l.variable.0, l.positive)).collect()).collect();
    let mut from_old: Vec<Vec<bool>> = assignments(n_old).into_iter()
        .filter(|s| satisfies(&old_clauses, s))
        .filter(|s| (0..n_old).all(|v| old_values[v].map_or(true, |b| s[v] == b)))
        .map(|s| kept.iter().map(|&v| s[v]).collect())
        .collect();
    from_old.sort();
    from_old.dedup();
    let mut new_models: Vec<Vec<bool>> = assignments(kept.len()).into_iter()
        .filter(|t| satisfies(&new_clauses, t))
        .collect();
    new_models.sort();
    assert!(!new_models.is_empty());
    assert_eq!(from_old, new_models);
}

fn clause_lists(p: &Problem) -> Vec<Vec<(usize, bool)>> {
    p.clauses.iter().map(|c| c.literals.iter().map(|l| (l.variable.0, l.positive)).collect()).collect()
}

#[test]
fn preprocess_sets_only_values_that_every_model_has() {
    for text in ["1 -2 0\n2 3 0\n-3 0\n", "1 2 0\n-1 3 0\n-3 0\n4 5 0\n", "1 2 0\n1 -2 0\n-1 0\n"] {
        let (mut p, mut state, mut prop) = load(text);
        let clauses = clause_lists(&p);
        let n = p.number_variables();
        let r = Preprocessor::new(&mut p, &mut state, &mut prop).preprocess();
        let models: Vec<Vec<bool>> = assignments(n).into_iter().filter(|s| satisfies(&clauses, s)).collect();
        match r {
            Ok(()) => {
                let vals = values(&p, &state);
                for m in models.iter() {
                    assert!((0..n).all(|v| vals[v].map_or(true, |b| m[v] == b)));
                }
            }
            Err(_) => assert!(models.is_empty()),
        }
    }
}

fn count_models(text: &str, timeout: u64) -> (Natural, bool) {
    let lines: Vec<Vec<char>> = text.lines().map(|l| l.chars().collect()).collect();
    let mut solver = Solver::from_cnf(&lines).unwrap();
    let mut args = Args::default();
    args.set_timeout(timeout);
    let parameters = SolverParameters::new(&args);
    let (solution, complete) = solver.search(&parameters);
    (solution.count, complete)
}

#[test]
fn search_counts_the_models_of_two_exclusive_clauses() {
    assert_eq!(count_models("p cnf 2 2\n1 2 0\n-1 -2 0\n", u64::MAX), (Natural::from(2u32), true));
}

#[test]
fn search_counts_a_single_clause() {
    assert_eq!(count_models("1 2 3 0\n", u64::MAX), (Natural::from(7u32), true));
}

#[test]
fn search_counts_free_variables_after_preprocessing() {
    // The unit clause fixes variable 1; variables 2 and 3 are then free.
    assert_eq!(count_models("1 0\n1 2 3 0\n", u64::MAX), (Natural::from(4u32), true));
}

#[test]
fn search_finds_no_model_of_contradictory_units() {
    assert_eq!(count_models("1 0\n-1 0\n", u64::MAX), (Natural::from(0u32), true));
}

#[test]
fn search_finds_no_model_when_branches_conflict() {
    assert_eq!(count_models("1 2 0\n1 -2 0\n-1 2 0\n-1 -2 0\n", u64::MAX), (Natural::from(0u32), true));
}

#[test]
fn search_counts_a_chain_of_implications() {
    // x1 -> x2 -> x3: the models are FFF, FFT, FTT, TTT.
    assert_eq!(count_models("-1 2 0\n-2 3 0\n", u64::MAX), (Natural::from(4u32), true));
}

#[test]
fn search_with_no_time_left_gives_a_lower_bound() {
    let (count, complete) = count_models("1 2 0\n-1 -2 0\n3 4 0\n", 0);
    assert!(!complete);
    assert!(count <= Natural::from(6u32));
}

#[test]
fn solver_parameters_starting_at_keep_the_start() {
    let start = Instant::now();
    let p = SolverParameters::starting_at(&Args::default(), start);
    assert_eq!(p.start, start);
    assert_eq!(p.timeout, u64::MAX);
}

#[test]
fn propagation_with_no_request_fixes_nothing() {
    let (mut p, mut state, mut prop) = load("1 2 0\n-1 -2 0\n");
    assert_eq!(prop.propagate(&mut p, &mut state, 4), Ok(()));
    assert_eq!(values(&p, &state), vec![None, None]);
    assert!(assigned(&prop).is_empty());
}

#[test]
fn propagation_forces_the_last_literal_of_a_clause() {
    let (mut p, mut state, mut prop) = load("-1 2 0\n");
    prop.add_to_propagation_stack(VariableIndex(0), true, 0);
    assert_eq!(prop.propagate(&mut p, &mut state, 0), Ok(()));
    assert_eq!(values(&p, &state), vec![Some(true), Some(true)]);
    assert_eq!(active(&p, &state), vec![false]);
    assert_eq!(assigned(&prop), vec![(0, true), (1, true)]);
}

#[test]
fn propagation_reports_a_conflict_at_its_level() {
    let (mut p, mut state, mut prop) = load("-1 2 0\n-1 -2 0\n");
    prop.add_to_propagation_stack(VariableIndex(0), true, 0);
    assert_eq!(prop.propagate(&mut p, &mut state, 3), Err(3));
    assert_eq!(values(&p, &state)[0], Some(true));
}

#[test]
fn propagation_levels_come_from_requests_and_the_call() {
    let (mut p, mut state, mut prop) = load("-1 2 0\n");
    prop.add_to_propagation_stack(VariableIndex(0), true, 0);
    assert_eq!(prop.propagate(&mut p, &mut state, 3), Ok(()));
    assert_eq!(p.get_variable(VariableIndex(0)).decision_level(), 0);
    assert_eq!(p.get_variable(VariableIndex(1)).decision_level(), 3);
}

fn ready_solver(text: &str) -> Solver {
    let lines: Vec<Vec<char>> = text.lines().map(|l| l.chars().collect()).collect();
    Solver::from_cnf(&lines).unwrap()
}

#[test]
fn count_at_past_the_time_limit_is_zero_and_incomplete() {
    let mut solver = ready_solver("1 2 0\n-1 -2 0\n");
    let mut args = Args::default();
    args.set_timeout(3);
    let parameters = SolverParameters::new(&args);
    let (count, complete) = solver.count_at(3, 1, &parameters);
    assert_eq!(count, Natural::from(0u32));
    assert!(!complete);
    assert_eq!(solver.problem.number_variables(), 2);
}

#[test]
fn count_at_within_the_time_limit_counts() {
    let mut solver = ready_solver("1 2 0\n-1 -2 0\n");
    let parameters = SolverParameters::new(&Args::default());
    assert_eq!(solver.count_at(0, 1, &parameters), (Natural::from(2u32), true));
}

#[test]
fn model_count_with_a_zero_time_limit_is_zero() {
    let mut solver = ready_solver("1 2 0\n");
    let mut args = Args::default();
    args.set_timeout(0);
    let parameters = SolverParameters::new(&args);
    assert_eq!(solver.model_count(1, &parameters), (Natural::from(0u32), false));
}

#[test]
fn count_preprocessed_after_a_conflict_is_zero_and_complete() {
    let mut solver = ready_solver("1 0\n-1 0\n");
    let parameters = SolverParameters::new(&Args::default());
    let (solution, complete) = solver.count_preprocessed(Err(0), &parameters);
    assert_eq!(solution.count, Natural::from(0u32));
    assert!(complete);
}
