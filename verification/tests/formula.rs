use crount::fxmap::{index_map_get, index_map_insert, index_map_new};
use crount::formula::clause::Clause;
use crount::formula::literal::Literal;
use crount::formula::problem::{ClauseIndex, Problem, VariableIndex};
use crount::formula::variable::Variable;
use crount::trail::Trail;

fn literal(p: &Problem, v: usize, positive: bool) -> Literal {
    Literal::from_variable(VariableIndex(v), positive, p.variables[v].get_value_index())
}

fn vars(c: &Clause) -> Vec<usize> {
    c.iter_variables().into_iter().map(|v| v.0).collect()
}

#[test]
fn literal_accessors() {
    let mut state = Trail::new();
    let x = Variable::new(0, &mut state);
    let mut l = Literal::from_variable(VariableIndex(0), false, x.get_value_index());
    assert_eq!(l.to_variable(), VariableIndex(0));
    assert!(!l.is_positive());
    assert!(!l.is_variable_fixed(&state));
    x.set_value(true, &mut state);
    assert!(l.is_variable_fixed(&state));
    l.update_variable(VariableIndex(5));
    assert_eq!(l.to_variable(), VariableIndex(5));
    assert!(!l.is_positive());
}

#[test]
fn variable_values_and_occurrences() {
    let mut state = Trail::new();
    let mut x = Variable::new(3, &mut state);
    assert_eq!(x.id, 3);
    assert_eq!(x.value(&state), None);
    assert!(!x.is_fixed(&state));
    assert_eq!(x.decision_level(), -1);
    x.set_value(false, &mut state);
    assert_eq!(x.value(&state), Some(false));
    assert!(x.is_fixed(&state));
    x.set_decision_level(4);
    assert_eq!(x.decision_level(), 4);
    x.set_assignment_position(9, &mut state);
    assert_eq!(x.get_assignment_position(&state), 9);
    x.add_clause_positive_occurence(ClauseIndex(2));
    x.add_clause_positive_occurence(ClauseIndex(5));
    x.add_clause_negative_occurence(ClauseIndex(7));
    assert_eq!(x.number_clauses(), 3);
    assert_eq!(x.iter_clauses_positive_occurence(), &vec![ClauseIndex(2), ClauseIndex(5)]);
    assert_eq!(x.iter_clauses_negative_occurence(), &vec![ClauseIndex(7)]);
    let mut map = index_map_new();
    index_map_insert(&mut map, 5, 0);
    index_map_insert(&mut map, 7, 1);
    assert_eq!(x.clear_clauses(&map), 2);
    assert_eq!(x.iter_clauses_positive_occurence(), &vec![ClauseIndex(0)]);
    assert_eq!(x.iter_clauses_negative_occurence(), &vec![ClauseIndex(1)]);
}

#[test]
fn index_map_binds_keys() {
    let mut map = index_map_new();
    assert_eq!(index_map_get(&map, 4), None);
    index_map_insert(&mut map, 4, 9);
    index_map_insert(&mut map, 1, 2);
    index_map_insert(&mut map, 4, 3);
    assert_eq!(index_map_get(&map, 4), Some(3));
    assert_eq!(index_map_get(&map, 1), Some(2));
    assert_eq!(index_map_get(&map, 0), None);
}

#[test]
fn clause_watched_literals_move_to_an_unfixed_literal() {
    let mut state = Trail::new();
    let p = Problem::new(&mut state, 4, 1);
    let lits = vec![literal(&p, 0, true), literal(&p, 1, false), literal(&p, 2, true), literal(&p, 3, true)];
    let mut c = Clause::new(7, lits, false, &mut state);
    assert_eq!(c.id, 7);
    assert!(!c.is_learned());
    assert!(!c.is_binary());
    assert!(c.is_active(&state));
    assert!(!c.is_modified(&state));
    assert_eq!(c.get_watchers(), vec![VariableIndex(0), VariableIndex(1)]);
    // variable 0 gets a value: it leaves the first place, and the second watch
    // moves to the first unfixed literal after the first two
    p.variables[0].set_value(false, &mut state);
    p.variables[2].set_value(false, &mut state);
    let w = c.notify_variable_value(VariableIndex(0), &state);
    assert_eq!(w, VariableIndex(3));
    assert_eq!(vars(&c), vec![1, 3, 2, 0]);
    assert!(!c.is_unit(&state));
    // variable 3 gets a value: no unfixed literal is left to watch
    p.variables[3].set_value(false, &mut state);
    let w = c.notify_variable_value(VariableIndex(3), &state);
    assert_eq!(w, VariableIndex(3));
    assert_eq!(vars(&c), vec![1, 3, 2, 0]);
    assert!(c.is_unit(&state));
    assert_eq!(c.get_unit_assigment(&state), literal(&p, 1, false));
    c.modified(&mut state);
    assert!(c.is_modified(&state));
    c.deactivate(&mut state);
    assert!(!c.is_active(&state));
    assert!(!c.is_unit(&state));
}

#[test]
fn clause_with_one_literal_is_unit_while_active() {
    let mut state = Trail::new();
    let p = Problem::new(&mut state, 1, 1);
    let mut c = Clause::new(0, vec![literal(&p, 0, false)], true, &mut state);
    assert!(c.is_learned());
    assert!(c.is_unit(&state));
    assert_eq!(c.get_watchers(), vec![VariableIndex(0)]);
    assert_eq!(c.notify_variable_value(VariableIndex(0), &state), VariableIndex(0));
    assert_eq!(c.iter(), &vec![literal(&p, 0, false)]);
}

#[test]
fn clause_clear_literals_renames_and_drops() {
    let mut state = Trail::new();
    let p = Problem::new(&mut state, 4, 1);
    let lits = vec![literal(&p, 0, true), literal(&p, 1, false), literal(&p, 2, true), literal(&p, 3, false)];
    let mut c = Clause::new(0, lits, false, &mut state);
    let mut map = index_map_new();
    index_map_insert(&mut map, 0, 0);
    index_map_insert(&mut map, 2, 1);
    c.clear_literals(&map);
    // from the end: 3 goes (the last literal takes its place), 2 becomes 1,
    // 1 goes (replaced by the last one), 0 stays 0
    assert_eq!(vars(&c), vec![0, 1]);
    assert_eq!(c.literals.iter().map(|l| l.positive).collect::<Vec<bool>>(), vec![true, true]);
}

#[test]
fn problem_add_clause_records_watchers_and_occurrences() {
    let mut state = Trail::new();
    let mut p = Problem::new(&mut state, 3, 2);
    assert_eq!(p.number_variables(), 3);
    assert_eq!(p.number_clauses(), 0);
    assert_eq!(p.number_clauses_problem(), 2);
    let l0 = vec![literal(&p, 0, true), literal(&p, 1, false), literal(&p, 2, true)];
    let c0 = p.add_clause(l0, &mut state, false);
    let l1 = vec![literal(&p, 2, false)];
    let c1 = p.add_clause(l1, &mut state, true);
    assert_eq!(c0, ClauseIndex(0));
    assert_eq!(c1, ClauseIndex(1));
    assert_eq!(p.number_clauses(), 2);
    assert_eq!(p.last_clause_subproblem(), ClauseIndex(1));
    assert_eq!(p.number_watchers(VariableIndex(0)), 1);
    assert_eq!(p.number_watchers(VariableIndex(1)), 1);
    assert_eq!(p.number_watchers(VariableIndex(2)), 1);
    assert_eq!(p.get_clause_watched(VariableIndex(2), 0), ClauseIndex(1));
    assert_eq!(p.get_variable(VariableIndex(2)).iter_clauses_positive_occurence(), &vec![ClauseIndex(0)]);
    assert_eq!(p.get_variable(VariableIndex(2)).iter_clauses_negative_occurence(), &vec![ClauseIndex(1)]);
    assert_eq!(p.get_variable(VariableIndex(1)).iter_clauses_negative_occurence(), &vec![ClauseIndex(0)]);
    assert!(p.get_clause(c1).is_learned());
    assert!(p.get_clause(c0).is_active(&state));
    assert!(!p.get_clause(c0).is_modified(&state));
    assert!(!p.get_clause(c1).is_modified(&state));
    assert_eq!(p.clauses_iter(), vec![ClauseIndex(0), ClauseIndex(1)]);
    assert_eq!(p.variables_iter(), vec![VariableIndex(0), VariableIndex(1), VariableIndex(2)]);
}

#[test]
fn problem_watchers_and_values() {
    let mut state = Trail::new();
    let mut p = Problem::new(&mut state, 3, 2);
    let l0 = vec![literal(&p, 0, true), literal(&p, 1, true)];
    p.add_clause(l0, &mut state, false);
    let l1 = vec![literal(&p, 0, false), literal(&p, 2, true)];
    p.add_clause(l1, &mut state, false);
    assert_eq!(p.number_watchers(VariableIndex(0)), 2);
    p.remove_watcher(VariableIndex(0), 0);
    assert_eq!(p.number_watchers(VariableIndex(0)), 1);
    assert_eq!(p.get_clause_watched(VariableIndex(0), 0), ClauseIndex(1));
    p.add_watcher(VariableIndex(2), ClauseIndex(0));
    assert_eq!(p.number_watchers(VariableIndex(2)), 2);
    p.set_variable(VariableIndex(1), true, 6, &mut state);
    assert_eq!(p.get_variable(VariableIndex(1)).value(&state), Some(true));
    assert_eq!(p.get_variable(VariableIndex(1)).decision_level(), 6);
    state.save_state();
    p.deactivate_clause(ClauseIndex(0), &mut state);
    assert!(!p.get_clause(ClauseIndex(0)).is_active(&state));
    state.restore_state();
    assert!(p.get_clause(ClauseIndex(0)).is_active(&state));
}

#[test]
fn variable_describe_counts_from_one() {
    let mut state = Trail::new();
    assert_eq!(Variable::new(0, &mut state).describe(), "V1");
    assert_eq!(Variable::new(41, &mut state).describe(), "V42");
}
