use crount::parser::{
    is_whitespace, parse_clauses, parse_isize, problem_from_cnf, split_zero, tokens, trim_end,
    unsigned_abs, CnfError,
};
use crount::trail::Trail;

fn chars(s: &str) -> Vec<char> {
    s.chars().collect()
}

fn lines(text: &str) -> Vec<Vec<char>> {
    text.lines().map(chars).collect()
}

fn strings(v: Vec<Vec<char>>) -> Vec<String> {
    v.into_iter().map(|x| x.into_iter().collect()).collect()
}

#[test]
fn whitespace_is_unicode_white_space() {
    assert!(is_whitespace(' '));
    assert!(is_whitespace('\t'));
    assert!(is_whitespace('\n'));
    assert!(is_whitespace('\u{A0}'));
    assert!(is_whitespace('\u{3000}'));
    assert!(!is_whitespace('a'));
    assert!(!is_whitespace('0'));
    assert!(!is_whitespace('\u{200B}'));
}

#[test]
fn trim_end_drops_trailing_whitespace_only() {
    let r: String = trim_end(&chars("  1 2 0 \t ")).into_iter().collect();
    assert_eq!(r, "  1 2 0");
    let r: String = trim_end(&chars(" \t")).into_iter().collect();
    assert_eq!(r, "");
}

#[test]
fn split_zero_cuts_at_space_zero() {
    assert_eq!(strings(split_zero(&chars("1 -10 0 2 0"))), vec!["1 -10", " 2", ""]);
    assert_eq!(strings(split_zero(&chars("1 2"))), vec!["1 2"]);
    assert_eq!(strings(split_zero(&chars(""))), vec![""]);
    assert_eq!(strings(split_zero(&chars(" 0 0"))), vec!["", "", ""]);
}

#[test]
fn tokens_are_runs_of_non_whitespace() {
    assert_eq!(strings(tokens(&chars("  1\t -2  30 "))), vec!["1", "-2", "30"]);
    assert!(tokens(&chars("   ")).is_empty());
}

#[test]
fn parse_isize_reads_signed_decimals() {
    assert_eq!(parse_isize(&chars("42")), Some(42));
    assert_eq!(parse_isize(&chars("-12")), Some(-12));
    assert_eq!(parse_isize(&chars("+5")), Some(5));
    assert_eq!(parse_isize(&chars("007")), Some(7));
    assert_eq!(parse_isize(&chars("9223372036854775807")), Some(isize::MAX));
    assert_eq!(parse_isize(&chars("-9223372036854775808")), Some(isize::MIN));
    assert_eq!(parse_isize(&chars("9223372036854775808")), None);
    assert_eq!(parse_isize(&chars("")), None);
    assert_eq!(parse_isize(&chars("-")), None);
    assert_eq!(parse_isize(&chars("1a")), None);
    assert_eq!(parse_isize(&chars("--1")), None);
}

#[test]
fn unsigned_abs_of_extremes() {
    assert_eq!(unsigned_abs(-3), 3);
    assert_eq!(unsigned_abs(0), 0);
    assert_eq!(unsigned_abs(isize::MIN), 1usize << 63);
}

#[test]
fn parse_clauses_skips_comments_and_header() {
    let l = lines("c a comment\np cnf 3 3\n1 -2 0\n2 3 0 -1 0\n\n  \n");
    assert_eq!(parse_clauses(&l), Some(vec![vec![1, -2], vec![2, 3], vec![-1]]));
    assert_eq!(parse_clauses(&lines("1 x 0")), None);
}

#[test]
fn problem_from_cnf_builds_the_clauses() {
    let mut state = Trail::new();
    let l = lines("c example\np cnf 4 2\n1 -3 0\n-4 2 0\n");
    let p = problem_from_cnf(&l, &mut state).unwrap();
    assert_eq!(p.number_variables(), 4);
    assert_eq!(p.number_clauses(), 2);
    assert_eq!(p.number_clauses_problem(), 2);
    let c0: Vec<(usize, bool)> = p.clauses[0].literals.iter().map(|l| (l.variable.0, l.positive)).collect();
    let c1: Vec<(usize, bool)> = p.clauses[1].literals.iter().map(|l| (l.variable.0, l.positive)).collect();
    assert_eq!(c0, vec![(0, true), (2, false)]);
    assert_eq!(c1, vec![(3, false), (1, true)]);
    for v in 0..4 {
        assert_eq!(p.variables[v].value(&state), None);
    }
    assert!(p.clauses[0].is_active(&state) && p.clauses[1].is_active(&state));
    assert_eq!(p.clauses[1].id, 1);
}

#[test]
fn problem_from_cnf_reads_the_number_of_variables_from_the_literals() {
    let mut state = Trail::new();
    let p = problem_from_cnf(&lines("p cnf 100 1\n-7 0"), &mut state).unwrap();
    assert_eq!(p.number_variables(), 7);
    let p = problem_from_cnf(&lines("c nothing"), &mut state).unwrap();
    assert_eq!(p.number_variables(), 0);
    assert_eq!(p.number_clauses(), 0);
}

#[test]
fn problem_from_cnf_errors() {
    let mut state = Trail::new();
    assert_eq!(problem_from_cnf(&lines("1 two 0"), &mut state).err(), Some(CnfError::InvalidNumber));
    assert_eq!(problem_from_cnf(&lines("1 0  0"), &mut state).err(), Some(CnfError::EmptyClause));
    assert_eq!(problem_from_cnf(&lines("0 1 0"), &mut state).err(), Some(CnfError::ZeroVariable));
    // a bad number wins over an empty clause, which wins over a zero literal
    assert_eq!(problem_from_cnf(&lines("0 1 0\n1 0  0\nx 0"), &mut state).err(), Some(CnfError::InvalidNumber));
    assert_eq!(problem_from_cnf(&lines("0 1 0\n1 0  0"), &mut state).err(), Some(CnfError::EmptyClause));
}
