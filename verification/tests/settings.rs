use crount::args::Args;
use crount::common::{natural, Branching, Caching, Solution};
use crount::solver::SolverParameters;
use malachite::Natural;
use std::path::PathBuf;

#[test]
fn args_default_values() {
    let a = Args::default();
    assert_eq!(a.input(), &PathBuf::new());
    assert_eq!(a.timeout(), u64::MAX);
    assert_eq!(a.branching(), Branching::First);
    assert_eq!(a.caching(), Caching::Hybrid);
    assert!(!a.statistics());
    assert_eq!(a.memory(), u64::MAX);
}

#[test]
fn args_setters_and_getters() {
    let mut a = Args::default();
    a.set_input(PathBuf::from("f.cnf"));
    a.set_timeout(10);
    a.set_branching(Branching::First);
    a.set_caching(Caching::OmitBinary);
    a.set_statistics(true);
    a.set_memory(512);
    assert_eq!(a.input(), &PathBuf::from("f.cnf"));
    assert_eq!(a.timeout(), 10);
    assert_eq!(a.caching(), Caching::OmitBinary);
    assert!(a.statistics());
    assert_eq!(a.memory(), 512);
    a.set_caching(Caching::OmitImplicit);
    assert_eq!(a.caching(), Caching::OmitImplicit);
}

#[test]
fn solver_parameters_take_the_limits_of_the_arguments() {
    let mut a = Args::default();
    a.set_timeout(30);
    a.set_memory(100);
    let p = SolverParameters::new(&a);
    assert_eq!(p.timeout, 30);
    assert_eq!(p.memory_limit, 100);
    assert!(p.start.elapsed().as_secs() < 5);
}

#[test]
fn natural_and_solution() {
    assert_eq!(natural(0), Natural::from(0u32));
    assert_eq!(natural(12345), Natural::from(12345u32));
    let s = Solution::new(natural(42), 3);
    assert_eq!(s.count(), Natural::from(42u32));
    assert_eq!(s.count(), s.count);
    assert_eq!(s.time_found, 3);
}

#[test]
fn solution_describe_gives_count_and_time() {
    let s = Solution::new(natural(1234), 7);
    assert_eq!(s.describe(), "Model count is 1234 found in 7 seconds");
}

#[test]
fn decimal_text_writes_digits() {
    assert_eq!(crount::text::decimal_text(0), "0");
    assert_eq!(crount::text::decimal_text(9), "9");
    assert_eq!(crount::text::decimal_text(10), "10");
    assert_eq!(crount::text::decimal_text(u64::MAX), u64::MAX.to_string());
}
