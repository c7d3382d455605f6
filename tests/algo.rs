use aes_grinder::algo::{Algo, PlanError, MAX_FUSION_VARS};
use aes_grinder::matrix::Matrix;
use std::cmp::Ordering;

fn plan(vars: &[&str], time: usize, memory: usize, nb_solutions: usize) -> Algo {
    Algo::new(vars.iter().map(|s| s.to_string()).collect(), time, memory, nb_solutions)
}

#[test]
fn compare_algo() {
    let algo_sad = plan(&["x"], 100, 100, 20);
    let algo_good = plan(&["x"], 1, 1, 1);
    assert!(algo_sad < algo_good);
}

#[test]
fn compare_algo_time() {
    let algo_sad = plan(&["x"], 2, 1, 1);
    let algo_good = plan(&["x"], 1, 1, 1);
    assert!(algo_sad < algo_good);
}

#[test]
fn compare_algo_memory_for_same_time() {
    let algo_sad = plan(&["x"], 1, 2, 1);
    let algo_good = plan(&["x"], 1, 1, 1);
    assert!(algo_sad < algo_good);
}

#[test]
fn compare_algo_time_and_memory() {
    let algo_sad = plan(&["x"], 2, 2, 1);
    let algo_good = plan(&["x"], 1, 1, 1);
    assert!(algo_sad < algo_good);
}

#[test]
fn compare_algo_nb_solution() {
    let algo_sad = plan(&["x"], 1, 1, 2);
    let algo_good = plan(&["x"], 1, 1, 1);
    assert!(algo_sad < algo_good);
}

#[test]
fn algo_test_number_solutions() {
    let mut matrix = Matrix::from(vec![vec![1, 2, 3], vec![4, 5, 6], vec![7, 8, 9]]);
    let algo = Algo::base_solver(&mut matrix, "X_1".to_string()).unwrap();
    assert_eq!(1, algo.get_nb_solutions());
}

#[test]
fn test_compare1() {
    let algo1 = plan(&["x", "y"], 1, 1, 1);
    let algo2 = plan(&["x", "y"], 3, 1, 1);
    assert_eq!(Some(Ordering::Greater), algo1.compare1(&algo2));
}

#[test]
fn compare1_other_variables_is_none() {
    let algo1 = plan(&["x", "y"], 1, 1, 1);
    let algo2 = plan(&["x"], 3, 1, 1);
    assert_eq!(None, algo1.compare1(&algo2));
    assert_eq!(Some(Ordering::Less), algo2.compare1(&plan(&["x"], 2, 1, 1)));
}

#[test]
fn dominance_needs_a_superset_and_ties_dominate() {
    let big = plan(&["x", "y"], 1, 1, 1);
    let small = plan(&["x"], 1, 1, 1);
    assert!(big.dominates(&small));
    assert!(!small.dominates(&big));
    assert_eq!(small.partial_cmp(&big), None);
    assert_eq!(big.partial_cmp(&small), Some(Ordering::Greater));
    let same = plan(&["x"], 1, 1, 1);
    assert!(small.dominates(&same) && same.dominates(&small));
}

#[test]
fn dominance_is_repeatable() {
    let a = plan(&["x", "y"], 2, 1, 1);
    let b = plan(&["y"], 1, 5, 5);
    let first = a.dominates(&b);
    for _ in 0..3 {
        assert_eq!(a.dominates(&b), first);
    }
    assert!(!first);
}

#[test]
fn new_drops_repeated_names() {
    let a = plan(&["x", "x", "y"], 1, 1, 1);
    assert_eq!(a.get_all_variables().len(), 2);
}

fn four_by_four() -> Matrix {
    let mut m = Matrix::from(vec![
        vec![1, 4, 1, 1],
        vec![0, 1, 1, 0],
        vec![0, 0, 0, 1],
        vec![0, 7, 0, 1],
    ]);
    m.set_vars_map(vec!["A".to_string(), "B".to_string(), "C".to_string(), "D".to_string()])
        .unwrap();
    m
}

#[test]
fn fusion_covers_the_union_and_costs_at_least_the_parts() {
    let mut m = four_by_four();
    let a = Algo::base_solver(&mut m, "A".to_string()).unwrap();
    let b = plan(&["B", "C"], 3, 2, 4);
    let (ta, tb) = (a.get_time_complexity(), b.get_time_complexity());
    let (na, nb) = (a.get_nb_solutions(), b.get_nb_solutions());
    let c = Algo::fusion_two_algo(Box::new(a), Box::new(b), &mut m).unwrap();
    let mut vars = c.get_all_variables();
    vars.sort();
    assert_eq!(vars, vec!["A".to_string(), "B".to_string(), "C".to_string()]);
    assert!(c.get_time_complexity() >= ta.max(tb));
    assert!(c.get_memory_complexity() >= na.min(nb));
    assert_eq!(c.get_memory_complexity(), 2);
    assert_eq!(c.get_time_complexity(), 3.max(c.get_nb_solutions()));
}

#[test]
fn fusion_over_the_ceiling_fails() {
    let mut m = four_by_four();
    let left: Vec<String> = (0..MAX_FUSION_VARS).map(|i| format!("L{}", i)).collect();
    let a = Algo::new(left, 1, 1, 1);
    let b = plan(&["R"], 1, 1, 1);
    let r = Algo::fusion_two_algo(Box::new(a), Box::new(b), &mut m);
    assert_eq!(r.unwrap_err(), PlanError::ResourceLimitExceeded);
}
