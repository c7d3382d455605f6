use aes_grinder::algo::Algo;
use aes_grinder::matrix::Matrix;
use aes_grinder::search::{exhaustive_search, random_search, search_best_multiple_random, update_queue};

fn four_by_four() -> Matrix {
    let mut m = Matrix::from(vec![
        vec![1, 4, 1, 1],
        vec![0, 1, 1, 0],
        vec![0, 0, 0, 1],
        vec![0, 7, 0, 1],
    ]);
    m.set_vars_map(vec!["A".to_string(), "B".to_string(), "C".to_string(), "D".to_string()])
        .unwrap();
    m
}

fn no_plan_dominates_another(g: &[Algo]) -> bool {
    for (i, a) in g.iter().enumerate() {
        for (j, b) in g.iter().enumerate() {
            if i != j && a.dominates(b) {
                return false;
            }
        }
    }
    true
}

fn update_queue_scenario() -> (Vec<Algo>, Vec<(Algo, Algo)>) {
    let mut matrix = four_by_four();
    let c1 = Algo::base_solver(&mut matrix, "A".to_string()).unwrap();
    let c2 = Algo::base_solver(&mut matrix, "B".to_string()).unwrap();
    let c3 = Algo::base_solver(&mut matrix, "C".to_string()).unwrap();
    let c4 = Algo::base_solver(&mut matrix, "D".to_string()).unwrap();
    let c = Algo::fusion_two_algo(Box::new(c1.duplicate()), Box::new(c2.duplicate()), &mut matrix)
        .unwrap();
    let mut g: Vec<Algo> = vec![c1.duplicate(), c2.duplicate(), c3.duplicate(), c4.duplicate()];
    let mut p: Vec<(Algo, Algo)> = vec![
        (c1.duplicate(), c2.duplicate()),
        (c1.duplicate(), c3.duplicate()),
        (c1.duplicate(), c4.duplicate()),
        (c2.duplicate(), c3.duplicate()),
        (c2.duplicate(), c4.duplicate()),
        (c3.duplicate(), c4.duplicate()),
    ];
    update_queue(&mut g, &mut p, c);
    (g, p)
}

#[test]
fn exaustive_search_test_update_queue() {
    let (g, p) = update_queue_scenario();
    println!("p : {:?}", p);
    println!("g : {:?}", g);
}

#[test]
fn exhaustive_search_test_update_queue() {
    let (g, _p) = update_queue_scenario();
    assert!(no_plan_dominates_another(&g));
    let last = g.last().unwrap();
    let mut vars = last.get_all_variables();
    vars.sort();
    assert_eq!(vars, vec!["A".to_string(), "B".to_string()]);
}

#[test]
fn update_queue_rejects_a_slower_plan_over_the_same_variables() {
    let mut g = vec![Algo::new(vec!["A".to_string()], 1, 1, 1)];
    let mut p: Vec<(Algo, Algo)> = vec![];
    update_queue(&mut g, &mut p, Algo::new(vec!["A".to_string()], 2, 1, 1));
    assert_eq!(g.len(), 1);
    assert_eq!(g[0].get_time_complexity(), 1);
    assert!(p.is_empty());
}

#[test]
fn update_queue_pairs_the_candidate_with_incomparable_plans() {
    let mut g = vec![
        Algo::new(vec!["A".to_string()], 5, 5, 5),
        Algo::new(vec!["C".to_string()], 1, 1, 1),
    ];
    let mut p: Vec<(Algo, Algo)> = vec![];
    update_queue(&mut g, &mut p, Algo::new(vec!["A".to_string(), "B".to_string()], 1, 1, 1));
    assert_eq!(g.len(), 2);
    assert_eq!(p.len(), 1);
    let mut second = p[0].1.get_all_variables();
    second.sort();
    assert_eq!(second, vec!["C".to_string()]);
}

#[test]
fn exaustive_search_test_exhaustive1() {
    let mut matrix = Matrix::from(vec![vec![1, 2, 3], vec![4, 3, 2], vec![4, 8, 2]]);
    matrix
        .set_vars_map(vec!["A".to_string(), "B".to_string(), "C".to_string()])
        .unwrap();
    let g = exhaustive_search(&mut matrix, 50).unwrap();
    assert!(!g.is_empty());
}

#[test]
fn exhaustive_search_end_to_end() {
    let mut matrix = four_by_four();
    let g = exhaustive_search(&mut matrix, 1000).unwrap();
    assert!(!g.is_empty());
    let all = ["A", "B", "C", "D"];
    for plan in &g {
        for v in plan.get_all_variables() {
            assert!(all.contains(&v.as_str()));
        }
    }
}

#[test]
fn random_search_covers_every_variable() {
    let mut matrix = four_by_four();
    let a = random_search(&mut matrix).unwrap();
    let mut vars = a.get_all_variables();
    vars.sort();
    assert_eq!(vars, vec!["A".to_string(), "B".to_string(), "C".to_string(), "D".to_string()]);
}

#[test]
fn best_of_several_random_searches_covers_every_variable() {
    let mut matrix = four_by_four();
    let a = search_best_multiple_random(&mut matrix, 3).unwrap();
    assert_eq!(a.get_all_variables().len(), 4);
}

#[test]
fn test_generate_all_base_solver() {
    let mut matrix = four_by_four();
    let mut names = matrix.get_all_variables();
    names.push("K(1)".to_string());
    let mut wide = Matrix::from(vec![vec![1, 4, 1, 1, 0]]);
    wide.set_vars_map(names).unwrap();
    let g = aes_grinder::search::generate_all_base_solver(&mut wide).unwrap();
    assert_eq!(g.len(), 4);
    let g4 = aes_grinder::search::generate_all_base_solver(&mut matrix).unwrap();
    assert_eq!(g4.len(), 4);
    for a in &g4 {
        assert_eq!(a.get_all_variables().len(), 1);
        assert_eq!(a.get_time_complexity(), 1);
        assert!(a.left().is_none() && a.right().is_none());
    }
}

#[test]
fn best_of_runs_picks_a_dominating_run() {
    let v = vec!["A".to_string(), "B".to_string()];
    let runs = vec![
        Algo::new(v.clone(), 3, 1, 1),
        Algo::new(v.clone(), 2, 5, 1),
        Algo::new(v.clone(), 2, 4, 1),
        Algo::new(v.clone(), 2, 4, 1),
    ];
    let best = aes_grinder::search::best_of_runs(runs);
    assert_eq!(best.get_time_complexity(), 2);
    assert_eq!(best.get_memory_complexity(), 4);
}

#[test]
fn fused_plan_keeps_its_sub_plans() {
    let mut matrix = four_by_four();
    let a = Algo::base_solver(&mut matrix, "A".to_string()).unwrap();
    let b = Algo::base_solver(&mut matrix, "B".to_string()).unwrap();
    let c = Algo::fusion_two_algo(Box::new(a), Box::new(b), &mut matrix).unwrap();
    assert_eq!(c.left().unwrap().get_all_variables(), vec!["A".to_string()]);
    assert_eq!(c.right().unwrap().get_all_variables(), vec!["B".to_string()]);
}
