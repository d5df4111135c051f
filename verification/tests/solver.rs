use nums::engine::probe;
use nums::game::LIMIT;
use nums::solver::Solver;

#[test]
fn a_new_solver_has_looked_at_nothing() {
    let solver = Solver::new();
    assert!(solver.best_distance.is_empty());
}

#[test]
fn a_solver_without_lists_hands_out_the_empty_lists() {
    let mut solver = Solver::new();
    let distances = solver.find_4_distances();
    assert_eq!(distances.len(), 1296);
    assert!(distances.iter().all(|d| d.is_empty()));
    assert!(solver.best_distance.is_empty());
}

#[test]
fn each_list_is_extended_by_what_its_throw_reaches() {
    let mut solver = Solver::new();
    solver.best_distance = vec![vec![], vec![7], vec![]];
    let distances = solver.find_4_distances();
    assert_eq!(distances.len(), 1296);
    assert_eq!(solver.best_distance.len(), 3);
    let throws: [[u64; 4]; 3] = [[1, 1, 1, 1], [2, 1, 1, 1], [3, 1, 1, 1]];
    for (i, throw) in throws.iter().enumerate() {
        let mut dp = Vec::new();
        let mut pool = Vec::new();
        let mut found = Vec::new();
        probe(LIMIT, &throw.to_vec(), &mut dp, &mut pool, 100, 1000, &mut found);
        assert!(!found.is_empty());
        let kept = if i == 1 { 1 } else { 0 };
        assert_eq!(solver.best_distance[i][kept..], found[..]);
    }
    assert_eq!(solver.best_distance[1][0], 7);
    // 100 + 1 + 1 + 1 and 100 + 1 + 1 + 3
    assert!(solver.best_distance[0].contains(&103));
    assert!(solver.best_distance[2].contains(&105));
}
