use tsp_solver::model::INF;
use tsp_solver::solver::{SolverError, TSPSolver};

fn solve(matrix: Vec<Vec<i32>>) -> (i32, Vec<usize>, TSPSolver) {
    let mut solver = TSPSolver::new(matrix).expect("matrix should be accepted");
    let (cost, path) = solver.solve();
    (cost, path, solver)
}

fn path_cost(matrix: &[Vec<i32>], path: &[usize]) -> i64 {
    let mut total: i64 = 0;
    for w in path.windows(2) {
        total += matrix[w[0]][w[1]] as i64;
    }
    total
}

fn brute_force_min(matrix: &[Vec<i32>]) -> i64 {
    let n = matrix.len();
    let mut cities: Vec<usize> = (1..n).collect();
    let mut best = i64::MAX;
    permute(&mut cities, 0, matrix, &mut best);
    best
}

fn permute(cities: &mut Vec<usize>, k: usize, matrix: &[Vec<i32>], best: &mut i64) {
    if k == cities.len() {
        let mut tour = vec![0usize];
        tour.extend_from_slice(cities);
        tour.push(0);
        let c = path_cost(matrix, &tour);
        if c < *best {
            *best = c;
        }
        return;
    }
    for i in k..cities.len() {
        cities.swap(k, i);
        permute(cities, k + 1, matrix, best);
        cities.swap(k, i);
    }
}

#[test]
fn trivial_single_city() {
    let (cost, path, _) = solve(vec![vec![0]]);
    assert_eq!(cost, 0);
    assert_eq!(path, vec![0]);
}

#[test]
fn concrete_four_city_scenario() {
    let matrix = vec![
        vec![0, 10, 15, 20],
        vec![10, 0, 35, 25],
        vec![15, 35, 0, 30],
        vec![20, 25, 30, 0],
    ];
    let (cost, path, _) = solve(matrix.clone());
    assert_eq!(cost, 80);
    assert_eq!(path, vec![0, 1, 3, 2, 0]);
    assert_eq!(path_cost(&matrix, &path), 80);
}

#[test]
fn symmetry_round_trip() {
    let matrix = vec![
        vec![0, 10, 15, 20],
        vec![10, 0, 35, 25],
        vec![15, 35, 0, 30],
        vec![20, 25, 30, 0],
    ];
    let (cost, path, _) = solve(matrix.clone());
    let reversed: Vec<usize> = path.iter().rev().cloned().collect();
    assert_eq!(path_cost(&matrix, &path), cost as i64);
    assert_eq!(path_cost(&matrix, &reversed), cost as i64);
}

#[test]
fn optimality_matches_brute_force() {
    let matrices = vec![
        vec![
            vec![0, 10, 15, 20],
            vec![10, 0, 35, 25],
            vec![15, 35, 0, 30],
            vec![20, 25, 30, 0],
        ],
        vec![
            vec![0, 2, 9, 10, 7],
            vec![1, 0, 6, 4, 3],
            vec![15, 7, 0, 8, 3],
            vec![6, 3, 12, 0, 11],
            vec![9, 7, 5, 6, 0],
        ],
        vec![
            vec![0, 3, 1, 5, 8, 2],
            vec![3, 0, 6, 7, 9, 4],
            vec![1, 6, 0, 4, 2, 7],
            vec![5, 7, 4, 0, 3, 6],
            vec![8, 9, 2, 3, 0, 5],
            vec![2, 4, 7, 6, 5, 0],
        ],
    ];
    for matrix in matrices {
        let expected = brute_force_min(&matrix);
        let (cost, path, _) = solve(matrix.clone());
        assert_eq!(cost as i64, expected);
        assert_eq!(path_cost(&matrix, &path), expected);
    }
}

#[test]
fn memoization_bound() {
    let matrix = vec![
        vec![0, 10, 15, 20],
        vec![10, 0, 35, 25],
        vec![15, 35, 0, 30],
        vec![20, 25, 30, 0],
    ];
    let (_, _, solver) = solve(matrix);
    assert_eq!(solver.total_states(), 4 * 16);
    assert!(solver.memo_entries() as u64 <= solver.total_states());
    assert!(solver.computed_states() > 0);
    assert_eq!(solver.num_cities(), 4);
}

#[test]
fn infeasibility_isolated_city() {
    // City 2 has no finite edge in or out.
    let matrix = vec![
        vec![0, 5, INF, 4],
        vec![5, 0, INF, 3],
        vec![INF, INF, 0, INF],
        vec![4, 3, INF, 0],
    ];
    let (cost, path, _) = solve(matrix);
    assert!(cost >= INF);
    // The path is still syntactically valid.
    assert_eq!(path.len(), 5);
    assert_eq!(path[0], 0);
    assert_eq!(path[4], 0);
    let mut seen = path[..4].to_vec();
    seen.sort();
    assert_eq!(seen, vec![0, 1, 2, 3]);
}

#[test]
fn tie_break_lowest_index() {
    // Every off-diagonal edge costs 1: every tour is optimal, so the
    // reconstruction must take the lowest-indexed city at each step.
    let matrix = vec![
        vec![0, 1, 1, 1],
        vec![1, 0, 1, 1],
        vec![1, 1, 0, 1],
        vec![1, 1, 1, 0],
    ];
    let (cost, path, _) = solve(matrix.clone());
    assert_eq!(cost, 4);
    assert_eq!(path, vec![0, 1, 2, 3, 0]);
    // Two equal-cost optimal tours via different next choices.
    let tied = vec![
        vec![0, 1, 2, 1],
        vec![1, 0, 1, 2],
        vec![2, 1, 0, 1],
        vec![1, 2, 1, 0],
    ];
    let (tcost, tpath, _) = solve(tied.clone());
    assert_eq!(tcost, 4);
    assert_eq!(tpath, vec![0, 1, 2, 3, 0]);
    let (tcost2, tpath2, _) = solve(tied);
    assert_eq!(tcost2, 4);
    assert_eq!(tpath2, vec![0, 1, 2, 3, 0]);
}

#[test]
fn asymmetric_costs_supported() {
    let matrix = vec![vec![0, 1, 100], vec![100, 0, 1], vec![1, 100, 0]];
    let (cost, path, _) = solve(matrix);
    assert_eq!(cost, 3);
    assert_eq!(path, vec![0, 1, 2, 0]);
}

#[test]
fn two_cities() {
    let matrix = vec![vec![0, 7], vec![9, 0]];
    let (cost, path, _) = solve(matrix);
    assert_eq!(cost, 16);
    assert_eq!(path, vec![0, 1, 0]);
}

#[test]
fn rejects_empty_matrix() {
    assert_eq!(TSPSolver::new(vec![]).err(), Some(SolverError::EmptyMatrix));
}

#[test]
fn rejects_too_many_cities() {
    let matrix = vec![vec![0; 58]; 58];
    assert_eq!(TSPSolver::new(matrix).err(), Some(SolverError::TooManyCities));
}

#[test]
fn rejects_non_square() {
    let matrix = vec![vec![0, 1], vec![1, 0, 2]];
    assert_eq!(TSPSolver::new(matrix).err(), Some(SolverError::NotSquare));
}

#[test]
fn rejects_negative_cost() {
    let matrix = vec![vec![0, -1], vec![1, 0]];
    assert_eq!(TSPSolver::new(matrix).err(), Some(SolverError::CostOutOfRange));
}

#[test]
fn rejects_cost_above_sentinel() {
    let matrix = vec![vec![0, INF + 1], vec![1, 0]];
    assert_eq!(TSPSolver::new(matrix).err(), Some(SolverError::CostOutOfRange));
}

#[test]
fn sentinel_leaves_headroom() {
    assert_eq!(INF, i32::MAX / 2);
    assert!(INF.checked_add(INF).is_some());
}

#[test]
fn repeated_solve_is_stable() {
    let matrix = vec![
        vec![0, 10, 15, 20],
        vec![10, 0, 35, 25],
        vec![15, 35, 0, 30],
        vec![20, 25, 30, 0],
    ];
    let mut solver = TSPSolver::new(matrix).expect("matrix should be accepted");
    let (c1, p1) = solver.solve();
    let entries = solver.memo_entries();
    let states = solver.computed_states();
    // Memo entries are write-once: a second solve reuses them all and
    // reproduces the same answer.
    let (c2, p2) = solver.solve();
    assert_eq!(c1, c2);
    assert_eq!(p1, p2);
    assert_eq!(solver.memo_entries(), entries);
    assert!(solver.computed_states() >= states);
}

#[test]
fn trivial_solve_touches_nothing() {
    let mut solver = TSPSolver::new(vec![vec![0]]).expect("single city accepted");
    let before_total = solver.total_states();
    let (cost, path) = solver.solve();
    assert_eq!((cost, path), (0, vec![0]));
    // The trivial case runs no DP recursion and creates no memo entries.
    assert_eq!(solver.memo_entries(), 0);
    assert_eq!(solver.computed_states(), 0);
    assert_eq!(solver.total_states(), before_total);
}
