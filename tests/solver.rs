use p_dispersion::solver::{calibrate, candidate_thresholds, first_row_thresholds};
use p_dispersion::{
    distance_matrix, naive_solver, p_solver, solve_distances, solve_p_dispersion, FailureKind,
    NoPossibleDispersion, Point,
};

fn points(coords: &[(i32, i32)]) -> Vec<Point> {
    coords.iter().map(|&(x, y)| Point::new(x, y)).collect()
}

fn grid(rows: i32, cols: i32) -> Vec<Point> {
    let mut v = Vec::new();
    for r in 0..rows {
        for c in 0..cols {
            v.push(Point::new(r, c));
        }
    }
    v
}

fn min_pairwise(pts: &[Point], sel: &[usize]) -> u128 {
    let mut best = u128::MAX;
    for (k, &a) in sel.iter().enumerate() {
        for &b in &sel[k + 1..] {
            best = best.min(pts[a].squared_distance(&pts[b]));
        }
    }
    best
}

/// Largest smallest-distance over all choices of `p` points, by enumeration.
fn brute_force_best(pts: &[Point], p: usize) -> Option<u128> {
    let n = pts.len();
    let mut best: Option<u128> = None;
    for mask in 0u32..(1u32 << n) {
        if mask.count_ones() as usize != p {
            continue;
        }
        let sel: Vec<usize> = (0..n).filter(|i| mask >> i & 1 == 1).collect();
        let m = min_pairwise(pts, &sel);
        if m > 0 && best.map_or(true, |b| m > b) {
            best = Some(m);
        }
    }
    best
}

/// Whether some `p` points lie pairwise farther apart than `t`, by enumeration.
fn brute_force_feasible(pts: &[Point], p: usize, t: u128) -> bool {
    let n = pts.len();
    (0u32..(1u32 << n)).any(|mask| {
        mask.count_ones() as usize == p && {
            let sel: Vec<usize> = (0..n).filter(|i| mask >> i & 1 == 1).collect();
            min_pairwise(pts, &sel) > t
        }
    })
}

fn assert_valid(pts: &[Point], sel: &[usize], p: usize) {
    assert_eq!(sel.len(), p);
    for w in sel.windows(2) {
        assert!(w[0] < w[1]);
    }
    for &i in sel {
        assert!(i < pts.len());
    }
}

#[test]
fn boundary_scenario_picks_three_far_points() {
    let pts = points(&[(0, 0), (1, 0), (2, 0), (0, 1), (2, 1)]);
    let sel = solve_p_dispersion(&pts, 3).unwrap();
    assert_valid(&pts, &sel, 3);
    // (1,0), (0,1), (2,1) are pairwise at least sqrt(2) apart; every other
    // triple holds two points at distance 1.
    assert_eq!(sel, vec![1, 3, 4]);
    assert_eq!(min_pairwise(&pts, &sel), 2);
    assert_eq!(brute_force_best(&pts, 3), Some(2));
}

#[test]
fn single_point_two_placements_is_invalid_input() {
    let pts = points(&[(0, 0)]);
    assert_eq!(
        solve_p_dispersion(&pts, 2),
        Err(NoPossibleDispersion { kind: FailureKind::InvalidInput })
    );
}

#[test]
fn empty_input_is_invalid_input() {
    assert_eq!(
        solve_p_dispersion(&[], 1),
        Err(NoPossibleDispersion { kind: FailureKind::InvalidInput })
    );
}

#[test]
fn zero_placements_is_invalid_input() {
    let pts = points(&[(0, 0), (3, 4)]);
    assert_eq!(
        solve_p_dispersion(&pts, 0),
        Err(NoPossibleDispersion { kind: FailureKind::InvalidInput })
    );
}

#[test]
fn coincident_points_only_is_unsolvable() {
    let pts = points(&[(2, 2), (2, 2), (2, 2)]);
    assert_eq!(
        solve_p_dispersion(&pts, 2),
        Err(NoPossibleDispersion { kind: FailureKind::Unsolvable })
    );
}

#[test]
fn single_placement_returns_one_point() {
    let pts = points(&[(5, 5), (1, 1)]);
    let sel = solve_p_dispersion(&pts, 1).unwrap();
    assert_valid(&pts, &sel, 1);
}

#[test]
fn all_points_when_placements_equal_count() {
    let pts = points(&[(0, 0), (10, 0), (0, 10), (10, 10)]);
    assert_eq!(solve_p_dispersion(&pts, 4).unwrap(), vec![0, 1, 2, 3]);
}

#[test]
fn grid_scenario_reaches_known_optimum() {
    let pts = grid(10, 15);
    let first = solve_p_dispersion(&pts, 7).unwrap();
    assert_valid(&pts, &first, 7);
    // 7 points of a 10 by 15 grid can be at least sqrt(32) apart, not more.
    assert_eq!(min_pairwise(&pts, &first), 32);
    let second = solve_p_dispersion(&pts, 7).unwrap();
    assert_eq!(min_pairwise(&pts, &second), 32);
}

#[test]
fn coincident_points_never_both_selected() {
    let pts = points(&[(0, 0), (0, 0), (5, 0), (0, 5)]);
    let sel = solve_p_dispersion(&pts, 3).unwrap();
    assert_valid(&pts, &sel, 3);
    assert!(!(sel.contains(&0) && sel.contains(&1)));
    assert_eq!(min_pairwise(&pts, &sel), 25);
}

#[test]
fn optimal_on_small_instances() {
    let instances: Vec<Vec<Point>> = vec![
        points(&[(0, 0), (3, 1), (7, 2), (1, 8), (4, 4), (9, 9), (2, 5), (6, 7)]),
        points(&[(0, 0), (1, 1), (2, 2), (3, 3), (4, 4), (5, 5), (6, 6), (7, 7), (8, 8), (9, 9)]),
        points(&[
            (-5, 3), (4, -2), (0, 0), (7, 7), (-3, -3), (2, 6), (6, -5), (-7, 1), (1, -7), (3, 3),
            (-1, 5), (5, 0),
        ]),
        grid(3, 4),
    ];
    for pts in &instances {
        for p in 1..=pts.len() {
            let expected = brute_force_best(pts, p);
            match solve_p_dispersion(pts, p as u32) {
                Ok(sel) => {
                    assert_valid(pts, &sel, p);
                    if p >= 2 {
                        assert_eq!(Some(min_pairwise(pts, &sel)), expected);
                    }
                }
                Err(e) => {
                    assert_eq!(e.kind, FailureKind::Unsolvable);
                    assert_eq!(expected, None);
                }
            }
        }
    }
}

#[test]
fn feasibility_is_monotone_in_the_threshold() {
    let pts = points(&[(0, 0), (3, 1), (7, 2), (1, 8), (4, 4), (9, 9), (2, 5)]);
    for p in 2..=pts.len() {
        let best = min_pairwise(&pts, &solve_p_dispersion(&pts, p as u32).unwrap());
        let mut seen_infeasible = false;
        for t in 0..=200u128 {
            let feasible = brute_force_feasible(&pts, p, t);
            if seen_infeasible {
                assert!(!feasible);
            }
            seen_infeasible |= !feasible;
            assert_eq!(feasible, t < best);
        }
    }
}

#[test]
fn distance_matrix_holds_squared_distances() {
    let pts = points(&[(1, 2), (4, 6), (-1, 2)]);
    let m = distance_matrix(&pts);
    assert_eq!(m, vec![vec![0, 25, 4], vec![25, 0, 41], vec![4, 41, 0]]);
}

#[test]
fn squared_distance_is_exact_at_extremes() {
    let a = Point::new(i32::MIN, i32::MIN);
    let b = Point::new(i32::MAX, i32::MAX);
    let d = (u32::MAX as u128) * (u32::MAX as u128);
    assert_eq!(a.squared_distance(&b), 2 * d);
    assert_eq!(Point::new(1, 2).squared_distance(&Point::new(4, 6)), 25);
}

#[test]
fn candidate_thresholds_are_sorted_table_keys() {
    let m = vec![vec![0, 9, 4], vec![9, 0, 1], vec![4, 1, 0]];
    assert_eq!(candidate_thresholds(&m), vec![0, 0, 0, 1, 1, 4, 4, 9, 9]);
    assert_eq!(first_row_thresholds(&m), vec![0, 4, 9]);
}

#[test]
fn calibrate_finds_largest_beaten_threshold() {
    let m = vec![vec![0, 9, 4], vec![9, 0, 1], vec![4, 1, 0]];
    let c = vec![0, 1, 4, 9];
    let (sel, k) = calibrate(&m, &c, 2).unwrap();
    // Points 0 and 1 are 9 apart: they beat 4, and nothing beats 9.
    assert_eq!(sel, vec![0, 1]);
    assert_eq!(k, 2);
    assert_eq!(calibrate(&m, &vec![9, 10], 2), None);
}

#[test]
fn solve_distances_on_a_custom_table() {
    let m = vec![
        vec![0, 3, 8, 5],
        vec![3, 0, 2, 9],
        vec![8, 2, 0, 4],
        vec![5, 9, 4, 0],
    ];
    // The triples' smallest keys: {0,2,3} 4, {0,1,3} 3, {1,2,3} 2, {0,1,2} 2.
    // The pair farthest apart is {1,3}, at 9.
    assert_eq!(solve_distances(&m, 3).unwrap(), vec![0, 2, 3]);
    assert_eq!(solve_distances(&m, 2).unwrap(), vec![1, 3]);
    assert_eq!(
        solve_distances(&m, 5),
        Err(NoPossibleDispersion { kind: FailureKind::InvalidInput })
    );
}

#[test]
fn p_solver_uses_distances_from_first_point() {
    let pts = points(&[(0, 0), (1, 0), (2, 0), (0, 1), (2, 1)]);
    let sel = p_solver(&pts, 3).unwrap();
    assert_valid(&pts, &sel, 3);
    // The squared distances from (0,0) are 0, 1, 4 and 5; three points beat
    // 1 but not 4.
    assert!(min_pairwise(&pts, &sel) > 1);
    assert_eq!(p_solver(&pts, 0), None);
    assert_eq!(p_solver(&pts, 6), None);
    assert_eq!(p_solver(&points(&[(1, 1), (1, 1)]), 2), None);
}

#[test]
fn naive_solver_matches_p_solver() {
    let pts = grid(4, 5);
    for p in 0..=21u8 {
        assert_eq!(naive_solver(&pts, p), p_solver(&pts, p as u32));
    }
}
