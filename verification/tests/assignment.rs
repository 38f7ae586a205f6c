use photomosaic::assign::{quota_assign, tile_quota, unfair_assignment};
use photomosaic::assign::best_fit_assignment;
use photomosaic::fair::{all_assigned, duplicate_names, duplicate_sources, solve_fair_assignment};

#[test]
fn quota_is_ceiling() {
    assert_eq!(tile_quota(10, 3), 4);
    assert_eq!(tile_quota(9, 3), 3);
    assert_eq!(tile_quota(0, 5), 0);
}

#[test]
fn unfair_takes_closest_tile_under_quota() {
    // 4 blocks, 2 tiles, quota 2; every block prefers tile 0.
    let keys = vec![1, 9, 1, 9, 1, 9, 1, 9];
    assert_eq!(unfair_assignment(&keys, 4, 2), vec![0, 0, 1, 1]);
}

#[test]
fn unfair_ties_go_to_first_tile() {
    // quota 1: equal keys go to the first tile with room
    let keys = vec![3, 3, 3, 3, 3, 3];
    assert_eq!(unfair_assignment(&keys, 2, 3), vec![0, 1]);
}

#[test]
fn unfair_never_exceeds_quota() {
    let nb = 50;
    let nt = 7;
    let keys: Vec<u32> = (0..nb * nt).map(|i| ((i * 37) % 11) as u32).collect();
    let a = unfair_assignment(&keys, nb, nt);
    let quota = (nb + nt - 1) / nt;
    for t in 0..nt {
        assert!(a.iter().filter(|&&x| x == t).count() <= quota);
    }
}

#[test]
fn quota_fallback_picks_least_used() {
    // quota 0: nothing has room, so each block takes the first least-used tile
    let keys = vec![5, 1, 5, 1, 5, 1];
    assert_eq!(quota_assign(&keys, 3, 2, 0), vec![0, 1, 0]);
}

#[test]
fn duplicates_two_and_a_half() {
    // --dup 2.5 with two tiles: five copies, three of the first tile and two of the second
    assert_eq!(duplicate_sources(2, 5), vec![0, 0, 0, 1, 1]);
}

#[test]
fn duplicates_half() {
    // --dup 0.5 with four tiles: two copies, of the first two tiles
    assert_eq!(duplicate_sources(4, 2), vec![0, 1]);
}

#[test]
fn duplicate_names_follow_sources() {
    let names = vec!["a".to_string(), "b".to_string()];
    assert_eq!(duplicate_names(&names, &vec![0, 0, 1]), vec!["a".to_string(), "a".to_string(), "b".to_string()]);
}

#[test]
fn best_fit_ignores_usage() {
    // 2 blocks, 2 tiles: both prefer tile 1, and both get it
    let keys = vec![5, 1, 5, 1];
    assert_eq!(best_fit_assignment(&keys, 2, 2), vec![1, 1]);
    // ties go to the first tile
    assert_eq!(best_fit_assignment(&vec![3, 3, 2, 2], 2, 2), vec![0, 0]);
}

#[test]
fn all_assigned_needs_every_row() {
    assert_eq!(all_assigned(&vec![Some(2), Some(0), Some(1)]), Some(vec![2, 0, 1]));
    assert_eq!(all_assigned(&vec![Some(2), None, Some(1)]), None);
}

#[test]
fn fair_assignment_is_optimal_on_small_matrix() {
    let m = vec![1, 2, 1, 4, 5, 6, 7, 8, 9];
    assert_eq!(solve_fair_assignment(&m, 3, 3), Ok(vec![2, 1, 0]));
}

#[test]
fn fair_assignment_fails_with_fewer_copies_than_blocks() {
    let m = vec![5, 5, 1, 0, 2, 3];
    assert_eq!(solve_fair_assignment(&m, 3, 2), Err("Failed to solve assignment problem".to_string()));
    assert_eq!(solve_fair_assignment(&[], 4, 0), Err("Failed to solve assignment problem".to_string()));
}

#[test]
fn fair_assignment_no_blocks() {
    assert_eq!(solve_fair_assignment(&[], 0, 4), Ok(Vec::<usize>::new()));
    assert_eq!(solve_fair_assignment(&[], 0, 0), Ok(Vec::<usize>::new()));
}

#[test]
fn fair_assignment_survives_costs_near_max() {
    // running sums of the solver would overflow in u32 here
    let m = vec![0, u32::MAX, 0, 5, 0, 5, 5, 0, 5];
    let a = solve_fair_assignment(&m, 3, 3).unwrap();
    let cost: u64 = a.iter().enumerate().map(|(b, &d)| m[b * 3 + d] as u64).sum();
    assert_eq!(cost, 5);
}

#[test]
fn fair_copies_bound_tile_uses() {
    // 3 tiles, 5 copies (2, 2, 1); 4 blocks all cheapest with copy 4 (tile 2)
    let sources = duplicate_sources(3, 5);
    assert_eq!(sources, vec![0, 0, 1, 1, 2]);
    let mut m = vec![10u32; 4 * 5];
    for b in 0..4 {
        m[b * 5 + 4] = 0;
    }
    let a = solve_fair_assignment(&m, 4, 5).unwrap();
    let mut seen = a.clone();
    seen.sort();
    seen.dedup();
    assert_eq!(seen.len(), 4);
    for t in 0..3 {
        let uses = a.iter().filter(|&&d| sources[d] == t).count();
        let copies = sources.iter().filter(|&&s| s == t).count();
        assert!(uses <= copies);
    }
}
