use photomosaic::lap::{fair_auction_lap, fair_greedy_lap, solve_lap};

fn counts(a: &[Option<usize>], n: usize) -> Vec<usize> {
    let mut c = vec![0; n];
    for x in a {
        c[x.unwrap()] += 1;
    }
    c
}

#[test]
fn greedy_small_problem_is_left_to_exact_solver() {
    let cm = vec![1u32; 6];
    assert_eq!(fair_greedy_lap(&cm, 2, 3), vec![None, None]);
}

#[test]
fn auction_small_problem_is_left_to_exact_solver() {
    assert_eq!(fair_auction_lap(&[1, 2, 3, 4], 2, 2), vec![None, None]);
    // below the cutoff nothing is read: a short matrix or no tiles at all
    assert_eq!(fair_auction_lap(&[], 3, 0), vec![None, None, None]);
}

#[test]
fn greedy_uses_every_tile_its_capacity() {
    // 1000 blocks x 1000 tiles: capacity 1 each.
    let nb = 1000;
    let nt = 1000;
    let mut cm = vec![0u32; nb * nt];
    for b in 0..nb {
        for t in 0..nt {
            cm[b * nt + t] = ((b * 7 + t * 13) % 101) as u32;
        }
    }
    let a = fair_greedy_lap(&cm, nb, nt);
    assert_eq!(a.len(), nb);
    assert!(counts(&a, nt).iter().all(|&c| c == 1));
}

#[test]
fn greedy_capacity_with_remainder() {
    // 1001 blocks x 1000 tiles: tile 0 may take two blocks, the others one.
    let nb = 1001;
    let nt = 1000;
    let cm = vec![5u32; nb * nt];
    let a = fair_greedy_lap(&cm, nb, nt);
    let c = counts(&a, nt);
    assert_eq!(c[0], 2);
    assert!(c[1..].iter().all(|&x| x == 1));
    // all equal costs: each block takes the first tile with room
    assert_eq!(a[0], Some(0));
    assert_eq!(a[1], Some(0));
    assert_eq!(a[2], Some(1));
}

#[test]
fn greedy_takes_cheapest_tile_with_room() {
    let nb = 1000;
    let nt = 1000;
    let mut cm = vec![100u32; nb * nt];
    cm[0 * nt + 5] = 1; // block 0 prefers tile 5
    cm[1 * nt + 5] = 0; // block 1 prefers tile 5 too, but it is full
    cm[1 * nt + 9] = 2;
    let a = fair_greedy_lap(&cm, nb, nt);
    assert_eq!(a[0], Some(5));
    assert_eq!(a[1], Some(9));
}

#[test]
fn greedy_all_max_costs_fall_back_to_least_used() {
    let nb = 1000;
    let nt = 1000;
    let cm = vec![u32::MAX; nb * nt];
    let a = fair_greedy_lap(&cm, nb, nt);
    let expected: Vec<Option<usize>> = (0..nb).map(Some).collect();
    assert_eq!(a, expected);
}

#[test]
fn auction_uses_every_tile_its_capacity() {
    let nb = 2000;
    let nt = 500;
    let mut cm = vec![0u32; nb * nt];
    for b in 0..nb {
        for t in 0..nt {
            cm[b * nt + t] = ((b * 31 + t * 17) % 997) as u32;
        }
    }
    let a = fair_auction_lap(&cm, nb, nt);
    assert!(counts(&a, nt).iter().all(|&c| c == 4));
}

#[test]
fn auction_first_block_takes_cheapest_tile() {
    let nb = 1000;
    let nt = 1000;
    let mut cm = vec![10u32; nb * nt];
    cm[3] = 2;
    cm[7] = 50;
    let a = fair_auction_lap(&cm, nb, nt);
    assert_eq!(a[0], Some(3));
    // tile 3 is full afterwards: block 1 takes the first of its cheapest tiles
    assert_eq!(a[1], Some(0));
}

#[test]
fn solve_lap_exact_below_threshold() {
    // 3000 blocks x 30 tiles: small problem, exact solver.
    let cm = vec![0u32; 3000 * 30];
    assert!(solve_lap(&cm, 3000, 30, false).iter().all(|x| x.is_none()));
}

#[test]
fn solve_lap_auction_serves_from_exact_threshold() {
    // 3000 blocks x 55 tiles = 165000 entries: the auction assigns every block.
    let cm = vec![0u32; 3000 * 55];
    let a = solve_lap(&cm, 3000, 55, false);
    assert!(a.iter().all(|x| x.is_some()));
    let c = counts(&a, 55);
    assert!(c.iter().all(|&k| k == 54 || k == 55));
}

#[test]
fn solve_lap_use_exact_flag() {
    let cm = vec![0u32; 2000 * 1000];
    assert!(solve_lap(&cm, 2000, 1000, true).iter().all(|x| x.is_none()));
}

#[test]
fn solve_lap_auction_range() {
    let nb = 2000;
    let nt = 1000;
    let cm = vec![7u32; nb * nt];
    let a = solve_lap(&cm, nb, nt, false);
    assert_eq!(a, fair_auction_lap(&cm, nb, nt));
    assert!(counts(&a, nt).iter().all(|&c| c == 2));
}

#[test]
fn solve_lap_greedy_range() {
    let nb = 10000;
    let nt = 1000;
    let cm = vec![7u32; nb * nt];
    let a = solve_lap(&cm, nb, nt, false);
    assert_eq!(a, fair_greedy_lap(&cm, nb, nt));
    assert!(counts(&a, nt).iter().all(|&c| c == 10));
}
