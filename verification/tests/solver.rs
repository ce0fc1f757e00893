use tile_puzzle::solver::solve;

/// Replay a solve plan: swap each adjacent pair of listed slots, cycle by
/// cycle, left to right.
fn replay(mut arrangement: Vec<u32>, cycles: &[Vec<u32>]) -> Vec<u32> {
    for cycle in cycles {
        for pair in cycle.windows(2) {
            arrangement.swap(pair[0] as usize, pair[1] as usize);
        }
    }
    arrangement
}

fn swap_total(cycles: &[Vec<u32>]) -> usize {
    cycles.iter().map(|c| c.len() - 1).sum()
}

#[test]
fn two_two_cycles_decompose() {
    let cycles = solve(&vec![3, 2, 1, 0]);
    assert_eq!(cycles, vec![vec![3, 0], vec![2, 1]]);
}

#[test]
fn two_two_cycles_replay() {
    let arrangement: Vec<u32> = vec![3, 2, 1, 0];
    let cycles = solve(&arrangement);
    assert_eq!(cycles.len(), 2);
    assert!(cycles.iter().all(|c| c.len() == 2));
    assert_eq!(swap_total(&cycles), 2);
    assert_eq!(replay(arrangement, &cycles), vec![0, 1, 2, 3]);
}

#[test]
fn identity_yields_singletons() {
    let cycles = solve(&vec![0, 1, 2, 3]);
    assert_eq!(cycles, vec![vec![3], vec![2], vec![1], vec![0]]);
    assert_eq!(swap_total(&cycles), 0);
    assert_eq!(replay(vec![0, 1, 2, 3], &cycles), vec![0, 1, 2, 3]);
}

#[test]
fn single_three_cycle() {
    let arrangement: Vec<u32> = vec![1, 2, 0];
    let cycles = solve(&arrangement);
    assert_eq!(cycles.len(), 1);
    assert_eq!(cycles[0].len(), 3);
    assert_eq!(swap_total(&cycles), 2);
    assert_eq!(replay(arrangement, &cycles), vec![0, 1, 2]);
}

#[test]
fn empty_arrangement() {
    let cycles = solve(&Vec::new());
    assert!(cycles.is_empty());
}

#[test]
fn swap_count_is_size_minus_cycle_count() {
    let arrangement: Vec<u32> = vec![3, 2, 1, 0];
    let cycles = solve(&arrangement);
    assert_eq!(swap_total(&cycles), arrangement.len() - cycles.len());

    let arrangement: Vec<u32> = vec![4, 0, 1, 2, 3, 6, 5];
    let cycles = solve(&arrangement);
    assert_eq!(swap_total(&cycles), arrangement.len() - cycles.len());
    assert_eq!(replay(arrangement, &cycles), vec![0, 1, 2, 3, 4, 5, 6]);
}

#[test]
fn every_slot_listed_once() {
    let arrangement: Vec<u32> = vec![5, 3, 0, 1, 4, 2, 7, 6];
    let cycles = solve(&arrangement);
    let mut listed: Vec<u32> = cycles.iter().flatten().copied().collect();
    listed.sort();
    let expected: Vec<u32> = (0..arrangement.len() as u32).collect();
    assert_eq!(listed, expected);
    assert_eq!(replay(arrangement, &cycles), expected);
}
