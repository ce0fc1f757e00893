use tile_puzzle::controller::Message;
use tile_puzzle::controller::PuzzleController;

fn identity(n: u32) -> Vec<u32> {
    (0..n).collect()
}

#[test]
fn fresh_puzzle_state() {
    let c = PuzzleController::new();
    assert_eq!(c.size, 20);
    assert_eq!(c.pieces, identity(400));
    assert_eq!(c.current, None);
}

#[test]
fn swap_exchanges_two_slots() {
    let mut c = PuzzleController::new();
    let plan = c.apply(Message::Swap(0, 1));
    assert!(plan.is_none());
    assert_eq!(c.pieces[0], 1);
    assert_eq!(c.pieces[1], 0);
    assert_eq!(&c.pieces[2..], &identity(400)[2..]);
    assert_eq!(c.current, None);
}

#[test]
fn click_selects_then_swaps() {
    let mut c = PuzzleController::new();
    c.apply(Message::Click(3));
    assert_eq!(c.current, Some(3));
    assert_eq!(c.pieces, identity(400));
    c.apply(Message::Click(5));
    assert_eq!(c.current, None);

    let mut d = PuzzleController::new();
    d.apply(Message::Swap(3, 5));
    assert_eq!(c.pieces, d.pieces);
}

#[test]
fn click_twice_on_one_slot_changes_nothing() {
    let mut c = PuzzleController::new();
    c.apply(Message::Click(7));
    c.apply(Message::Click(7));
    assert_eq!(c.current, None);
    assert_eq!(c.pieces, identity(400));
}

#[test]
fn reset_restores_identity() {
    let mut c = PuzzleController::new();
    c.apply(Message::Shuffle);
    c.apply(Message::Click(2));
    c.apply(Message::Reset);
    assert_eq!(c.pieces, identity(400));
    assert_eq!(c.current, None);
    assert_eq!(c.size, 20);
}

#[test]
fn resize_reinitializes_and_clears_selection() {
    let mut c = PuzzleController::new();
    c.apply(Message::Shuffle);
    c.apply(Message::Click(1));
    c.apply(Message::Resize(3));
    assert_eq!(c.size, 3);
    assert_eq!(c.pieces, identity(9));
    assert_eq!(c.current, None);
}

#[test]
fn shuffle_keeps_a_permutation() {
    let mut c = PuzzleController::new();
    c.apply(Message::Shuffle);
    let mut sorted = c.pieces.clone();
    sorted.sort();
    assert_eq!(sorted, identity(400));
}

#[test]
fn shuffle_rearranges_a_large_grid() {
    // A uniformly random arrangement of 400 tiles is never, in practice,
    // the solved one.
    let mut c = PuzzleController::new();
    c.apply(Message::Shuffle);
    assert_ne!(c.pieces, identity(400));
}

#[test]
fn solve_leaves_state_and_its_plan_replays_to_identity() {
    let mut c = PuzzleController::new();
    c.apply(Message::Resize(6));
    c.apply(Message::Shuffle);
    let before = c.pieces.clone();
    let plan = c.apply(Message::Solve).expect("a solve request returns a plan");
    assert_eq!(c.pieces, before);
    assert_eq!(c.size, 6);

    let mut listed: Vec<u32> = plan.iter().flatten().copied().collect();
    listed.sort();
    assert_eq!(listed, identity(36));
    let swaps: usize = plan.iter().map(|cycle| cycle.len() - 1).sum();
    assert_eq!(swaps, 36 - plan.len());

    for cycle in &plan {
        for pair in cycle.windows(2) {
            c.apply(Message::Swap(pair[0], pair[1]));
        }
    }
    assert_eq!(c.pieces, identity(36));
}

#[test]
fn one_by_one_grid() {
    let mut c = PuzzleController::new();
    c.apply(Message::Resize(1));
    assert_eq!(c.pieces, vec![0]);
    c.apply(Message::Click(0));
    c.apply(Message::Click(0));
    assert_eq!(c.pieces, vec![0]);
    assert_eq!(c.current, None);
    let plan = c.apply(Message::Solve).expect("a solve request returns a plan");
    assert_eq!(plan, vec![vec![0]]);
}

#[test]
fn resize_to_largest_view_size() {
    let mut c = PuzzleController::new();
    c.apply(Message::Resize(100));
    assert_eq!(c.size, 100);
    assert_eq!(c.pieces, identity(10000));
    assert_eq!(c.current, None);
}

#[test]
fn solve_on_solved_grid_needs_no_swaps() {
    let mut c = PuzzleController::new();
    c.apply(Message::Resize(2));
    let plan = c.apply(Message::Solve).expect("a solve request returns a plan");
    assert_eq!(plan.len(), 4);
    assert!(plan.iter().all(|cycle| cycle.len() == 1));
    assert_eq!(c.pieces, identity(4));
}
