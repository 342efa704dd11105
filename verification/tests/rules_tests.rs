use lib::board::{idx, to_xy, Board, Idx, Player, Undo, SIZE};
use lib::patterns::PatternTable;
use lib::rules::{check_end, count_free_threes, generate, is_legal, GameEnd};

#[test]
fn free_three_contiguous_diagonal_is_detected() {
    let pt = PatternTable::build();
    let mut b = Board::new();
    b.to_move = Player::Black;
    // three in a diagonal row with open ends: (5,5) (6,6) (7,7)
    let u1 = play_raw(&mut b, idx(5, 5), Player::Black, &pt);
    let u2 = play_raw(&mut b, idx(6, 6), Player::Black, &pt);
    assert_eq!(count_free_threes(&mut b, idx(7, 7), Player::Black, &pt), 1);
    undo_raw(&mut b, u2);
    undo_raw(&mut b, u1);
}

#[test]
fn free_three_gapped_form_is_detected() {
    let pt = PatternTable::build();
    let mut b = Board::new();
    b.to_move = Player::Black;
    // . X . X X . horizontally: stones at (5,5) and (7,5), gap at (6,5),
    // playing at (6,5) completes ". X X X ." shape via the gapped rule.
    let u1 = play_raw(&mut b, idx(5, 5), Player::Black, &pt);
    let u2 = play_raw(&mut b, idx(7, 5), Player::Black, &pt);
    assert_eq!(count_free_threes(&mut b, idx(6, 5), Player::Black, &pt), 1);
    undo_raw(&mut b, u2);
    undo_raw(&mut b, u1);
}

#[test]
fn double_three_is_illegal() {
    // Two stones placed so that playing `a`
    // creates two simultaneous free-threes.
    let pt = PatternTable::build();
    let mut b = Board::new();
    b.to_move = Player::Black;
    // horizontal three-to-be: (8,5) (9,5) [a=10,5] existing pair, open.
    let u1 = play_raw(&mut b, idx(8, 5), Player::Black, &pt);
    let u2 = play_raw(&mut b, idx(9, 5), Player::Black, &pt);
    // diagonal three-to-be sharing the same point a=(10,5):
    let u3 = play_raw(&mut b, idx(9, 4), Player::Black, &pt);
    let u4 = play_raw(&mut b, idx(11, 6), Player::Black, &pt);
    assert!(!is_legal(&b, idx(10, 5), Player::Black, &pt));
    undo_raw(&mut b, u4);
    undo_raw(&mut b, u3);
    undo_raw(&mut b, u2);
    undo_raw(&mut b, u1);
}

#[test]
fn double_three_becomes_legal_when_one_arm_is_blocked() {
    let pt = PatternTable::build();
    let mut b = Board::new();
    b.to_move = Player::Black;
    let u1 = play_raw(&mut b, idx(8, 5), Player::Black, &pt);
    let u2 = play_raw(&mut b, idx(9, 5), Player::Black, &pt);
    let u3 = play_raw(&mut b, idx(9, 4), Player::Black, &pt);
    let u4 = play_raw(&mut b, idx(11, 6), Player::Black, &pt);
    // block one of the two free-three arms with a white stone
    let u5 = play_raw(&mut b, idx(7, 5), Player::White, &pt);
    assert!(is_legal(&b, idx(10, 5), Player::Black, &pt));
    undo_raw(&mut b, u5);
    undo_raw(&mut b, u4);
    undo_raw(&mut b, u3);
    undo_raw(&mut b, u2);
    undo_raw(&mut b, u1);
}

#[test]
fn double_three_by_capture_is_legal() {
    // Introducing a double-three by
    // capturing a pair is explicitly allowed. Build a position where
    // the move both captures a pair AND would otherwise be a
    // double-three.
    let pt = PatternTable::build();
    let mut b = Board::new();
    b.to_move = Player::Black;
    // two free-three arms for Black around (10,5), same as above:
    let u1 = play_raw(&mut b, idx(8, 5), Player::Black, &pt);
    let u2 = play_raw(&mut b, idx(9, 5), Player::Black, &pt);
    let u3 = play_raw(&mut b, idx(9, 4), Player::Black, &pt);
    let u4 = play_raw(&mut b, idx(11, 6), Player::Black, &pt);
    // a capturable White pair flanked by Black at (10,5) and an
    // existing Black stone two steps further down the same axis as one
    // arm, positioned off the double-three axes so it only adds a
    // capture, not a third free-three:
    let u5 = play_raw(&mut b, idx(10, 8), Player::Black, &pt);
    let u6 = play_raw(&mut b, idx(10, 6), Player::White, &pt);
    let u7 = play_raw(&mut b, idx(10, 7), Player::White, &pt);
    assert!(is_legal(&b, idx(10, 5), Player::Black, &pt));
    undo_raw(&mut b, u7);
    undo_raw(&mut b, u6);
    undo_raw(&mut b, u5);
    undo_raw(&mut b, u4);
    undo_raw(&mut b, u3);
    undo_raw(&mut b, u2);
    undo_raw(&mut b, u1);
}

#[test]
fn generate_on_empty_board_returns_only_center() {
    let pt = PatternTable::build();
    let b = Board::new();
    let mut out = Vec::new();
    generate(&b, Player::Black, &pt, &mut out);
    assert_eq!(out, vec![idx(SIZE / 2, SIZE / 2)]);
}

#[test]
fn generate_only_returns_cells_near_existing_stones() {
    let pt = PatternTable::build();
    let mut b = Board::new();
    b.to_move = Player::Black;
    let _u = play_raw(&mut b, idx(9, 9), Player::Black, &pt);
    let mut out = Vec::new();
    generate(&b, Player::White, &pt, &mut out);
    assert!(!out.is_empty());
    for &mv in &out {
        let (x, y) = to_xy(mv);
        let (cx, cy) = (9i32, 9i32);
        let dist = (x as i32 - cx).abs().max((y as i32 - cy).abs());
        assert!(dist <= 2, "candidate {mv:?} too far from the only stone");
    }
}

#[test]
fn unbreakable_five_wins() {
    let pt = PatternTable::build();
    let mut b = Board::new();
    for x in 4..8 {
        let _ = play_raw(&mut b, idx(x, 5), Player::Black, &pt);
    }
    b.to_move = Player::Black;
    b.play(idx(8, 5), &pt);
    let result = check_end(&mut b, idx(8, 5), &pt);
    assert_eq!(result, GameEnd::Win(Player::Black));
}

#[test]
fn five_broken_by_available_capture_is_not_a_win() {
    // Black five along y=5, x=4..8. A vertical Black pair at (5,5)-(5,6)
    // is flanked by an existing White stone at (5,4); White can play
    // (5,7) to capture (5,5) and (5,6), removing (5,5) from the five.
    let pt = PatternTable::build();
    let mut b = Board::new();
    for &(x, y, p) in &[
        (4, 5, Player::Black),
        (6, 5, Player::Black),
        (7, 5, Player::Black),
        (5, 6, Player::Black),
        (5, 4, Player::White),
        (5, 5, Player::Black),
    ] {
        let _ = play_raw(&mut b, idx(x, y), p, &pt);
    }
    b.to_move = Player::Black;
    b.play(idx(8, 5), &pt);
    let result = check_end(&mut b, idx(8, 5), &pt);
    assert_eq!(result, GameEnd::Ongoing, "the (5,7) capture should break the five");
}

#[test]
fn five_not_a_win_when_mover_already_lost_four_pairs_and_capture_available() {
    let pt = PatternTable::build();
    let mut b = Board::new();
    for x in 4..8 {
        let _ = play_raw(&mut b, idx(x, 5), Player::Black, &pt);
    }
    b.captures[Player::White as usize] = 8; // Black has lost 4 pairs
    let _ = play_raw(&mut b, idx(15, 15), Player::White, &pt);
    let _ = play_raw(&mut b, idx(15, 16), Player::Black, &pt);
    let _ = play_raw(&mut b, idx(15, 17), Player::Black, &pt);
    b.to_move = Player::Black;
    b.play(idx(8, 5), &pt);
    let result = check_end(&mut b, idx(8, 5), &pt);
    assert_eq!(result, GameEnd::Ongoing);
}

#[test]
fn ten_stones_captured_wins_by_capture() {
    let pt = PatternTable::build();
    let mut b = Board::new();
    b.captures[Player::Black as usize] = 10;
    let _ = play_raw(&mut b, idx(9, 9), Player::White, &pt);
    b.to_move = Player::White; // so p = to_move.other() = Black
    let result = check_end(&mut b, idx(9, 9), &pt);
    assert_eq!(result, GameEnd::Win(Player::Black));
}

/// Test-only helper: plays a move for an arbitrary player regardless of
/// `b.to_move`, bypassing turn alternation, so fixtures can build
/// specific positions directly. Returns the `Undo` and restores
/// `to_move` to what it was, so `undo_raw` can reverse it symmetrically.
fn play_raw(b: &mut Board, mv: Idx, p: Player, pt: &PatternTable) -> (Undo, Player) {
    let saved_to_move = b.to_move;
    b.to_move = p;
    let u = b.play(mv, pt);
    (u, saved_to_move)
}

fn undo_raw(b: &mut Board, (u, saved_to_move): (Undo, Player)) {
    b.undo(&u);
    b.to_move = saved_to_move;
}
