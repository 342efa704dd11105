use lib::board::{idx, to_xy, Board, Cell, Player, SIZE};
use lib::eval::{evaluate, WIN};
use lib::patterns::{Pat, PatternTable};
use lib::rules::{check_end, count_free_threes, generate, generate_with_patterns, is_legal, GameEnd};
use lib::search::{
    budget_reached, find_best_move, negamax, table_if_reserved, order_score, Bound, SearchConfig, SearchCtx, TranspositionTable, TtEntry,
    ORD_CAPTURE_BASE, ORD_KILLER1, ORD_KILLER2,
};
use std::time::Instant;

fn same_board(a: &Board, b: &Board) -> bool {
    a.cells == b.cells
        && a.captures == b.captures
        && a.to_move == b.to_move
        && a.zobrist == b.zobrist
        && a.stone_count == b.stone_count
        && a.neighbor == b.neighbor
        && a.acc == b.acc
}

#[test]
fn capturing_play_then_undo_restores_the_board() {
    let pt = PatternTable::build();
    let mut b = Board::new();
    b.play(idx(1, 0), &pt);
    b.play(idx(0, 0), &pt);
    b.play(idx(2, 0), &pt);
    let before = b.clone();
    let u = b.play(idx(3, 0), &pt);
    assert_eq!(u.n_captured, 2);
    assert_eq!(b.stone_count, before.stone_count - 1);
    assert_ne!(b.zobrist, before.zobrist);
    b.undo(&u);
    assert!(same_board(&b, &before));
}

#[test]
fn new_board_accumulator_and_keys() {
    let pt = PatternTable::build();
    let b = Board::new();
    assert_eq!(b.acc, [0, 0]);
    assert_eq!(b.full_recompute_acc(&pt), [0, 0]);
    assert_eq!(b.zobrist, b.key_side);
    assert_eq!(b.stone_count, 0);
    assert_eq!(b.key_cell.len(), 1458);
    assert_eq!(b.key_captures.len(), 22);
    assert!(same_board(&b, &Board::default()));
}

#[test]
fn play_updates_the_accumulator_like_a_full_recompute() {
    let pt = PatternTable::build();
    let mut b = Board::new();
    for &(x, y) in &[(9, 9), (9, 10), (10, 9), (10, 10), (11, 9)] {
        b.play(idx(x, y), &pt);
        assert_eq!(b.acc, b.full_recompute_acc(&pt));
    }
    assert_ne!(b.acc, [0, 0]);
}

#[test]
fn evaluation_is_antisymmetric_and_counts_capture_bonus() {
    let mut b = Board::new();
    b.acc = [1_000, 250];
    b.captures = [10, 3];
    b.to_move = Player::Black;
    let black = evaluate(&b);
    // five pairs give the top bonus, one pair gives 4,000
    assert_eq!(black, (1_000 + 10_000_000) - (250 + 4_000));
    b.to_move = Player::White;
    assert_eq!(evaluate(&b), -black);
    b.captures = [40, 0];
    b.to_move = Player::Black;
    assert_eq!(evaluate(&b), 1_000 + 10_000_000 - 250);
}

#[test]
fn legality_of_occupied_and_wall_cells() {
    let pt = PatternTable::build();
    let mut b = Board::new();
    b.play(idx(9, 9), &pt);
    assert!(!is_legal(&b, idx(9, 9), Player::White, &pt));
    assert!(!is_legal(&b, idx(0, 0).wrapping_sub(1), Player::White, &pt));
    assert!(!is_legal(&b, 5000, Player::White, &pt));
    assert!(is_legal(&b, idx(10, 10), Player::White, &pt));
}

#[test]
fn count_free_threes_leaves_the_board_unchanged() {
    let pt = PatternTable::build();
    let mut b = Board::new();
    b.play(idx(5, 5), &pt);
    b.play(idx(12, 12), &pt);
    b.play(idx(6, 6), &pt);
    b.play(idx(12, 13), &pt);
    let before = b.clone();
    assert_eq!(count_free_threes(&mut b, idx(7, 7), Player::Black, &pt), 1);
    assert!(same_board(&b, &before));
    assert_eq!(count_free_threes(&mut b, idx(15, 2), Player::Black, &pt), 0);
    assert!(same_board(&b, &before));
}

#[test]
fn generate_with_patterns_matches_generate() {
    let pt = PatternTable::build();
    let mut b = Board::new();
    b.play(idx(9, 9), &pt);
    b.play(idx(9, 10), &pt);
    let mut plain = Vec::new();
    generate(&b, b.to_move, &pt, &mut plain);
    let mut annotated = Vec::new();
    generate_with_patterns(&b, b.to_move, &pt, &mut annotated);
    assert_eq!(plain.len(), annotated.len());
    for (i, &(mv, pats, caps)) in annotated.iter().enumerate() {
        assert_eq!(mv, plain[i]);
        assert_eq!(caps, b.captures_of(mv, b.to_move).1);
        assert_eq!(pats[0], pt.get(b.hypothetical_window_code(mv, 1, b.to_move)));
        let (x, y) = to_xy(mv);
        assert!(x < SIZE && y < SIZE);
    }
}

#[test]
fn check_end_reports_only_the_mover_and_leaves_the_board() {
    let pt = PatternTable::build();
    let mut b = Board::new();
    b.play(idx(9, 9), &pt);
    let before = b.clone();
    assert_eq!(check_end(&mut b, idx(9, 9), &pt), GameEnd::Ongoing);
    assert!(same_board(&b, &before));
    b.captures = [12, 0];
    assert_eq!(check_end(&mut b, idx(9, 9), &pt), GameEnd::Win(Player::Black));
    b.captures = [0, 12];
    assert_eq!(check_end(&mut b, idx(9, 9), &pt), GameEnd::Ongoing);
}

#[test]
fn transposition_table_slots_are_independent() {
    let mut tt = TranspositionTable::new();
    let n = tt.entries.len();
    assert!(n == 1 << 21 || n == 1 << 18 || n == 1 << 15 || n == 1);
    assert_eq!(tt.mask + 1, n);
    let e = tt.probe(0).expect("the empty entry has key 0");
    assert_eq!((e.score, e.mv, e.depth, e.bound), (0, 0, 0, Bound::Exact));
    assert!(tt.probe(1).is_none());
    tt.store(1, TtEntry { key: 1, score: 5, mv: 7, depth: 2, bound: Bound::Lower });
    tt.store(2, TtEntry { key: 2, score: 6, mv: 8, depth: 1, bound: Bound::Upper });
    assert_eq!(tt.probe(1).expect("stored").score, 5);
    assert_eq!(tt.probe(2).expect("stored").bound, Bound::Upper);
    // a different key in the same slot replaces a deeper entry
    let same_slot = 1 + (tt.mask as u64 + 1);
    tt.store(same_slot, TtEntry { key: same_slot, score: 9, mv: 3, depth: 0, bound: Bound::Exact });
    assert!(tt.probe(1).is_none());
    assert_eq!(tt.probe(same_slot).expect("replaced").score, 9);
    tt.clear();
    assert!(tt.probe(2).is_none());
    assert!(tt.probe(0).is_some());
}

#[test]
fn default_search_config() {
    let cfg = SearchConfig::default();
    assert_eq!((cfg.max_depth, cfg.time_budget_ms, cfg.max_candidates), (12, 400, 20));
}

#[test]
fn order_score_capture_and_killer_ranks() {
    let pt = PatternTable::build();
    let b = Board::new();
    let history = [0i32; 729];
    let quiet = [Pat::default(); 4];
    let mv = idx(15, 15);
    let s = order_score(&b, &pt, mv, quiet, 4, Player::White, None, (0, 0), &history);
    assert_eq!(s, ORD_CAPTURE_BASE + 2_000);
    let s = order_score(&b, &pt, mv, quiet, 0, Player::White, None, (mv, 0), &history);
    assert_eq!(s, ORD_KILLER1);
    let s = order_score(&b, &pt, mv, quiet, 0, Player::White, None, (0, mv), &history);
    assert_eq!(s, ORD_KILLER2);
    let mut hist = [0i32; 729];
    hist[mv as usize] = 1_000_000;
    let pats = [Pat { score: 5, flags: 0 }, Pat { score: 50, flags: 0 }, Pat::default(), Pat::default()];
    let s = order_score(&b, &pt, mv, pats, 0, Player::White, None, (0, 0), &hist);
    assert_eq!(s, 300_000 + 55);
}

#[test]
fn negamax_at_depth_zero_is_the_evaluation() {
    let pt = PatternTable::build();
    let mut tt = TranspositionTable::new();
    let mut b = Board::new();
    b.play(idx(9, 9), &pt);
    b.play(idx(9, 10), &pt);
    let cfg = SearchConfig::default();
    let mut ctx = SearchCtx::new(&pt, &cfg, Instant::now(), Some(30_000));
    let before = b.clone();
    let score = negamax(&mut b, &mut ctx, &mut tt, 0, -WIN, WIN, 0, 0);
    assert_eq!(score, evaluate(&b));
    assert!(same_board(&b, &before));
    let _ = negamax(&mut b, &mut ctx, &mut tt, 2, -WIN, WIN, 0, 0);
    assert!(same_board(&b, &before));
    assert!(ctx.nodes > 1);
}

#[test]
fn wall_cells_never_hold_stones_after_play() {
    let pt = PatternTable::build();
    let mut b = Board::new();
    b.play(idx(0, 0), &pt);
    b.play(idx(18, 18), &pt);
    assert_eq!(b.get(idx(0, 0)), Cell::Black);
    assert_eq!(b.get(idx(18, 18)), Cell::White);
    assert_eq!(b.get(idx(0, 0) - 1), Cell::Wall);
    assert_eq!(b.get(idx(18, 18) + 1), Cell::Wall);
}

fn hash_of(b: &Board) -> u64 {
    let mut h = 0u64;
    for i in 0..729usize {
        match b.cells[i] {
            Cell::Black => h ^= b.key_cell[i],
            Cell::White => h ^= b.key_cell[729 + i],
            _ => {}
        }
    }
    for p in 0..2usize {
        let c = (b.captures[p] as usize).min(10);
        h ^= b.key_captures[p * 11] ^ b.key_captures[p * 11 + c];
    }
    if b.to_move == Player::Black {
        h ^= b.key_side;
    }
    h
}

#[test]
fn zobrist_key_is_the_hash_of_the_position() {
    let pt = PatternTable::build();
    let mut b = Board::new();
    assert_eq!(b.zobrist, hash_of(&b));
    let mut undos = Vec::new();
    for &(x, y) in &[(1, 0), (0, 0), (2, 0), (3, 0), (9, 9), (10, 10)] {
        undos.push(b.play(idx(x, y), &pt));
        assert_eq!(b.zobrist, hash_of(&b));
    }
    assert_eq!(b.captures, [0, 2]);
    for u in undos.iter().rev() {
        b.undo(u);
        assert_eq!(b.zobrist, hash_of(&b));
    }
}

#[test]
fn principal_variation_is_the_walk_through_the_table() {
    let pt = PatternTable::build();
    let mut tt = TranspositionTable::new();
    let mut b = Board::new();
    for &(x, y, p) in &[
        (9, 9, Player::Black),
        (9, 10, Player::White),
        (10, 9, Player::Black),
        (8, 8, Player::White),
    ] {
        b.to_move = p;
        b.play(idx(x, y), &pt);
    }
    b.to_move = Player::Black;
    // The root search stores nothing for the root itself: seed its slot so
    // that the walk has somewhere to start.
    let seeded = idx(10, 10);
    tt.store(b.zobrist, TtEntry { key: b.zobrist, score: 0, mv: seeded, depth: 0, bound: Bound::Exact });
    let before = b.clone();
    let cfg = SearchConfig { max_depth: 3, time_budget_ms: 5_000, max_candidates: 20 };
    let (_mv, stats) = find_best_move(&mut b, &cfg, &pt, &mut tt);
    assert!(same_board(&b, &before));
    assert_eq!(stats.depth_reached, 3);
    assert!(stats.pv.len() >= 2 && stats.pv.len() <= 3);
    assert_eq!(stats.pv[0], seeded);

    // Replay the table by hand from the root.
    let mut walk = Vec::new();
    let mut undos = Vec::new();
    for _ in 0..stats.depth_reached {
        let e = match tt.probe(b.zobrist) {
            Some(e) => e,
            None => break,
        };
        if b.get(e.mv) != Cell::Empty {
            break;
        }
        walk.push(e.mv);
        undos.push(b.play(e.mv, &pt));
    }
    for u in undos.iter().rev() {
        b.undo(u);
    }
    assert_eq!(stats.pv, walk);
    assert!(same_board(&b, &before));
}

#[test]
fn a_table_is_built_only_where_its_slots_were_reserved() {
    let t = table_if_reserved(Vec::new(), true, 8).expect("reserved");
    assert_eq!(t.entries.len(), 8);
    assert_eq!(t.mask, 7);
    assert!(t.entries.iter().all(|e| e.key == 0 && e.mv == 0 && e.depth == 0));
    assert!(table_if_reserved(Vec::new(), false, 8).is_none());
}

#[test]
fn the_budget_is_spent_once_the_reading_reaches_it() {
    assert_eq!(budget_reached(399, Some(400)), None);
    assert_eq!(budget_reached(400, Some(400)), Some(400));
    assert_eq!(budget_reached(1234, Some(400)), Some(1234));
    assert_eq!(budget_reached(u128::MAX, None), None);
}

#[test]
fn a_search_the_budget_does_not_stop_is_determined_by_its_input() {
    let pt = PatternTable::build();
    let cfg = SearchConfig { max_depth: 3, time_budget_ms: 60_000, max_candidates: 20 };
    let mut runs = Vec::new();
    for _ in 0..2 {
        let mut b = Board::new();
        for &(x, y, p) in &[(9, 9, Player::Black), (9, 10, Player::White), (10, 9, Player::Black)] {
            b.to_move = p;
            b.play(idx(x, y), &pt);
        }
        b.to_move = Player::White;
        let mut tt = TranspositionTable::new();
        let (mv, stats) = find_best_move(&mut b, &cfg, &pt, &mut tt);
        assert_eq!(stats.budget_spent_ms, None);
        assert_eq!(stats.depth_reached, 3);
        runs.push((mv, stats.nodes, stats.tt_hits, stats.tt_probes, stats.root_scores));
    }
    assert_eq!(runs[0], runs[1]);
}

#[test]
fn a_spent_budget_is_reported_with_its_reading() {
    let pt = PatternTable::build();
    let mut b = Board::new();
    for &(x, y, p) in &[
        (9, 9, Player::Black), (9, 10, Player::White), (10, 9, Player::Black),
        (8, 8, Player::White), (11, 11, Player::Black), (7, 7, Player::White),
    ] {
        b.to_move = p;
        b.play(idx(x, y), &pt);
    }
    b.to_move = Player::Black;
    let mut tt = TranspositionTable::new();
    let cfg = SearchConfig { max_depth: 30, time_budget_ms: 1, max_candidates: 20 };
    let (_mv, stats) = find_best_move(&mut b, &cfg, &pt, &mut tt);
    let ms = stats.budget_spent_ms.expect("a 1 ms budget runs out before depth 30");
    assert!(ms >= 1);
    assert!(stats.depth_reached < 30);
}
