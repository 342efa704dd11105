use lib::board::{Board, Player};
use lib::eval::evaluate;
use lib::patterns::PatternTable;
use lib::rules;

struct Xs(u64);

impl Xs {
    fn next(&mut self) -> u64 {
        let mut x = self.0;
        x ^= x << 13;
        x ^= x >> 7;
        x ^= x << 17;
        self.0 = x;
        x
    }
}

#[test]
fn evaluate_favors_the_player_with_more_captures() {
    let mut b = Board::new();
    b.captures[Player::Black as usize] = 4;
    b.to_move = Player::Black;
    let score_black_ahead = evaluate(&b);
    b.captures = [0, 0];
    b.captures[Player::White as usize] = 4;
    let score_white_ahead = evaluate(&b);
    assert!(score_black_ahead > score_white_ahead);
}

#[test]
fn accumulator_never_drifts_from_full_recompute() {
    let pt = PatternTable::build();
    for seed in 0..200u64 {
        let mut rng = Xs(seed.wrapping_mul(0x9E3779B97F4A7C15) | 1);
        let mut b = Board::new();
        for _ in 0..40 {
            let mut candidates = Vec::new();
            rules::generate(&b, b.to_move, &pt, &mut candidates);
            if candidates.is_empty() {
                break;
            }
            let pick = (rng.next() as usize) % candidates.len();
            let Some(&mv) = candidates.get(pick) else {
                break;
            };
            b.play(mv, &pt);
            let full = b.full_recompute_acc(&pt);
            assert_eq!(b.acc, full, "seed {seed}: accumulator drifted from full recompute");
        }
    }
}
