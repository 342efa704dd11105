use lib::board::{idx, to_xy, Board, Cell, Idx, Player, DIRS, SIZE, STRIDE, TOTAL};
use lib::patterns::PatternTable;

struct Xorshift64(u64);

impl Xorshift64 {
    fn next(&mut self) -> u64 {
        let mut x = self.0;
        x ^= x << 13;
        x ^= x >> 7;
        x ^= x << 17;
        self.0 = x;
        x
    }
}

fn random_empty_cell(b: &Board, rng: &mut Xorshift64) -> Option<Idx> {
    let mut empties = Vec::new();
    for y in 0..SIZE {
        for x in 0..SIZE {
            let i = idx(x, y);
            if b.get(i) == Cell::Empty {
                empties.push(i);
            }
        }
    }
    if empties.is_empty() {
        return None;
    }
    let pick = (rng.next() as usize) % empties.len();
    empties.get(pick).copied()
}

#[test]
fn idx_to_xy_roundtrip_covers_full_board() {
    for y in 0..SIZE {
        for x in 0..SIZE {
            let i = idx(x, y);
            assert_eq!(to_xy(i), (x, y), "roundtrip failed at ({x},{y})");
        }
    }
}

#[test]
fn corners_are_within_padded_bounds() {
    assert!((idx(0, 0) as usize) < TOTAL);
    assert!((idx(SIZE - 1, SIZE - 1) as usize) < TOTAL);
}

#[test]
fn four_step_walk_from_every_playable_cell_stays_in_bounds() {
    for y in 0..SIZE {
        for x in 0..SIZE {
            let c = idx(x, y) as i32;
            for &d in DIRS.iter() {
                for k in -4..=4i32 {
                    let i = c + k * d as i32;
                    assert!(
                        i >= 0 && (i as usize) < TOTAL,
                        "out of bounds at ({x},{y}) dir {d} k {k}"
                    );
                }
            }
        }
    }
}

#[test]
fn dirs_are_the_four_distinct_axes() {
    assert_eq!(DIRS[0], 1);
    assert_eq!(DIRS[1], STRIDE as i16);
    assert_eq!(DIRS[2], STRIDE as i16 + 1);
    assert_eq!(DIRS[3], STRIDE as i16 - 1);
}

#[test]
fn player_other_and_cell_mapping() {
    assert_eq!(Player::Black.other(), Player::White);
    assert_eq!(Player::White.other(), Player::Black);
    assert_eq!(Player::Black.cell(), Cell::Black);
    assert_eq!(Player::White.cell(), Cell::White);
}

#[test]
fn new_board_is_all_empty_except_border() {
    let b = Board::new();
    for y in 0..SIZE {
        for x in 0..SIZE {
            assert_eq!(b.get(idx(x, y)), Cell::Empty);
        }
    }
    assert_eq!(b.get(idx(0, 0).wrapping_sub(1)), Cell::Wall);
}

#[test]
fn captures_of_detects_flanking_pair_horizontally() {
    let mut b = Board::new();
    b.set_raw(idx(0, 0), Cell::White);
    b.set_raw(idx(1, 0), Cell::Black);
    b.set_raw(idx(2, 0), Cell::Black);
    let (captured, n) = b.captures_of(idx(3, 0), Player::White);
    assert_eq!(n, 2);
    assert!(captured[..n].contains(&idx(1, 0)));
    assert!(captured[..n].contains(&idx(2, 0)));
}

#[test]
fn captures_of_ignores_single_stone() {
    let mut b = Board::new();
    b.set_raw(idx(0, 0), Cell::White);
    b.set_raw(idx(1, 0), Cell::Black);
    let (_captured, n) = b.captures_of(idx(2, 0), Player::White);
    assert_eq!(n, 0);
}

#[test]
fn captures_of_ignores_three_in_a_row() {
    let mut b = Board::new();
    b.set_raw(idx(0, 0), Cell::White);
    b.set_raw(idx(1, 0), Cell::Black);
    b.set_raw(idx(2, 0), Cell::Black);
    b.set_raw(idx(3, 0), Cell::Black);
    let (_captured, n) = b.captures_of(idx(4, 0), Player::White);
    assert_eq!(n, 0);
}

#[test]
fn captures_of_checks_all_eight_directions() {
    let mut b = Board::new();
    b.set_raw(idx(5, 5), Cell::White);
    b.set_raw(idx(5, 4), Cell::Black);
    b.set_raw(idx(5, 3), Cell::Black);
    let (captured, n) = b.captures_of(idx(5, 2), Player::White);
    assert_eq!(n, 2);
    assert!(captured[..n].contains(&idx(5, 4)));
    assert!(captured[..n].contains(&idx(5, 3)));
}

#[test]
fn captures_of_a_wall_neighbor_finds_nothing() {
    let b = Board::new();
    let (_captured, n) = b.captures_of(idx(0, 0), Player::White);
    assert_eq!(n, 0);
}

#[test]
fn play_undo_round_trip_restores_exact_state() {
    let pt = PatternTable::build();
    for seed in 0..1000u64 {
        let mut rng = Xorshift64(seed.wrapping_mul(0x9E3779B97F4A7C15) | 1);
        let mut b = Board::new();
        let snapshot = b.clone();
        let mut undos = Vec::new();
        for _ in 0..50 {
            let Some(mv) = random_empty_cell(&b, &mut rng) else {
                break;
            };
            undos.push(b.play(mv, &pt));
        }
        for u in undos.iter().rev() {
            b.undo(u);
        }
        assert_eq!(b.cells, snapshot.cells, "seed {seed}: cells differ after undo");
        assert_eq!(b.captures, snapshot.captures, "seed {seed}: captures differ");
        assert_eq!(b.to_move, snapshot.to_move, "seed {seed}: to_move differs");
        assert_eq!(b.zobrist, snapshot.zobrist, "seed {seed}: zobrist differs");
        assert_eq!(b.stone_count, snapshot.stone_count, "seed {seed}: stone_count differs");
        assert_eq!(b.neighbor, snapshot.neighbor, "seed {seed}: neighbor grid differs");
        assert_eq!(b.acc, snapshot.acc, "seed {seed}: accumulator differs");
    }
}

#[test]
fn play_capture_updates_captures_and_frees_cells() {
    let pt = PatternTable::build();
    let mut b = Board::new();
    b.play(idx(1, 0), &pt);
    b.play(idx(0, 0), &pt);
    b.play(idx(2, 0), &pt);
    let before_capture_stone_count = b.stone_count;
    b.play(idx(3, 0), &pt);
    assert_eq!(b.get(idx(1, 0)), Cell::Empty, "captured stone not removed");
    assert_eq!(b.get(idx(2, 0)), Cell::Empty, "captured stone not removed");
    assert_eq!(b.captures[Player::White as usize], 2);
    assert_eq!(b.stone_count, before_capture_stone_count + 1 - 2);
    assert_eq!(
        b.acc,
        b.full_recompute_acc(&pt),
        "accumulator drifted from full recompute after a capturing play()"
    );
}

#[test]
fn accumulator_matches_full_recompute_including_captures() {
    let pt = PatternTable::build();
    for seed in 0..300u64 {
        let mut rng = Xorshift64(seed.wrapping_mul(0x2545_F491_4F6C_DD1D) | 1);
        let mut b = Board::new();
        for _ in 0..60 {
            let Some(mv) = random_empty_cell(&b, &mut rng) else {
                break;
            };
            b.play(mv, &pt);
            let full = b.full_recompute_acc(&pt);
            assert_eq!(
                b.acc, full,
                "seed {seed}: accumulator drifted from full recompute after a play()"
            );
        }
    }
}
