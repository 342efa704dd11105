//! The Zobrist key as a hash of the position: the keys of the stones on
//! the board, of the capture counts and of the side to move. A new board
//! holds the hash of its position and every move keeps it so.
use vstd::prelude::*;
use crate::board::{
    BoardView, Cell, Player, cap_key_index, captured_by, captures_sound, cell_of, empty_cells,
    fill_cells, in_board, lemma_play_view_wf, opponent, play_cells, play_view, play_zobrist,
    sat_add_u8, slot, stone, wf_view, xor_keys,
};

verus! {

/// Key of the stone on cell `i`, if any: entry `slot(p) * 729 + i` for a
/// stone of `p`.
pub open spec fn cell_key(keys: Seq<u64>, cells: Seq<Cell>) -> spec_fn(int) -> u64 {
    |i: int|
        if cell_of(cells, i) == Cell::Black {
            keys[i]
        } else if cell_of(cells, i) == Cell::White {
            keys[729 + i]
        } else {
            0u64
        }
}

/// `f(0) ^ f(1) ^ ... ^ f(n - 1)`.
pub open spec fn xor_range(f: spec_fn(int) -> u64, n: int) -> u64
    decreases n,
{
    if n <= 0 {
        0
    } else {
        xor_range(f, n - 1) ^ f(n - 1)
    }
}

/// Key of a capture count of `p`: the key of the count, combined with the
/// key of zero (so that no capture contributes nothing).
pub open spec fn capture_key(keys: Seq<u64>, p: Player, c: u8) -> u64 {
    keys[slot(p) * 11] ^ keys[slot(p) * 11 + cap_key_index(c)]
}

/// The hash of a position: its stones, both capture counts, and the side
/// key when Black is to move.
pub open spec fn zobrist_of(v: BoardView) -> u64 {
    xor_range(cell_key(v.key_cell, v.cells), 729) ^ capture_key(v.key_captures, Player::Black, v.captures[0])
        ^ capture_key(v.key_captures, Player::White, v.captures[1]) ^ (if v.to_move == Player::Black {
        v.key_side
    } else {
        0u64
    })
}

proof fn lemma_xor_range_congruent(f: spec_fn(int) -> u64, g: spec_fn(int) -> u64, n: int)
    requires
        forall|i: int| 0 <= i < n ==> #[trigger] f(i) == g(i),
    ensures
        xor_range(f, n) == xor_range(g, n),
    decreases n,
{
    if n > 0 {
        lemma_xor_range_congruent(f, g, n - 1);
        assert(f(n - 1) == g(n - 1));
    }
}

/// Changing one term of an xor fold xors in the old and the new term.
proof fn lemma_xor_range_point(f: spec_fn(int) -> u64, g: spec_fn(int) -> u64, n: int, m: int)
    requires
        0 <= m < n,
        forall|i: int| 0 <= i < n && i != m ==> #[trigger] f(i) == g(i),
    ensures
        xor_range(g, n) == xor_range(f, n) ^ f(m) ^ g(m),
    decreases n,
{
    if m == n - 1 {
        lemma_xor_range_congruent(f, g, n - 1);
        let a = xor_range(f, n - 1);
        let fm = f(m);
        let gm = g(m);
        assert(a ^ gm == a ^ fm ^ fm ^ gm) by (bit_vector);
    } else {
        lemma_xor_range_point(f, g, n - 1, m);
        let a = xor_range(f, n - 1);
        let fm = f(m);
        let gm = g(m);
        let d = f(n - 1);
        assert(g(n - 1) == d);
        assert(a ^ fm ^ gm ^ d == a ^ d ^ fm ^ gm) by (bit_vector);
    }
}

/// Xoring a constant into the start of a key fold xors it into the result.
proof fn lemma_xor_keys_shift(z: u64, c: u64, keys: Seq<u64>, base: int, list: Seq<u16>)
    ensures
        xor_keys(z ^ c, keys, base, list) == xor_keys(z, keys, base, list) ^ c,
    decreases list.len(),
{
    if list.len() > 0 {
        lemma_xor_keys_shift(z, c, keys, base, list.drop_last());
        let a = xor_keys(z, keys, base, list.drop_last());
        let k = keys[base + list.last()];
        assert(a ^ c ^ k == a ^ k ^ c) by (bit_vector);
    }
}

/// Emptying the cells of distinct opponent stones xors their keys out of
/// the stone hash, in list order.
proof fn lemma_remove_stones_hash(keys: Seq<u64>, cells: Seq<Cell>, list: Seq<u16>, q: Player)
    requires
        cells.len() == 729,
        list.no_duplicates(),
        forall|k: int| 0 <= k < list.len() ==> in_board(#[trigger] list[k] as int) && cells[list[k] as int] == stone(q),
    ensures
        xor_range(cell_key(keys, fill_cells(cells, list, Cell::Empty)), 729) == xor_keys(
            xor_range(cell_key(keys, cells), 729),
            keys,
            slot(q) * 729,
            list,
        ),
    decreases list.len(),
{
    if list.len() > 0 {
        let rest = list.drop_last();
        let x = list.last() as int;
        assert forall|k: int| 0 <= k < rest.len() implies in_board(#[trigger] rest[k] as int) && cells[rest[k] as int]
            == stone(q) by {
            assert(rest[k] == list[k]);
        }
        assert(rest.no_duplicates()) by {
            assert forall|a: int, b: int| 0 <= a < b < rest.len() implies rest[a] != rest[b] by {
                assert(rest[a] == list[a] && rest[b] == list[b]);
            }
        }
        lemma_remove_stones_hash(keys, cells, rest, q);
        let prev = fill_cells(cells, rest, Cell::Empty);
        crate::board::lemma_fill_cells(cells, rest, Cell::Empty);
        assert(in_board(x));
        assert(!rest.contains(x as u16)) by {
            if rest.contains(x as u16) {
                let k = choose|k: int| 0 <= k < rest.len() && rest[k] == x as u16;
                assert(list[k] == list[list.len() - 1]);
            }
        }
        assert(prev[x] == stone(q));
        let next = fill_cells(cells, list, Cell::Empty);
        assert(next == prev.update(x, Cell::Empty));
        let f = cell_key(keys, prev);
        let g = cell_key(keys, next);
        assert forall|i: int| 0 <= i < 729 && i != x implies #[trigger] f(i) == g(i) by {
            assert(next[i] == prev[i]);
        }
        lemma_xor_range_point(f, g, 729, x);
        let a = xor_range(f, 729);
        let fx = f(x);
        assert(g(x) == 0u64);
        assert(fx == keys[slot(q) * 729 + x]);
        assert(a ^ fx ^ 0u64 == a ^ fx) by (bit_vector);
    }
}

/// A new board holds the hash of its position.
pub proof fn lemma_new_board_hash(v: BoardView)
    requires
        v.cells == empty_cells(),
        v.captures == seq![0u8, 0u8],
        v.to_move == Player::Black,
        v.zobrist == v.key_side,
    ensures
        v.zobrist == zobrist_of(v),
{
    let f = cell_key(v.key_cell, v.cells);
    assert forall|i: int| 0 <= i < 729 implies #[trigger] f(i) == (|j: int| 0u64)(i) by {}
    lemma_xor_range_congruent(f, |j: int| 0u64, 729);
    lemma_xor_range_zero(729);
    let k0 = v.key_captures[0];
    let k1 = v.key_captures[11];
    let s = v.key_side;
    assert(0u64 ^ (k0 ^ k0) ^ (k1 ^ k1) ^ s == s) by (bit_vector);
}

proof fn lemma_xor_range_zero(n: int)
    ensures
        xor_range(|j: int| 0u64, n) == 0,
    decreases n,
{
    if n > 0 {
        lemma_xor_range_zero(n - 1);
        assert(0u64 ^ 0u64 == 0u64) by (bit_vector);
    }
}

/// Playing a move keeps the Zobrist key equal to the hash of the
/// position: the incremental key updates match a recomputation.
pub proof fn lemma_play_keeps_hash(v: BoardView, mv: int)
    requires
        wf_view(v),
        in_board(mv),
        v.cells[mv] == Cell::Empty,
        v.zobrist == zobrist_of(v),
    ensures
        play_view(v, mv).zobrist == zobrist_of(play_view(v, mv)),
{
    let p = v.to_move;
    let q = opponent(p);
    let caps = captured_by(v.cells, mv, p);
    let cells_mv = v.cells.update(mv, stone(p));
    let w = play_view(v, mv);
    lemma_play_view_wf(v, mv);
    assert(captures_sound(v.cells, mv, p));

    // the stone hash: the new stone, then the captured stones removed
    let f0 = cell_key(v.key_cell, v.cells);
    let f1 = cell_key(v.key_cell, cells_mv);
    assert forall|i: int| 0 <= i < 729 && i != mv implies #[trigger] f0(i) == f1(i) by {}
    lemma_xor_range_point(f0, f1, 729, mv);
    let h0 = xor_range(f0, 729);
    let kmv = v.key_cell[slot(p) * 729 + mv];
    assert(f0(mv) == 0u64);
    assert(f1(mv) == kmv);
    assert(h0 ^ 0u64 ^ kmv == h0 ^ kmv) by (bit_vector);
    assert forall|k: int| 0 <= k < caps.len() implies in_board(#[trigger] caps[k] as int) && cells_mv[caps[k] as int]
        == stone(q) by {
        assert(caps[k] as int != mv);
    }
    lemma_remove_stones_hash(v.key_cell, cells_mv, caps, q);
    assert(w.cells == play_cells(v, mv));
    let h2 = xor_range(cell_key(v.key_cell, w.cells), 729);
    assert(h2 == xor_keys(h0 ^ kmv, v.key_cell, slot(q) * 729, caps));

    // the key update of play, rewritten around the old hash
    let cb = capture_key(v.key_captures, Player::Black, v.captures[0]);
    let cw = capture_key(v.key_captures, Player::White, v.captures[1]);
    let side = if p == Player::Black {
        v.key_side
    } else {
        0u64
    };
    let rest = cb ^ cw ^ side;
    let z = v.zobrist;
    assert(z == h0 ^ cb ^ cw ^ side);
    assert(z ^ kmv == (h0 ^ kmv) ^ rest) by (bit_vector)
        requires
            z == h0 ^ cb ^ cw ^ side,
            rest == cb ^ cw ^ side,
    ;
    lemma_xor_keys_shift(h0 ^ kmv, rest, v.key_cell, slot(q) * 729, caps);
    let z2 = xor_keys(v.zobrist ^ kmv, v.key_cell, slot(q) * 729, caps);
    assert(z2 == h2 ^ rest);

    let c0 = v.captures[slot(p)];
    let c1 = sat_add_u8(c0, caps.len() as int);
    let base = v.key_captures[slot(p) * 11];
    let k_old = v.key_captures[slot(p) * 11 + cap_key_index(c0)];
    let k_new = v.key_captures[slot(p) * 11 + cap_key_index(c1)];
    let ks = v.key_side;
    assert(play_zobrist(v, mv) == z2 ^ k_old ^ k_new ^ ks);
    if p == Player::Black {
        let cb2 = capture_key(v.key_captures, Player::Black, c1);
        assert(w.captures[0] == c1 && w.captures[1] == v.captures[1]);
        assert(cb == base ^ k_old && cb2 == base ^ k_new);
        assert(w.to_move == Player::White);
        assert(zobrist_of(w) == h2 ^ cb2 ^ cw ^ 0u64);
        assert(h2 ^ (cb ^ cw ^ ks) ^ k_old ^ k_new ^ ks == h2 ^ cb2 ^ cw ^ 0u64) by (bit_vector)
            requires
                cb == base ^ k_old,
                cb2 == base ^ k_new,
        ;
    } else {
        let cw2 = capture_key(v.key_captures, Player::White, c1);
        assert(w.captures[1] == c1 && w.captures[0] == v.captures[0]);
        assert(cw == base ^ k_old && cw2 == base ^ k_new);
        assert(w.to_move == Player::Black);
        assert(zobrist_of(w) == h2 ^ cb ^ cw2 ^ ks);
        assert(h2 ^ (cb ^ cw ^ 0u64) ^ k_old ^ k_new ^ ks == h2 ^ cb ^ cw2 ^ ks) by (bit_vector)
            requires
                cw == base ^ k_old,
                cw2 == base ^ k_new,
        ;
    }
}

} // verus!
