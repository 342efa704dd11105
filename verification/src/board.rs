//! Board state, moves, captures, the Zobrist key and the incremental
//! heuristic accumulator.
//!
//! The 19x19 board is stored padded: a 27x27 array with a 4-cell border of
//! walls, so that any walk of up to four steps along an axis from a real
//! cell stays inside the array.
use vstd::prelude::*;
use crate::patterns::{
    PatternTable, POW3, TABLE_SIZE, table_entry, classify_spec, score_spec,
    encode_spec, encode_prefix, pow3, lemma_pow3_values, lemma_decode_encode,
};
use crate::sums::{range_sum, seq_sum};

verus! {

pub const SIZE: usize = 19;

pub const PAD: usize = 4;

/// Width of the padded array.
pub const STRIDE: usize = 27;

/// Number of cells of the padded array.
pub const TOTAL: usize = 729;

/// Index into the padded array.
pub type Idx = u16;

#[derive(Copy, Clone, PartialEq, Eq, Debug, Structural)]
pub enum Cell {
    Empty,
    Black,
    White,
    Wall,
}

#[derive(Copy, Clone, PartialEq, Eq, Debug, Structural)]
pub enum Player {
    Black,
    White,
}

/// The four axes: horizontal, vertical, and the two diagonals. Each is
/// walked in both the `+d` and `-d` direction to cover all 8 directions.
pub const DIRS: [i16; 4] = [1, 27, 28, 26];

/// Penalty for a pair of same-color stones with an opponent stone on one
/// flank and an empty cell on the other: one move from being captured.
const VULN_PENALTY: i32 = -1_200;

// ---------------------------------------------------------------------------
// Coordinates

/// The padded index of board cell `(x, y)`.
pub open spec fn idx_spec(x: int, y: int) -> int {
    (y + 4) * 27 + (x + 4)
}

/// `i` is a cell of the 19x19 board (not the wall border).
pub open spec fn in_board(i: int) -> bool {
    0 <= i < 729 && 4 <= i % 27 < 23 && 4 <= i / 27 < 23
}

/// Column of a padded index.
pub open spec fn col_of(i: int) -> int {
    i % 27 - 4
}

/// Row of a padded index.
pub open spec fn row_of(i: int) -> int {
    i / 27 - 4
}

/// Axis `di` of `DIRS`, as an offset.
pub open spec fn dir(di: int) -> int {
    if di == 0 {
        1
    } else if di == 1 {
        27
    } else if di == 2 {
        28
    } else {
        26
    }
}

pub proof fn lemma_idx_coords(x: int, y: int)
    requires
        0 <= x < 19,
        0 <= y < 19,
    ensures
        in_board(idx_spec(x, y)),
        col_of(idx_spec(x, y)) == x,
        row_of(idx_spec(x, y)) == y,
{
    let i = idx_spec(x, y);
    vstd::arithmetic::div_mod::lemma_fundamental_div_mod_converse_div(i, 27, y + 4, x + 4);
    vstd::arithmetic::div_mod::lemma_fundamental_div_mod_converse_mod(i, 27, y + 4, x + 4);
}

pub proof fn lemma_in_board_coords(i: int)
    requires
        in_board(i),
    ensures
        0 <= col_of(i) < 19,
        0 <= row_of(i) < 19,
        i == idx_spec(col_of(i), row_of(i)),
{
    vstd::arithmetic::div_mod::lemma_fundamental_div_mod(i, 27);
}

/// The padded index of board cell `(x, y)`.
pub fn idx(x: usize, y: usize) -> (i: Idx)
    requires
        idx_spec(x as int, y as int) <= usize::MAX,
    ensures
        i == idx_spec(x as int, y as int) as u16,
        x < 19 && y < 19 ==> i as int == idx_spec(x as int, y as int),
{
    ((y + PAD) * STRIDE + (x + PAD)) as Idx
}

/// Board coordinates `(x, y)` of a padded index.
pub fn to_xy(i: Idx) -> (xy: (usize, usize))
    requires
        i % 27 >= 4,
        i / 27 >= 4,
    ensures
        xy.0 as int == col_of(i as int),
        xy.1 as int == row_of(i as int),
{
    let i = i as usize;
    (i % STRIDE - PAD, i / STRIDE - PAD)
}

/// Converting a board cell to its index and back gives the cell again.
pub proof fn lemma_idx_to_xy_roundtrip(x: int, y: int)
    requires
        0 <= x < 19,
        0 <= y < 19,
    ensures
        in_board(idx_spec(x, y)),
        idx_spec(x, y) % 27 >= 4,
        idx_spec(x, y) / 27 >= 4,
        col_of(idx_spec(x, y)) == x,
        row_of(idx_spec(x, y)) == y,
{
    lemma_idx_coords(x, y);
}

/// A walk of up to four steps along any axis, from any board cell, stays
/// inside the padded array.
pub proof fn lemma_four_step_walk_in_bounds(c: int, di: int, k: int)
    requires
        in_board(c),
        0 <= di < 4,
        -4 <= k <= 4,
    ensures
        0 <= c + k * dir(di) < 729,
{
    lemma_in_board_coords(c);
    assert(-112 <= k * dir(di) <= 112) by (nonlinear_arith)
        requires
            -4 <= k <= 4,
            1 <= dir(di) <= 28,
    ;
}

// ---------------------------------------------------------------------------
// Players and cells

/// Slot of `p` in a per-player pair.
pub open spec fn slot(p: Player) -> int {
    match p {
        Player::Black => 0,
        Player::White => 1,
    }
}

pub open spec fn opponent(p: Player) -> Player {
    match p {
        Player::Black => Player::White,
        Player::White => Player::Black,
    }
}

/// The stone of player `p`.
pub open spec fn stone(p: Player) -> Cell {
    match p {
        Player::Black => Cell::Black,
        Player::White => Cell::White,
    }
}

pub open spec fn is_stone(c: Cell) -> bool {
    c == Cell::Black || c == Cell::White
}

impl Player {
    pub fn other(self) -> (r: Player)
        ensures
            r == opponent(self),
    {
        match self {
            Player::Black => Player::White,
            Player::White => Player::Black,
        }
    }

    pub fn cell(self) -> (r: Cell)
        ensures
            r == stone(self),
    {
        match self {
            Player::Black => Cell::Black,
            Player::White => Cell::White,
        }
    }
}

/// Reads a per-player pair at `p`'s slot.
pub fn player_slot<T: Copy>(arr: [T; 2], p: Player) -> (r: T)
    ensures
        r == arr@[slot(p)],
{
    match p {
        Player::Black => arr[0],
        Player::White => arr[1],
    }
}

// ---------------------------------------------------------------------------
// Deterministic key generation

/// One xorshift64 step.
pub open spec fn xs_step(x: u64) -> u64 {
    let a = x ^ (x << 13u64);
    let b = a ^ (a >> 7u64);
    b ^ (b << 17u64)
}

/// The state after `n` xorshift64 steps from `seed`.
pub open spec fn xs_iter(seed: u64, n: nat) -> u64
    decreases n,
{
    if n == 0 {
        seed
    } else {
        xs_step(xs_iter(seed, (n - 1) as nat))
    }
}

/// Seed of the key generator.
pub const KEY_SEED: u64 = 0x9E3779B97F4A7C15;

/// Fixed-seed xorshift64, used only to generate deterministic Zobrist keys
/// at construction. There is no gameplay randomness.
struct Xorshift64(u64);

impl Xorshift64 {
    fn next(&mut self) -> (r: u64)
        ensures
            r == xs_step(old(self).0),
            final(self).0 == r,
    {
        let mut x = self.0;
        x ^= x << 13;
        x ^= x >> 7;
        x ^= x << 17;
        self.0 = x;
        x
    }
}

// ---------------------------------------------------------------------------
// The board

/// Board state. `captures` counts *stones* captured by each player (a win
/// at 10); `acc` is the incremental heuristic accumulator, one per player.
pub struct Board {
    pub cells: Vec<Cell>,
    pub captures: [u8; 2],
    pub to_move: Player,
    pub zobrist: u64,
    pub stone_count: u32,
    /// Count of stones within Chebyshev radius 2 of each cell.
    pub neighbor: Vec<u8>,
    pub acc: [i32; 2],
    /// Zobrist keys: entry `slot(p) * 729 + i` for a stone of `p` at `i`.
    pub key_cell: Vec<u64>,
    pub key_side: u64,
    /// Entry `slot(p) * 11 + k` for `p` having captured `k` (at most 10).
    pub key_captures: Vec<u64>,
}

/// The mathematical content of a board.
pub struct BoardView {
    pub cells: Seq<Cell>,
    pub captures: Seq<u8>,
    pub to_move: Player,
    pub zobrist: u64,
    pub stone_count: u32,
    pub neighbor: Seq<u8>,
    pub acc: Seq<i32>,
    pub key_cell: Seq<u64>,
    pub key_side: u64,
    pub key_captures: Seq<u64>,
}

impl View for Board {
    type V = BoardView;

    open spec fn view(&self) -> BoardView {
        BoardView {
            cells: self.cells@,
            captures: self.captures@,
            to_move: self.to_move,
            zobrist: self.zobrist,
            stone_count: self.stone_count,
            neighbor: self.neighbor@,
            acc: self.acc@,
            key_cell: self.key_cell@,
            key_side: self.key_side,
            key_captures: self.key_captures@,
        }
    }
}

/// The cell at index `i`; anything outside the array reads as a wall.
pub open spec fn cell_of(cells: Seq<Cell>, i: int) -> Cell {
    if 0 <= i < cells.len() {
        cells[i]
    } else {
        Cell::Wall
    }
}

/// The cell at `center + off`, reading anything outside the padded array
/// as a wall.
pub open spec fn cell_at(cells: Seq<Cell>, center: int, off: int) -> Cell {
    let i = center + off;
    if i < 0 || i >= 729 {
        Cell::Wall
    } else {
        cell_of(cells, i)
    }
}

/// Walls exactly outside the board.
pub open spec fn layout_ok(cells: Seq<Cell>) -> bool {
    &&& cells.len() == 729
    &&& forall|i: int| 0 <= i < 729 ==> (#[trigger] cells[i] == Cell::Wall) == !in_board(i)
}


// ---------------------------------------------------------------------------
// Invariants

/// Offset of the `k`-th cell (of 25) of the radius-2 square around a cell.
pub open spec fn nb_off(k: int) -> int {
    (k / 5 - 2) * 27 + (k % 5 - 2)
}

/// 1 if index `i` holds a stone, else 0.
pub open spec fn stone_at(cells: Seq<Cell>, i: int) -> int {
    if 0 <= i < 729 && is_stone(cell_of(cells, i)) {
        1
    } else {
        0
    }
}

/// Number of stones within Chebyshev radius 2 of `i` (by padded offsets).
pub open spec fn nb_count(cells: Seq<Cell>, i: int) -> int {
    range_sum(|k: int| stone_at(cells, i + nb_off(k)), 25)
}

/// `i` lies within Chebyshev radius 2 of `center` (by padded offsets).
pub open spec fn near(i: int, center: int) -> bool {
    exists|k: int| 0 <= k < 25 && i == center + nb_off(k)
}

/// Number of stones on the board.
pub open spec fn num_stones(cells: Seq<Cell>) -> int {
    range_sum(|i: int| stone_at(cells, i), 729)
}

/// The neighbor grid counts, for every cell, the stones around it.
pub open spec fn nb_ok(v: BoardView) -> bool {
    &&& v.neighbor.len() == 729
    &&& forall|i: int| 0 <= i < 729 ==> #[trigger] v.neighbor[i] as int == nb_count(v.cells, i)
}

/// Well-formedness: walls exactly outside the board, a consistent
/// neighbor grid and stone count, and full key tables.
pub open spec fn wf_view(v: BoardView) -> bool {
    &&& layout_ok(v.cells)
    &&& nb_ok(v)
    &&& v.stone_count == num_stones(v.cells)
    &&& v.key_cell.len() == 1458
    &&& v.key_captures.len() == 22
    &&& v.acc.len() == 2
    &&& v.captures.len() == 2
}

impl Board {
    pub open spec fn wf(&self) -> bool {
        wf_view(self@)
    }
}

proof fn lemma_nb_off_facts()
    ensures
        forall|a: int, b: int|
            0 <= a < 25 && 0 <= b < 25 && #[trigger] nb_off(a) == #[trigger] nb_off(b) ==> a == b,
        forall|k: int| 0 <= k < 25 ==> #[trigger] nb_off(24 - k) == -nb_off(k),
        forall|k: int| 0 <= k < 25 ==> -56 <= #[trigger] nb_off(k) <= 56,
{
    assert forall|a: int, b: int|
        0 <= a < 25 && 0 <= b < 25 && #[trigger] nb_off(a) == #[trigger] nb_off(b) implies a == b by {
        let a1 = a / 5;
        let a2 = a % 5;
        let b1 = b / 5;
        let b2 = b % 5;
        assert(a == 5 * a1 + a2);
        assert(b == 5 * b1 + b2);
    }
    assert forall|k: int| 0 <= k < 25 implies #[trigger] nb_off(24 - k) == -nb_off(k) by {
        let k1 = k / 5;
        let k2 = k % 5;
        assert(k == 5 * k1 + k2);
        assert(24 - k == 5 * (4 - k1) + (4 - k2));
        vstd::arithmetic::div_mod::lemma_fundamental_div_mod_converse_div(24 - k, 5, 4 - k1, 4 - k2);
        vstd::arithmetic::div_mod::lemma_fundamental_div_mod_converse_mod(24 - k, 5, 4 - k1, 4 - k2);
    }
}

proof fn lemma_range_sum_bits(h: spec_fn(int) -> int, n: int)
    requires
        0 <= n,
        forall|k: int| 0 <= k < n ==> 0 <= #[trigger] h(k) <= 1,
    ensures
        0 <= range_sum(h, n) <= n,
    decreases n,
{
    if n > 0 {
        lemma_range_sum_bits(h, n - 1);
        assert(0 <= h(n - 1) <= 1);
    }
}

/// Changing whether one cell holds a stone changes the neighbor count of
/// exactly the cells around it, by one.
proof fn lemma_nb_count_toggle(a: Seq<Cell>, b: Seq<Cell>, m: int, i: int)
    requires
        a.len() == 729,
        b.len() == 729,
        0 <= m < 729,
        forall|j: int| 0 <= j < 729 && j != m ==> a[j] == b[j],
        is_stone(a[m]) != is_stone(b[m]),
    ensures
        nb_count(b, i) == nb_count(a, i) + (if near(i, m) {
            if is_stone(b[m]) {
                1int
            } else {
                -1int
            }
        } else {
            0int
        }),
        0 <= nb_count(a, i) <= 25,
        0 <= nb_count(b, i) <= 25,
{
    lemma_nb_off_facts();
    let g = |k: int| stone_at(b, i + nb_off(k));
    let f = |k: int| stone_at(a, i + nb_off(k));
    lemma_range_sum_bits(g, 25);
    lemma_range_sum_bits(f, 25);
    if near(i, m) {
        let k1 = choose|k: int| 0 <= k < 25 && i == m + nb_off(k);
        let k0 = 24 - k1;
        assert(i + nb_off(k0) == m);
        let t = seq![k0];
        assert forall|e: int| 0 <= e < 25 && !t.contains(e) implies g(e) == f(e) by {
            if i + nb_off(e) == m {
                assert(nb_off(e) == nb_off(k0));
                assert(t[0] == e);
            }
        }
        crate::sums::lemma_range_sum_diff(g, f, 25, t);
        crate::sums::lemma_seq_sum_single(k0, g);
        crate::sums::lemma_seq_sum_single(k0, f);
    } else {
        let t = Seq::<int>::empty();
        assert forall|e: int| 0 <= e < 25 && !t.contains(e) implies g(e) == f(e) by {
            if i + nb_off(e) == m {
                assert(i == m + nb_off(24 - e));
                assert(0 <= 24 - e < 25);
            }
        }
        crate::sums::lemma_range_sum_diff(g, f, 25, t);
    }
}

/// A board holds at most one stone per cell.
pub proof fn lemma_num_stones_bound(cells: Seq<Cell>)
    ensures
        0 <= num_stones(cells) <= 729,
{
    let f = |i: int| stone_at(cells, i);
    assert forall|k: int| 0 <= k < 729 implies 0 <= #[trigger] f(k) <= 1 by {}
    lemma_range_sum_bits(f, 729);
}

/// Changing whether one cell holds a stone changes the stone count by one.
proof fn lemma_num_stones_toggle(a: Seq<Cell>, b: Seq<Cell>, m: int)
    requires
        a.len() == 729,
        b.len() == 729,
        0 <= m < 729,
        forall|j: int| 0 <= j < 729 && j != m ==> a[j] == b[j],
        is_stone(a[m]) != is_stone(b[m]),
    ensures
        num_stones(b) == num_stones(a) + (if is_stone(b[m]) {
            1int
        } else {
            -1int
        }),
        0 <= num_stones(a) <= 729,
        0 <= num_stones(b) <= 729,
{
    let g = |i: int| stone_at(b, i);
    let f = |i: int| stone_at(a, i);
    lemma_range_sum_bits(g, 729);
    lemma_range_sum_bits(f, 729);
    let t = seq![m];
    assert forall|e: int| 0 <= e < 729 && !t.contains(e) implies g(e) == f(e) by {
        if e == m {
            assert(t[0] == e);
        }
    }
    crate::sums::lemma_range_sum_diff(g, f, 729, t);
    crate::sums::lemma_seq_sum_single(m, g);
    crate::sums::lemma_seq_sum_single(m, f);
}

/// The grid after adding `delta` (clamped to a byte) around `center`.
pub open spec fn nb_adjusted(nb: Seq<u8>, center: int, delta: int) -> Seq<u8> {
    Seq::new(
        nb.len(),
        |i: int|
            if near(i, center) {
                clamp_u8(nb[i] as int + delta)
            } else {
                nb[i]
            },
    )
}

pub open spec fn clamp_u8(v: int) -> u8 {
    if v < 0 {
        0
    } else if v > 255 {
        255
    } else {
        v as u8
    }
}

/// After toggling one cell and adjusting the grid around it in the same
/// direction, the grid is consistent again.
proof fn lemma_nb_adjust_consistent(a: Seq<Cell>, b: Seq<Cell>, nb: Seq<u8>, m: int, delta: int)
    requires
        a.len() == 729,
        b.len() == 729,
        0 <= m < 729,
        forall|j: int| 0 <= j < 729 && j != m ==> a[j] == b[j],
        is_stone(a[m]) != is_stone(b[m]),
        delta == (if is_stone(b[m]) { 1int } else { -1int }),
        nb.len() == 729,
        forall|i: int| 0 <= i < 729 ==> #[trigger] nb[i] as int == nb_count(a, i),
    ensures
        nb_adjusted(nb, m, delta).len() == 729,
        forall|i: int| 0 <= i < 729 ==> #[trigger] nb_adjusted(nb, m, delta)[i] as int == nb_count(b, i),
{
    let nb2 = nb_adjusted(nb, m, delta);
    lemma_nb_off_facts();
    assert forall|i: int| 0 <= i < 729 implies #[trigger] nb2[i] as int == nb_count(b, i) by {
        lemma_nb_count_toggle(a, b, m, i);
        assert(nb[i] as int == nb_count(a, i));
        if near(i, m) {
            let k = choose|k: int| 0 <= k < 25 && i == m + nb_off(k);
            assert(i + nb_off(24 - k) == m);
        }
    }
}

// ---------------------------------------------------------------------------
// Windows, pairs and captures, as read from the cells

/// Trit of a cell relative to `p`: empty 0, own stone 1, opponent or wall 2.
pub open spec fn trit(c: Cell, p: Player) -> u8 {
    if c == Cell::Empty {
        0
    } else if c == stone(p) {
        1
    } else {
        2
    }
}

/// The nine-cell window centered at `c` along offset `d`, relative to `p`.
pub open spec fn window(cells: Seq<Cell>, c: int, d: int, p: Player) -> Seq<u8> {
    Seq::new(9, |k: int| trit(cell_at(cells, c, (k - 4) * d), p))
}

/// The window as it would be with `p`'s stone on its center.
pub open spec fn hyp_window(cells: Seq<Cell>, c: int, d: int, p: Player) -> Seq<u8> {
    window(cells, c, d, p).update(4, 1)
}

/// Table score of the window of a stone of `p` at `c` along `d`.
pub open spec fn win_score(cells: Seq<Cell>, c: int, d: int, p: Player) -> int {
    score_spec(window(cells, c, d, p)) as int
}

/// Vulnerability of the pair `(c, c+d)` of `owner`'s stones: one flank an
/// opponent stone (not a wall), the other empty.
pub open spec fn vuln(cells: Seq<Cell>, c: int, d: int, owner: Player) -> int {
    if cell_at(cells, c, d) != stone(owner) {
        0
    } else {
        let before = cell_at(cells, c, -d);
        let after = cell_at(cells, c, 2 * d);
        let opp = stone(opponent(owner));
        if (before == opp && after == Cell::Empty) || (before == Cell::Empty && after == opp) {
            -1200
        } else {
            0
        }
    }
}

/// Step of capture direction `j` (of 8): axis `j / 2`, sign by parity.
pub open spec fn cap_step(j: int) -> int {
    if j % 2 == 0 {
        dir(j / 2)
    } else {
        -dir(j / 2)
    }
}

/// An index as an `Idx`.
pub open spec fn as_idx(i: int) -> u16 {
    i as u16
}

/// `p` playing at `mv` flanks a pair of opponent stones in direction `j`.
pub open spec fn captures_in(cells: Seq<Cell>, mv: int, p: Player, j: int) -> bool {
    let s = cap_step(j);
    &&& mv + s >= 0
    &&& mv + 2 * s >= 0
    &&& mv + 3 * s >= 0
    &&& cell_of(cells, as_idx(mv + s) as int) == stone(opponent(p))
    &&& cell_of(cells, as_idx(mv + 2 * s) as int) == stone(opponent(p))
    &&& cell_of(cells, as_idx(mv + 3 * s) as int) == stone(p)
}

/// The stones captured by `p` playing at `mv`, over the first `n` of the 8
/// directions, in direction order, nearer stone first.
pub open spec fn capture_list(cells: Seq<Cell>, mv: int, p: Player, n: int) -> Seq<u16>
    decreases n,
{
    if n <= 0 {
        Seq::empty()
    } else {
        let prev = capture_list(cells, mv, p, n - 1);
        let s = cap_step(n - 1);
        if captures_in(cells, mv, p, n - 1) {
            prev.push(as_idx(mv + s)).push(as_idx(mv + 2 * s))
        } else {
            prev
        }
    }
}

/// The stones captured by `p` playing at `mv`.
pub open spec fn captured_by(cells: Seq<Cell>, mv: int, p: Player) -> Seq<u16> {
    capture_list(cells, mv, p, 8)
}

pub proof fn lemma_capture_list_len(cells: Seq<Cell>, mv: int, p: Player, n: int)
    requires
        0 <= n <= 8,
    ensures
        capture_list(cells, mv, p, n).len() <= 2 * n,
        capture_list(cells, mv, p, n).len() % 2 == 0,
    decreases n,
{
    if n > 0 {
        lemma_capture_list_len(cells, mv, p, n - 1);
    }
}

/// What `capture_list` lists over the first `n` directions it still lists
/// over more.
proof fn lemma_capture_list_keeps(cells: Seq<Cell>, mv: int, p: Player, n: int, m: int, x: u16)
    requires
        0 <= n <= m,
        capture_list(cells, mv, p, n).contains(x),
    ensures
        capture_list(cells, mv, p, m).contains(x),
    decreases m - n,
{
    if m > n {
        lemma_capture_list_keeps(cells, mv, p, n, m - 1, x);
        let prev = capture_list(cells, mv, p, m - 1);
        let i = choose|i: int| 0 <= i < prev.len() && prev[i] == x;
        if captures_in(cells, mv, p, m - 1) {
            let st = cap_step(m - 1);
            let l = prev.push(as_idx(mv + st)).push(as_idx(mv + 2 * st));
            assert(l[i] == x);
        }
    }
}

/// Each stone listed over the first `n` directions comes from a direction
/// `j` in which `p` flanks a pair, one or two steps from `mv`.
proof fn lemma_capture_list_origin(cells: Seq<Cell>, mv: int, p: Player, n: int, i: int) -> (j: int)
    requires
        0 <= i < capture_list(cells, mv, p, n).len(),
    ensures
        0 <= j < n,
        captures_in(cells, mv, p, j),
        capture_list(cells, mv, p, n)[i] == as_idx(mv + cap_step(j)) || capture_list(cells, mv, p, n)[i]
            == as_idx(mv + 2 * cap_step(j)),
    decreases n,
{
    let prev = capture_list(cells, mv, p, n - 1);
    if i < prev.len() {
        let j = lemma_capture_list_origin(cells, mv, p, n - 1, i);
        if captures_in(cells, mv, p, n - 1) {
            let st = cap_step(n - 1);
            assert(prev.push(as_idx(mv + st)).push(as_idx(mv + 2 * st))[i] == prev[i]);
        }
        j
    } else {
        n - 1
    }
}

/// Pairs are captured along all four axes, both ways: where the stone `p`
/// places at `mv` and a stone of `p` three steps away (step `s`, along
/// axis `di`, either sign) flank two opponent stones, both are captured.
pub proof fn lemma_flanked_pair_captured(cells: Seq<Cell>, mv: int, p: Player, di: int, s: int)
    requires
        layout_ok(cells),
        in_board(mv),
        0 <= di < 4,
        s == dir(di) || s == -dir(di),
        cells[mv + s] == stone(opponent(p)),
        cells[mv + 2 * s] == stone(opponent(p)),
        cells[mv + 3 * s] == stone(p),
    ensures
        captured_by(cells, mv, p).contains((mv + s) as u16),
        captured_by(cells, mv, p).contains((mv + 2 * s) as u16),
{
    lemma_in_board_coords(mv);
    let j = if s == dir(di) {
        2 * di
    } else {
        2 * di + 1
    };
    assert(cap_step(j) == s) by {
        if di == 0 {
        } else if di == 1 {
        } else if di == 2 {
        } else {
        }
    }
    assert(captures_in(cells, mv, p, j));
    let prev = capture_list(cells, mv, p, j);
    let l = capture_list(cells, mv, p, j + 1);
    assert(l == prev.push(as_idx(mv + s)).push(as_idx(mv + 2 * s)));
    assert(l[prev.len() as int] == as_idx(mv + s));
    assert(l[prev.len() as int + 1] == as_idx(mv + 2 * s));
    assert(l.contains(as_idx(mv + s)));
    assert(l.contains(as_idx(mv + 2 * s)));
    lemma_capture_list_keeps(cells, mv, p, j + 1, 8, as_idx(mv + s));
    lemma_capture_list_keeps(cells, mv, p, j + 1, 8, as_idx(mv + 2 * s));
}

/// Nothing else is captured: each stone that `p` captures by playing at
/// `mv` is one of two opponent stones flanked between `mv` and a stone of
/// `p` three steps away along one axis. Returns that axis and step.
pub proof fn lemma_captured_stone_flanked(cells: Seq<Cell>, mv: int, p: Player, x: u16) -> (w: (int, int))
    requires
        layout_ok(cells),
        in_board(mv),
        captured_by(cells, mv, p).contains(x),
    ensures
        0 <= w.0 < 4,
        w.1 == dir(w.0) || w.1 == -dir(w.0),
        cells[mv + w.1] == stone(opponent(p)),
        cells[mv + 2 * w.1] == stone(opponent(p)),
        cells[mv + 3 * w.1] == stone(p),
        x as int == mv + w.1 || x as int == mv + 2 * w.1,
{
    lemma_in_board_coords(mv);
    let l = captured_by(cells, mv, p);
    let i = choose|i: int| 0 <= i < l.len() && l[i] == x;
    let j = lemma_capture_list_origin(cells, mv, p, 8, i);
    let st = cap_step(j);
    let di = j / 2;
    assert(st == dir(di) || st == -dir(di));
    assert(1 <= dir(di) <= 28);
    assert(0 <= mv + st < 729 && 0 <= mv + 2 * st < 729 && 0 <= mv + 3 * st < 729);
    assert(as_idx(mv + st) as int == mv + st);
    assert(as_idx(mv + 2 * st) as int == mv + 2 * st);
    assert(as_idx(mv + 3 * st) as int == mv + 3 * st);
    (di, st)
}

impl Board {
    /// The cell at `i`; anything beyond the array reads as a wall.
    pub fn get(&self, i: Idx) -> (c: Cell)
        ensures
            c == cell_of(self@.cells, i as int),
    {
        if (i as usize) < self.cells.len() {
            self.cells[i as usize]
        } else {
            Cell::Wall
        }
    }

    /// Sets a cell directly with no bookkeeping (no Zobrist, accumulator or
    /// neighbor update, no capture check). Used to build fixture positions,
    /// and by `play`/`undo` next to their own explicit bookkeeping.
    pub fn set_raw(&mut self, i: Idx, c: Cell)
        ensures
            final(self)@ == (BoardView {
                cells: if (i as int) < old(self)@.cells.len() {
                    old(self)@.cells.update(i as int, c)
                } else {
                    old(self)@.cells
                },
                ..old(self)@
            }),
    {
        if (i as usize) < self.cells.len() {
            self.cells.set(i as usize, c);
        }
    }

    /// True if any stone is within Chebyshev radius 2 of `i`.
    pub fn has_neighbor(&self, i: Idx) -> (r: bool)
        ensures
            r == ((i as int) < self@.neighbor.len() && self@.neighbor[i as int] > 0),
    {
        if (i as usize) < self.neighbor.len() {
            self.neighbor[i as usize] > 0
        } else {
            false
        }
    }

    /// Reads `center + offset`; anything outside the array is a wall.
    fn cell_at(&self, center: Idx, offset: i32) -> (c: Cell)
        requires
            -1000 <= offset <= 1000,
        ensures
            c == cell_at(self@.cells, center as int, offset as int),
    {
        let i = center as i32 + offset;
        if i < 0 || i as usize >= TOTAL {
            return Cell::Wall;
        }
        if (i as usize) < self.cells.len() {
            self.cells[i as usize]
        } else {
            Cell::Wall
        }
    }

    /// Encodes the nine-cell window centered at `c` along axis `d`,
    /// relative to `p`, as a pattern-table code.
    fn window_code(&self, c: Idx, d: i16, p: Player) -> (code: u32)
        requires
            -100 <= d <= 100,
        ensures
            code == encode_spec(window(self@.cells, c as int, d as int, p)),
            code < TABLE_SIZE,
    {
        let ghost w = window(self@.cells, c as int, d as int, p);
        proof {
            lemma_pow3_values();
            crate::patterns::lemma_encode_prefix_bound(w, 9);
        }
        let mut code: u32 = 0;
        let mut slot: usize = 0;
        while slot < 9
            invariant
                slot <= 9,
                -100 <= d <= 100,
                w == window(self@.cells, c as int, d as int, p),
                code == encode_prefix(w, slot as nat),
                encode_prefix(w, slot as nat) < pow3(slot as nat),
                pow3(slot as nat) <= 19683,
            decreases 9 - slot,
        {
            let k = slot as i32 - 4;
            assert(-400 <= k * d <= 400) by (nonlinear_arith)
                requires
                    -4 <= k <= 4,
                    -100 <= d <= 100,
            ;
            let cell = self.cell_at(c, k * d as i32);
            let t: u32 = if cell == Cell::Empty {
                0
            } else if cell == p.cell() {
                1
            } else {
                2
            };
            proof {
                lemma_pow3_values();
                crate::patterns::lemma_encode_prefix_bound(w, (slot + 1) as nat);
                assert(w[slot as int] == t);
                assert(POW3[slot as int] as nat == pow3(slot as nat));
            }
            code = code + t * POW3[slot];
            slot = slot + 1;
        }
        code
    }

    /// Like `window_code`, but reads the center as `p`'s stone whatever is
    /// there: the window as it would be if `p` played at `c`.
    pub fn hypothetical_window_code(&self, c: Idx, d: i16, p: Player) -> (code: u32)
        requires
            -100 <= d <= 100,
        ensures
            code == encode_spec(hyp_window(self@.cells, c as int, d as int, p)),
            code < TABLE_SIZE,
    {
        let ghost w = hyp_window(self@.cells, c as int, d as int, p);
        proof {
            lemma_pow3_values();
            crate::patterns::lemma_encode_prefix_bound(w, 9);
        }
        let mut code: u32 = 0;
        let mut slot: usize = 0;
        while slot < 9
            invariant
                slot <= 9,
                -100 <= d <= 100,
                w == hyp_window(self@.cells, c as int, d as int, p),
                code == encode_prefix(w, slot as nat),
                encode_prefix(w, slot as nat) < pow3(slot as nat),
                pow3(slot as nat) <= 19683,
            decreases 9 - slot,
        {
            let k = slot as i32 - 4;
            assert(-400 <= k * d <= 400) by (nonlinear_arith)
                requires
                    -4 <= k <= 4,
                    -100 <= d <= 100,
            ;
            let t: u32 = if k == 0 {
                1
            } else {
                let cell = self.cell_at(c, k * d as i32);
                if cell == Cell::Empty {
                    0
                } else if cell == p.cell() {
                    1
                } else {
                    2
                }
            };
            proof {
                lemma_pow3_values();
                crate::patterns::lemma_encode_prefix_bound(w, (slot + 1) as nat);
                assert(w[slot as int] == t);
                assert(POW3[slot as int] as nat == pow3(slot as nat));
            }
            code = code + t * POW3[slot];
            slot = slot + 1;
        }
        code
    }

    /// Public form of the window encoding, for the rules.
    pub fn window_code_pub(&self, c: Idx, d: i16, p: Player) -> (code: u32)
        requires
            -100 <= d <= 100,
        ensures
            code == encode_spec(window(self@.cells, c as int, d as int, p)),
            code < TABLE_SIZE,
    {
        self.window_code(c, d, p)
    }

    /// Table score of the window of `owner`'s stone at `c` along `d`.
    fn stone_window_score(&self, c: Idx, d: i16, owner: Player, pt: &PatternTable) -> (s: i32)
        requires
            -100 <= d <= 100,
        ensures
            s as int == win_score(self@.cells, c as int, d as int, owner),
            0 <= s <= 10_000_000,
    {
        let code = self.window_code(c, d, owner);
        proof {
            lemma_window_decodes(self@.cells, c as int, d as int, owner);
        }
        pt.get(code).score
    }

    /// Vulnerability contribution of the pair `(c, c+d)`, anchored at `c`
    /// so each pair is scored exactly once.
    fn pair_vuln_score(&self, c: Idx, d: i16, owner: Player) -> (s: i32)
        requires
            -100 <= d <= 100,
        ensures
            s as int == vuln(self@.cells, c as int, d as int, owner),
            -1200 <= s <= 0,
    {
        let opp = owner.other().cell();
        if self.cell_at(c, d as i32) != owner.cell() {
            return 0;
        }
        let before = self.cell_at(c, -(d as i32));
        let after = self.cell_at(c, 2 * d as i32);
        let vulnerable = (before == opp && after == Cell::Empty) || (before == Cell::Empty && after
            == opp);
        if vulnerable {
            VULN_PENALTY
        } else {
            0
        }
    }

    /// The stones captured if `p` plays at `mv`, without changing the
    /// board: each exact pattern `p O O p` starting at `mv` and walking
    /// outward, in all 8 directions. A wall fails every comparison, so the
    /// board edges need no special case.
    pub fn captures_of(&self, mv: Idx, p: Player) -> (r: ([Idx; 16], usize))
        ensures
            r.1 == captured_by(self@.cells, mv as int, p).len(),
            r.1 <= 16,
            forall|i: int| 0 <= i < r.1 ==> r.0@[i] == captured_by(self@.cells, mv as int, p)[i],
    {
        let opp = p.other().cell();
        let mine = p.cell();
        let mut out: [Idx; 16] = [0; 16];
        let mut n: usize = 0;
        let mut di: usize = 0;
        while di < 4
            invariant
                di <= 4,
                opp == stone(opponent(p)),
                mine == stone(p),
                n == capture_list(self@.cells, mv as int, p, 2 * di as int).len(),
                n <= 4 * di,
                forall|i: int| 0 <= i < n ==> out@[i] == capture_list(self@.cells, mv as int, p, 2 * di as int)[i],
            decreases 4 - di,
        {
            let d = DIRS[di];
            let mut t: usize = 0;
            while t < 2
                invariant
                    di < 4,
                    t <= 2,
                    d as int == dir(di as int),
                    opp == stone(opponent(p)),
                    mine == stone(p),
                    n == capture_list(self@.cells, mv as int, p, 2 * di + t as int).len(),
                    n <= 4 * di + 2 * t,
                    forall|i: int| 0 <= i < n ==> out@[i] == capture_list(self@.cells, mv as int, p, 2 * di + t as int)[i],
                decreases 2 - t,
            {
                let sign: i32 = if t == 0 { 1 } else { -1 };
                let step = sign * d as i32;
                let p1 = mv as i32 + step;
                let p2 = mv as i32 + 2 * step;
                let p3 = mv as i32 + 3 * step;
                let ghost j = 2 * di + t as int;
                assert(step == cap_step(j));
                if !(p1 < 0 || p2 < 0 || p3 < 0) {
                    let (q1, q2, q3) = (p1 as Idx, p2 as Idx, p3 as Idx);
                    if self.get(q1) == opp && self.get(q2) == opp && self.get(q3) == mine {
                        out[n] = q1;
                        n = n + 1;
                        out[n] = q2;
                        n = n + 1;
                    }
                }
                t = t + 1;
            }
            di = di + 1;
        }
        (out, n)
    }

    /// Adds `delta` (clamped to a byte) to the neighbor count of every cell
    /// within Chebyshev radius 2 of `center`.
    fn adjust_neighbor_grid(&mut self, center: Idx, delta: i32)
        requires
            -1 <= delta <= 1,
            old(self)@.neighbor.len() == 729,
        ensures
            final(self)@ == (BoardView {
                neighbor: nb_adjusted(old(self)@.neighbor, center as int, delta as int),
                ..old(self)@
            }),
    {
        let ghost nb0 = self@.neighbor;
        let mut dy: i32 = -2;
        while dy <= 2
            invariant
                -2 <= dy <= 3,
                -1 <= delta <= 1,
                nb0.len() == 729,
                self@ == (BoardView { neighbor: self@.neighbor, ..old(self)@ }),
                self@.neighbor.len() == nb0.len(),
                nb0 == old(self)@.neighbor,
                forall|i: int|
                    0 <= i < nb0.len() ==> #[trigger] self@.neighbor[i] == (if exists|k: int|
                        0 <= k < 5 * (dy + 2) && i == center + nb_off(k) {
                        clamp_u8(nb0[i] as int + delta)
                    } else {
                        nb0[i]
                    }),
            decreases 3 - dy,
        {
            let mut dx: i32 = -2;
            while dx <= 2
                invariant
                    -2 <= dy <= 2,
                    -2 <= dx <= 3,
                    -1 <= delta <= 1,
                    nb0.len() == 729,
                    self@ == (BoardView { neighbor: self@.neighbor, ..old(self)@ }),
                    self@.neighbor.len() == nb0.len(),
                    nb0 == old(self)@.neighbor,
                    forall|i: int|
                        0 <= i < nb0.len() ==> #[trigger] self@.neighbor[i] == (if exists|k: int|
                            0 <= k < 5 * (dy + 2) + (dx + 2) && i == center + nb_off(k) {
                            clamp_u8(nb0[i] as int + delta)
                        } else {
                            nb0[i]
                        }),
                decreases 3 - dx,
            {
                let i = center as i32 + dy * 27 + dx;
                let ghost kk = 5 * (dy + 2) + (dx + 2);
                proof {
                    assert(kk / 5 == dy + 2);
                    assert(kk % 5 == dx + 2);
                    assert(nb_off(kk) == dy * 27 + dx);
                    lemma_nb_off_facts();
                }
                if !(i < 0 || i as usize >= TOTAL) && (i as usize) < self.neighbor.len() {
                    let v = self.neighbor[i as usize] as i32 + delta;
                    let nv: u8 = if v < 0 {
                        0
                    } else if v > 255 {
                        255
                    } else {
                        v as u8
                    };
                    self.neighbor.set(i as usize, nv);
                }
                proof {
                    assert forall|j: int| 0 <= j < nb0.len() implies #[trigger] self@.neighbor[j] == (
                    if exists|k: int| 0 <= k < kk + 1 && j == center + nb_off(k) {
                        clamp_u8(nb0[j] as int + delta)
                    } else {
                        nb0[j]
                    }) by {
                        if j == i {
                            assert(0 <= kk < kk + 1 && j == center + nb_off(kk));
                            if exists|k: int| 0 <= k < kk && j == center + nb_off(k) {
                                let k = choose|k: int| 0 <= k < kk && j == center + nb_off(k);
                                assert(nb_off(k) == nb_off(kk));
                            }
                        } else {
                            if exists|k: int| 0 <= k < kk + 1 && j == center + nb_off(k) {
                                let k = choose|k: int| 0 <= k < kk + 1 && j == center + nb_off(k);
                                assert(k != kk);
                                assert(0 <= k < kk && j == center + nb_off(k));
                            }
                        }
                    }
                }
                dx = dx + 1;
            }
            dy = dy + 1;
        }
        assert(self@.neighbor =~= nb_adjusted(nb0, center as int, delta as int));
    }
}

/// A window of trits decodes back from its code, so its table entry is its
/// classification.
pub proof fn lemma_window_decodes(cells: Seq<Cell>, c: int, d: int, p: Player)
    ensures
        encode_spec(window(cells, c, d, p)) < TABLE_SIZE,
        table_entry(encode_spec(window(cells, c, d, p)) as u32) == classify_spec(window(cells, c, d, p)),
        encode_spec(hyp_window(cells, c, d, p)) < TABLE_SIZE,
        table_entry(encode_spec(hyp_window(cells, c, d, p)) as u32) == classify_spec(hyp_window(cells, c, d, p)),
{
    lemma_decode_encode(window(cells, c, d, p));
    lemma_decode_encode(hyp_window(cells, c, d, p));
}

// ---------------------------------------------------------------------------
// The accumulator, as a function of the cells

/// Window term of flat index `e = 4 * c + di`: the window score of the
/// stone at `c` along axis `di`, if it is `p`'s.
pub open spec fn term_w(cells: Seq<Cell>, p: Player) -> spec_fn(int) -> int {
    |e: int|
        if cell_of(cells, e / 4) == stone(p) {
            win_score(cells, e / 4, dir(e % 4), p)
        } else {
            0
        }
}

/// Pair term of flat index `e = 4 * c + di`: the vulnerability of the
/// pair anchored at `c` along axis `di`, if `c` holds `p`'s stone.
pub open spec fn term_v(cells: Seq<Cell>, p: Player) -> spec_fn(int) -> int {
    |e: int|
        if cell_of(cells, e / 4) == stone(p) {
            vuln(cells, e / 4, dir(e % 4), p)
        } else {
            0
        }
}

/// Number of (cell, axis) terms.
pub open spec fn n_terms() -> int {
    2916
}

/// The heuristic value of the position for `p`: over every stone of `p`
/// and every axis, the window score plus the pair vulnerability.
pub open spec fn full_acc(cells: Seq<Cell>, p: Player) -> int {
    range_sum(term_w(cells, p), n_terms()) + range_sum(term_v(cells, p), n_terms())
}

/// Two's-complement wrap of an integer to 32 bits.
pub open spec fn wrap32(x: int) -> int {
    (x + 0x8000_0000) % 0x1_0000_0000 - 0x8000_0000
}

/// The accumulator holds the value of the position (wrapped to 32 bits).
pub open spec fn acc_ok(v: BoardView) -> bool {
    &&& v.acc.len() == 2
    &&& v.acc[0] as int == wrap32(full_acc(v.cells, Player::Black))
    &&& v.acc[1] as int == wrap32(full_acc(v.cells, Player::White))
}

pub proof fn lemma_wrap32_range(x: int)
    ensures
        i32::MIN <= wrap32(x) <= i32::MAX,
{
}

pub proof fn lemma_wrap32_id(x: int)
    requires
        i32::MIN <= x <= i32::MAX,
    ensures
        wrap32(x) == x,
{
    vstd::arithmetic::div_mod::lemma_fundamental_div_mod_converse_mod(
        x + 0x8000_0000,
        0x1_0000_0000,
        0,
        x + 0x8000_0000,
    );
}

pub proof fn lemma_wrap32_add(x: int, y: int)
    ensures
        wrap32(wrap32(x) + y) == wrap32(x + y),
{
    let m: int = 0x1_0000_0000;
    let h: int = 0x8000_0000;
    let q = (x + h) / m;
    let r = (x + h) % m;
    vstd::arithmetic::div_mod::lemma_fundamental_div_mod(x + h, m);
    assert(x + y + h == m * q + (r + y));
    vstd::arithmetic::div_mod::lemma_mod_multiples_vanish(q, r + y, m);
}

pub proof fn lemma_wrapping_add_i32(a: i32, b: i32)
    ensures
        vstd::wrapping::i32_specs::wrapping_add(a, b) as int == wrap32(a + b),
{
    let m: int = 0x1_0000_0000;
    let h: int = 0x8000_0000;
    let s = a + b;
    if s > i32::MAX {
        vstd::arithmetic::div_mod::lemma_fundamental_div_mod_converse_mod(s + h, m, 1, s + h - m);
    } else if s < i32::MIN {
        vstd::arithmetic::div_mod::lemma_fundamental_div_mod_converse_mod(s + h, m, -1, s + h + m);
    } else {
        lemma_wrap32_id(s);
    }
}

/// Cell reached from `m` by `k` steps along axis `di`.
pub open spec fn axis_cell(m: int, di: int, k: int) -> int {
    m + k * dir(di)
}

/// `e` is the flat (cell, axis) index `4 * c + di` of a cell `c` within
/// `k` in `lo..=hi` steps (skipping `k == 0` if `skip0`) of one of the
/// `changed` cells along axis `di`, inside the array.
pub open spec fn touch(changed: Seq<u16>, e: int, lo: int, hi: int, skip0: bool) -> bool {
    exists|ci: int, di: int, k: int|
        0 <= ci < changed.len() && 0 <= di < 4 && lo <= k <= hi && !(skip0 && k == 0) && 0
            <= #[trigger] axis_cell(changed[ci] as int, di, k) < 729 && e == 4 * axis_cell(
            changed[ci] as int,
            di,
            k,
        ) + di
}

/// Decoding of step `s` of the enumeration of `(ci, di, k)`, `ci`
/// outermost, `k` innermost.
pub open spec fn step_ci(lo: int, hi: int, s: int) -> int {
    s / (4 * (hi - lo + 1))
}

pub open spec fn step_di(lo: int, hi: int, s: int) -> int {
    (s % (4 * (hi - lo + 1))) / (hi - lo + 1)
}

pub open spec fn step_k(lo: int, hi: int, s: int) -> int {
    lo + (s % (4 * (hi - lo + 1))) % (hi - lo + 1)
}

/// Step `s` names a cell inside the array (and not a skipped center).
pub open spec fn step_ok(changed: Seq<u16>, lo: int, hi: int, skip0: bool, s: int) -> bool {
    let ci = step_ci(lo, hi, s);
    let di = step_di(lo, hi, s);
    let k = step_k(lo, hi, s);
    &&& 0 <= ci < changed.len()
    &&& !(skip0 && k == 0)
    &&& 0 <= axis_cell(changed[ci] as int, di, k) < 729
}

/// Flat index named by step `s`.
pub open spec fn step_elem(changed: Seq<u16>, lo: int, hi: int, s: int) -> int {
    let ci = step_ci(lo, hi, s);
    let di = step_di(lo, hi, s);
    let k = step_k(lo, hi, s);
    4 * axis_cell(changed[ci] as int, di, k) + di
}

/// The flat indices named by the first `n` steps, in order.
pub open spec fn plain_list(changed: Seq<u16>, lo: int, hi: int, skip0: bool, n: int) -> Seq<int>
    decreases n,
{
    if n <= 0 {
        Seq::empty()
    } else {
        let prev = plain_list(changed, lo, hi, skip0, n - 1);
        if step_ok(changed, lo, hi, skip0, n - 1) {
            prev.push(step_elem(changed, lo, hi, n - 1))
        } else {
            prev
        }
    }
}

/// The flat indices named by the first `n` steps, each kept once, in
/// order of first occurrence.
pub open spec fn uniq_list(changed: Seq<u16>, lo: int, hi: int, skip0: bool, n: int) -> Seq<int>
    decreases n,
{
    if n <= 0 {
        Seq::empty()
    } else {
        let prev = uniq_list(changed, lo, hi, skip0, n - 1);
        if step_ok(changed, lo, hi, skip0, n - 1) && !prev.contains(
            step_elem(changed, lo, hi, n - 1),
        ) {
            prev.push(step_elem(changed, lo, hi, n - 1))
        } else {
            prev
        }
    }
}

/// A duplicate-free list of flat indices, exactly the `touch` set.
pub open spec fn touch_list(t: Seq<int>, changed: Seq<u16>, lo: int, hi: int, skip0: bool) -> bool {
    &&& t.no_duplicates()
    &&& forall|j: int| 0 <= j < t.len() ==> 0 <= #[trigger] t[j] < n_terms()
    &&& forall|e: int| t.contains(e) <==> touch(changed, e, lo, hi, skip0)
}

/// `a1` is `a0` moved by `sign` times the sums of `hb` and `hw` over `t`.
pub open spec fn acc_moved(
    a0: Seq<i32>,
    a1: Seq<i32>,
    sign: int,
    t: Seq<int>,
    hb: spec_fn(int) -> int,
    hw: spec_fn(int) -> int,
) -> bool {
    &&& a1.len() == 2
    &&& a1[0] as int == wrap32(a0[0] + sign * seq_sum(t, hb))
    &&& a1[1] as int == wrap32(a0[1] + sign * seq_sum(t, hw))
}

proof fn lemma_step_decode(lo: int, hi: int, ci: int, di: int, k: int, s: int)
    requires
        lo <= k <= hi,
        0 <= di < 4,
        0 <= ci,
        s == ci * (4 * (hi - lo + 1)) + di * (hi - lo + 1) + (k - lo),
    ensures
        step_ci(lo, hi, s) == ci,
        step_di(lo, hi, s) == di,
        step_k(lo, hi, s) == k,
        0 <= s,
{
    let kn = hi - lo + 1;
    let r = di * kn + (k - lo);
    assert(0 <= r < 4 * kn) by (nonlinear_arith)
        requires
            0 <= di < 4,
            0 <= k - lo < kn,
            r == di * kn + (k - lo),
    ;
    assert(0 <= ci * (4 * kn)) by (nonlinear_arith)
        requires
            0 <= ci,
            0 < kn,
    ;
    vstd::arithmetic::div_mod::lemma_fundamental_div_mod_converse_div(s, 4 * kn, ci, r);
    vstd::arithmetic::div_mod::lemma_fundamental_div_mod_converse_mod(s, 4 * kn, ci, r);
    vstd::arithmetic::div_mod::lemma_fundamental_div_mod_converse_div(r, kn, di, k - lo);
    vstd::arithmetic::div_mod::lemma_fundamental_div_mod_converse_mod(r, kn, di, k - lo);
}

proof fn lemma_step_ranges(lo: int, hi: int, s: int)
    requires
        lo <= hi,
        0 <= s,
    ensures
        0 <= step_ci(lo, hi, s),
        0 <= step_di(lo, hi, s) < 4,
        lo <= step_k(lo, hi, s) <= hi,
        s == step_ci(lo, hi, s) * (4 * (hi - lo + 1)) + step_di(lo, hi, s) * (hi - lo + 1) + (step_k(
            lo,
            hi,
            s,
        ) - lo),
{
    let kn = hi - lo + 1;
    vstd::arithmetic::div_mod::lemma_fundamental_div_mod(s, 4 * kn);
    let r = s % (4 * kn);
    let q1 = s / (4 * kn);
    vstd::arithmetic::div_mod::lemma_fundamental_div_mod(r, kn);
    let q2 = r / kn;
    let r2 = r % kn;
    assert(0 <= q2 < 4) by (nonlinear_arith)
        requires
            r == kn * q2 + r2,
            0 <= r2 < kn,
            0 <= r < 4 * kn,
            kn > 0,
    ;
    assert(0 <= q1) by (nonlinear_arith)
        requires
            s == (4 * kn) * q1 + r,
            0 <= r < 4 * kn,
            0 <= s,
            kn > 0,
    ;
    assert(s == q1 * (4 * kn) + q2 * kn + r2) by (nonlinear_arith)
        requires
            s == (4 * kn) * q1 + r,
            r == kn * q2 + r2,
    ;
}

proof fn lemma_flat_index(c: int, di: int)
    requires
        0 <= di < 4,
    ensures
        (4 * c + di) / 4 == c,
        (4 * c + di) % 4 == di,
{
    vstd::arithmetic::div_mod::lemma_fundamental_div_mod_converse_div(4 * c + di, 4, c, di);
    vstd::arithmetic::div_mod::lemma_fundamental_div_mod_converse_mod(4 * c + di, 4, c, di);
}

proof fn lemma_acc_moved_push(
    a0: Seq<i32>,
    a1: Seq<i32>,
    a2: Seq<i32>,
    sign: int,
    t: Seq<int>,
    e: int,
    hb: spec_fn(int) -> int,
    hw: spec_fn(int) -> int,
)
    requires
        a0.len() == 2,
        acc_moved(a0, a1, sign, t, hb, hw),
        a2.len() == 2,
        a2[0] as int == wrap32(a1[0] + sign * hb(e)),
        a2[1] as int == wrap32(a1[1] + sign * hw(e)),
    ensures
        acc_moved(a0, a2, sign, t.push(e), hb, hw),
{
    crate::sums::lemma_seq_sum_push(t, e, hb);
    crate::sums::lemma_seq_sum_push(t, e, hw);
    lemma_wrap32_add(a0[0] + sign * seq_sum(t, hb), sign * hb(e));
    lemma_wrap32_add(a0[1] + sign * seq_sum(t, hw), sign * hw(e));
    assert(a0[0] + sign * seq_sum(t, hb) + sign * hb(e) == a0[0] + sign * seq_sum(t.push(e), hb))
        by (nonlinear_arith)
        requires
            seq_sum(t.push(e), hb) == seq_sum(t, hb) + hb(e),
    ;
    assert(a0[1] + sign * seq_sum(t, hw) + sign * hw(e) == a0[1] + sign * seq_sum(t.push(e), hw))
        by (nonlinear_arith)
        requires
            seq_sum(t.push(e), hw) == seq_sum(t, hw) + hw(e),
    ;
}

proof fn lemma_acc_moved_start(a0: Seq<i32>, sign: int, hb: spec_fn(int) -> int, hw: spec_fn(int) -> int)
    requires
        a0.len() == 2,
    ensures
        acc_moved(a0, a0, sign, Seq::empty(), hb, hw),
{
    lemma_wrap32_id(a0[0] as int);
    lemma_wrap32_id(a0[1] as int);
}

impl Board {
    /// Adds `delta` (wrapping) to `owner`'s accumulator entry.
    fn bump_acc(&mut self, owner: Player, delta: i32)
        ensures
            final(self)@ == (BoardView { acc: final(self)@.acc, ..old(self)@ }),
            final(self)@.acc == old(self)@.acc.update(
                slot(owner),
                vstd::wrapping::i32_specs::wrapping_add(old(self)@.acc[slot(owner)], delta),
            ),
    {
        match owner {
            Player::Black => {
                self.acc[0] = self.acc[0].wrapping_add(delta);
            },
            Player::White => {
                self.acc[1] = self.acc[1].wrapping_add(delta);
            },
        }
        assert(self@.acc =~= old(self)@.acc.update(
            slot(owner),
            vstd::wrapping::i32_specs::wrapping_add(old(self)@.acc[slot(owner)], delta),
        ));
    }

    /// Adds `sign` times the window term of `(c, di)` to the accumulator
    /// entry of the owner of the stone at `c`, if there is one.
    fn add_window_term(&mut self, c: Idx, di: usize, pt: &PatternTable, sign: i32)
        requires
            di < 4,
            sign == 1 || sign == -1,
        ensures
            final(self)@ == (BoardView { acc: final(self)@.acc, ..old(self)@ }),
            final(self)@.acc.len() == 2,
            final(self)@.acc[0] as int == wrap32(
                old(self)@.acc[0] + sign * term_w(old(self)@.cells, Player::Black)(4 * c + di),
            ),
            final(self)@.acc[1] as int == wrap32(
                old(self)@.acc[1] + sign * term_w(old(self)@.cells, Player::White)(4 * c + di),
            ),
    {
        proof {
            lemma_flat_index(c as int, di as int);
            lemma_wrap32_id(self@.acc[0] as int);
            lemma_wrap32_id(self@.acc[1] as int);
        }
        let owner = match self.get(c) {
            Cell::Black => Player::Black,
            Cell::White => Player::White,
            _ => {
                return ;
            },
        };
        let d = DIRS[di];
        let score = self.stone_window_score(c, d, owner, pt);
        assert(-10_000_000 <= sign * score <= 10_000_000) by (nonlinear_arith)
            requires
                sign == 1 || sign == -1,
                0 <= score <= 10_000_000,
        ;
        self.bump_acc(owner, sign * score);
        proof {
            lemma_wrapping_add_i32(old(self)@.acc[slot(owner)], (sign * score) as i32);
        }
    }

    /// Adds `sign` times the pair term of `(c, di)` to the accumulator
    /// entry of the owner of the stone at `c`, if there is one.
    fn add_pair_term(&mut self, c: Idx, di: usize, sign: i32)
        requires
            di < 4,
            sign == 1 || sign == -1,
        ensures
            final(self)@ == (BoardView { acc: final(self)@.acc, ..old(self)@ }),
            final(self)@.acc.len() == 2,
            final(self)@.acc[0] as int == wrap32(
                old(self)@.acc[0] + sign * term_v(old(self)@.cells, Player::Black)(4 * c + di),
            ),
            final(self)@.acc[1] as int == wrap32(
                old(self)@.acc[1] + sign * term_v(old(self)@.cells, Player::White)(4 * c + di),
            ),
    {
        proof {
            lemma_flat_index(c as int, di as int);
            lemma_wrap32_id(self@.acc[0] as int);
            lemma_wrap32_id(self@.acc[1] as int);
        }
        let owner = match self.get(c) {
            Cell::Black => Player::Black,
            Cell::White => Player::White,
            _ => {
                return ;
            },
        };
        let d = DIRS[di];
        let score = self.pair_vuln_score(c, d, owner);
        assert(-1200 <= sign * score <= 1200) by (nonlinear_arith)
            requires
                sign == 1 || sign == -1,
                -1200 <= score <= 0,
        ;
        self.bump_acc(owner, sign * score);
        proof {
            lemma_wrapping_add_i32(old(self)@.acc[slot(owner)], (sign * score) as i32);
        }
    }

}

/// Membership in the step lists: exactly the elements of valid steps.
proof fn lemma_list_members(changed: Seq<u16>, lo: int, hi: int, skip0: bool, n: int)
    requires
        lo <= hi,
        0 <= n,
    ensures
        forall|e: int|
            #[trigger] plain_list(changed, lo, hi, skip0, n).contains(e) <==> exists|s: int|
                0 <= s < n && step_ok(changed, lo, hi, skip0, s) && e == #[trigger] step_elem(
                    changed,
                    lo,
                    hi,
                    s,
                ),
        forall|e: int|
            #[trigger] uniq_list(changed, lo, hi, skip0, n).contains(e) <==> exists|s: int|
                0 <= s < n && step_ok(changed, lo, hi, skip0, s) && e == #[trigger] step_elem(
                    changed,
                    lo,
                    hi,
                    s,
                ),
        uniq_list(changed, lo, hi, skip0, n).no_duplicates(),
        forall|j: int|
            0 <= j < plain_list(changed, lo, hi, skip0, n).len() ==> 0 <= #[trigger] plain_list(
                changed,
                lo,
                hi,
                skip0,
                n,
            )[j] < n_terms(),
        forall|j: int|
            0 <= j < uniq_list(changed, lo, hi, skip0, n).len() ==> 0 <= #[trigger] uniq_list(
                changed,
                lo,
                hi,
                skip0,
                n,
            )[j] < n_terms(),
    decreases n,
{
    if n > 0 {
        lemma_list_members(changed, lo, hi, skip0, n - 1);
        let pl = plain_list(changed, lo, hi, skip0, n - 1);
        let ul = uniq_list(changed, lo, hi, skip0, n - 1);
        let x = step_elem(changed, lo, hi, n - 1);
        lemma_step_ranges(lo, hi, n - 1);
        if step_ok(changed, lo, hi, skip0, n - 1) {
            assert(0 <= x < n_terms());
        }
        assert forall|e: int|
            #[trigger] plain_list(changed, lo, hi, skip0, n).contains(e) <==> exists|s: int|
                0 <= s < n && step_ok(changed, lo, hi, skip0, s) && e == #[trigger] step_elem(
                    changed,
                    lo,
                    hi,
                    s,
                ) by {
            if exists|s: int| 0 <= s < n && step_ok(changed, lo, hi, skip0, s) && e == #[trigger] step_elem(changed, lo, hi, s) {
                let s = choose|s: int| 0 <= s < n && step_ok(changed, lo, hi, skip0, s) && e == #[trigger] step_elem(changed, lo, hi, s);
                if s < n - 1 {
                    assert(pl.contains(e));
                    let j = choose|j: int| 0 <= j < pl.len() && pl[j] == e;
                    if step_ok(changed, lo, hi, skip0, n - 1) {
                        assert(pl.push(x)[j] == e);
                    }
                } else {
                    assert(pl.push(x)[pl.len() as int] == e);
                }
            }
            if plain_list(changed, lo, hi, skip0, n).contains(e) {
                if step_ok(changed, lo, hi, skip0, n - 1) {
                    let j = choose|j: int| 0 <= j < pl.push(x).len() && pl.push(x)[j] == e;
                    if j < pl.len() {
                        assert(pl[j] == e);
                        assert(pl.contains(e));
                    }
                }
            }
        }
        assert forall|e: int|
            #[trigger] uniq_list(changed, lo, hi, skip0, n).contains(e) <==> exists|s: int|
                0 <= s < n && step_ok(changed, lo, hi, skip0, s) && e == #[trigger] step_elem(
                    changed,
                    lo,
                    hi,
                    s,
                ) by {
            if exists|s: int| 0 <= s < n && step_ok(changed, lo, hi, skip0, s) && e == #[trigger] step_elem(changed, lo, hi, s) {
                let s = choose|s: int| 0 <= s < n && step_ok(changed, lo, hi, skip0, s) && e == #[trigger] step_elem(changed, lo, hi, s);
                if s < n - 1 {
                    assert(ul.contains(e));
                    let j = choose|j: int| 0 <= j < ul.len() && ul[j] == e;
                    if step_ok(changed, lo, hi, skip0, n - 1) && !ul.contains(x) {
                        assert(ul.push(x)[j] == e);
                    }
                } else {
                    if !ul.contains(x) {
                        assert(ul.push(x)[ul.len() as int] == e);
                    }
                }
            }
            if uniq_list(changed, lo, hi, skip0, n).contains(e) {
                if step_ok(changed, lo, hi, skip0, n - 1) && !ul.contains(x) {
                    let j = choose|j: int| 0 <= j < ul.push(x).len() && ul.push(x)[j] == e;
                    if j < ul.len() {
                        assert(ul[j] == e);
                        assert(ul.contains(e));
                    }
                }
            }
        }
        if step_ok(changed, lo, hi, skip0, n - 1) && !ul.contains(x) {
            assert(ul.push(x).no_duplicates()) by {
                assert forall|a: int, b: int|
                    0 <= a < ul.push(x).len() && 0 <= b < ul.push(x).len() && a != b implies ul.push(x)[a]
                    != ul.push(x)[b] by {
                    if a == ul.len() {
                        assert(ul[b] != x);
                    } else if b == ul.len() {
                        assert(ul[a] != x);
                    }
                }
            }
        }
    }
}

/// With a single changed cell, distinct valid steps name distinct
/// flat indices, so the plain list has no duplicates.
proof fn lemma_plain_list_single(m: u16, lo: int, hi: int, skip0: bool, n: int)
    requires
        lo <= hi,
        0 <= n,
    ensures
        plain_list(seq![m], lo, hi, skip0, n).no_duplicates(),
    decreases n,
{
    if n > 0 {
        let ch = seq![m];
        lemma_plain_list_single(m, lo, hi, skip0, n - 1);
        lemma_list_members(ch, lo, hi, skip0, n - 1);
        let pl = plain_list(ch, lo, hi, skip0, n - 1);
        let x = step_elem(ch, lo, hi, n - 1);
        if step_ok(ch, lo, hi, skip0, n - 1) {
            if pl.contains(x) {
                let s = choose|s: int| 0 <= s < n - 1 && step_ok(ch, lo, hi, skip0, s) && x == #[trigger] step_elem(ch, lo, hi, s);
                lemma_step_ranges(lo, hi, s);
                lemma_step_ranges(lo, hi, n - 1);
                let di1 = step_di(lo, hi, s);
                let di2 = step_di(lo, hi, n - 1);
                let k1 = step_k(lo, hi, s);
                let k2 = step_k(lo, hi, n - 1);
                lemma_flat_index(axis_cell(m as int, di1, k1), di1);
                lemma_flat_index(axis_cell(m as int, di2, k2), di2);
                assert(di1 == di2);
                assert(k1 * dir(di1) == k2 * dir(di1));
                assert(k1 == k2) by (nonlinear_arith)
                    requires
                        k1 * dir(di1) == k2 * dir(di1),
                        dir(di1) > 0,
                ;
                assert(false);
            }
            assert(pl.push(x).no_duplicates()) by {
                assert forall|a: int, b: int|
                    0 <= a < pl.push(x).len() && 0 <= b < pl.push(x).len() && a != b implies pl.push(x)[a]
                    != pl.push(x)[b] by {
                    if a == pl.len() {
                        assert(pl[b] != x);
                    } else if b == pl.len() {
                        assert(pl[a] != x);
                    }
                }
            }
        }
    }
}

/// The elements of all valid steps form the `touch` set.
proof fn lemma_steps_touch(changed: Seq<u16>, lo: int, hi: int, skip0: bool, e: int)
    requires
        lo <= hi,
    ensures
        (exists|s: int|
            0 <= s < changed.len() * (4 * (hi - lo + 1)) && step_ok(changed, lo, hi, skip0, s) && e
                == #[trigger] step_elem(changed, lo, hi, s)) <==> touch(changed, e, lo, hi, skip0),
{
    let kn = hi - lo + 1;
    if touch(changed, e, lo, hi, skip0) {
        let (ci, di, k) = choose|ci: int, di: int, k: int|
            0 <= ci < changed.len() && 0 <= di < 4 && lo <= k <= hi && !(skip0 && k == 0) && 0
                <= #[trigger] axis_cell(changed[ci] as int, di, k) < 729 && e == 4 * axis_cell(
                changed[ci] as int,
                di,
                k,
            ) + di;
        let s = ci * (4 * kn) + di * kn + (k - lo);
        lemma_step_decode(lo, hi, ci, di, k, s);
        assert(s < changed.len() * (4 * kn)) by (nonlinear_arith)
            requires
                s == ci * (4 * kn) + di * kn + (k - lo),
                0 <= ci < changed.len(),
                0 <= di < 4,
                0 <= k - lo < kn,
        ;
        assert(step_ok(changed, lo, hi, skip0, s) && e == step_elem(changed, lo, hi, s));
    }
    if exists|s: int|
        0 <= s < changed.len() * (4 * kn) && step_ok(changed, lo, hi, skip0, s) && e
            == #[trigger] step_elem(changed, lo, hi, s) {
        let s = choose|s: int|
            0 <= s < changed.len() * (4 * kn) && step_ok(changed, lo, hi, skip0, s) && e
                == #[trigger] step_elem(changed, lo, hi, s);
        lemma_step_ranges(lo, hi, s);
        let ci = step_ci(lo, hi, s);
        let di = step_di(lo, hi, s);
        let k = step_k(lo, hi, s);
        assert(0 <= #[trigger] axis_cell(changed[ci] as int, di, k) < 729);
    }
}

/// The full plain list of a single changed cell is exactly its touch set.
proof fn lemma_plain_list_touch(m: u16, lo: int, hi: int, skip0: bool)
    requires
        lo <= hi,
    ensures
        touch_list(plain_list(seq![m], lo, hi, skip0, 4 * (hi - lo + 1)), seq![m], lo, hi, skip0),
{
    let n = 4 * (hi - lo + 1);
    lemma_list_members(seq![m], lo, hi, skip0, n);
    lemma_plain_list_single(m, lo, hi, skip0, n);
    assert forall|e: int|
        plain_list(seq![m], lo, hi, skip0, n).contains(e) <==> touch(seq![m], e, lo, hi, skip0) by {
        lemma_steps_touch(seq![m], lo, hi, skip0, e);
        assert(seq![m].len() == 1);
        assert(seq![m].len() * (4 * (hi - lo + 1)) == n) by (nonlinear_arith)
            requires
                seq![m].len() == 1,
                n == 4 * (hi - lo + 1),
        ;
    }
}

/// The full unique list of the changed cells is exactly their touch set.
proof fn lemma_uniq_list_touch(changed: Seq<u16>, lo: int, hi: int, skip0: bool)
    requires
        lo <= hi,
    ensures
        touch_list(
            uniq_list(changed, lo, hi, skip0, changed.len() * (4 * (hi - lo + 1))),
            changed,
            lo,
            hi,
            skip0,
        ),
{
    let n = changed.len() * (4 * (hi - lo + 1));
    assert(0 <= n) by (nonlinear_arith)
        requires
            n == changed.len() * (4 * (hi - lo + 1)),
            lo <= hi,
    ;
    lemma_list_members(changed, lo, hi, skip0, n);
    assert forall|e: int|
        uniq_list(changed, lo, hi, skip0, n).contains(e) <==> touch(changed, e, lo, hi, skip0) by {
        lemma_steps_touch(changed, lo, hi, skip0, e);
    }
}

/// The key `(c, di)` is among the touched pairs.
fn has_key(touched: &Vec<(Idx, u8)>, key: (Idx, u8)) -> (r: bool)
    ensures
        r == touched@.contains(key),
{
    let mut i: usize = 0;
    while i < touched.len()
        invariant
            i <= touched.len(),
            forall|j: int| 0 <= j < i ==> touched@[j] != key,
        decreases touched.len() - i,
    {
        if touched[i].0 == key.0 && touched[i].1 == key.1 {
            assert(touched@[i as int] == key);
            return true;
        }
        i = i + 1;
    }
    false
}

impl Board {
    /// Adds `sign` times the window score of every stone within four steps
    /// of `center` along an axis (not `center` itself), on that axis, to its
    /// owner's accumulator entry: every window a change at `center` can
    /// affect. Called with `sign = -1` before changing `center`, `sign = 1`
    /// after.
    fn adjust_axis_neighbors(&mut self, center: Idx, pt: &PatternTable, sign: i32)
        requires
            sign == 1 || sign == -1,
        ensures
            final(self)@ == (BoardView { acc: final(self)@.acc, ..old(self)@ }),
            acc_moved(
                old(self)@.acc,
                final(self)@.acc,
                sign as int,
                plain_list(seq![center], -4, 4, true, 36),
                term_w(old(self)@.cells, Player::Black),
                term_w(old(self)@.cells, Player::White),
            ),
    {
        let ghost ch = seq![center];
        let ghost hb = term_w(self@.cells, Player::Black);
        let ghost hw = term_w(self@.cells, Player::White);
        proof {
            lemma_acc_moved_start(self@.acc, sign as int, hb, hw);
        }
        let mut di: usize = 0;
        while di < 4
            invariant
                di <= 4,
                sign == 1 || sign == -1,
                self@ == (BoardView { acc: self@.acc, ..old(self)@ }),
                ch == seq![center],
                hb == term_w(old(self)@.cells, Player::Black),
                hw == term_w(old(self)@.cells, Player::White),
                acc_moved(old(self)@.acc, self@.acc, sign as int, plain_list(ch, -4, 4, true, 9 * di), hb, hw),
            decreases 4 - di,
        {
            let d = DIRS[di];
            let mut k: i32 = -4;
            while k <= 4
                invariant
                    di < 4,
                    -4 <= k <= 5,
                    d as int == dir(di as int),
                    sign == 1 || sign == -1,
                    self@ == (BoardView { acc: self@.acc, ..old(self)@ }),
                    ch == seq![center],
                    hb == term_w(old(self)@.cells, Player::Black),
                    hw == term_w(old(self)@.cells, Player::White),
                    acc_moved(
                        old(self)@.acc,
                        self@.acc,
                        sign as int,
                        plain_list(ch, -4, 4, true, 9 * di + k + 4),
                        hb,
                        hw,
                    ),
                decreases 5 - k,
            {
                let ghost s = 9 * di + k + 4;
                proof {
                    lemma_step_decode(-4, 4, 0, di as int, k as int, s);
                    assert(axis_cell(center as int, di as int, k as int) == center + k * d);
                }
                if k != 0 {
                    let c_off = center as i32 + k * d as i32;
                    if !(c_off < 0 || c_off as usize >= TOTAL) {
                        let c = c_off as Idx;
                        let ghost a1 = self@.acc;
                        self.add_window_term(c, di, pt, sign);
                        proof {
                            lemma_acc_moved_push(
                                old(self)@.acc,
                                a1,
                                self@.acc,
                                sign as int,
                                plain_list(ch, -4, 4, true, s),
                                4 * c + di,
                                hb,
                                hw,
                            );
                            assert(step_ci(-4, 4, s) == 0);
                            assert(step_di(-4, 4, s) == di);
                            assert(step_k(-4, 4, s) == k);
                            assert(ch[0] == center);
                            assert(axis_cell(ch[0] as int, di as int, k as int) == c);
                            assert(step_ok(ch, -4, 4, true, s));
                            assert(step_elem(ch, -4, 4, s) == 4 * c + di);
                            assert(plain_list(ch, -4, 4, true, s + 1) == plain_list(ch, -4, 4, true, s).push(4 * c + di));
                        }
                    } else {
                        assert(plain_list(ch, -4, 4, true, s + 1) == plain_list(ch, -4, 4, true, s));
                    }
                } else {
                    assert(plain_list(ch, -4, 4, true, s + 1) == plain_list(ch, -4, 4, true, s));
                }
                k = k + 1;
            }
            di = di + 1;
        }
    }

    /// Adds `sign` times the pair vulnerability of every pair a change at
    /// `center` can affect (pairs anchored two steps before to one step
    /// after `center`, along each axis) to its owner's accumulator entry.
    fn adjust_axis_vuln(&mut self, center: Idx, sign: i32)
        requires
            sign == 1 || sign == -1,
        ensures
            final(self)@ == (BoardView { acc: final(self)@.acc, ..old(self)@ }),
            acc_moved(
                old(self)@.acc,
                final(self)@.acc,
                sign as int,
                plain_list(seq![center], -2, 1, false, 16),
                term_v(old(self)@.cells, Player::Black),
                term_v(old(self)@.cells, Player::White),
            ),
    {
        let ghost ch = seq![center];
        let ghost hb = term_v(self@.cells, Player::Black);
        let ghost hw = term_v(self@.cells, Player::White);
        proof {
            lemma_acc_moved_start(self@.acc, sign as int, hb, hw);
        }
        let mut di: usize = 0;
        while di < 4
            invariant
                di <= 4,
                sign == 1 || sign == -1,
                self@ == (BoardView { acc: self@.acc, ..old(self)@ }),
                ch == seq![center],
                hb == term_v(old(self)@.cells, Player::Black),
                hw == term_v(old(self)@.cells, Player::White),
                acc_moved(old(self)@.acc, self@.acc, sign as int, plain_list(ch, -2, 1, false, 4 * di), hb, hw),
            decreases 4 - di,
        {
            let d = DIRS[di];
            let mut k: i32 = -2;
            while k <= 1
                invariant
                    di < 4,
                    -2 <= k <= 2,
                    d as int == dir(di as int),
                    sign == 1 || sign == -1,
                    self@ == (BoardView { acc: self@.acc, ..old(self)@ }),
                    ch == seq![center],
                    hb == term_v(old(self)@.cells, Player::Black),
                    hw == term_v(old(self)@.cells, Player::White),
                    acc_moved(
                        old(self)@.acc,
                        self@.acc,
                        sign as int,
                        plain_list(ch, -2, 1, false, 4 * di + k + 2),
                        hb,
                        hw,
                    ),
                decreases 2 - k,
            {
                let ghost s = 4 * di + k + 2;
                proof {
                    lemma_step_decode(-2, 1, 0, di as int, k as int, s);
                    assert(axis_cell(center as int, di as int, k as int) == center + k * d);
                }
                let c_off = center as i32 + k * d as i32;
                if !(c_off < 0 || c_off as usize >= TOTAL) {
                    let c = c_off as Idx;
                    let ghost a1 = self@.acc;
                    self.add_pair_term(c, di, sign);
                    proof {
                        lemma_acc_moved_push(
                            old(self)@.acc,
                            a1,
                            self@.acc,
                            sign as int,
                            plain_list(ch, -2, 1, false, s),
                            4 * c + di,
                            hb,
                            hw,
                        );
                    }
                }
                k = k + 1;
            }
            di = di + 1;
        }
    }

    /// Collects, once each, every `(cell, axis)` pair within `lo..=hi`
    /// steps of one of the `changed` cells along that axis.
    fn touched_pairs(changed: &[Idx], lo: i32, hi: i32) -> (touched: Vec<(Idx, u8)>)
        requires
            -4 <= lo <= hi <= 4,
            changed@.len() <= 17,
        ensures
            touched@.len() == uniq_list(changed@, lo as int, hi as int, false, changed@.len() * (4 * (hi - lo + 1))).len(),
            forall|j: int|
                0 <= j < touched@.len() ==> #[trigger] touched@[j].1 < 4 && 4 * touched@[j].0 + touched@[j].1
                    == uniq_list(changed@, lo as int, hi as int, false, changed@.len() * (4 * (hi - lo + 1)))[j],
    {
        let ghost kn = hi - lo + 1;
        let mut touched: Vec<(Idx, u8)> = Vec::new();
        let mut ci: usize = 0;
        while ci < changed.len()
            invariant
                ci <= changed@.len(),
                -4 <= lo <= hi <= 4,
                kn == hi - lo + 1,
                touched@.len() == uniq_list(changed@, lo as int, hi as int, false, ci * (4 * kn)).len(),
                forall|j: int|
                    0 <= j < touched@.len() ==> #[trigger] touched@[j].1 < 4 && 4 * touched@[j].0
                        + touched@[j].1 == uniq_list(changed@, lo as int, hi as int, false, ci * (4 * kn))[j],
            decreases changed@.len() - ci,
        {
            let center = changed[ci];
            let mut di: usize = 0;
            while di < 4
                invariant
                    ci < changed@.len(),
                    di <= 4,
                    center == changed@[ci as int],
                    -4 <= lo <= hi <= 4,
                    kn == hi - lo + 1,
                    touched@.len() == uniq_list(changed@, lo as int, hi as int, false, ci * (4 * kn) + di * kn).len(),
                    forall|j: int|
                        0 <= j < touched@.len() ==> #[trigger] touched@[j].1 < 4 && 4 * touched@[j].0
                            + touched@[j].1 == uniq_list(changed@, lo as int, hi as int, false, ci * (4 * kn) + di * kn)[j],
                decreases 4 - di,
            {
                let d = DIRS[di];
                let mut k: i32 = lo;
                while k <= hi
                    invariant
                        ci < changed@.len(),
                        di < 4,
                        lo <= k <= hi + 1,
                        d as int == dir(di as int),
                        center == changed@[ci as int],
                        -4 <= lo <= hi <= 4,
                        kn == hi - lo + 1,
                        touched@.len() == uniq_list(changed@, lo as int, hi as int, false, ci * (4 * kn) + di * kn + (k - lo)).len(),
                        forall|j: int|
                            0 <= j < touched@.len() ==> #[trigger] touched@[j].1 < 4 && 4 * touched@[j].0
                                + touched@[j].1 == uniq_list(
                                changed@,
                                lo as int,
                                hi as int,
                                false,
                                ci * (4 * kn) + di * kn + (k - lo),
                            )[j],
                    decreases hi + 1 - k,
                {
                    let ghost s = ci * (4 * kn) + di * kn + (k - lo);
                    let ghost ul = uniq_list(changed@, lo as int, hi as int, false, s);
                    proof {
                        lemma_step_decode(lo as int, hi as int, ci as int, di as int, k as int, s);
                        assert(axis_cell(center as int, di as int, k as int) == center + k * d);
                    }
                    let c_off = center as i32 + k * d as i32;
                    if !(c_off < 0 || c_off as usize >= TOTAL) {
                        let key = (c_off as Idx, di as u8);
                        let present = has_key(&touched, key);
                        proof {
                            let x = 4 * c_off + di;
                            assert(key.0 as int == c_off as int);
                            assert(key.1 as int == di as int);
                            assert(present == ul.contains(x)) by {
                                if present {
                                    let j = choose|j: int| 0 <= j < touched@.len() && touched@[j] == key;
                                    assert(ul[j] == x);
                                }
                                if ul.contains(x) {
                                    let j = choose|j: int| 0 <= j < ul.len() && ul[j] == x;
                                    assert(4 * touched@[j].0 + touched@[j].1 == x);
                                    lemma_flat_index(touched@[j].0 as int, touched@[j].1 as int);
                                    lemma_flat_index(c_off as int, di as int);
                                    assert(touched@[j] == key);
                                }
                            }
                        }
                        if !present {
                            touched.push(key);
                        }
                    }
                    k = k + 1;
                }
                proof {
                    assert(ci * (4 * kn) + di * kn + (hi + 1 - lo) == ci * (4 * kn) + (di + 1) * kn)
                        by (nonlinear_arith)
                        requires
                            kn == hi - lo + 1,
                    ;
                }
                di = di + 1;
            }
            proof {
                assert(ci * (4 * kn) + 4 * kn == (ci + 1) * (4 * kn)) by (nonlinear_arith);
            }
            ci = ci + 1;
        }
        touched
    }

    /// Adds `sign` times the window score of every `(cell, axis)` window a
    /// change at any of the `changed` cells can affect, touching each window
    /// exactly once. Used on the capturing path, where the changed cells'
    /// windows can overlap. Called with `sign = -1` before any change and
    /// `sign = 1` after all of them.
    fn adjust_axis_dedup(&mut self, changed: &[Idx], pt: &PatternTable, sign: i32)
        requires
            sign == 1 || sign == -1,
            changed@.len() <= 17,
        ensures
            final(self)@ == (BoardView { acc: final(self)@.acc, ..old(self)@ }),
            acc_moved(
                old(self)@.acc,
                final(self)@.acc,
                sign as int,
                uniq_list(changed@, -4, 4, false, changed@.len() as int * 36),
                term_w(old(self)@.cells, Player::Black),
                term_w(old(self)@.cells, Player::White),
            ),
    {
        let touched = Self::touched_pairs(changed, -4, 4);
        let ghost tl = uniq_list(changed@, -4, 4, false, changed@.len() as int * 36);
        let ghost hb = term_w(self@.cells, Player::Black);
        let ghost hw = term_w(self@.cells, Player::White);
        proof {
            lemma_acc_moved_start(self@.acc, sign as int, hb, hw);
        }
        let mut j: usize = 0;
        while j < touched.len()
            invariant
                j <= touched@.len(),
                touched@.len() == tl.len(),
                forall|i: int|
                    0 <= i < touched@.len() ==> #[trigger] touched@[i].1 < 4 && 4 * touched@[i].0 + touched@[i].1 == tl[i],
                sign == 1 || sign == -1,
                self@ == (BoardView { acc: self@.acc, ..old(self)@ }),
                hb == term_w(old(self)@.cells, Player::Black),
                hw == term_w(old(self)@.cells, Player::White),
                acc_moved(old(self)@.acc, self@.acc, sign as int, tl.take(j as int), hb, hw),
            decreases touched@.len() - j,
        {
            let (c, di) = touched[j];
            let ghost a1 = self@.acc;
            self.add_window_term(c, di as usize, pt, sign);
            proof {
                assert(touched@[j as int].1 < 4);
                lemma_acc_moved_push(old(self)@.acc, a1, self@.acc, sign as int, tl.take(j as int), tl[j as int], hb, hw);
                assert(tl.take(j as int).push(tl[j as int]) =~= tl.take(j + 1));
            }
            j = j + 1;
        }
        assert(tl.take(touched@.len() as int) =~= tl);
    }

    /// Same as `adjust_axis_dedup`, for the pair vulnerabilities, at the
    /// smaller reach they need.
    fn adjust_axis_vuln_dedup(&mut self, changed: &[Idx], sign: i32)
        requires
            sign == 1 || sign == -1,
            changed@.len() <= 17,
        ensures
            final(self)@ == (BoardView { acc: final(self)@.acc, ..old(self)@ }),
            acc_moved(
                old(self)@.acc,
                final(self)@.acc,
                sign as int,
                uniq_list(changed@, -2, 1, false, changed@.len() as int * 16),
                term_v(old(self)@.cells, Player::Black),
                term_v(old(self)@.cells, Player::White),
            ),
    {
        let touched = Self::touched_pairs(changed, -2, 1);
        let ghost tl = uniq_list(changed@, -2, 1, false, changed@.len() as int * 16);
        let ghost hb = term_v(self@.cells, Player::Black);
        let ghost hw = term_v(self@.cells, Player::White);
        proof {
            lemma_acc_moved_start(self@.acc, sign as int, hb, hw);
        }
        let mut j: usize = 0;
        while j < touched.len()
            invariant
                j <= touched@.len(),
                touched@.len() == tl.len(),
                forall|i: int|
                    0 <= i < touched@.len() ==> #[trigger] touched@[i].1 < 4 && 4 * touched@[i].0 + touched@[i].1 == tl[i],
                sign == 1 || sign == -1,
                self@ == (BoardView { acc: self@.acc, ..old(self)@ }),
                hb == term_v(old(self)@.cells, Player::Black),
                hw == term_v(old(self)@.cells, Player::White),
                acc_moved(old(self)@.acc, self@.acc, sign as int, tl.take(j as int), hb, hw),
            decreases touched@.len() - j,
        {
            let (c, di) = touched[j];
            let ghost a1 = self@.acc;
            self.add_pair_term(c, di as usize, sign);
            proof {
                assert(touched@[j as int].1 < 4);
                lemma_acc_moved_push(old(self)@.acc, a1, self@.acc, sign as int, tl.take(j as int), tl[j as int], hb, hw);
                assert(tl.take(j as int).push(tl[j as int]) =~= tl.take(j + 1));
            }
            j = j + 1;
        }
        assert(tl.take(touched@.len() as int) =~= tl);
    }
}

// ---------------------------------------------------------------------------
// Moves

/// What `play` records so that `undo` can reverse it exactly.
pub struct Undo {
    pub mv: Idx,
    /// Captured stones (4 axes x 2 signs x 2 stones at most).
    pub captured: [Idx; 16],
    pub n_captured: u8,
    pub prev_zobrist: u64,
    pub prev_acc: [i32; 2],
    pub prev_captures: [u8; 2],
}

/// Sets cell `i` to `c` if `i` is inside the array.
pub open spec fn set_cell(cells: Seq<Cell>, i: int, c: Cell) -> Seq<Cell> {
    if 0 <= i < cells.len() {
        cells.update(i, c)
    } else {
        cells
    }
}

/// Sets each listed cell to `c`, in order.
pub open spec fn fill_cells(cells: Seq<Cell>, list: Seq<u16>, c: Cell) -> Seq<Cell>
    decreases list.len(),
{
    if list.len() == 0 {
        cells
    } else {
        set_cell(fill_cells(cells, list.drop_last(), c), list.last() as int, c)
    }
}

/// Folds `z ^= keys[base + c]` over the listed cells, in order.
pub open spec fn xor_keys(z: u64, keys: Seq<u64>, base: int, list: Seq<u16>) -> u64
    decreases list.len(),
{
    if list.len() == 0 {
        z
    } else {
        xor_keys(z, keys, base, list.drop_last()) ^ keys[base + list.last()]
    }
}

/// Applies the grid adjustment around each listed cell, in order.
pub open spec fn nb_fold(nb: Seq<u8>, list: Seq<u16>, delta: int) -> Seq<u8>
    decreases list.len(),
{
    if list.len() == 0 {
        nb
    } else {
        nb_adjusted(nb_fold(nb, list.drop_last(), delta), list.last() as int, delta)
    }
}

/// The neighbor grid consistent with `cells`.
pub open spec fn nb_grid(cells: Seq<Cell>) -> Seq<u8> {
    Seq::new(729, |i: int| nb_count(cells, i) as u8)
}

/// Index of a capture count in the capture key table (at most 10).
pub open spec fn cap_key_index(c: u8) -> int {
    if c > 10 {
        10
    } else {
        c as int
    }
}

/// Capture count after adding `n` stones, saturating at 255.
pub open spec fn sat_add_u8(c: u8, n: int) -> u8 {
    if c + n > 255 {
        255
    } else {
        (c + n) as u8
    }
}

/// The cells after the player to move plays at `mv`.
pub open spec fn play_cells(v: BoardView, mv: int) -> Seq<Cell> {
    let p = v.to_move;
    fill_cells(v.cells.update(mv, stone(p)), captured_by(v.cells, mv, p), Cell::Empty)
}

/// The Zobrist key after the player to move plays at `mv`: the mover's
/// stone at `mv` and each captured stone toggled, the capture-count key of
/// the mover swapped from the old count to the new, and the side key
/// toggled.
pub open spec fn play_zobrist(v: BoardView, mv: int) -> u64 {
    let p = v.to_move;
    let caps = captured_by(v.cells, mv, p);
    let c0 = v.captures[slot(p)];
    let c1 = sat_add_u8(c0, caps.len() as int);
    let z1 = v.zobrist ^ v.key_cell[slot(p) * 729 + mv];
    let z2 = xor_keys(z1, v.key_cell, slot(opponent(p)) * 729, caps);
    let z3 = z2 ^ v.key_captures[slot(p) * 11 + cap_key_index(c0)];
    let z4 = z3 ^ v.key_captures[slot(p) * 11 + cap_key_index(c1)];
    z4 ^ v.key_side
}

/// The board after the player to move plays at `mv`.
pub open spec fn play_view(v: BoardView, mv: int) -> BoardView {
    let p = v.to_move;
    let caps = captured_by(v.cells, mv, p);
    let cells2 = play_cells(v, mv);
    BoardView {
        cells: cells2,
        captures: v.captures.update(slot(p), sat_add_u8(v.captures[slot(p)], caps.len() as int)),
        to_move: opponent(p),
        zobrist: play_zobrist(v, mv),
        stone_count: num_stones(cells2) as u32,
        neighbor: nb_grid(cells2),
        acc: seq![
            wrap32(v.acc[0] + full_acc(cells2, Player::Black) - full_acc(v.cells, Player::Black)) as i32,
            wrap32(v.acc[1] + full_acc(cells2, Player::White) - full_acc(v.cells, Player::White)) as i32,
        ],
        ..v
    }
}

/// `u` is what `play` records when the player to move plays at `mv`.
pub open spec fn undo_record(u: Undo, v: BoardView, mv: int) -> bool {
    let caps = captured_by(v.cells, mv, v.to_move);
    &&& u.mv == mv
    &&& u.n_captured == caps.len()
    &&& forall|i: int| 0 <= i < caps.len() ==> u.captured@[i] == caps[i]
    &&& u.prev_zobrist == v.zobrist
    &&& u.prev_acc@ == v.acc
    &&& u.prev_captures@ == v.captures
}

/// Every captured stone is an opponent stone on the board, they are
/// distinct, and none is the played cell.
pub open spec fn captures_sound(cells: Seq<Cell>, mv: int, p: Player) -> bool {
    let caps = captured_by(cells, mv, p);
    &&& caps.len() <= 16
    &&& caps.no_duplicates()
    &&& forall|i: int|
        0 <= i < caps.len() ==> in_board(#[trigger] caps[i] as int) && cells[caps[i] as int] == stone(
            opponent(p),
        ) && caps[i] != mv
}

/// Cell `t` steps from `mv` in capture direction `j`.
pub open spec fn cap_pos(mv: int, j: int, t: int) -> int {
    mv + t * cap_step(j)
}

proof fn lemma_cap_offsets_distinct(j1: int, t1: int, j2: int, t2: int)
    requires
        0 <= j1 < 8,
        0 <= j2 < 8,
        1 <= t1 <= 2,
        1 <= t2 <= 2,
        t1 * cap_step(j1) == t2 * cap_step(j2),
    ensures
        j1 == j2,
        t1 == t2,
{
    assert(j1 == 0 || j1 == 1 || j1 == 2 || j1 == 3 || j1 == 4 || j1 == 5 || j1 == 6 || j1 == 7);
    assert(j2 == 0 || j2 == 1 || j2 == 2 || j2 == 3 || j2 == 4 || j2 == 5 || j2 == 6 || j2 == 7);
    assert(t1 == 1 || t1 == 2);
    assert(t2 == 1 || t2 == 2);
}

/// `x` is one or two steps from `mv` in one of the first `n` capture
/// directions.
pub open spec fn cap_origin(mv: int, x: int, n: int) -> bool {
    exists|j: int, t: int| 0 <= j < n && 1 <= t <= 2 && x == #[trigger] cap_pos(mv, j, t)
}

proof fn lemma_capture_list_shape(cells: Seq<Cell>, mv: int, p: Player, n: int)
    requires
        layout_ok(cells),
        in_board(mv),
        cells[mv] == Cell::Empty,
        0 <= n <= 8,
    ensures
        capture_list(cells, mv, p, n).no_duplicates(),
        capture_list(cells, mv, p, n).len() <= 2 * n,
        forall|i: int|
            0 <= i < capture_list(cells, mv, p, n).len() ==> cap_origin(
                mv,
                #[trigger] capture_list(cells, mv, p, n)[i] as int,
                n,
            ),
        forall|i: int|
            0 <= i < capture_list(cells, mv, p, n).len() ==> in_board(
                #[trigger] capture_list(cells, mv, p, n)[i] as int,
            ) && cells[capture_list(cells, mv, p, n)[i] as int] == stone(opponent(p))
                && capture_list(cells, mv, p, n)[i] != mv,
    decreases n,
{
    lemma_in_board_coords(mv);
    if n > 0 {
        lemma_capture_list_shape(cells, mv, p, n - 1);
        let prev = capture_list(cells, mv, p, n - 1);
        let j = n - 1;
        let st = cap_step(j);
        if captures_in(cells, mv, p, j) {
            assert(-28 <= st <= 28 && st != 0);
            assert(as_idx(mv + st) as int == mv + st);
            assert(as_idx(mv + 2 * st) as int == mv + 2 * st);
            let l = prev.push(as_idx(mv + st)).push(as_idx(mv + 2 * st));
            assert(capture_list(cells, mv, p, n) == l);
            assert(cells[mv + st] == stone(opponent(p)));
            assert(cells[mv + 2 * st] == stone(opponent(p)));
            assert forall|i: int| 0 <= i < l.len() implies cap_origin(mv, #[trigger] l[i] as int, n) by {
                if i < prev.len() {
                    assert(cap_origin(mv, prev[i] as int, n - 1));
                    let (j2, t) = choose|j2: int, t: int|
                        0 <= j2 < n - 1 && 1 <= t <= 2 && prev[i] as int == #[trigger] cap_pos(mv, j2, t);
                    assert(l[i] == prev[i]);
                    assert(0 <= j2 < n && 1 <= t <= 2 && l[i] as int == cap_pos(mv, j2, t));
                } else if i == prev.len() {
                    assert(l[i] as int == cap_pos(mv, j, 1));
                } else {
                    assert(l[i] as int == cap_pos(mv, j, 2));
                }
            }
            assert forall|a: int, b: int| 0 <= a < l.len() && 0 <= b < l.len() && a != b implies l[a]
                != l[b] by {
                if a < prev.len() && b < prev.len() {
                    assert(l[a] == prev[a] && l[b] == prev[b]);
                } else {
                    let x = if a < prev.len() { a } else { b };
                    let y = if a < prev.len() { b } else { a };
                    if x < prev.len() {
                        assert(cap_origin(mv, prev[x] as int, n - 1));
                        let (j2, t) = choose|j2: int, t: int|
                            0 <= j2 < n - 1 && 1 <= t <= 2 && prev[x] as int == #[trigger] cap_pos(mv, j2, t);
                        assert(l[x] == prev[x]);
                        let ty = if y == prev.len() { 1int } else { 2int };
                        assert(l[y] as int == cap_pos(mv, j, ty));
                        if l[x] == l[y] {
                            lemma_cap_offsets_distinct(j2, t, j, ty);
                        }
                    } else {
                        assert(l[prev.len() as int] as int == mv + 1 * st);
                        assert(l[prev.len() as int + 1] as int == mv + 2 * st);
                    }
                }
            }
            assert(l.no_duplicates());
            assert forall|i: int| 0 <= i < l.len() implies in_board(#[trigger] l[i] as int) && cells[l[i] as int]
                == stone(opponent(p)) && l[i] != mv by {
                if i < prev.len() {
                    assert(l[i] == prev[i]);
                } else if i == prev.len() {
                    assert(l[i] as int == mv + st);
                    assert(cells[mv + st] != Cell::Wall);
                } else {
                    assert(l[i] as int == mv + 2 * st);
                    assert(cells[mv + 2 * st] != Cell::Wall);
                }
            }
        } else {
            assert(capture_list(cells, mv, p, n) == prev);
            assert forall|i: int| 0 <= i < prev.len() implies cap_origin(mv, #[trigger] prev[i] as int, n) by {
                assert(cap_origin(mv, prev[i] as int, n - 1));
                let (j2, t) = choose|j2: int, t: int|
                    0 <= j2 < n - 1 && 1 <= t <= 2 && prev[i] as int == #[trigger] cap_pos(mv, j2, t);
                assert(0 <= j2 < n && 1 <= t <= 2 && prev[i] as int == cap_pos(mv, j2, t));
            }
        }
    }
}

proof fn lemma_captures_sound(cells: Seq<Cell>, mv: int, p: Player)
    requires
        layout_ok(cells),
        in_board(mv),
        cells[mv] == Cell::Empty,
    ensures
        captures_sound(cells, mv, p),
{
    lemma_capture_list_shape(cells, mv, p, 8);
}

/// The window term of `e` is unchanged by changes outside the cells whose
/// four-step reach along `e`'s axis covers `e`'s cell.
proof fn lemma_term_w_local(a: Seq<Cell>, b: Seq<Cell>, changed: Seq<u16>, p: Player, e: int)
    requires
        a.len() == 729,
        b.len() == 729,
        0 <= e < n_terms(),
        forall|i: int| 0 <= i < 729 && a[i] != b[i] ==> exists|ci: int| 0 <= ci < changed.len() && #[trigger] changed[ci] as int == i,
        !touch(changed, e, -4, 4, false),
    ensures
        term_w(a, p)(e) == term_w(b, p)(e),
{
    let c = e / 4;
    let di = e % 4;
    let d = dir(di);
    lemma_flat_index(c, di);
    assert(e == 4 * c + di);
    assert forall|t: int| 0 <= t < 9 implies #[trigger] cell_at(a, c, (t - 4) * d) == cell_at(b, c, (t - 4) * d) by {
        let i = c + (t - 4) * d;
        if 0 <= i < 729 && a[i] != b[i] {
            let ci = choose|ci: int| 0 <= ci < changed.len() && #[trigger] changed[ci] as int == i;
            assert(axis_cell(changed[ci] as int, di, 4 - t) == c);
            assert(touch(changed, e, -4, 4, false));
        }
    }
    assert(window(a, c, d, p) =~= window(b, c, d, p));
    if a[c] != b[c] {
        let ci = choose|ci: int| 0 <= ci < changed.len() && #[trigger] changed[ci] as int == c;
        assert(axis_cell(changed[ci] as int, di, 0) == c);
        assert(touch(changed, e, -4, 4, false));
    }
}

/// The pair term of `e` is unchanged by changes outside the cells whose
/// reach (two steps back, one forward) along `e`'s axis covers `e`'s cell.
proof fn lemma_term_v_local(a: Seq<Cell>, b: Seq<Cell>, changed: Seq<u16>, p: Player, e: int)
    requires
        a.len() == 729,
        b.len() == 729,
        0 <= e < n_terms(),
        forall|i: int| 0 <= i < 729 && a[i] != b[i] ==> exists|ci: int| 0 <= ci < changed.len() && #[trigger] changed[ci] as int == i,
        !touch(changed, e, -2, 1, false),
    ensures
        term_v(a, p)(e) == term_v(b, p)(e),
{
    let c = e / 4;
    let di = e % 4;
    let d = dir(di);
    lemma_flat_index(c, di);
    assert(e == 4 * c + di);
    assert forall|j: int| -1 <= j <= 2 implies #[trigger] cell_at(a, c, j * d) == cell_at(b, c, j * d) by {
        let i = c + j * d;
        if 0 <= i < 729 && a[i] != b[i] {
            let ci = choose|ci: int| 0 <= ci < changed.len() && #[trigger] changed[ci] as int == i;
            assert((-j) * d == -(j * d)) by (nonlinear_arith);
            assert(axis_cell(changed[ci] as int, di, -j) == c);
            assert(touch(changed, e, -2, 1, false));
        }
    }
    assert(cell_at(a, c, 1 * d) == cell_at(b, c, 1 * d));
    assert(cell_at(a, c, -1 * d) == cell_at(b, c, -1 * d));
    assert(cell_at(a, c, 2 * d) == cell_at(b, c, 2 * d));
    assert(cell_at(a, c, 0 * d) == cell_at(b, c, 0 * d));
}

/// Change in the value of the position when the cells change only at the
/// `changed` cells: the sums of the term changes over the touch lists.
proof fn lemma_full_acc_change(
    a: Seq<Cell>,
    b: Seq<Cell>,
    changed: Seq<u16>,
    tw: Seq<int>,
    tv: Seq<int>,
    p: Player,
)
    requires
        a.len() == 729,
        b.len() == 729,
        forall|i: int| 0 <= i < 729 && a[i] != b[i] ==> exists|ci: int| 0 <= ci < changed.len() && #[trigger] changed[ci] as int == i,
        touch_list(tw, changed, -4, 4, false),
        touch_list(tv, changed, -2, 1, false),
    ensures
        full_acc(b, p) - full_acc(a, p) == (seq_sum(tw, term_w(b, p)) - seq_sum(tw, term_w(a, p))) + (
        seq_sum(tv, term_v(b, p)) - seq_sum(tv, term_v(a, p))),
{
    assert forall|e: int| 0 <= e < n_terms() && !tw.contains(e) implies term_w(b, p)(e) == term_w(a, p)(e) by {
        lemma_term_w_local(a, b, changed, p, e);
    }
    assert forall|e: int| 0 <= e < n_terms() && !tv.contains(e) implies term_v(b, p)(e) == term_v(a, p)(e) by {
        lemma_term_v_local(a, b, changed, p, e);
    }
    crate::sums::lemma_range_sum_diff(term_w(b, p), term_w(a, p), n_terms(), tw);
    crate::sums::lemma_range_sum_diff(term_v(b, p), term_v(a, p), n_terms(), tv);
}

pub proof fn lemma_fill_cells(cells: Seq<Cell>, list: Seq<u16>, c: Cell)
    requires
        cells.len() == 729,
    ensures
        fill_cells(cells, list, c).len() == cells.len(),
        forall|i: int|
            0 <= i < cells.len() ==> #[trigger] fill_cells(cells, list, c)[i] == (if list.contains(
                i as u16,
            ) {
                c
            } else {
                cells[i]
            }),
    decreases list.len(),
{
    if list.len() > 0 {
        lemma_fill_cells(cells, list.drop_last(), c);
        assert forall|i: int| 0 <= i < cells.len() implies #[trigger] fill_cells(cells, list, c)[i] == (
        if list.contains(i as u16) {
            c
        } else {
            cells[i]
        }) by {
            let x = list.last();
            if list.contains(i as u16) {
                let k = choose|k: int| 0 <= k < list.len() && list[k] == i as u16;
                if k < list.len() - 1 {
                    assert(list.drop_last()[k] == i as u16);
                }
            }
            if list.drop_last().contains(i as u16) {
                let k = choose|k: int| 0 <= k < list.drop_last().len() && list.drop_last()[k] == i as u16;
                assert(list[k] == i as u16);
            }
        }
    }
}

proof fn lemma_wrap_chain5(a0: int, d1: int, d2: int, d3: int, d4: int, d5: int)
    ensures
        wrap32(wrap32(wrap32(wrap32(wrap32(a0 + d1) + d2) + d3) + d4) + d5) == wrap32(
            a0 + d1 + d2 + d3 + d4 + d5,
        ),
{
    lemma_wrap32_add(a0 + d1, d2);
    lemma_wrap32_add(a0 + d1 + d2, d3);
    lemma_wrap32_add(a0 + d1 + d2 + d3, d4);
    lemma_wrap32_add(a0 + d1 + d2 + d3 + d4, d5);
}

/// The accumulator after the four incremental passes of a move equals
/// its old value moved by the change in the value of the position.
proof fn lemma_acc_passes(
    a0: Seq<i32>,
    a1: Seq<i32>,
    a2: Seq<i32>,
    a3: Seq<i32>,
    a4: Seq<i32>,
    a5: Seq<i32>,
    cb: Seq<Cell>,
    ca: Seq<Cell>,
    changed: Seq<u16>,
    tw: Seq<int>,
    tw_own: Seq<int>,
    tv: Seq<int>,
)
    requires
        a0.len() == 2,
        cb.len() == 729,
        ca.len() == 729,
        forall|i: int| 0 <= i < 729 && cb[i] != ca[i] ==> exists|ci: int| 0 <= ci < changed.len() && #[trigger] changed[ci] as int == i,
        touch_list(tw + tw_own, changed, -4, 4, false),
        touch_list(tv, changed, -2, 1, false),
        forall|j: int| 0 <= j < tw_own.len() ==> cell_of(cb, #[trigger] tw_own[j] / 4) == Cell::Empty,
        acc_moved(a0, a1, -1, tw, term_w(cb, Player::Black), term_w(cb, Player::White)),
        acc_moved(a1, a2, -1, tv, term_v(cb, Player::Black), term_v(cb, Player::White)),
        acc_moved(a2, a3, 1, tw, term_w(ca, Player::Black), term_w(ca, Player::White)),
        acc_moved(a3, a4, 1, tv, term_v(ca, Player::Black), term_v(ca, Player::White)),
        acc_moved(a4, a5, 1, tw_own, term_w(ca, Player::Black), term_w(ca, Player::White)),
    ensures
        a5[0] as int == wrap32(a0[0] + full_acc(ca, Player::Black) - full_acc(cb, Player::Black)),
        a5[1] as int == wrap32(a0[1] + full_acc(ca, Player::White) - full_acc(cb, Player::White)),
{
    let t = tw + tw_own;
    lemma_full_acc_change(cb, ca, changed, t, tv, Player::Black);
    lemma_full_acc_change(cb, ca, changed, t, tv, Player::White);
    crate::sums::lemma_seq_sum_append(tw, tw_own, term_w(cb, Player::Black));
    crate::sums::lemma_seq_sum_append(tw, tw_own, term_w(cb, Player::White));
    crate::sums::lemma_seq_sum_append(tw, tw_own, term_w(ca, Player::Black));
    crate::sums::lemma_seq_sum_append(tw, tw_own, term_w(ca, Player::White));
    assert forall|j: int| 0 <= j < tw_own.len() implies #[trigger] term_w(cb, Player::White)(tw_own[j]) == (|e: int| 0int)(tw_own[j]) by {
        assert(cell_of(cb, tw_own[j] / 4) == Cell::Empty);
    }
    assert forall|j: int| 0 <= j < tw_own.len() implies #[trigger] term_w(cb, Player::Black)(tw_own[j]) == (|e: int| 0int)(tw_own[j]) by {
        assert(cell_of(cb, tw_own[j] / 4) == Cell::Empty);
    }
    crate::sums::lemma_seq_sum_congruent(tw_own, term_w(cb, Player::Black), |e: int| 0);
    crate::sums::lemma_seq_sum_congruent(tw_own, term_w(cb, Player::White), |e: int| 0);
    crate::sums::lemma_range_sum_zero(|e: int| 0, tw_own.len() as int);
    assert(seq_sum(tw_own, |e: int| 0) == 0) by {
        lemma_seq_sum_zero(tw_own);
    }
    lemma_wrap_chain5(
        a0[0] as int,
        -1 * seq_sum(tw, term_w(cb, Player::Black)),
        -1 * seq_sum(tv, term_v(cb, Player::Black)),
        1 * seq_sum(tw, term_w(ca, Player::Black)),
        1 * seq_sum(tv, term_v(ca, Player::Black)),
        1 * seq_sum(tw_own, term_w(ca, Player::Black)),
    );
    lemma_wrap_chain5(
        a0[1] as int,
        -1 * seq_sum(tw, term_w(cb, Player::White)),
        -1 * seq_sum(tv, term_v(cb, Player::White)),
        1 * seq_sum(tw, term_w(ca, Player::White)),
        1 * seq_sum(tv, term_v(ca, Player::White)),
        1 * seq_sum(tw_own, term_w(ca, Player::White)),
    );
}

proof fn lemma_seq_sum_zero(t: Seq<int>)
    ensures
        seq_sum(t, |e: int| 0) == 0,
    decreases t.len(),
{
    if t.len() > 0 {
        lemma_seq_sum_zero(t.drop_last());
    }
}

/// The window touch list of a single cell, split into its neighbors and
/// the cell's own windows.
proof fn lemma_own_split(m: u16)
    ensures
        touch_list(
            plain_list(seq![m], -4, 4, true, 36) + plain_list(seq![m], 0, 0, false, 4),
            seq![m],
            -4,
            4,
            false,
        ),
{
    let t1 = plain_list(seq![m], -4, 4, true, 36);
    let t2 = plain_list(seq![m], 0, 0, false, 4);
    let t = t1 + t2;
    lemma_plain_list_touch(m, -4, 4, true);
    lemma_plain_list_touch(m, 0, 0, false);
    assert forall|e: int| t1.contains(e) implies !t2.contains(e) by {
        if t2.contains(e) {
            assert(touch(seq![m], e, 0, 0, false));
            assert(touch(seq![m], e, -4, 4, true));
            let (ci1, di1, k1) = choose|ci: int, di: int, k: int|
                0 <= ci < seq![m].len() && 0 <= di < 4 && -4 <= k <= 4 && !(true && k == 0) && 0
                    <= #[trigger] axis_cell(seq![m][ci] as int, di, k) < 729 && e == 4 * axis_cell(
                    seq![m][ci] as int,
                    di,
                    k,
                ) + di;
            let (ci2, di2, k2) = choose|ci: int, di: int, k: int|
                0 <= ci < seq![m].len() && 0 <= di < 4 && 0 <= k <= 0 && !(false && k == 0) && 0
                    <= #[trigger] axis_cell(seq![m][ci] as int, di, k) < 729 && e == 4 * axis_cell(
                    seq![m][ci] as int,
                    di,
                    k,
                ) + di;
            lemma_flat_index(axis_cell(m as int, di1, k1), di1);
            lemma_flat_index(axis_cell(m as int, di2, k2), di2);
            assert(k1 * dir(di1) == 0);
            assert(k1 == 0) by (nonlinear_arith)
                requires
                    k1 * dir(di1) == 0,
                    dir(di1) > 0,
            ;
        }
    }
    assert(t.no_duplicates()) by {
        assert forall|a: int, b: int| 0 <= a < t.len() && 0 <= b < t.len() && a != b implies t[a] != t[b] by {
            if a < t1.len() && b < t1.len() {
            } else if a >= t1.len() && b >= t1.len() {
                assert(t[a] == t2[a - t1.len()]);
                assert(t[b] == t2[b - t1.len()]);
            } else if a < t1.len() {
                assert(t1.contains(t[a]));
                assert(t[b] == t2[b - t1.len()]);
                assert(t2.contains(t[b]));
            } else {
                assert(t1.contains(t[b]));
                assert(t[a] == t2[a - t1.len()]);
                assert(t2.contains(t[a]));
            }
        }
    }
    assert forall|j: int| 0 <= j < t.len() implies 0 <= #[trigger] t[j] < n_terms() by {
        if j < t1.len() {
            assert(t[j] == t1[j]);
        } else {
            assert(t[j] == t2[j - t1.len()]);
        }
    }
    assert forall|e: int| t.contains(e) <==> touch(seq![m], e, -4, 4, false) by {
        if t.contains(e) {
            let j = choose|j: int| 0 <= j < t.len() && t[j] == e;
            if j < t1.len() {
                assert(t1.contains(e));
                let (ci1, di1, k1) = choose|ci: int, di: int, k: int|
                    0 <= ci < seq![m].len() && 0 <= di < 4 && -4 <= k <= 4 && !(true && k == 0) && 0
                        <= #[trigger] axis_cell(seq![m][ci] as int, di, k) < 729 && e == 4 * axis_cell(
                        seq![m][ci] as int,
                        di,
                        k,
                    ) + di;
            } else {
                assert(t2[j - t1.len()] == e);
                assert(t2.contains(e));
                let (ci1, di1, k1) = choose|ci: int, di: int, k: int|
                    0 <= ci < seq![m].len() && 0 <= di < 4 && 0 <= k <= 0 && !(false && k == 0) && 0
                        <= #[trigger] axis_cell(seq![m][ci] as int, di, k) < 729 && e == 4 * axis_cell(
                        seq![m][ci] as int,
                        di,
                        k,
                    ) + di;
            }
        }
        if touch(seq![m], e, -4, 4, false) {
            let (ci1, di1, k1) = choose|ci: int, di: int, k: int|
                0 <= ci < seq![m].len() && 0 <= di < 4 && -4 <= k <= 4 && !(false && k == 0) && 0
                    <= #[trigger] axis_cell(seq![m][ci] as int, di, k) < 729 && e == 4 * axis_cell(
                    seq![m][ci] as int,
                    di,
                    k,
                ) + di;
            if k1 == 0 {
                assert(0 <= ci1 < seq![m].len() && 0 <= di1 < 4 && 0 <= k1 <= 0 && !(false && k1 == 0) && 0
                    <= axis_cell(seq![m][ci1] as int, di1, k1) < 729 && e == 4 * axis_cell(
                    seq![m][ci1] as int,
                    di1,
                    k1,
                ) + di1);
                assert(touch(seq![m], e, 0, 0, false));
                assert(t2.contains(e));
                let j = choose|j: int| 0 <= j < t2.len() && t2[j] == e;
                assert(t[t1.len() + j] == e);
            } else {
                assert(0 <= ci1 < seq![m].len() && 0 <= di1 < 4 && -4 <= k1 <= 4 && !(true && k1 == 0) && 0
                    <= axis_cell(seq![m][ci1] as int, di1, k1) < 729 && e == 4 * axis_cell(
                    seq![m][ci1] as int,
                    di1,
                    k1,
                ) + di1);
                assert(touch(seq![m], e, -4, 4, true));
                assert(t1.contains(e));
                let j = choose|j: int| 0 <= j < t1.len() && t1[j] == e;
                assert(t[j] == e);
            }
        }
    }
}

impl Board {
    /// Places `p`'s stone on the empty board cell `mv`, with its Zobrist
    /// key, the stone count and the neighbor grid.
    fn place_stone(&mut self, mv: Idx, p: Player)
        requires
            old(self).wf(),
            in_board(mv as int),
            old(self)@.cells[mv as int] == Cell::Empty,
        ensures
            final(self)@ == (BoardView {
                cells: old(self)@.cells.update(mv as int, stone(p)),
                zobrist: old(self)@.zobrist ^ old(self)@.key_cell[slot(p) * 729 + mv],
                stone_count: (old(self)@.stone_count + 1) as u32,
                neighbor: nb_adjusted(old(self)@.neighbor, mv as int, 1),
                ..old(self)@
            }),
            final(self).wf(),
    {
        let ghost v0 = self@;
        let ghost cells_mv = v0.cells.update(mv as int, stone(p));
        proof {
            lemma_nb_adjust_consistent(v0.cells, cells_mv, v0.neighbor, mv as int, 1);
            lemma_num_stones_toggle(v0.cells, cells_mv, mv as int);
        }
        let pi: usize = player_slot([0usize, 1usize], p);
        self.set_raw(mv, p.cell());
        self.zobrist = self.zobrist ^ self.key_cell[pi * 729 + mv as usize];
        self.stone_count = self.stone_count + 1;
        self.adjust_neighbor_grid(mv, 1);
        proof {
            assert forall|j: int| 0 <= j < 729 implies (#[trigger] self@.cells[j] == Cell::Wall) == !in_board(j) by {
                if j != mv {
                    assert(self@.cells[j] == v0.cells[j]);
                }
            }
            assert(layout_ok(self@.cells));
            assert(nb_ok(self@));
            assert(self@.stone_count == num_stones(self@.cells));
        }
    }

    /// Removes the first `n` listed stones (all `owner`'s, distinct, on the
    /// board) with their Zobrist keys, the stone count and the neighbor
    /// grid.
    fn remove_captured(&mut self, captured: &[Idx; 16], n: usize, owner: Player)
        requires
            old(self).wf(),
            n <= 16,
            captured@.take(n as int).no_duplicates(),
            forall|k: int| 0 <= k < n ==> in_board(#[trigger] captured@[k] as int) && old(self)@.cells[captured@[k] as int] == stone(owner),
        ensures
            final(self)@ == (BoardView {
                cells: fill_cells(old(self)@.cells, captured@.take(n as int), Cell::Empty),
                zobrist: xor_keys(old(self)@.zobrist, old(self)@.key_cell, slot(owner) * 729, captured@.take(n as int)),
                stone_count: final(self)@.stone_count,
                neighbor: final(self)@.neighbor,
                ..old(self)@
            }),
            final(self).wf(),
            final(self)@.stone_count == old(self)@.stone_count - n,
    {
        let ghost v0 = self@;
        let ghost caps = captured@.take(n as int);
        let oi: usize = player_slot([0usize, 1usize], owner);
        let mut i: usize = 0;
        while i < n
            invariant
                i <= n,
                n <= 16,
                oi == slot(owner),
                caps == captured@.take(n as int),
                caps.no_duplicates(),
                forall|k: int| 0 <= k < n ==> in_board(#[trigger] captured@[k] as int) && v0.cells[captured@[k] as int] == stone(owner),
                self.wf(),
                self@.cells == fill_cells(v0.cells, caps.take(i as int), Cell::Empty),
                forall|k: int| i <= k < n ==> self@.cells[#[trigger] captured@[k] as int] == stone(owner),
                self@.zobrist == xor_keys(v0.zobrist, v0.key_cell, slot(owner) * 729, caps.take(i as int)),
                self@.stone_count == v0.stone_count - i,
                self@ == (BoardView {
                    cells: self@.cells,
                    zobrist: self@.zobrist,
                    stone_count: self@.stone_count,
                    neighbor: self@.neighbor,
                    ..v0
                }),
            decreases n - i,
        {
            let cc = captured[i];
            let ghost before = self@.cells;
            proof {
                assert(caps[i as int] == cc);
                assert(in_board(cc as int));
            }
            self.set_raw(cc, Cell::Empty);
            proof {
                lemma_nb_adjust_consistent(before, self@.cells, self@.neighbor, cc as int, -1);
                lemma_num_stones_toggle(before, self@.cells, cc as int);
            }
            self.zobrist = self.zobrist ^ self.key_cell[oi * 729 + cc as usize];
            self.adjust_neighbor_grid(cc, -1);
            self.stone_count = self.stone_count - 1;
            proof {
                assert(caps.take(i + 1).drop_last() == caps.take(i as int));
                assert(caps.take(i + 1).last() == cc);
                assert forall|k: int| i + 1 <= k < n implies self@.cells[#[trigger] captured@[k] as int] == stone(owner) by {
                    assert(caps[k] == captured@[k]);
                    assert(caps[k] != caps[i as int]);
                }
                assert forall|j: int| 0 <= j < 729 implies (#[trigger] self@.cells[j] == Cell::Wall) == !in_board(j) by {
                    if j != cc {
                        assert(self@.cells[j] == before[j]);
                    }
                }
            }
            i = i + 1;
        }
        proof {
            assert(caps.take(n as int) =~= caps);
        }
    }

    /// Adds the new stone's own four windows (after placing it at `mv`) to
    /// its owner's accumulator entry.
    fn add_own_windows(&mut self, mv: Idx, pt: &PatternTable)
        requires
            old(self)@.acc.len() == 2,
            in_board(mv as int),
        ensures
            final(self)@ == (BoardView { acc: final(self)@.acc, ..old(self)@ }),
            acc_moved(
                old(self)@.acc,
                final(self)@.acc,
                1,
                plain_list(seq![mv], 0, 0, false, 4),
                term_w(old(self)@.cells, Player::Black),
                term_w(old(self)@.cells, Player::White),
            ),
    {
        let ghost hb = term_w(self@.cells, Player::Black);
        let ghost hw = term_w(self@.cells, Player::White);
        proof {
            lemma_acc_moved_start(self@.acc, 1, hb, hw);
        }
        let mut di: usize = 0;
        while di < 4
            invariant
                di <= 4,
                in_board(mv as int),
                self@ == (BoardView { acc: self@.acc, ..old(self)@ }),
                hb == term_w(old(self)@.cells, Player::Black),
                hw == term_w(old(self)@.cells, Player::White),
                acc_moved(old(self)@.acc, self@.acc, 1, plain_list(seq![mv], 0, 0, false, di as int), hb, hw),
            decreases 4 - di,
        {
            let ghost a = self@.acc;
            self.add_window_term(mv, di, pt, 1);
            proof {
                assert(di as int == 0 * (4 * (0 - 0 + 1)) + di * (0 - 0 + 1) + (0 - 0)) by (nonlinear_arith);
                lemma_step_decode(0, 0, 0, di as int, 0, di as int);
                lemma_acc_moved_push(
                    old(self)@.acc,
                    a,
                    self@.acc,
                    1,
                    plain_list(seq![mv], 0, 0, false, di as int),
                    4 * mv + di,
                    hb,
                    hw,
                );
                assert(axis_cell(seq![mv][0] as int, di as int, 0) == mv);
                assert(step_ci(0, 0, di as int) == 0);
                assert(step_k(0, 0, di as int) == 0);
                assert(step_di(0, 0, di as int) == di);
                assert(step_ok(seq![mv], 0, 0, false, di as int));
                assert(step_elem(seq![mv], 0, 0, di as int) == 4 * mv + di);
                assert(plain_list(seq![mv], 0, 0, false, di + 1) == plain_list(
                    seq![mv],
                    0,
                    0,
                    false,
                    di as int,
                ).push(4 * mv + di));
            }
            di = di + 1;
        }
    }

    /// Adds `n` captured stones to `p`'s capture count (saturating), and
    /// swaps `p`'s capture-count Zobrist key from the old count to the new.
    fn record_captures(&mut self, p: Player, n: usize)
        requires
            old(self).wf(),
            n <= 16,
        ensures
            final(self)@ == (BoardView {
                captures: old(self)@.captures.update(slot(p), sat_add_u8(old(self)@.captures[slot(p)], n as int)),
                zobrist: old(self)@.zobrist ^ old(self)@.key_captures[slot(p) * 11 + cap_key_index(
                    old(self)@.captures[slot(p)],
                )] ^ old(self)@.key_captures[slot(p) * 11 + cap_key_index(
                    sat_add_u8(old(self)@.captures[slot(p)], n as int),
                )],
                ..old(self)@
            }),
    {
        let pi: usize = player_slot([0usize, 1usize], p);
        let c0 = player_slot(self.captures, p);
        let old_idx: usize = if c0 > 10 {
            10
        } else {
            c0 as usize
        };
        self.zobrist = self.zobrist ^ self.key_captures[pi * 11 + old_idx];
        let c1 = c0.saturating_add(n as u8);
        match p {
            Player::Black => {
                self.captures[0] = c1;
            },
            Player::White => {
                self.captures[1] = c1;
            },
        }
        let new_idx: usize = if c1 > 10 {
            10
        } else {
            c1 as usize
        };
        self.zobrist = self.zobrist ^ self.key_captures[pi * 11 + new_idx];
        assert(self@.captures =~= old(self)@.captures.update(slot(p), sat_add_u8(old(self)@.captures[slot(p)], n as int)));
    }
}

/// Before a stone is placed on `mv`, its own window terms are zero.
proof fn lemma_own_terms_zero(cells: Seq<Cell>, mv: u16)
    requires
        layout_ok(cells),
        in_board(mv as int),
        cells[mv as int] == Cell::Empty,
    ensures
        forall|j: int|
            0 <= j < plain_list(seq![mv], 0, 0, false, 4).len() ==> cell_of(
                cells,
                #[trigger] plain_list(seq![mv], 0, 0, false, 4)[j] / 4,
            ) == Cell::Empty,
{
    let own = plain_list(seq![mv], 0, 0, false, 4);
    lemma_list_members(seq![mv], 0, 0, false, 4);
    assert forall|j: int| 0 <= j < own.len() implies cell_of(cells, #[trigger] own[j] / 4) == Cell::Empty by {
        assert(own.contains(own[j]));
        let s = choose|s: int|
            0 <= s < 4 && step_ok(seq![mv], 0, 0, false, s) && own[j] == #[trigger] step_elem(
                seq![mv],
                0,
                0,
                s,
            );
        lemma_step_ranges(0, 0, s);
        let di = step_di(0, 0, s);
        lemma_flat_index(mv as int, di);
        assert(axis_cell(seq![mv][0] as int, di, step_k(0, 0, s)) == mv);
        assert(own[j] == 4 * mv + di);
        assert(own[j] / 4 == mv);
    }
}

impl Board {
    /// Applies `mv` for the player to move: places the stone, removes the
    /// pairs it captures, and updates the capture count, the Zobrist key,
    /// the neighbor grid, the stone count and the accumulator. `mv` must be
    /// an empty board cell; the rules decide legality.
    #[verifier::rlimit(80)]
    pub fn play(&mut self, mv: Idx, pt: &PatternTable) -> (u: Undo)
        requires
            old(self).wf(),
            in_board(mv as int),
            old(self)@.cells[mv as int] == Cell::Empty,
        ensures
            final(self)@ == play_view(old(self)@, mv as int),
            final(self).wf(),
            undo_record(u, old(self)@, mv as int),
            captures_sound(old(self)@.cells, mv as int, old(self)@.to_move),
    {
        let ghost v0 = self@;
        let p = self.to_move;
        let (captured, n) = self.captures_of(mv, p);
        let owner = p.other();
        let ghost caps = captured_by(v0.cells, mv as int, p);
        let ghost cells_mv = v0.cells.update(mv as int, stone(p));
        proof {
            lemma_captures_sound(v0.cells, mv as int, p);
            assert(captured@.take(n as int) =~= caps);
        }

        let undo = Undo {
            mv,
            captured,
            n_captured: n as u8,
            prev_zobrist: self.zobrist,
            prev_acc: self.acc,
            prev_captures: self.captures,
        };

        if n == 0 {
            let ghost a0 = self@.acc;
            self.adjust_axis_neighbors(mv, pt, -1);
            let ghost a1 = self@.acc;
            self.adjust_axis_vuln(mv, -1);
            let ghost a2 = self@.acc;

            self.place_stone(mv, p);

            self.adjust_axis_neighbors(mv, pt, 1);
            let ghost a3 = self@.acc;
            self.adjust_axis_vuln(mv, 1);
            let ghost a4 = self@.acc;
            self.add_own_windows(mv, pt);
            proof {
                let own = plain_list(seq![mv], 0, 0, false, 4);
                let tw = plain_list(seq![mv], -4, 4, true, 36);
                let tv = plain_list(seq![mv], -2, 1, false, 16);
                lemma_own_split(mv);
                lemma_plain_list_touch(mv, -2, 1, false);
                lemma_list_members(seq![mv], 0, 0, false, 4);
                lemma_own_terms_zero(v0.cells, mv);
                assert forall|i: int| 0 <= i < 729 && v0.cells[i] != cells_mv[i] implies exists|ci: int|
                    0 <= ci < seq![mv].len() && #[trigger] seq![mv][ci] as int == i by {
                    assert(seq![mv][0] as int == i);
                }
                lemma_acc_passes(a0, a1, a2, a3, a4, self@.acc, v0.cells, cells_mv, seq![mv], tw, own, tv);
                assert(play_cells(v0, mv as int) == cells_mv);
                assert(captured@.take(0) =~= caps);
            }
        } else {
            let mut changed: Vec<Idx> = Vec::new();
            changed.push(mv);
            let mut i: usize = 0;
            while i < n
                invariant
                    i <= n,
                    n == caps.len(),
                    n <= 16,
                    forall|k: int| 0 <= k < n ==> captured@[k] == caps[k],
                    changed@ == seq![mv] + caps.take(i as int),
                decreases n - i,
            {
                changed.push(captured[i]);
                proof {
                    assert(caps.take(i + 1) =~= caps.take(i as int).push(caps[i as int]));
                }
                i = i + 1;
            }
            proof {
                assert(caps.take(n as int) =~= caps);
            }
            let ghost ch = changed@;
            let ghost a0 = self@.acc;
            self.adjust_axis_dedup(changed.as_slice(), pt, -1);
            let ghost a1 = self@.acc;
            self.adjust_axis_vuln_dedup(changed.as_slice(), -1);
            let ghost a2 = self@.acc;

            self.place_stone(mv, p);
            proof {
                assert forall|k: int| 0 <= k < n implies in_board(#[trigger] captured@[k] as int) && self@.cells[captured@[k] as int] == stone(owner) by {
                    assert(captured@[k] == caps[k]);
                }
            }
            self.remove_captured(&captured, n, owner);

            self.adjust_axis_dedup(changed.as_slice(), pt, 1);
            let ghost a3 = self@.acc;
            self.adjust_axis_vuln_dedup(changed.as_slice(), 1);
            proof {
                let ca = self@.cells;
                lemma_fill_cells(cells_mv, caps, Cell::Empty);
                lemma_uniq_list_touch(ch, -4, 4, false);
                lemma_uniq_list_touch(ch, -2, 1, false);
                let tw = uniq_list(ch, -4, 4, false, ch.len() * (4 * (4 - -4 + 1)));
                let tv = uniq_list(ch, -2, 1, false, ch.len() * (4 * (1 - -2 + 1)));
                assert(tw == uniq_list(ch, -4, 4, false, ch.len() as int * 36));
                assert(tv == uniq_list(ch, -2, 1, false, ch.len() as int * 16));
                assert(tw + Seq::<int>::empty() =~= tw);
                assert forall|i: int| 0 <= i < 729 && v0.cells[i] != ca[i] implies exists|ci: int|
                    0 <= ci < ch.len() && #[trigger] ch[ci] as int == i by {
                    if i == mv {
                        assert(ch[0] as int == i);
                    } else {
                        assert(cells_mv[i] == v0.cells[i]);
                        assert(caps.contains(i as u16));
                        let k = choose|k: int| 0 <= k < caps.len() && caps[k] == i as u16;
                        assert(ch[k + 1] == caps[k]);
                    }
                }
                lemma_acc_moved_start(self@.acc, 1, term_w(ca, Player::Black), term_w(ca, Player::White));
                lemma_acc_passes(a0, a1, a2, a3, self@.acc, self@.acc, v0.cells, ca, ch, tw, Seq::empty(), tv);
                lemma_wrap32_id(self@.acc[0] as int);
                lemma_wrap32_id(self@.acc[1] as int);
                assert(self@.acc[0] as int == wrap32(self@.acc[0] + 1 * seq_sum(Seq::<int>::empty(), term_w(ca, Player::Black))));
            }
        }

        self.record_captures(p, n);
        self.to_move = owner;
        self.zobrist = self.zobrist ^ self.key_side;
        proof {
            let cells2 = play_cells(v0, mv as int);
            assert(self@.cells == cells2);
            assert(self@.neighbor =~= nb_grid(cells2));
            assert(self@.acc =~= play_view(v0, mv as int).acc);
            assert(self@ == play_view(v0, mv as int));
            assert(undo.captured@ == captured@);
        }
        undo
    }
}

/// Number of captured stones an undo record restores (at most 16).
pub open spec fn undo_count(u: Undo) -> int {
    if u.n_captured > 16 {
        16
    } else {
        u.n_captured as int
    }
}

/// The captured stones an undo record restores.
pub open spec fn undo_caps(u: Undo) -> Seq<u16> {
    u.captured@.take(undo_count(u))
}

/// The board after undoing the move recorded in `u`: the captured stones
/// come back as the side to move's, the played cell empties, and the
/// Zobrist key, accumulator and capture counts are restored from `u`.
pub open spec fn undo_view(v: BoardView, u: Undo) -> BoardView {
    let caps = undo_caps(u);
    let cells1 = fill_cells(v.cells, caps, stone(v.to_move));
    BoardView {
        cells: set_cell(cells1, u.mv as int, Cell::Empty),
        captures: u.prev_captures@,
        to_move: opponent(v.to_move),
        zobrist: u.prev_zobrist,
        stone_count: (v.stone_count + undo_count(u) - 1) as u32,
        neighbor: nb_adjusted(nb_fold(v.neighbor, caps, 1), u.mv as int, -1),
        acc: u.prev_acc@,
        ..v
    }
}

/// `u` fits the board: its move holds a stone of the player who moved
/// last, and its captured cells are distinct empty board cells other than
/// the move.
pub open spec fn undo_fits(v: BoardView, u: Undo) -> bool {
    let caps = undo_caps(u);
    &&& in_board(u.mv as int)
    &&& v.cells[u.mv as int] == stone(opponent(v.to_move))
    &&& caps.no_duplicates()
    &&& forall|i: int|
        0 <= i < caps.len() ==> in_board(#[trigger] caps[i] as int) && v.cells[caps[i] as int]
            == Cell::Empty && caps[i] != u.mv
}

proof fn lemma_undo_prefix(v: BoardView, u: Undo, i: int)
    requires
        wf_view(v),
        undo_fits(v, u),
        0 <= i <= undo_count(u),
    ensures
        ({
            let caps = undo_caps(u);
            let cells = fill_cells(v.cells, caps.take(i), stone(v.to_move));
            let nb = nb_fold(v.neighbor, caps.take(i), 1);
            &&& layout_ok(cells)
            &&& nb.len() == 729
            &&& forall|j: int| 0 <= j < 729 ==> #[trigger] nb[j] as int == nb_count(cells, j)
            &&& v.stone_count + i == num_stones(cells)
            &&& forall|k: int| i <= k < caps.len() ==> cells[#[trigger] caps[k] as int] == Cell::Empty
            &&& cells[u.mv as int] == stone(opponent(v.to_move))
        }),
    decreases i,
{
    let caps = undo_caps(u);
    lemma_fill_cells(v.cells, caps.take(i), stone(v.to_move));
    if i == 0 {
        assert(caps.take(0) =~= Seq::<u16>::empty());
        assert(fill_cells(v.cells, caps.take(0), stone(v.to_move)) == v.cells);
        assert(nb_fold(v.neighbor, caps.take(0), 1) == v.neighbor);
    } else {
        lemma_undo_prefix(v, u, i - 1);
        let prev_cells = fill_cells(v.cells, caps.take(i - 1), stone(v.to_move));
        let prev_nb = nb_fold(v.neighbor, caps.take(i - 1), 1);
        let cc = caps[i - 1];
        assert(caps.take(i).drop_last() == caps.take(i - 1));
        assert(caps.take(i).last() == cc);
        let cells = fill_cells(v.cells, caps.take(i), stone(v.to_move));
        assert(in_board(cc as int));
        assert(cells == prev_cells.update(cc as int, stone(v.to_move)));
        lemma_nb_adjust_consistent(prev_cells, cells, prev_nb, cc as int, 1);
        lemma_num_stones_toggle(prev_cells, cells, cc as int);
        assert forall|j: int| 0 <= j < 729 implies (#[trigger] cells[j] == Cell::Wall) == !in_board(j) by {
            if j != cc {
                assert(cells[j] == prev_cells[j]);
            }
        }
        assert forall|k: int| i <= k < caps.len() implies cells[#[trigger] caps[k] as int] == Cell::Empty by {
            assert(caps[k] != caps[i - 1]);
        }
    }
}

/// Undoing a fitting record on a well-formed board leaves it well-formed.
proof fn lemma_undo_view_wf(v: BoardView, u: Undo)
    requires
        wf_view(v),
        undo_fits(v, u),
    ensures
        wf_view(undo_view(v, u)),
{
    let k = undo_count(u);
    let caps = undo_caps(u);
    lemma_undo_prefix(v, u, k);
    assert(caps.take(k) =~= caps);
    let cells1 = fill_cells(v.cells, caps, stone(v.to_move));
    let cells2 = set_cell(cells1, u.mv as int, Cell::Empty);
    assert(cells2 == cells1.update(u.mv as int, Cell::Empty));
    lemma_nb_adjust_consistent(cells1, cells2, nb_fold(v.neighbor, caps, 1), u.mv as int, -1);
    lemma_num_stones_toggle(cells1, cells2, u.mv as int);
    assert forall|j: int| 0 <= j < 729 implies (#[trigger] cells2[j] == Cell::Wall) == !in_board(j) by {
        if j != u.mv {
            assert(cells2[j] == cells1[j]);
        }
    }
}

impl Board {
    /// Exactly reverses a `play`: restores the cells, neighbor grid and
    /// stone count by replaying the recorded change backwards, and the
    /// Zobrist key, accumulator and capture counts from the record.
    pub fn undo(&mut self, u: &Undo)
        requires
            old(self).wf(),
            old(self)@.stone_count + undo_count(*u) >= 1,
        ensures
            final(self)@ == undo_view(old(self)@, *u),
            undo_fits(old(self)@, *u) ==> final(self).wf(),
    {
        let ghost v0 = self@;
        let ghost caps = undo_caps(*u);
        let mover = self.to_move.other();
        let captured_owner = mover.other();
        let k: usize = if u.n_captured > 16 {
            16
        } else {
            u.n_captured as usize
        };
        proof {
            lemma_num_stones_bound(v0.cells);
        }
        let mut i: usize = 0;
        while i < k
            invariant
                i <= k,
                k as int == undo_count(*u),
                caps == undo_caps(*u),
                captured_owner == v0.to_move,
                v0.stone_count + k <= 745,
                v0.neighbor.len() == 729,
                self@ == (BoardView {
                    cells: fill_cells(v0.cells, caps.take(i as int), stone(v0.to_move)),
                    neighbor: nb_fold(v0.neighbor, caps.take(i as int), 1),
                    stone_count: (v0.stone_count + i) as u32,
                    ..v0
                }),
            decreases k - i,
        {
            let cc = u.captured[i];
            proof {
                assert(caps.take(i + 1).drop_last() == caps.take(i as int));
                assert(caps.take(i + 1).last() == cc);
                assert(nb_fold(v0.neighbor, caps.take(i as int), 1).len() == 729) by {
                    lemma_nb_fold_len(v0.neighbor, caps.take(i as int), 1);
                }
            }
            self.set_raw(cc, captured_owner.cell());
            self.adjust_neighbor_grid(cc, 1);
            self.stone_count = self.stone_count + 1;
            i = i + 1;
        }
        proof {
            assert(caps.take(k as int) =~= caps);
            lemma_nb_fold_len(v0.neighbor, caps, 1);
        }
        self.set_raw(u.mv, Cell::Empty);
        self.adjust_neighbor_grid(u.mv, -1);
        self.stone_count = self.stone_count - 1;

        self.zobrist = u.prev_zobrist;
        self.acc = u.prev_acc;
        self.captures = u.prev_captures;
        self.to_move = mover;
        proof {
            assert(self@ == undo_view(v0, *u));
            if undo_fits(v0, *u) {
                lemma_undo_view_wf(v0, *u);
            }
        }
    }
}

proof fn lemma_nb_fold_len(nb: Seq<u8>, list: Seq<u16>, delta: int)
    ensures
        nb_fold(nb, list, delta).len() == nb.len(),
    decreases list.len(),
{
    if list.len() > 0 {
        lemma_nb_fold_len(nb, list.drop_last(), delta);
    }
}


proof fn lemma_nb_count_bound(cells: Seq<Cell>, i: int)
    ensures
        0 <= nb_count(cells, i) <= 25,
{
    let f = |k: int| stone_at(cells, i + nb_off(k));
    assert forall|k: int| 0 <= k < 25 implies 0 <= #[trigger] f(k) <= 1 by {}
    lemma_range_sum_bits(f, 25);
}

/// Playing an empty board cell keeps the board well-formed.
pub proof fn lemma_play_view_wf(v: BoardView, mv: int)
    requires
        wf_view(v),
        in_board(mv),
        v.cells[mv] == Cell::Empty,
    ensures
        wf_view(play_view(v, mv)),
        captures_sound(v.cells, mv, v.to_move),
{
    let p = v.to_move;
    let caps = captured_by(v.cells, mv, p);
    let cells_mv = v.cells.update(mv, stone(p));
    let w = play_view(v, mv);
    lemma_captures_sound(v.cells, mv, p);
    lemma_fill_cells(cells_mv, caps, Cell::Empty);
    assert forall|i: int| 0 <= i < 729 implies (#[trigger] w.cells[i] == Cell::Wall) == !in_board(i) by {
        if caps.contains(i as u16) {
            let k = choose|k: int| 0 <= k < caps.len() && caps[k] == i as u16;
            assert(in_board(caps[k] as int));
        }
    }
    assert forall|i: int| 0 <= i < 729 implies #[trigger] w.neighbor[i] as int == nb_count(w.cells, i) by {
        lemma_nb_count_bound(w.cells, i);
    }
    lemma_num_stones_bound(w.cells);
}

/// Undoing the record of a move restores the board exactly as it was
/// before the move: cells, capture counts, side to move, Zobrist key,
/// stone count, neighbor grid and accumulator.
pub proof fn lemma_play_undo_roundtrip(v: BoardView, mv: int, u: Undo)
    requires
        wf_view(v),
        in_board(mv),
        v.cells[mv] == Cell::Empty,
        undo_record(u, v, mv),
    ensures
        undo_fits(play_view(v, mv), u),
        play_view(v, mv).stone_count + undo_count(u) >= 1,
        undo_view(play_view(v, mv), u) == v,
{
    let p = v.to_move;
    let caps = captured_by(v.cells, mv, p);
    let cells_mv = v.cells.update(mv, stone(p));
    let w = play_view(v, mv);
    lemma_play_view_wf(v, mv);
    lemma_fill_cells(cells_mv, caps, Cell::Empty);
    assert(undo_caps(u) =~= caps);
    assert forall|i: int| 0 <= i < caps.len() implies in_board(#[trigger] caps[i] as int)
        && w.cells[caps[i] as int] == Cell::Empty && caps[i] != u.mv by {
        assert(caps.contains(caps[i]));
    }
    assert(!caps.contains(mv as u16));
    assert(undo_fits(w, u));
    lemma_undo_view_wf(w, u);
    let r = undo_view(w, u);
    lemma_fill_cells(w.cells, caps, stone(opponent(p)));
    assert forall|i: int| 0 <= i < 729 implies #[trigger] r.cells[i] == v.cells[i] by {
        if caps.contains(i as u16) {
            let k = choose|k: int| 0 <= k < caps.len() && caps[k] == i as u16;
            assert(v.cells[caps[k] as int] == stone(opponent(p)));
        }
    }
    assert(r.cells =~= v.cells);
    assert(r.neighbor =~= v.neighbor);
    assert(w.stone_count == num_stones(w.cells));
    assert(w.cells[mv] == stone(p));
    lemma_num_stones_toggle(w.cells.update(mv, Cell::Empty), w.cells, mv);
    assert(r.acc =~= v.acc);
    assert(r.captures =~= v.captures);
}

/// Playing a move keeps the accumulator equal to the value of the
/// position (modulo 2^32): the incremental update matches a full
/// recomputation.
pub proof fn lemma_play_keeps_acc(v: BoardView, mv: int)
    requires
        acc_ok(v),
    ensures
        acc_ok(play_view(v, mv)),
{
    let cells2 = play_cells(v, mv);
    lemma_wrap32_add(full_acc(v.cells, Player::Black), full_acc(cells2, Player::Black) - full_acc(v.cells, Player::Black));
    lemma_wrap32_add(full_acc(v.cells, Player::White), full_acc(cells2, Player::White) - full_acc(v.cells, Player::White));
    lemma_wrap32_range(full_acc(cells2, Player::Black));
    lemma_wrap32_range(full_acc(cells2, Player::White));
}


/// The empty board: walls exactly outside the 19x19 area.
pub open spec fn empty_cells() -> Seq<Cell> {
    Seq::new(729, |i: int| if in_board(i) { Cell::Empty } else { Cell::Wall })
}

/// A board without stones has no accumulated value.
proof fn lemma_no_stones(cells: Seq<Cell>)
    requires
        forall|i: int| 0 <= i < cells.len() ==> !is_stone(#[trigger] cells[i]),
    ensures
        num_stones(cells) == 0,
        forall|i: int| #[trigger] nb_count(cells, i) == 0,
        full_acc(cells, Player::Black) == 0,
        full_acc(cells, Player::White) == 0,
{
    crate::sums::lemma_range_sum_zero(|i: int| stone_at(cells, i), 729);
    assert forall|i: int| #[trigger] nb_count(cells, i) == 0 by {
        crate::sums::lemma_range_sum_zero(|k: int| stone_at(cells, i + nb_off(k)), 25);
    }
    assert forall|e: int| 0 <= e < n_terms() implies #[trigger] term_w(cells, Player::Black)(e) == 0 by {
        assert(!is_stone(cell_of(cells, e / 4)));
    }
    assert forall|e: int| 0 <= e < n_terms() implies #[trigger] term_w(cells, Player::White)(e) == 0 by {
        assert(!is_stone(cell_of(cells, e / 4)));
    }
    assert forall|e: int| 0 <= e < n_terms() implies #[trigger] term_v(cells, Player::Black)(e) == 0 by {
        assert(!is_stone(cell_of(cells, e / 4)));
    }
    assert forall|e: int| 0 <= e < n_terms() implies #[trigger] term_v(cells, Player::White)(e) == 0 by {
        assert(!is_stone(cell_of(cells, e / 4)));
    }
    crate::sums::lemma_range_sum_zero(term_w(cells, Player::Black), n_terms());
    crate::sums::lemma_range_sum_zero(term_w(cells, Player::White), n_terms());
    crate::sums::lemma_range_sum_zero(term_v(cells, Player::Black), n_terms());
    crate::sums::lemma_range_sum_zero(term_v(cells, Player::White), n_terms());
}

impl Board {
    /// A new game: empty board, Black to move, no captures. The Zobrist
    /// keys are drawn in order from a fixed-seed xorshift64 (the cell keys
    /// of Black then White, the side key, then the capture-count keys of
    /// Black then White), and the side key is folded into the initial key.
    pub fn new() -> (b: Board)
        ensures
            b.wf(),
            acc_ok(b@),
            b@.cells == empty_cells(),
            b@.captures == seq![0u8, 0u8],
            b@.to_move == Player::Black,
            b@.stone_count == 0,
            b@.zobrist == b@.key_side,
            b@.key_side == xs_iter(KEY_SEED, 1459),
            forall|i: int| 0 <= i < 1458 ==> #[trigger] b@.key_cell[i] == xs_iter(KEY_SEED, (i + 1) as nat),
            forall|i: int| 0 <= i < 22 ==> #[trigger] b@.key_captures[i] == xs_iter(KEY_SEED, (i + 1460) as nat),
    {
        let mut rng = Xorshift64(KEY_SEED);
        let mut key_cell: Vec<u64> = Vec::new();
        let mut n: usize = 0;
        while n < 1458
            invariant
                n <= 1458,
                key_cell.len() == n,
                rng.0 == xs_iter(KEY_SEED, n as nat),
                forall|i: int| 0 <= i < n ==> #[trigger] key_cell@[i] == xs_iter(KEY_SEED, (i + 1) as nat),
            decreases 1458 - n,
        {
            let k = rng.next();
            key_cell.push(k);
            n = n + 1;
        }
        let key_side = rng.next();
        let mut key_captures: Vec<u64> = Vec::new();
        let mut n: usize = 0;
        while n < 22
            invariant
                n <= 22,
                key_captures.len() == n,
                rng.0 == xs_iter(KEY_SEED, (n + 1459) as nat),
                forall|i: int| 0 <= i < n ==> #[trigger] key_captures@[i] == xs_iter(KEY_SEED, (i + 1460) as nat),
            decreases 22 - n,
        {
            let k = rng.next();
            key_captures.push(k);
            n = n + 1;
        }

        let mut cells: Vec<Cell> = Vec::new();
        let mut neighbor: Vec<u8> = Vec::new();
        let mut i: usize = 0;
        while i < TOTAL
            invariant
                i <= 729,
                cells.len() == i,
                neighbor.len() == i,
                forall|j: int| 0 <= j < i ==> #[trigger] cells@[j] == empty_cells()[j],
                forall|j: int| 0 <= j < i ==> #[trigger] neighbor@[j] == 0,
            decreases 729 - i,
        {
            let col = i % STRIDE;
            let row = i / STRIDE;
            if col >= PAD && col < PAD + SIZE && row >= PAD && row < PAD + SIZE {
                cells.push(Cell::Empty);
            } else {
                cells.push(Cell::Wall);
            }
            neighbor.push(0);
            i = i + 1;
        }
        let b = Board {
            cells,
            captures: [0, 0],
            to_move: Player::Black,
            zobrist: key_side,
            stone_count: 0,
            neighbor,
            acc: [0, 0],
            key_cell,
            key_side,
            key_captures,
        };
        proof {
            assert(b@.cells =~= empty_cells());
            lemma_no_stones(b@.cells);
            assert(b@.captures =~= seq![0u8, 0u8]);
        }
        b
    }
}

impl Default for Board {
    fn default() -> (b: Board)
        ensures
            b.wf(),
            acc_ok(b@),
            b@.cells == empty_cells(),
            b@.captures == seq![0u8, 0u8],
            b@.to_move == Player::Black,
            b@.stone_count == 0,
            b@.zobrist == b@.key_side,
    {
        Board::new()
    }
}


impl Board {
    /// Recomputes the accumulator from scratch: over every stone and every
    /// axis, the window score plus the pair vulnerability, summed per owner
    /// (wrapping). Independent of the incremental updates of `play`.
    pub fn full_recompute_acc(&self, pt: &PatternTable) -> (r: [i32; 2])
        requires
            self.wf(),
        ensures
            r@[0] as int == wrap32(full_acc(self@.cells, Player::Black)),
            r@[1] as int == wrap32(full_acc(self@.cells, Player::White)),
    {
        let ghost cells = self@.cells;
        let ghost wb = term_w(cells, Player::Black);
        let ghost vb = term_v(cells, Player::Black);
        let ghost ww = term_w(cells, Player::White);
        let ghost vw = term_v(cells, Player::White);
        let mut acc: [i32; 2] = [0, 0];
        let mut e: usize = 0;
        proof {
            lemma_wrap32_id(0);
        }
        while e < 2916
            invariant
                e <= 2916,
                self.wf(),
                cells == self@.cells,
                wb == term_w(cells, Player::Black),
                vb == term_v(cells, Player::Black),
                ww == term_w(cells, Player::White),
                vw == term_v(cells, Player::White),
                acc@[0] as int == wrap32(range_sum(wb, e as int) + range_sum(vb, e as int)),
                acc@[1] as int == wrap32(range_sum(ww, e as int) + range_sum(vw, e as int)),
            decreases 2916 - e,
        {
            let c = (e / 4) as u16;
            let di = e % 4;
            let d = DIRS[di];
            let ghost ei = e as int;
            proof {
                assert(d as int == dir(di as int));
                assert(ei / 4 == c as int);
                assert(ei % 4 == di as int);
            }
            let cell = self.get(c);
            if cell == Cell::Black || cell == Cell::White {
                let owner = if cell == Cell::Black {
                    Player::Black
                } else {
                    Player::White
                };
                let ws = self.stone_window_score(c, d, owner, pt);
                let vs = self.pair_vuln_score(c, d, owner);
                let k: usize = if cell == Cell::Black {
                    0
                } else {
                    1
                };
                let old_k = acc[k];
                acc[k] = acc[k].wrapping_add(ws).wrapping_add(vs);
                proof {
                    lemma_wrapping_add_i32(old_k, ws);
                    lemma_wrapping_add_i32(vstd::wrapping::i32_specs::wrapping_add(old_k, ws), vs);
                    if k == 0 {
                        let s = range_sum(wb, ei) + range_sum(vb, ei);
                        lemma_wrap32_add(s, ws as int);
                        lemma_wrap32_add(s + ws, vs as int);
                        assert(wb(ei) == ws as int);
                        assert(vb(ei) == vs as int);
                        assert(ww(ei) == 0);
                        assert(vw(ei) == 0);
                    } else {
                        let s = range_sum(ww, ei) + range_sum(vw, ei);
                        lemma_wrap32_add(s, ws as int);
                        lemma_wrap32_add(s + ws, vs as int);
                        assert(ww(ei) == ws as int);
                        assert(vw(ei) == vs as int);
                        assert(wb(ei) == 0);
                        assert(vb(ei) == 0);
                    }
                }
            } else {
                proof {
                    assert(wb(ei) == 0);
                    assert(vb(ei) == 0);
                    assert(ww(ei) == 0);
                    assert(vw(ei) == 0);
                }
            }
            e = e + 1;
        }
        acc
    }
}


impl Clone for Board {
    fn clone(&self) -> (r: Board)
        ensures
            r@ == self@,
    {
        let cells = self.cells.clone();
        let neighbor = self.neighbor.clone();
        let key_cell = self.key_cell.clone();
        let key_captures = self.key_captures.clone();
        proof {
            assert(cells@ =~= self.cells@);
            assert(neighbor@ =~= self.neighbor@);
            assert(key_cell@ =~= self.key_cell@);
            assert(key_captures@ =~= self.key_captures@);
        }
        Board {
            cells,
            captures: self.captures,
            to_move: self.to_move,
            zobrist: self.zobrist,
            stone_count: self.stone_count,
            neighbor,
            acc: self.acc,
            key_cell,
            key_side: self.key_side,
            key_captures,
        }
    }
}

} // verus!
