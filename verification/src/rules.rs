//! Move legality (captures and the double-three rule), end-of-game
//! detection (capture wins, breakable fives, draws) and candidate moves.
use vstd::prelude::*;
use crate::board::{
    captured_by, cell_at, cell_of, dir, fill_cells, hyp_window, idx, idx_spec, in_board, layout_ok,
    lemma_idx_coords, lemma_play_undo_roundtrip, lemma_window_decodes, nb_count, num_stones,
    opponent, play_view, player_slot, slot, stone, window, Board, BoardView, Cell, Idx, Player, DIRS,
    SIZE, TOTAL,
};
use crate::patterns::{
    Pat, PatternTable, F_FIVE, F_FREE_THREE, classify_spec, is_five, is_free_three,
    lemma_flags_spec_bits,
};

verus! {

// ---------------------------------------------------------------------------
// Legality

/// The cells after `p` plays at `mv`: `p`'s stone placed and the pairs it
/// captures removed.
pub open spec fn after_move(cells: Seq<Cell>, mv: int, p: Player) -> Seq<Cell> {
    fill_cells(cells.update(mv, stone(p)), captured_by(cells, mv, p), Cell::Empty)
}

/// Whether `p` playing at `mv` forms a free three along axis `di`.
pub open spec fn free_three_on(cells: Seq<Cell>, mv: int, p: Player, di: int) -> bool {
    is_free_three(window(after_move(cells, mv, p), mv, dir(di), p))
}

/// Number of the first `n` axes along which `p` playing at `mv` forms a
/// free three.
pub open spec fn free_threes_upto(cells: Seq<Cell>, mv: int, p: Player, n: int) -> int
    decreases n,
{
    if n <= 0 {
        0
    } else {
        free_threes_upto(cells, mv, p, n - 1) + if free_three_on(cells, mv, p, n - 1) {
            1int
        } else {
            0int
        }
    }
}

/// Number of axes along which `p` playing at `mv` forms a free three.
pub open spec fn free_threes(cells: Seq<Cell>, mv: int, p: Player) -> int {
    free_threes_upto(cells, mv, p, 4)
}

/// `p` may play at `mv`: the cell is empty, and the move either captures
/// or forms fewer than two free threes.
pub open spec fn legal(cells: Seq<Cell>, mv: int, p: Player) -> bool {
    &&& cell_of(cells, mv) == Cell::Empty
    &&& (captured_by(cells, mv, p).len() > 0 || free_threes(cells, mv, p) < 2)
}

proof fn lemma_free_threes_bound(cells: Seq<Cell>, mv: int, p: Player, n: int)
    requires
        0 <= n,
    ensures
        0 <= free_threes_upto(cells, mv, p, n) <= n,
    decreases n,
{
    if n > 0 {
        lemma_free_threes_bound(cells, mv, p, n - 1);
    }
}

/// Number of axes along which placing `p` at `mv` forms a free three. The
/// stone is placed with `play` (captures included) and taken back with
/// `undo`, so the board is unchanged afterwards.
pub fn count_free_threes(b: &mut Board, mv: Idx, p: Player, pt: &PatternTable) -> (r: u8)
    requires
        old(b).wf(),
        in_board(mv as int),
        old(b)@.cells[mv as int] == Cell::Empty,
    ensures
        final(b)@ == old(b)@,
        r as int == free_threes(old(b)@.cells, mv as int, p),
{
    let ghost v0 = b@;
    let saved_to_move = b.to_move;
    b.to_move = p;
    let ghost v1 = b@;
    let u = b.play(mv, pt);
    proof {
        lemma_play_undo_roundtrip(v1, mv as int, u);
        assert(b@.cells == after_move(v0.cells, mv as int, p));
    }
    let mut count: u8 = 0;
    let mut di: usize = 0;
    while di < 4
        invariant
            di <= 4,
            b.wf(),
            b@ == play_view(v1, mv as int),
            b@.cells == after_move(v0.cells, mv as int, p),
            count as int == free_threes_upto(v0.cells, mv as int, p, di as int),
        decreases 4 - di,
    {
        let d = DIRS[di];
        proof {
            assert(d as int == dir(di as int));
            lemma_free_threes_bound(v0.cells, mv as int, p, di as int);
        }
        let code = b.window_code_pub(mv, d, p);
        proof {
            lemma_window_decodes(b@.cells, mv as int, d as int, p);
            lemma_flags_spec_bits(window(b@.cells, mv as int, d as int, p));
        }
        if pt.get(code).flags & F_FREE_THREE != 0 {
            count = count + 1;
        }
        di = di + 1;
    }
    b.undo(&u);
    b.to_move = saved_to_move;
    proof {
        assert(b@ == v0);
    }
    count
}

/// Without captures, placing `p`'s stone on `mv` changes no other cell, so
/// each window through `mv` after the move is the hypothetical window.
proof fn lemma_placed_window(cells: Seq<Cell>, mv: int, p: Player, di: int)
    requires
        captured_by(cells, mv, p).len() == 0,
        cells.len() == 729,
        0 <= mv < cells.len(),
        0 <= di < 4,
    ensures
        window(after_move(cells, mv, p), mv, dir(di), p) == hyp_window(cells, mv, dir(di), p),
{
    assert(captured_by(cells, mv, p) =~= Seq::<u16>::empty());
    let after = after_move(cells, mv, p);
    assert(after == cells.update(mv, stone(p)));
    let d = dir(di);
    assert forall|k: int| 0 <= k < 9 implies #[trigger] window(after, mv, d, p)[k] == hyp_window(
        cells,
        mv,
        d,
        p,
    )[k] by {
        let off = (k - 4) * d;
        if k != 4 {
            assert(off != 0) by (nonlinear_arith)
                requires
                    k != 4,
                    d >= 1,
                    off == (k - 4) * d,
            ;
            let i = mv + off;
            if 0 <= i < 729 && i < cells.len() {
                assert(after[i] == cells[i]);
            }
            assert(cell_at(after, mv, off) == cell_at(cells, mv, off));
        } else {
            assert(off == 0);
            assert(cell_at(after, mv, off) == stone(p));
        }
    }
    assert(window(after, mv, d, p) =~= hyp_window(cells, mv, d, p));
}

/// Number of axes along which `p` placing a stone on `mv`, capturing
/// nothing, forms a free three: read from the hypothetical windows, with
/// no board change.
fn free_threes_without_capture(b: &Board, mv: Idx, p: Player, pt: &PatternTable) -> (r: u8)
    requires
        b.wf(),
        (mv as int) < 729,
        captured_by(b@.cells, mv as int, p).len() == 0,
    ensures
        r as int == free_threes(b@.cells, mv as int, p),
{
    let ghost cells = b@.cells;
    let mut count: u8 = 0;
    let mut di: usize = 0;
    while di < 4
        invariant
            di <= 4,
            b.wf(),
            cells == b@.cells,
            (mv as int) < 729,
            captured_by(cells, mv as int, p).len() == 0,
            count as int == free_threes_upto(cells, mv as int, p, di as int),
        decreases 4 - di,
    {
        let d = DIRS[di];
        proof {
            assert(d as int == dir(di as int));
            lemma_free_threes_bound(cells, mv as int, p, di as int);
            lemma_placed_window(cells, mv as int, p, di as int);
            lemma_window_decodes(cells, mv as int, d as int, p);
            lemma_flags_spec_bits(hyp_window(cells, mv as int, d as int, p));
        }
        let code = b.hypothetical_window_code(mv, d, p);
        if pt.get(code).flags & F_FREE_THREE != 0 {
            count = count + 1;
        }
        di = di + 1;
    }
    count
}

/// `mv` must be an empty board cell for `p` to play there. A capturing move
/// is legal whatever free threes it forms: the double-three rule only bars
/// non-capturing moves, whose free threes are counted on the windows
/// through `mv` with `p`'s stone assumed there.
pub fn is_legal(b: &Board, mv: Idx, p: Player, pt: &PatternTable) -> (r: bool)
    requires
        b.wf(),
    ensures
        r == legal(b@.cells, mv as int, p),
{
    if b.get(mv) != Cell::Empty {
        return false;
    }
    let (_captured, n) = b.captures_of(mv, p);
    if n > 0 {
        return true;
    }
    free_threes_without_capture(b, mv, p, pt) < 2
}


// ---------------------------------------------------------------------------
// Candidate moves

/// The `k`-th board cell in row-major order (`k < 361`).
pub open spec fn board_cell(k: int) -> int {
    idx_spec(k % 19, k / 19)
}

/// The board center, the only candidate on an empty board.
pub open spec fn center() -> int {
    idx_spec(9, 9)
}

/// `i` is a candidate for `p`: an empty cell with a stone within Chebyshev
/// radius 2, where `p` may legally play.
pub open spec fn is_candidate(cells: Seq<Cell>, i: int, p: Player) -> bool {
    &&& cell_of(cells, i) == Cell::Empty
    &&& nb_count(cells, i) > 0
    &&& legal(cells, i, p)
}

/// The candidates for `p` among the first `n` board cells, in row-major
/// order.
pub open spec fn candidates_upto(cells: Seq<Cell>, p: Player, n: int) -> Seq<u16>
    decreases n,
{
    if n <= 0 {
        Seq::empty()
    } else {
        let prev = candidates_upto(cells, p, n - 1);
        if is_candidate(cells, board_cell(n - 1), p) {
            prev.push(board_cell(n - 1) as u16)
        } else {
            prev
        }
    }
}

/// All candidate moves of `p`, in row-major order; on an empty board only
/// the center.
pub open spec fn candidate_moves(cells: Seq<Cell>, p: Player) -> Seq<u16> {
    if num_stones(cells) == 0 {
        seq![center() as u16]
    } else {
        candidates_upto(cells, p, 361)
    }
}

proof fn lemma_board_cell(x: int, y: int)
    requires
        0 <= x < 19,
        0 <= y < 19,
    ensures
        board_cell(y * 19 + x) == idx_spec(x, y),
{
    vstd::arithmetic::div_mod::lemma_fundamental_div_mod_converse_div(y * 19 + x, 19, y, x);
    vstd::arithmetic::div_mod::lemma_fundamental_div_mod_converse_mod(y * 19 + x, 19, y, x);
}

/// Every candidate is a board cell where `p` may play.
pub proof fn lemma_candidates_legal(cells: Seq<Cell>, p: Player, n: int)
    requires
        0 <= n <= 361,
    ensures
        forall|j: int|
            0 <= j < candidates_upto(cells, p, n).len() ==> {
                let c = #[trigger] candidates_upto(cells, p, n)[j] as int;
                &&& in_board(c)
                &&& legal(cells, c, p)
                &&& nb_count(cells, c) > 0
            },
    decreases n,
{
    if n > 0 {
        lemma_candidates_legal(cells, p, n - 1);
        let k = n - 1;
        assert(0 <= k / 19 < 19);
        lemma_idx_coords(k % 19, k / 19);
        let prev = candidates_upto(cells, p, k);
        let cur = candidates_upto(cells, p, n);
        assert forall|j: int| 0 <= j < cur.len() implies {
            let c = #[trigger] cur[j] as int;
            &&& in_board(c)
            &&& legal(cells, c, p)
            &&& nb_count(cells, c) > 0
        } by {
            if j < prev.len() {
                assert(cur[j] == prev[j]);
            } else {
                assert(cur[j] == board_cell(k) as u16);
            }
        }
    }
}

/// All legal candidate moves for `p`, into `out`: empty cells with at
/// least one stone within Chebyshev radius 2, filtered by legality, in
/// row-major order. On an empty board, only the center.
pub fn generate(b: &Board, p: Player, pt: &PatternTable, out: &mut Vec<Idx>)
    requires
        b.wf(),
    ensures
        final(out)@ == candidate_moves(b@.cells, p),
{
    out.clear();
    if b.stone_count == 0 {
        let mid = idx(SIZE / 2, SIZE / 2);
        out.push(mid);
        proof {
            assert(out@ =~= seq![center() as u16]);
        }
        return;
    }
    let mut y: usize = 0;
    while y < SIZE
        invariant
            y <= 19,
            b.wf(),
            out@ == candidates_upto(b@.cells, p, y * 19),
        decreases 19 - y,
    {
        let mut x: usize = 0;
        while x < SIZE
            invariant
                y < 19,
                x <= 19,
                b.wf(),
                out@ == candidates_upto(b@.cells, p, y * 19 + x),
            decreases 19 - x,
        {
            let i = idx(x, y);
            proof {
                lemma_board_cell(x as int, y as int);
                lemma_idx_coords(x as int, y as int);
            }
            if b.get(i) == Cell::Empty && b.has_neighbor(i) && is_legal(b, i, p, pt) {
                out.push(i);
            }
            x = x + 1;
        }
        y = y + 1;
    }
}


// ---------------------------------------------------------------------------
// End of game

/// Outcome of the position right after a move.
#[derive(Copy, Clone, PartialEq, Eq, Debug, Structural)]
pub enum GameEnd {
    /// The game goes on.
    Ongoing,
    Win(Player),
    Draw,
}

/// Number of consecutive stones of `p` at `start`, `start + step`,
/// `start + 2 * step`, ... inside the array (at most `fuel`).
pub open spec fn run_len(cells: Seq<Cell>, start: int, step: int, p: Player, fuel: nat) -> nat
    decreases fuel,
{
    if fuel == 0 {
        0
    } else if 0 <= start < 729 && cell_of(cells, start) == stone(p) {
        1 + run_len(cells, start + step, step, p, (fuel - 1) as nat)
    } else {
        0
    }
}

/// The alignment of `p` through `last` along offset `d`: `last`, then the
/// contiguous stones of `p` walking backwards, then those walking forwards.
pub open spec fn alignment(cells: Seq<Cell>, last: int, d: int, p: Player) -> Seq<u16> {
    let nb = run_len(cells, last - d, -d, p, 729);
    let nf = run_len(cells, last + d, d, p, 729);
    seq![last as u16] + Seq::new(nb, |k: int| (last - (k + 1) * d) as u16) + Seq::new(
        nf,
        |k: int| (last + (k + 1) * d) as u16,
    )
}

/// Walks outward from `last` in both directions of offset `d`, collecting
/// every contiguous cell holding `p`'s stone, after `last` itself.
fn collect_alignment(b: &Board, last: Idx, d: i16, p: Player) -> (r: Vec<Idx>)
    requires
        d > 0,
    ensures
        r@ == alignment(b@.cells, last as int, d as int, p),
{
    let ghost cells = b@.cells;
    let ghost nb = run_len(cells, last - d, -d, p, 729);
    let ghost nf = run_len(cells, last + d, d as int, p, 729);
    let mut cells_out: Vec<Idx> = Vec::new();
    cells_out.push(last);
    let ghost mut j: int = 0;
    let mut i: i32 = last as i32 - d as i32;
    while i >= 0 && (i as usize) < TOTAL && b.get(i as Idx) == p.cell()
        invariant
            d > 0,
            cells == b@.cells,
            nb == run_len(cells, last - d, -d, p, 729),
            0 <= j,
            i as int == last - (j + 1) * d,
            j == 0 || last - d < 729,
            cells_out@ == seq![last as u16] + Seq::new(j as nat, |k: int| (last - (k + 1) * d) as u16),
            nb == j + run_len(cells, i as int, -d, p, (729 - j) as nat),
        decreases i + 32768,
    {
        proof {
            assert(j * d >= j) by (nonlinear_arith)
                requires
                    j >= 0,
                    d >= 1,
            ;
            assert((j + 2) * d == (j + 1) * d + d) by (nonlinear_arith);
            assert((j + 1) * d == j * d + d) by (nonlinear_arith);
            assert(j < 729);
            assert(run_len(cells, i as int, -d, p, (729 - j) as nat) == 1 + run_len(
                cells,
                i - d,
                -d,
                p,
                (728 - j) as nat,
            ));
        }
        cells_out.push(i as Idx);
        proof {
            assert(cells_out@ =~= seq![last as u16] + Seq::new((j + 1) as nat, |k: int| (last - (k + 1) * d) as u16));
            j = j + 1;
        }
        i = i - d as i32;
    }
    proof {
        assert(nb == j);
    }
    let ghost mut h: int = 0;
    let mut i: i32 = last as i32 + d as i32;
    while i >= 0 && (i as usize) < TOTAL && b.get(i as Idx) == p.cell()
        invariant
            d > 0,
            last < 65536,
            cells == b@.cells,
            nf == run_len(cells, last + d, d as int, p, 729),
            0 <= h,
            i as int == last + (h + 1) * d,
            cells_out@ == seq![last as u16] + Seq::new(nb, |k: int| (last - (k + 1) * d) as u16) + Seq::new(
                h as nat,
                |k: int| (last + (k + 1) * d) as u16,
            ),
            nf == h + run_len(cells, i as int, d as int, p, (729 - h) as nat),
        decreases 729 + 32768 - i,
    {
        proof {
            assert((h + 2) * d == (h + 1) * d + d) by (nonlinear_arith);
            assert((h + 1) * d >= h + 1) by (nonlinear_arith)
                requires
                    h >= 0,
                    d >= 1,
            ;
        }
        cells_out.push(i as Idx);
        proof {
            assert(cells_out@ =~= seq![last as u16] + Seq::new(nb, |k: int| (last - (k + 1) * d) as u16)
                + Seq::new((h + 1) as nat, |k: int| (last + (k + 1) * d) as u16));
            h = h + 1;
        }
        i = i + d as i32;
    }
    proof {
        assert(nf == h);
    }
    cells_out
}


/// `p` playing at `mv` captures something.
pub open spec fn captures_any(cells: Seq<Cell>, mv: int, p: Player) -> bool {
    captured_by(cells, mv, p).len() > 0
}

/// `p` playing at `mv` captures some stone listed in `al`.
pub open spec fn captures_one_of(cells: Seq<Cell>, mv: int, p: Player, al: Seq<u16>) -> bool {
    exists|t: int|
        0 <= t < captured_by(cells, mv, p).len() && al.contains(#[trigger] captured_by(cells, mv, p)[t])
}

/// `p`'s five along `al` does not win outright: either `p` has already
/// lost four pairs and the opponent can capture anything, or some
/// candidate move of the opponent captures a stone of the five.
pub open spec fn breakable(v: BoardView, p: Player, al: Seq<u16>) -> bool {
    let opp = opponent(p);
    let cands = candidate_moves(v.cells, opp);
    ||| (v.captures[slot(opp)] >= 8 && exists|j: int|
        0 <= j < cands.len() && #[trigger] captures_any(v.cells, cands[j] as int, opp))
    ||| exists|j: int| 0 <= j < cands.len() && #[trigger] captures_one_of(v.cells, cands[j] as int, opp, al)
}

fn contains_idx(list: &Vec<Idx>, x: Idx) -> (r: bool)
    ensures
        r == list@.contains(x),
{
    let mut i: usize = 0;
    while i < list.len()
        invariant
            i <= list.len(),
            forall|k: int| 0 <= k < i ==> list@[k] != x,
        decreases list.len() - i,
    {
        if list[i] == x {
            return true;
        }
        i = i + 1;
    }
    false
}

/// True if `p`'s five along `alignment` does not win outright (see
/// `breakable`).
fn five_is_breakable(b: &Board, p: Player, alignment: &Vec<Idx>, pt: &PatternTable) -> (r: bool)
    requires
        b.wf(),
    ensures
        r == breakable(b@, p, alignment@),
{
    let ghost cells = b@.cells;
    let opp = p.other();
    let mut candidates = Vec::new();
    generate(b, opp, pt, &mut candidates);
    let ghost cands = candidates@;

    let p_lost_stones = player_slot(b.captures, opp);
    if p_lost_stones >= 8 {
        let mut i: usize = 0;
        while i < candidates.len()
            invariant
                i <= candidates.len(),
                candidates@ == cands,
                cands == candidate_moves(cells, opp),
                opp == opponent(p),
                b@.captures[slot(opp)] >= 8,
                cells == b@.cells,
                forall|j: int| 0 <= j < i ==> !#[trigger] captures_any(cells, cands[j] as int, opp),
            decreases candidates.len() - i,
        {
            let (_c, n) = b.captures_of(candidates[i], opp);
            if n > 0 {
                assert(captures_any(cells, cands[i as int] as int, opp));
                assert(cands == candidate_moves(b@.cells, opp));
                assert(breakable(b@, p, alignment@));
                return true;
            }
            i = i + 1;
        }
    }
    let mut i: usize = 0;
    while i < candidates.len()
        invariant
            i <= candidates.len(),
            candidates@ == cands,
            cands == candidate_moves(cells, opp),
            opp == opponent(p),
            cells == b@.cells,
            forall|j: int| 0 <= j < i ==> !#[trigger] captures_one_of(cells, cands[j] as int, opp, alignment@),
        decreases candidates.len() - i,
    {
        let mv2 = candidates[i];
        let (captured, n) = b.captures_of(mv2, opp);
        let ghost cap = captured_by(cells, mv2 as int, opp);
        let mut t: usize = 0;
        while t < n
            invariant
                t <= n,
                n <= 16,
                i < cands.len(),
                mv2 == cands[i as int],
                cap == captured_by(cells, mv2 as int, opp),
                cands == candidate_moves(cells, opp),
                opp == opponent(p),
                cells == b@.cells,
                n == cap.len(),
                forall|k: int| 0 <= k < n ==> captured@[k] == cap[k],
                forall|k: int| 0 <= k < t ==> !alignment@.contains(#[trigger] cap[k]),
            decreases n - t,
        {
            if contains_idx(alignment, captured[t]) {
                assert(alignment@.contains(captured_by(cells, mv2 as int, opp)[t as int]));
                assert(captures_one_of(cells, mv2 as int, opp, alignment@));
                assert(captures_one_of(cells, cands[i as int] as int, opp, alignment@));
                assert(cands == candidate_moves(b@.cells, opp));
                assert(breakable(b@, p, alignment@));
                return true;
            }
            t = t + 1;
        }
        assert(!captures_one_of(cells, cands[i as int] as int, opp, alignment@));
        i = i + 1;
    }
    false
}

/// Axis `di` holds a five of `p` through `last`.
pub open spec fn five_on(cells: Seq<Cell>, last: int, p: Player, di: int) -> bool {
    is_five(window(cells, last, dir(di), p))
}

/// Axis `di` holds a five of `p` through `last` that cannot be broken.
pub open spec fn winning_five_on(v: BoardView, last: int, p: Player, di: int) -> bool {
    five_on(v.cells, last, p, di) && !breakable(v, p, alignment(v.cells, last, dir(di), p))
}

/// The outcome right after the player who is not to move played `last`:
/// a win by ten captured stones, then a win by an unbreakable five, then
/// (with a five that can still be broken) no outcome yet, then a draw when
/// the side to move has no candidate move.
pub open spec fn game_end(v: BoardView, last: int) -> GameEnd {
    let p = opponent(v.to_move);
    if v.captures[slot(p)] >= 10 {
        GameEnd::Win(p)
    } else if exists|di: int| 0 <= di < 4 && #[trigger] winning_five_on(v, last, p, di) {
        GameEnd::Win(p)
    } else if exists|di: int| 0 <= di < 4 && #[trigger] five_on(v.cells, last, p, di) {
        GameEnd::Ongoing
    } else if candidate_moves(v.cells, v.to_move).len() == 0 {
        GameEnd::Draw
    } else {
        GameEnd::Ongoing
    }
}

/// Evaluates the game state right after `b.to_move.other()` played `last`:
/// win by capture before win by alignment (which depends on whether the
/// five can be broken), before draw. The board is left unchanged.
pub fn check_end(b: &mut Board, last: Idx, pt: &PatternTable) -> (r: GameEnd)
    requires
        old(b).wf(),
    ensures
        final(b)@ == old(b)@,
        r == game_end(old(b)@, last as int),
{
    let ghost v = b@;
    let p = b.to_move.other();

    if player_slot(b.captures, p) >= 10 {
        return GameEnd::Win(p);
    }

    let mut any_five = false;
    let mut di: usize = 0;
    while di < 4
        invariant
            di <= 4,
            b@ == v,
            b.wf(),
            p == opponent(v.to_move),
            v.captures[slot(p)] < 10,
            any_five == exists|k: int| 0 <= k < di && #[trigger] five_on(v.cells, last as int, p, k),
            forall|k: int| 0 <= k < di ==> !#[trigger] winning_five_on(v, last as int, p, k),
        decreases 4 - di,
    {
        let d = DIRS[di];
        proof {
            assert(d as int == dir(di as int));
        }
        let code = b.window_code_pub(last, d, p);
        proof {
            lemma_window_decodes(v.cells, last as int, d as int, p);
            lemma_flags_spec_bits(window(v.cells, last as int, d as int, p));
        }
        if pt.get(code).flags & F_FIVE != 0 {
            any_five = true;
            assert(five_on(v.cells, last as int, p, di as int));
            let alignment = collect_alignment(b, last, d, p);
            if !five_is_breakable(b, p, &alignment, pt) {
                assert(winning_five_on(v, last as int, p, di as int));
                return GameEnd::Win(p);
            }
        }
        di = di + 1;
    }
    if any_five {
        return GameEnd::Ongoing;
    }

    let mut candidates = Vec::new();
    generate(b, b.to_move, pt, &mut candidates);
    if candidates.len() == 0 {
        return GameEnd::Draw;
    }
    GameEnd::Ongoing
}


// ---------------------------------------------------------------------------
// Candidates with their shapes

/// The table entries of the four windows through `mv` as they would be
/// with `p`'s stone on `mv`, one per axis.
pub open spec fn move_patterns(cells: Seq<Cell>, mv: int, p: Player) -> Seq<Pat> {
    Seq::new(4, |di: int| classify_spec(hyp_window(cells, mv, dir(di), p)))
}

/// A candidate with its four shapes for `p` and the number of stones its
/// capture takes.
pub open spec fn annotated(cells: Seq<Cell>, mv: u16, p: Player) -> (u16, Seq<Pat>, int) {
    (mv, move_patterns(cells, mv as int, p), captured_by(cells, mv as int, p).len() as int)
}

/// The four shapes `p` would make by playing at `mv`, one per axis.
pub fn move_pats(b: &Board, mv: Idx, p: Player, pt: &PatternTable) -> (r: [Pat; 4])
    ensures
        r@ == move_patterns(b@.cells, mv as int, p),
{
    let ghost cells = b@.cells;
    proof {
        lemma_window_decodes(cells, mv as int, 1, p);
        lemma_window_decodes(cells, mv as int, 27, p);
        lemma_window_decodes(cells, mv as int, 28, p);
        lemma_window_decodes(cells, mv as int, 26, p);
    }
    let p0 = pt.get(b.hypothetical_window_code(mv, DIRS[0], p));
    let p1 = pt.get(b.hypothetical_window_code(mv, DIRS[1], p));
    let p2 = pt.get(b.hypothetical_window_code(mv, DIRS[2], p));
    let p3 = pt.get(b.hypothetical_window_code(mv, DIRS[3], p));
    let r = [p0, p1, p2, p3];
    proof {
        assert(r@ =~= move_patterns(cells, mv as int, p));
    }
    r
}

/// Like `generate`, with each candidate's four shapes for `p` and its
/// capture count, so that move ordering does not compute them again.
pub fn generate_with_patterns(
    b: &Board,
    p: Player,
    pt: &PatternTable,
    out: &mut Vec<(Idx, [Pat; 4], usize)>,
)
    requires
        b.wf(),
    ensures
        final(out)@.len() == candidate_moves(b@.cells, p).len(),
        forall|j: int|
            0 <= j < final(out)@.len() ==> {
                let e = #[trigger] final(out)@[j];
                (e.0, e.1@, e.2 as int) == annotated(b@.cells, candidate_moves(b@.cells, p)[j], p)
            },
{
    let mut moves: Vec<Idx> = Vec::new();
    generate(b, p, pt, &mut moves);
    out.clear();
    let mut i: usize = 0;
    while i < moves.len()
        invariant
            i <= moves.len(),
            moves@ == candidate_moves(b@.cells, p),
            out@.len() == i,
            forall|j: int|
                0 <= j < i ==> {
                    let e = #[trigger] out@[j];
                    (e.0, e.1@, e.2 as int) == annotated(b@.cells, moves@[j], p)
                },
        decreases moves.len() - i,
    {
        let mv = moves[i];
        let pats = move_pats(b, mv, p, pt);
        let (_captured, n) = b.captures_of(mv, p);
        out.push((mv, pats, n));
        i = i + 1;
    }
}


/// Every candidate move is an empty board cell.
pub proof fn lemma_candidate_moves_playable(cells: Seq<Cell>, p: Player)
    requires
        layout_ok(cells),
    ensures
        forall|j: int|
            0 <= j < candidate_moves(cells, p).len() ==> {
                let c = #[trigger] candidate_moves(cells, p)[j] as int;
                in_board(c) && cells[c] == Cell::Empty
            },
{
    if num_stones(cells) == 0 {
        lemma_idx_coords(9, 9);
        let c = center();
        let h = |i: int| crate::board::stone_at(cells, i);
        assert forall|j: int| 0 <= j < 729 implies #[trigger] h(j) >= 0 by {}
        crate::sums::lemma_range_sum_zero_terms(h, 729, c);
        assert(candidate_moves(cells, p)[0] as int == c);
    } else {
        lemma_candidates_legal(cells, p, 361);
    }
}


/// Only the player who has just moved can be reported as the winner.
pub proof fn lemma_game_end_winner(v: BoardView, last: int, w: Player)
    requires
        game_end(v, last) == GameEnd::Win(w),
    ensures
        w == opponent(v.to_move),
{
}

/// The double-three rule: a move that captures nothing and forms a free
/// three along two different axes (any two of the four) is illegal.
pub proof fn lemma_double_three_illegal(cells: Seq<Cell>, mv: int, p: Player, d1: int, d2: int)
    requires
        captured_by(cells, mv, p).len() == 0,
        0 <= d1 < 4,
        0 <= d2 < 4,
        d1 != d2,
        is_free_three(window(after_move(cells, mv, p), mv, dir(d1), p)),
        is_free_three(window(after_move(cells, mv, p), mv, dir(d2), p)),
    ensures
        !legal(cells, mv, p),
{
    reveal_with_fuel(free_threes_upto, 5);
    assert(free_three_on(cells, mv, p, d1));
    assert(free_three_on(cells, mv, p, d2));
}

/// A move to an empty cell that forms a free three along no axis other
/// than `k` is legal, whatever it captures.
pub proof fn lemma_single_three_legal(cells: Seq<Cell>, mv: int, p: Player, k: int)
    requires
        cell_of(cells, mv) == Cell::Empty,
        0 <= k < 4,
        forall|d: int|
            0 <= d < 4 && d != k ==> !is_free_three(#[trigger] window(after_move(cells, mv, p), mv, dir(d), p)),
    ensures
        legal(cells, mv, p),
{
    reveal_with_fuel(free_threes_upto, 5);
    assert forall|d: int| 0 <= d < 4 && d != k implies !free_three_on(cells, mv, p, d) by {
        assert(!is_free_three(window(after_move(cells, mv, p), mv, dir(d), p)));
    }
}

/// A win by capture takes ten captured stones: with ten or more, the
/// player who just moved wins; with fewer and no five of theirs through
/// `last` on any axis, nobody has won.
pub proof fn lemma_capture_win_takes_ten(v: BoardView, last: int)
    ensures
        v.captures[slot(opponent(v.to_move))] >= 10 ==> game_end(v, last) == GameEnd::Win(opponent(v.to_move)),
        v.captures[slot(opponent(v.to_move))] < 10 && (forall|di: int|
            0 <= di < 4 ==> !is_five(#[trigger] window(v.cells, last, dir(di), opponent(v.to_move))))
            ==> !(game_end(v, last) is Win),
{
    let p = opponent(v.to_move);
    if v.captures[slot(p)] < 10 && (forall|di: int| 0 <= di < 4 ==> !is_five(#[trigger] window(v.cells, last, dir(di), p))) {
        assert forall|di: int| 0 <= di < 4 implies !#[trigger] five_on(v.cells, last, p, di) by {
            assert(!is_five(window(v.cells, last, dir(di), p)));
        }
        assert forall|di: int| 0 <= di < 4 implies !#[trigger] winning_five_on(v, last, p, di) by {
            assert(!five_on(v.cells, last, p, di));
        }
    }
}

/// Before `p` has lost four pairs, a five of `p` along `al` can only be
/// broken by a candidate move of the opponent that captures one of its
/// stones; returns that candidate's position in the list and the
/// captured stone's position in its captures.
pub proof fn lemma_breaking_needs_a_capture_of_the_five(v: BoardView, p: Player, al: Seq<u16>) -> (w: (int, int))
    requires
        breakable(v, p, al),
        v.captures[slot(opponent(p))] < 8,
    ensures
        0 <= w.0 < candidate_moves(v.cells, opponent(p)).len(),
        0 <= w.1 < captured_by(v.cells, candidate_moves(v.cells, opponent(p))[w.0] as int, opponent(p)).len(),
        al.contains(captured_by(v.cells, candidate_moves(v.cells, opponent(p))[w.0] as int, opponent(p))[w.1]),
{
    let opp = opponent(p);
    let cands = candidate_moves(v.cells, opp);
    let j = choose|j: int| 0 <= j < cands.len() && #[trigger] captures_one_of(v.cells, cands[j] as int, opp, al);
    let t = choose|t: int|
        0 <= t < captured_by(v.cells, cands[j] as int, opp).len() && al.contains(
            #[trigger] captured_by(v.cells, cands[j] as int, opp)[t],
        );
    (j, t)
}

/// A candidate reply of the opponent that captures a stone of `p`'s five
/// along `al` breaks it.
pub proof fn lemma_capture_of_the_five_breaks(v: BoardView, p: Player, al: Seq<u16>, j: int, t: int)
    requires
        0 <= j < candidate_moves(v.cells, opponent(p)).len(),
        0 <= t < captured_by(v.cells, candidate_moves(v.cells, opponent(p))[j] as int, opponent(p)).len(),
        al.contains(captured_by(v.cells, candidate_moves(v.cells, opponent(p))[j] as int, opponent(p))[t]),
    ensures
        breakable(v, p, al),
{
    let opp = opponent(p);
    assert(captures_one_of(v.cells, candidate_moves(v.cells, opp)[j] as int, opp, al));
}

/// Once `p` has lost four pairs (eight stones), any capturing candidate
/// reply of the opponent breaks `p`'s five, wherever it captures.
pub proof fn lemma_any_capture_breaks_after_four_pairs(v: BoardView, p: Player, al: Seq<u16>, j: int)
    requires
        v.captures[slot(opponent(p))] >= 8,
        0 <= j < candidate_moves(v.cells, opponent(p)).len(),
        captured_by(v.cells, candidate_moves(v.cells, opponent(p))[j] as int, opponent(p)).len() > 0,
    ensures
        breakable(v, p, al),
{
    let opp = opponent(p);
    assert(captures_any(v.cells, candidate_moves(v.cells, opp)[j] as int, opp));
}

/// A five of the player who just moved, along any of the four axes
/// through `last`, that no reply can break wins.
pub proof fn lemma_unbreakable_five_wins(v: BoardView, last: int, di: int)
    requires
        0 <= di < 4,
        is_five(window(v.cells, last, dir(di), opponent(v.to_move))),
        !breakable(v, opponent(v.to_move), alignment(v.cells, last, dir(di), opponent(v.to_move))),
    ensures
        game_end(v, last) == GameEnd::Win(opponent(v.to_move)),
{
    assert(winning_five_on(v, last, opponent(v.to_move), di));
}

/// Without ten captured stones and without a five through `last`, the
/// game is drawn exactly when the side to move has no candidate move, and
/// goes on otherwise.
pub proof fn lemma_draw_when_no_move(v: BoardView, last: int)
    requires
        v.captures[slot(opponent(v.to_move))] < 10,
        forall|di: int| 0 <= di < 4 ==> !is_five(#[trigger] window(v.cells, last, dir(di), opponent(v.to_move))),
    ensures
        game_end(v, last) == if candidate_moves(v.cells, v.to_move).len() == 0 {
            GameEnd::Draw
        } else {
            GameEnd::Ongoing
        },
{
    let p = opponent(v.to_move);
    assert forall|di: int| 0 <= di < 4 implies !#[trigger] five_on(v.cells, last, p, di) by {
        assert(!is_five(window(v.cells, last, dir(di), p)));
    }
    assert forall|di: int| 0 <= di < 4 implies !#[trigger] winning_five_on(v, last, p, di) by {
        assert(!five_on(v.cells, last, p, di));
    }
}

} // verus!
