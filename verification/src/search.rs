//! Iterative-deepening negamax with alpha-beta, a transposition table,
//! move ordering, late move reductions and threat extensions.
use vstd::prelude::*;
use crate::board::{
    lemma_wrap32_range, captured_by, dir, hyp_window, in_board, lemma_capture_list_len, lemma_play_undo_roundtrip,
    lemma_window_decodes, opponent, play_view, cell_of, undo_record, wf_view, wrap32, Board, BoardView, Cell,
    Idx, Player, Undo, DIRS, TOTAL,
};
use crate::eval::{eval_spec, evaluate, WIN};
use crate::patterns::{
    classify_spec, lemma_flags_spec_bits, Pat, PatternTable, F_FIVE, F_FOUR, F_OPEN_FOUR,
};
use crate::rules::{
    annotated, candidate_moves, check_end, game_end, generate, generate_with_patterns,
    lemma_candidate_moves_playable, move_patterns, GameEnd,
};
use std::time::{Duration, Instant};

verus! {

pub const ORD_TT: i32 = 1_000_000;

pub const ORD_FIVE: i32 = 900_000;

pub const ORD_BLOCK: i32 = 800_000;

pub const ORD_OPEN_FOUR: i32 = 700_000;

pub const ORD_CAPTURE_BASE: i32 = 500_000;

pub const ORD_KILLER1: i32 = 400_000;

pub const ORD_KILLER2: i32 = 390_000;

pub const ORD_HISTORY_CAP: i32 = 300_000;

pub const MAX_PLY: usize = 64;

// ---------------------------------------------------------------------------
// Transposition table

#[derive(Copy, Clone, PartialEq, Eq, Debug, Structural)]
pub enum Bound {
    Exact,
    Lower,
    Upper,
}

impl Default for Bound {
    fn default() -> (r: Bound)
        ensures
            r == Bound::Exact,
    {
        Bound::Exact
    }
}

#[derive(Copy, Clone)]
pub struct TtEntry {
    pub key: u64,
    pub score: i32,
    pub mv: Idx,
    pub depth: u8,
    pub bound: Bound,
}

/// The entry every slot holds before anything is stored.
pub open spec fn tt_entry_none() -> TtEntry {
    TtEntry { key: 0, score: 0, mv: 0, depth: 0, bound: Bound::Exact }
}

impl Default for TtEntry {
    fn default() -> (r: TtEntry)
        ensures
            r == tt_entry_none(),
    {
        TtEntry { key: 0, score: 0, mv: 0, depth: 0, bound: Bound::Exact }
    }
}

/// Direct-mapped table of search results, indexed by the low bits of the
/// Zobrist key.
pub struct TranspositionTable {
    pub entries: Vec<TtEntry>,
    pub mask: usize,
}

/// The contents of a table: its slots and the index mask.
pub struct TtView {
    pub entries: Seq<TtEntry>,
    pub mask: usize,
}

/// The slot of `key` in a table with index mask `mask`.
pub open spec fn tt_index(key: u64, mask: usize) -> int {
    ((key as usize) & mask) as int
}

/// What probing `key` gives: the entry in its slot, if the entry's key is
/// `key`.
pub open spec fn tt_probe(t: TtView, key: u64) -> Option<TtEntry> {
    let e = t.entries[tt_index(key, t.mask)];
    if e.key == key {
        Some(e)
    } else {
        None
    }
}

/// The table after storing `e` under `key`: the slot is overwritten if the
/// new entry is at least as deep as the stored one, or the stored one is
/// for a different position.
pub open spec fn tt_store(t: TtView, key: u64, e: TtEntry) -> TtView {
    let i = tt_index(key, t.mask);
    let old = t.entries[i];
    if e.depth >= old.depth || old.key != key {
        TtView { entries: t.entries.update(i, e), mask: t.mask }
    } else {
        t
    }
}

/// A table: one slot per index the mask allows.
pub open spec fn tt_wf(t: TtView) -> bool {
    t.entries.len() == t.mask + 1
}

proof fn lemma_tt_index(key: u64, mask: usize)
    ensures
        0 <= tt_index(key, mask) <= mask,
{
    let k = key as usize;
    assert(k & mask <= mask) by (bit_vector);
}

impl View for TranspositionTable {
    type V = TtView;

    open spec fn view(&self) -> TtView {
        TtView { entries: self.entries@, mask: self.mask }
    }
}

/// `Vec::try_reserve_exact`. Whether the allocation succeeds depends on
/// the machine, so only that the contents stay as they were is claimed.
#[verifier::external_body]
fn try_reserve_entries(v: &mut Vec<TtEntry>, additional: usize) -> (ok: bool)
    ensures
        final(v)@ == old(v)@,
{
    v.try_reserve_exact(additional).is_ok()
}

/// The table made from `v` once `size` slots have (`reserved`) or have
/// not been reserved for it: `size` empty slots, or `None`.
pub fn table_if_reserved(v: Vec<TtEntry>, reserved: bool, size: usize) -> (t: Option<TranspositionTable>)
    requires
        size >= 1,
    ensures
        reserved ==> (t matches Some(tab) && tab@.mask == size - 1 && tab@.entries.len() == size && forall|i: int|
            0 <= i < size ==> #[trigger] tab@.entries[i] == tt_entry_none()),
        !reserved ==> t is None,
{
    if !reserved {
        return None;
    }
    let mut v = v;
    v.clear();
    let mut i: usize = 0;
    while i < size
        invariant
            i <= size,
            v@.len() == i,
            forall|j: int| 0 <= j < i ==> #[trigger] v@[j] == tt_entry_none(),
        decreases size - i,
    {
        v.push(TtEntry::default());
        i = i + 1;
    }
    Some(TranspositionTable { entries: v, mask: size - 1 })
}

impl TranspositionTable {
    /// A table of 2^21 slots, or 2^18 or 2^15 where the allocation fails,
    /// tried in that order, or a single slot as a last resort: an
    /// allocation failure degrades the table instead of aborting. Which
    /// size the allocator grants is not claimed.
    pub fn new() -> (t: TranspositionTable)
        ensures
            tt_wf(t@),
            t@.entries.len() == 2097152 || t@.entries.len() == 262144 || t@.entries.len() == 32768
                || t@.entries.len() == 1,
            forall|i: int| 0 <= i < t@.entries.len() ==> #[trigger] t@.entries[i] == tt_entry_none(),
    {
        let sizes: [usize; 3] = [2097152, 262144, 32768];
        let mut k: usize = 0;
        while k < 3
            invariant
                k <= 3,
                sizes@ == seq![2097152usize, 262144usize, 32768usize],
            decreases 3 - k,
        {
            let size = sizes[k];
            let mut v: Vec<TtEntry> = Vec::new();
            let reserved = try_reserve_entries(&mut v, size);
            if let Some(t) = table_if_reserved(v, reserved, size) {
                return t;
            }
            k = k + 1;
        }
        let mut v: Vec<TtEntry> = Vec::new();
        v.push(TtEntry::default());
        TranspositionTable { entries: v, mask: 0 }
    }

    /// The entry stored for `key`, if its slot holds one for that key.
    pub fn probe(&self, key: u64) -> (r: Option<TtEntry>)
        requires
            tt_wf(self@),
        ensures
            r == tt_probe(self@, key),
    {
        proof {
            lemma_tt_index(key, self.mask);
        }
        let e = self.entries[(key as usize) & self.mask];
        if e.key == key {
            Some(e)
        } else {
            None
        }
    }

    /// Depth-preferred replacement: overwrites the slot of `key` if `e` is
    /// at least as deep as what is stored, or the slot holds a different
    /// position.
    pub fn store(&mut self, key: u64, e: TtEntry)
        requires
            tt_wf(old(self)@),
        ensures
            final(self)@ == tt_store(old(self)@, key, e),
            tt_wf(final(self)@),
    {
        proof {
            lemma_tt_index(key, self.mask);
        }
        let i = (key as usize) & self.mask;
        let slot = self.entries[i];
        if e.depth >= slot.depth || slot.key != key {
            self.entries.set(i, e);
        }
    }

    /// Empties every slot.
    pub fn clear(&mut self)
        requires
            tt_wf(old(self)@),
        ensures
            tt_wf(final(self)@),
            final(self)@.mask == old(self)@.mask,
            forall|i: int| 0 <= i < final(self)@.entries.len() ==> #[trigger] final(self)@.entries[i] == tt_entry_none(),
    {
        let n = self.entries.len();
        let mut i: usize = 0;
        while i < n
            invariant
                i <= n,
                self.entries.len() == n,
                self.mask + 1 == n,
                forall|j: int| 0 <= j < i ==> #[trigger] self.entries@[j] == tt_entry_none(),
            decreases n - i,
        {
            self.entries.set(i, TtEntry::default());
            i = i + 1;
        }
    }
}

impl Default for TranspositionTable {
    fn default() -> (t: TranspositionTable)
        ensures
            tt_wf(t@),
            forall|i: int| 0 <= i < t@.entries.len() ==> #[trigger] t@.entries[i] == tt_entry_none(),
    {
        TranspositionTable::new()
    }
}

/// A probe right after a store of `e` under `key` finds `e` when the store
/// replaced the slot, and what was there before otherwise.
pub proof fn lemma_store_then_probe(t: TtView, key: u64, e: TtEntry)
    requires
        tt_wf(t),
        e.key == key,
    ensures
        tt_probe(tt_store(t, key, e), key) == if e.depth >= t.entries[tt_index(key, t.mask)].depth
            || t.entries[tt_index(key, t.mask)].key != key {
            Some(e)
        } else {
            tt_probe(t, key)
        },
{
    lemma_tt_index(key, t.mask);
}

/// A store only touches the slot of its key: probes of keys in other slots
/// are unchanged.
pub proof fn lemma_store_keeps_other_slots(t: TtView, key: u64, e: TtEntry, other: u64)
    requires
        tt_wf(t),
        tt_index(other, t.mask) != tt_index(key, t.mask),
    ensures
        tt_probe(tt_store(t, key, e), other) == tt_probe(t, other),
{
    lemma_tt_index(key, t.mask);
    lemma_tt_index(other, t.mask);
}

// ---------------------------------------------------------------------------
// Configuration and results

pub struct SearchConfig {
    pub max_depth: u8,
    pub time_budget_ms: u64,
    pub max_candidates: usize,
}

impl Default for SearchConfig {
    fn default() -> (c: SearchConfig)
        ensures
            c.max_depth == 12,
            c.time_budget_ms == 400,
            c.max_candidates == 20,
    {
        SearchConfig { max_depth: 12, time_budget_ms: 400, max_candidates: 20 }
    }
}

pub struct SearchStats {
    pub depth_reached: u8,
    pub nodes: u64,
    pub elapsed: Duration,
    pub pv: Vec<Idx>,
    pub root_scores: Vec<(Idx, i32)>,
    pub tt_hits: u64,
    pub tt_probes: u64,
    /// The clock reading, in whole milliseconds since the search started,
    /// at which the time budget was found spent; `None` when the search
    /// ended for another reason (depth limit, forced win, no move).
    pub budget_spent_ms: Option<u128>,
}

// ---------------------------------------------------------------------------
// The clock

#[verifier::external_type_specification]
#[verifier::external_body]
pub struct ExInstant(Instant);

/// `Instant::now`. Nothing is claimed of the time it reads.
#[verifier::external_body]
fn clock_now() -> Instant {
    Instant::now()
}

/// `Instant::elapsed`. Nothing is claimed of the duration.
#[verifier::external_body]
fn elapsed_since(start: &Instant) -> Duration {
    start.elapsed()
}

/// `Duration::as_millis`: the whole milliseconds in `d`. The duration is
/// opaque here, so nothing is claimed of the count.
#[verifier::external_body]
fn whole_millis(d: &Duration) -> u128 {
    d.as_millis()
}

/// Whether a budget of `budget_ms` is spent once `elapsed_ms` milliseconds
/// have passed: the reading itself if it reaches the budget; never, with
/// no budget.
pub fn budget_reached(elapsed_ms: u128, budget_ms: Option<u64>) -> (r: Option<u128>)
    ensures
        r == (match budget_ms {
            Some(b) => if elapsed_ms >= b {
                Some(elapsed_ms)
            } else {
                None
            },
            None => None,
        }),
{
    match budget_ms {
        Some(b) => if elapsed_ms >= b as u128 {
            Some(elapsed_ms)
        } else {
            None
        },
        None => None,
    }
}

/// Reads the clock: the milliseconds passed since `start`, if they reach
/// the budget (see `budget_reached`). The clock decides whether they do;
/// with no budget the result is always `None`.
fn budget_spent(start: &Instant, budget_ms: Option<u64>) -> (r: Option<u128>)
    ensures
        budget_ms is None ==> r is None,
        r matches Some(ms) ==> (budget_ms matches Some(b) && ms >= b),
{
    match budget_ms {
        Some(_) => {
            let d = elapsed_since(start);
            budget_reached(whole_millis(&d), budget_ms)
        },
        None => None,
    }
}


// ---------------------------------------------------------------------------
// Search context

/// Per-search state threaded through the recursion: the pattern table and
/// configuration are read-only; the table, counters, abort flag, killer
/// moves and history scores accumulate across the whole tree.
pub struct SearchCtx<'a> {
    pub pt: &'a PatternTable,
    pub cfg: &'a SearchConfig,
    pub nodes: u64,
    pub start: Instant,
    pub budget_ms: Option<u64>,
    pub aborted: bool,
    /// The clock reading (ms since `start`) that aborted the search.
    pub spent_ms: u128,
    pub killers: Vec<(Idx, Idx)>,
    pub history: Vec<i32>,
    pub tt_hits: u64,
    pub tt_probes: u64,
}

impl<'a> SearchCtx<'a> {
    pub open spec fn wf(&self) -> bool {
        &&& self.killers.len() == MAX_PLY
        &&& self.history.len() == TOTAL
        &&& self.aborted ==> (self.budget_ms matches Some(b) && self.spent_ms >= b)
    }

    pub fn new(pt: &'a PatternTable, cfg: &'a SearchConfig, start: Instant, budget_ms: Option<u64>) -> (c: SearchCtx<
        'a,
    >)
        ensures
            c.wf(),
            c.pt == pt,
            c.cfg == cfg,
            c.start == start,
            c.budget_ms == budget_ms,
            c.spent_ms == 0,
            c.nodes == 0,
            !c.aborted,
            c.tt_hits == 0,
            c.tt_probes == 0,
            forall|i: int| 0 <= i < MAX_PLY ==> #[trigger] c.killers@[i] == (Idx::MAX, Idx::MAX),
            forall|i: int| 0 <= i < TOTAL ==> #[trigger] c.history@[i] == 0,
    {
        let mut killers: Vec<(Idx, Idx)> = Vec::new();
        let mut i: usize = 0;
        while i < MAX_PLY
            invariant
                i <= MAX_PLY,
                killers.len() == i,
                forall|j: int| 0 <= j < i ==> #[trigger] killers@[j] == (Idx::MAX, Idx::MAX),
            decreases MAX_PLY - i,
        {
            killers.push((Idx::MAX, Idx::MAX));
            i = i + 1;
        }
        let mut history: Vec<i32> = Vec::new();
        let mut i: usize = 0;
        while i < TOTAL
            invariant
                i <= TOTAL,
                history.len() == i,
                forall|j: int| 0 <= j < i ==> #[trigger] history@[j] == 0,
            decreases TOTAL - i,
        {
            history.push(0);
            i = i + 1;
        }
        SearchCtx {
            pt,
            cfg,
            nodes: 0,
            start,
            budget_ms,
            aborted: false,
            spent_ms: 0,
            killers,
            history,
            tt_hits: 0,
            tt_probes: 0,
        }
    }
}


// ---------------------------------------------------------------------------
// Move ordering

/// Some axis among `pats` carries flag `f`.
pub open spec fn any_flag(pats: Seq<Pat>, f: u8) -> bool {
    exists|di: int| 0 <= di < 4 && #[trigger] pats[di].flags & f != 0
}

/// The sum of the scores of the four axes.
pub open spec fn pats_score(pats: Seq<Pat>) -> int {
    pats[0].score + pats[1].score + pats[2].score + pats[3].score
}

/// The history score of `mv`; zero beyond the table.
pub open spec fn history_at(history: Seq<i32>, mv: u16) -> int {
    if (mv as int) < history.len() {
        history[mv as int] as int
    } else {
        0
    }
}

/// Ordering score of a candidate move (higher first): the table move, then
/// a five of the mover, then a block of an opponent five or four, then an
/// open four of the mover, then captures (by pairs), then the two killer
/// moves, then history (capped) plus the mover's positional gain.
pub open spec fn order_spec(
    cells: Seq<Cell>,
    mv: u16,
    me_pats: Seq<Pat>,
    captures: int,
    opp: Player,
    tt_mv: Option<u16>,
    killers: (u16, u16),
    history: Seq<i32>,
) -> int {
    if tt_mv == Some(mv) {
        ORD_TT as int
    } else if any_flag(me_pats, F_FIVE) {
        ORD_FIVE as int
    } else if any_flag(move_patterns(cells, mv as int, opp), F_FIVE | F_OPEN_FOUR | F_FOUR) {
        ORD_BLOCK as int
    } else if any_flag(me_pats, F_OPEN_FOUR) {
        ORD_OPEN_FOUR as int
    } else if captures > 0 {
        ORD_CAPTURE_BASE + 1000 * (captures / 2)
    } else if mv == killers.0 {
        ORD_KILLER1 as int
    } else if mv == killers.1 {
        ORD_KILLER2 as int
    } else {
        let h = history_at(history, mv);
        (if h < ORD_HISTORY_CAP {
            h
        } else {
            ORD_HISTORY_CAP as int
        }) + pats_score(me_pats)
    }
}

/// Scores a candidate move for ordering (see `order_spec`). `me_pats` are
/// the mover's four shapes at `mv` and `captures` its capture count, as
/// `generate_with_patterns` computed them.
pub fn order_score(
    b: &Board,
    pt: &PatternTable,
    mv: Idx,
    me_pats: [Pat; 4],
    captures: usize,
    opp: Player,
    tt_mv: Option<Idx>,
    killers: (Idx, Idx),
    history: &[i32],
) -> (r: i32)
    requires
        forall|i: int| 0 <= i < 4 ==> 0 <= #[trigger] me_pats@[i].score <= 10_000_000,
        ORD_CAPTURE_BASE + 1000 * (captures / 2) <= i32::MAX,
    ensures
        r as int == order_spec(b@.cells, mv, me_pats@, captures as int, opp, tt_mv, killers, history@),
{
    if tt_mv == Some(mv) {
        return ORD_TT;
    }
    let mut me_five = false;
    let mut me_open_four = false;
    let mut me_static_gain: i32 = 0;
    let mut i: usize = 0;
    while i < 4
        invariant
            i <= 4,
            forall|k: int| 0 <= k < 4 ==> 0 <= #[trigger] me_pats@[k].score <= 10_000_000,
            me_five == exists|k: int| 0 <= k < i && #[trigger] me_pats@[k].flags & F_FIVE != 0,
            me_open_four == exists|k: int| 0 <= k < i && #[trigger] me_pats@[k].flags & F_OPEN_FOUR != 0,
            me_static_gain == (if i >= 1 { me_pats@[0].score as int } else { 0 }) + (if i >= 2 {
                me_pats@[1].score as int
            } else {
                0
            }) + (if i >= 3 { me_pats@[2].score as int } else { 0 }) + (if i >= 4 {
                me_pats@[3].score as int
            } else {
                0
            }),
        decreases 4 - i,
    {
        let pat_me = me_pats[i];
        if pat_me.flags & F_FIVE != 0 {
            me_five = true;
        }
        if pat_me.flags & F_OPEN_FOUR != 0 {
            me_open_four = true;
        }
        me_static_gain = me_static_gain + pat_me.score;
        i = i + 1;
    }
    if me_five {
        return ORD_FIVE;
    }
    assert(me_five == any_flag(me_pats@, F_FIVE));
    assert(me_open_four == any_flag(me_pats@, F_OPEN_FOUR));
    let ghost opp_pats = move_patterns(b@.cells, mv as int, opp);
    let mut opp_threat = false;
    let mut di: usize = 0;
    while di < 4
        invariant_except_break
            !opp_threat,
        invariant
            di <= 4,
            opp_pats == move_patterns(b@.cells, mv as int, opp),
            forall|k: int| 0 <= k < di ==> #[trigger] opp_pats[k].flags & (F_FIVE | F_OPEN_FOUR | F_FOUR) == 0,
        ensures
            opp_threat == any_flag(opp_pats, F_FIVE | F_OPEN_FOUR | F_FOUR),
        decreases 4 - di,
    {
        let d = DIRS[di];
        proof {
            assert(d as int == dir(di as int));
            lemma_window_decodes(b@.cells, mv as int, d as int, opp);
        }
        let pat_opp = pt.get(b.hypothetical_window_code(mv, d, opp));
        proof {
            assert(pat_opp == opp_pats[di as int]);
        }
        if pat_opp.flags & (F_FIVE | F_OPEN_FOUR | F_FOUR) != 0 {
            opp_threat = true;
            assert(any_flag(opp_pats, F_FIVE | F_OPEN_FOUR | F_FOUR)) by {
                assert(opp_pats[di as int].flags & (F_FIVE | F_OPEN_FOUR | F_FOUR) != 0);
            }
            break;
        }
        di = di + 1;
    }
    if opp_threat {
        return ORD_BLOCK;
    }
    if me_open_four {
        return ORD_OPEN_FOUR;
    }
    if captures > 0 {
        return ORD_CAPTURE_BASE + 1_000 * (captures as i32 / 2);
    }
    if mv == killers.0 {
        return ORD_KILLER1;
    }
    if mv == killers.1 {
        return ORD_KILLER2;
    }
    let h: i32 = if (mv as usize) < history.len() {
        history[mv as usize]
    } else {
        0
    };
    let hist = if h < ORD_HISTORY_CAP {
        h
    } else {
        ORD_HISTORY_CAP
    };
    hist + me_static_gain
}


/// Scores are in non-increasing order.
pub open spec fn sorted_desc(s: Seq<(i32, Idx)>) -> bool {
    forall|a: int, b: int| 0 <= a < b < s.len() ==> s[a].0 >= s[b].0
}

/// A shape without a five or an open four scores at most 50,000.
proof fn lemma_quiet_pats_score(cells: Seq<Cell>, mv: u16, me: Player)
    requires
        !any_flag(move_patterns(cells, mv as int, me), F_FIVE),
        !any_flag(move_patterns(cells, mv as int, me), F_OPEN_FOUR),
    ensures
        pats_score(move_patterns(cells, mv as int, me)) <= 200_000,
{
    let pats = move_patterns(cells, mv as int, me);
    assert forall|di: int| 0 <= di < 4 implies #[trigger] pats[di].score <= 50_000 by {
        let w = hyp_window(cells, mv as int, dir(di), me);
        lemma_flags_spec_bits(w);
        assert(pats[di] == classify_spec(w));
        assert(!(pats[di].flags & F_FIVE != 0));
        assert(!(pats[di].flags & F_OPEN_FOUR != 0));
    }
}

/// The table move is ordered first: it scores `ORD_TT`, and any other
/// candidate, with its shapes from the table and at most 16 captures,
/// scores below.
pub proof fn lemma_tt_move_first(
    cells: Seq<Cell>,
    mv: u16,
    other: u16,
    me: Player,
    captures: int,
    killers: (u16, u16),
    history: Seq<i32>,
)
    requires
        other != mv,
        0 <= captures <= 16,
    ensures
        order_spec(cells, mv, move_patterns(cells, mv as int, me), captures, opponent(me), Some(mv), killers, history) == ORD_TT,
        order_spec(cells, other, move_patterns(cells, other as int, me), captures, opponent(me), Some(mv), killers, history) < ORD_TT,
{
    let pats = move_patterns(cells, other as int, me);
    if !any_flag(pats, F_FIVE) && !any_flag(pats, F_OPEN_FOUR) {
        lemma_quiet_pats_score(cells, other, me);
    }
}

/// A move that makes a five is ordered right after the table move: above
/// every candidate that makes none (with its shapes from the table and at
/// most 16 captures).
pub proof fn lemma_five_before_others(
    cells: Seq<Cell>,
    mv: u16,
    other: u16,
    me: Player,
    c1: int,
    c2: int,
    tt_mv: Option<u16>,
    killers: (u16, u16),
    history: Seq<i32>,
)
    requires
        tt_mv != Some(mv),
        tt_mv != Some(other),
        any_flag(move_patterns(cells, mv as int, me), F_FIVE),
        !any_flag(move_patterns(cells, other as int, me), F_FIVE),
        0 <= c2 <= 16,
    ensures
        order_spec(cells, mv, move_patterns(cells, mv as int, me), c1, opponent(me), tt_mv, killers, history) == ORD_FIVE,
        order_spec(cells, other, move_patterns(cells, other as int, me), c2, opponent(me), tt_mv, killers, history) < ORD_FIVE,
{
    let pats = move_patterns(cells, other as int, me);
    if !any_flag(pats, F_OPEN_FOUR) {
        lemma_quiet_pats_score(cells, other, me);
    }
}

/// Index of the first entry of `s`, from `i` on, scoring below `k`; the
/// length of `s` if there is none.
pub open spec fn first_below(s: Seq<(i32, Idx)>, k: i32, i: int) -> int
    decreases s.len() - i,
{
    if i >= s.len() {
        s.len() as int
    } else if s[i].0 < k {
        i
    } else {
        first_below(s, k, i + 1)
    }
}

/// The list sorted by score, highest first, entries of equal score in
/// their order: each entry in turn goes after every entry scoring at
/// least as much.
pub open spec fn sort_by_score(s: Seq<(i32, Idx)>) -> Seq<(i32, Idx)>
    decreases s.len(),
{
    if s.len() == 0 {
        s
    } else {
        let sorted = sort_by_score(s.drop_last());
        sorted.insert(first_below(sorted, s.last().0, 0), s.last())
    }
}

/// Sorts by score, highest first (equal scores keep their order).
fn sort_by_score_desc(v: &Vec<(i32, Idx)>) -> (r: Vec<(i32, Idx)>)
    ensures
        r@ == sort_by_score(v@),
        sorted_desc(r@),
        r@.to_multiset() == v@.to_multiset(),
{
    broadcast use vstd::seq_lib::group_to_multiset_ensures;

    let mut out: Vec<(i32, Idx)> = Vec::new();
    let mut i: usize = 0;
    proof {
        assert(v@.take(0) =~= Seq::<(i32, Idx)>::empty());
        assert(out@ =~= Seq::<(i32, Idx)>::empty());
    }
    while i < v.len()
        invariant
            i <= v.len(),
            sorted_desc(out@),
            out@.to_multiset() == v@.take(i as int).to_multiset(),
            out@ == sort_by_score(v@.take(i as int)),
        decreases v.len() - i,
    {
        let x = v[i];
        let mut pos: usize = 0;
        while pos < out.len() && out[pos].0 >= x.0
            invariant
                pos <= out.len(),
                forall|k: int| 0 <= k < pos ==> out@[k].0 >= x.0,
                first_below(out@, x.0, 0) == first_below(out@, x.0, pos as int),
            decreases out.len() - pos,
        {
            pos = pos + 1;
        }
        let ghost before = out@;
        proof {
            assert(first_below(before, x.0, pos as int) == pos);
            assert(v@.take(i + 1).drop_last() =~= v@.take(i as int));
            assert(v@.take(i + 1).last() == x);
        }
        out.insert(pos, x);
        proof {
            assert(pos < before.len() ==> before[pos as int].0 < x.0);
            assert forall|a: int, b: int| 0 <= a < b < out@.len() implies out@[a].0 >= out@[b].0 by {
                if b < pos {
                } else if a < pos && b == pos {
                } else if a < pos {
                    assert(out@[b] == before[b - 1]);
                } else if a == pos {
                    assert(out@[b] == before[b - 1]);
                    assert(before[pos as int].0 >= before[b - 1].0 || b - 1 == pos);
                } else {
                    assert(out@[a] == before[a - 1]);
                    assert(out@[b] == before[b - 1]);
                }
            }
            assert(v@.take(i + 1) =~= v@.take(i as int).push(x));
            vstd::seq_lib::to_multiset_insert(before, pos as int, x);
            vstd::seq_lib::to_multiset_build(v@.take(i as int), x);
        }
        i = i + 1;
    }
    proof {
        assert(v@.take(v.len() as int) =~= v@);
    }
    out
}

/// The candidates scored for ordering, in candidate order.
pub open spec fn scored_spec(
    cells: Seq<Cell>,
    cands: Seq<(Idx, [Pat; 4], usize)>,
    me: Player,
    tt_move: Option<Idx>,
    killers: (Idx, Idx),
    history: Seq<i32>,
) -> Seq<(i32, Idx)> {
    Seq::new(
        cands.len(),
        |j: int|
            (
                order_spec(
                    cells,
                    cands[j].0,
                    cands[j].1@,
                    cands[j].2 as int,
                    opponent(me),
                    tt_move,
                    killers,
                    history,
                ) as i32,
                cands[j].0,
            ),
    )
}

/// A move kept when the opponent threatens: one that answers the threat
/// (scores at least `ORD_BLOCK`) or captures.
pub open spec fn answers_threat(cells: Seq<Cell>, me: Player) -> spec_fn((i32, Idx)) -> bool {
    |x: (i32, Idx)| x.0 >= ORD_BLOCK || captured_by(cells, x.1 as int, me).len() > 0
}

/// The sorted list with, when its best move answers an opponent threat,
/// only the moves that answer it or capture, cut to `k` moves.
pub open spec fn select_moves(sorted: Seq<(i32, Idx)>, cells: Seq<Cell>, me: Player, k: int) -> Seq<
    (i32, Idx),
> {
    let kept = if sorted.len() > 0 && sorted[0].0 >= ORD_BLOCK {
        sorted.filter(answers_threat(cells, me))
    } else {
        sorted
    };
    if kept.len() > k {
        kept.take(k)
    } else {
        kept
    }
}

/// The candidates' shapes are table entries and their capture counts are
/// at most 16.
pub open spec fn cands_ok(cands: Seq<(Idx, [Pat; 4], usize)>) -> bool {
    forall|j: int|
        0 <= j < cands.len() ==> #[trigger] cands[j].2 <= 16 && (forall|i: int|
            0 <= i < 4 ==> 0 <= #[trigger] cands[j].1@[i].score <= 10_000_000)
}

/// Scores, sorts (highest first) and truncates the candidates. If the best
/// one answers an opponent threat of a four or better, only the moves that
/// answer it or capture are kept, before the `max_candidates` cap.
fn score_order_and_truncate(
    b: &Board,
    ctx: &SearchCtx,
    candidates: &Vec<(Idx, [Pat; 4], usize)>,
    tt_move: Option<Idx>,
    killers_here: (Idx, Idx),
) -> (r: Vec<(i32, Idx)>)
    requires
        cands_ok(candidates@),
    ensures
        ({
            let scored = scored_spec(b@.cells, candidates@, b@.to_move, tt_move, killers_here, ctx.history@);
            &&& r@ == select_moves(sort_by_score(scored), b@.cells, b@.to_move, ctx.cfg.max_candidates as int)
            &&& sorted_desc(r@)
            &&& forall|j: int| 0 <= j < r@.len() ==> scored.contains(#[trigger] r@[j])
            &&& candidates@.len() > 0 && ctx.cfg.max_candidates > 0 ==> r@.len() > 0
            &&& r@.len() <= ctx.cfg.max_candidates
        }),
{
    let me = b.to_move;
    let opp = me.other();
    let ghost scored_s = scored_spec(b@.cells, candidates@, me, tt_move, killers_here, ctx.history@);
    let mut scored: Vec<(i32, Idx)> = Vec::new();
    let mut i: usize = 0;
    while i < candidates.len()
        invariant
            i <= candidates.len(),
            cands_ok(candidates@),
            me == b@.to_move,
            opp == opponent(me),
            scored_s == scored_spec(b@.cells, candidates@, me, tt_move, killers_here, ctx.history@),
            scored@ == scored_s.take(i as int),
        decreases candidates.len() - i,
    {
        let (mv, me_pats, captures) = candidates[i];
        proof {
            assert(candidates@[i as int].2 <= 16);
            assert forall|k: int| 0 <= k < 4 implies 0 <= #[trigger] me_pats@[k].score <= 10_000_000 by {
                assert(0 <= candidates@[i as int].1@[k].score <= 10_000_000);
            }
        }
        let s = order_score(
            b,
            ctx.pt,
            mv,
            me_pats,
            captures,
            opp,
            tt_move,
            killers_here,
            ctx.history.as_slice(),
        );
        scored.push((s, mv));
        proof {
            assert(scored_s.take(i + 1) =~= scored_s.take(i as int).push(scored_s[i as int]));
        }
        i = i + 1;
    }
    proof {
        assert(scored_s.take(candidates.len() as int) =~= scored_s);
    }
    let sorted = sort_by_score_desc(&scored);
    let ghost sorted_s = sorted@;
    let mut kept: Vec<(i32, Idx)>;
    if sorted.len() > 0 && sorted[0].0 >= ORD_BLOCK {
        kept = Vec::new();
        let mut i: usize = 0;
        while i < sorted.len()
            invariant
                i <= sorted.len(),
                sorted@ == sorted_s,
                me == b@.to_move,
                kept@ == sorted_s.take(i as int).filter(answers_threat(b@.cells, me)),
            decreases sorted.len() - i,
        {
            let (s, mv) = sorted[i];
            let (_c, n) = b.captures_of(mv, me);
            proof {
                assert(sorted_s.take(i + 1) =~= sorted_s.take(i as int).push((s, mv)));
                sorted_s.take(i as int).lemma_filter_push((s, mv), answers_threat(b@.cells, me));
            }
            if s >= ORD_BLOCK || n > 0 {
                kept.push((s, mv));
            }
            i = i + 1;
        }
        proof {
            assert(sorted_s.take(sorted.len() as int) =~= sorted_s);
        }
    } else {
        kept = sorted;
    }
    let ghost kept_s = kept@;
    proof {
        broadcast use vstd::seq_lib::group_to_multiset_ensures;
        if candidates.len() > 0 {
            assert(scored@.len() > 0);
            assert(sorted_s.len() == scored@.len()) by {
                vstd::seq_lib::to_multiset_len(sorted_s);
                vstd::seq_lib::to_multiset_len(scored@);
            }
            if sorted_s[0].0 >= ORD_BLOCK {
                sorted_s.lemma_filter_contains(answers_threat(b@.cells, me), 0);
            }
            assert(kept_s.len() > 0);
        }
    }
    kept.truncate(ctx.cfg.max_candidates);
    proof {
        let k = ctx.cfg.max_candidates as int;
        assert(kept@ == select_moves(sorted_s, b@.cells, me, k));
        broadcast use vstd::seq_lib::group_to_multiset_ensures;
        assert forall|j: int| 0 <= j < kept@.len() implies scored_s.contains(#[trigger] kept@[j]) by {
            let x = kept@[j];
            assert(kept_s.contains(x)) by {
                assert(kept_s[j] == x);
            }
            if sorted_s.len() > 0 && sorted_s[0].0 >= ORD_BLOCK {
                lemma_filter_subset(sorted_s, answers_threat(b@.cells, me));
                let jj = choose|jj: int| 0 <= jj < kept_s.len() && kept_s[jj] == x;
                assert(sorted_s.contains(kept_s[jj]));
            } else {
                let jj = choose|jj: int| 0 <= jj < kept_s.len() && kept_s[jj] == x;
                assert(sorted_s[jj] == x);
            }
            assert(sorted_s.contains(x));
            assert(sorted_s.to_multiset().count(x) > 0);
        }
        assert forall|a: int, c: int| 0 <= a < c < kept@.len() implies kept@[a].0 >= kept@[c].0 by {
            if sorted_s.len() > 0 && sorted_s[0].0 >= ORD_BLOCK {
                lemma_filter_sorted(sorted_s, answers_threat(b@.cells, me));
            }
        }
    }
    kept
}

/// Every element of a filtered list comes from the list.
proof fn lemma_filter_subset(s: Seq<(i32, Idx)>, pred: spec_fn((i32, Idx)) -> bool)
    ensures
        forall|i: int| 0 <= i < s.filter(pred).len() ==> s.contains(#[trigger] s.filter(pred)[i]),
    decreases s.len(),
{
    reveal(Seq::filter);
    if s.len() > 0 {
        lemma_filter_subset(s.drop_last(), pred);
        let f = s.drop_last().filter(pred);
        assert forall|i: int| 0 <= i < s.filter(pred).len() implies s.contains(#[trigger] s.filter(pred)[i]) by {
            if i < f.len() {
                assert(s.filter(pred)[i] == f[i]);
                assert(s.drop_last().contains(f[i]));
                let k = choose|k: int| 0 <= k < s.drop_last().len() && s.drop_last()[k] == f[i];
                assert(s[k] == f[i]);
            } else {
                assert(s.filter(pred)[i] == s.last());
                assert(s[s.len() - 1] == s.last());
            }
        }
    }
}

/// Filtering keeps a list sorted.
proof fn lemma_filter_sorted(s: Seq<(i32, Idx)>, pred: spec_fn((i32, Idx)) -> bool)
    requires
        sorted_desc(s),
    ensures
        sorted_desc(s.filter(pred)),
    decreases s.len(),
{
    reveal(Seq::filter);
    if s.len() > 0 {
        lemma_filter_sorted(s.drop_last(), pred);
        lemma_filter_subset(s.drop_last(), pred);
        let f = s.drop_last().filter(pred);
        if pred(s.last()) {
            let g = f.push(s.last());
            assert forall|a: int, b: int| 0 <= a < b < g.len() implies g[a].0 >= g[b].0 by {
                if b == f.len() {
                    assert(g[a] == f[a]);
                    assert(s.drop_last().contains(f[a]));
                    let k = choose|k: int| 0 <= k < s.drop_last().len() && s.drop_last()[k] == f[a];
                    assert(s[k] == f[a]);
                    assert(s[s.len() - 1] == s.last());
                } else {
                    assert(g[a] == f[a]);
                    assert(g[b] == f[b]);
                }
            }
        }
    }
}


// ---------------------------------------------------------------------------
// Search

/// Negation, wrapping (only `i32::MIN` is its own negation).
fn neg(x: i32) -> (r: i32)
    ensures
        r as int == wrap32(-x),
        r == neg_spec(x),
        x != i32::MIN ==> r == -x,
{
    proof {
        let m: int = 0x1_0000_0000;
        let h: int = 0x8000_0000;
        if x == i32::MIN {
            vstd::arithmetic::div_mod::lemma_fundamental_div_mod_converse_mod(-x + h, m, 1, -x + h - m);
        } else {
            vstd::arithmetic::div_mod::lemma_fundamental_div_mod_converse_mod(-x + h, m, 0, -x + h);
        }
        lemma_wrap32_range(-x);
    }
    0i32.wrapping_sub(x)
}

/// The annotated candidates have table shapes and at most 16 captures.
proof fn lemma_annotated_ok(cells: Seq<Cell>, p: Player, cands: Seq<(Idx, [Pat; 4], usize)>)
    requires
        cands.len() == candidate_moves(cells, p).len(),
        forall|j: int|
            0 <= j < cands.len() ==> {
                let e = #[trigger] cands[j];
                (e.0, e.1@, e.2 as int) == annotated(cells, candidate_moves(cells, p)[j], p)
            },
    ensures
        cands_ok(cands),
        forall|j: int| 0 <= j < cands.len() ==> #[trigger] cands[j].0 == candidate_moves(cells, p)[j],
{
    assert forall|j: int| 0 <= j < cands.len() implies #[trigger] cands[j].2 <= 16 && (forall|i: int|
        0 <= i < 4 ==> 0 <= #[trigger] cands[j].1@[i].score <= 10_000_000) by {
        let e = cands[j];
        assert((e.0, e.1@, e.2 as int) == annotated(cells, candidate_moves(cells, p)[j], p));
        lemma_capture_list_len(cells, e.0 as int, p, 8);
    }
    assert forall|j: int| 0 <= j < cands.len() implies #[trigger] cands[j].0 == candidate_moves(cells, p)[j] by {
        let e = cands[j];
        assert((e.0, e.1@, e.2 as int) == annotated(cells, candidate_moves(cells, p)[j], p));
    }
}

/// Scoring the annotated candidates is scoring the board's candidates.
proof fn lemma_scored_spec_moves(
    v: BoardView,
    cands: Seq<(Idx, [Pat; 4], usize)>,
    tt_move: Option<Idx>,
    killers: (Idx, Idx),
    history: Seq<i32>,
)
    requires
        cands.len() == candidate_moves(v.cells, v.to_move).len(),
        forall|j: int|
            0 <= j < cands.len() ==> {
                let e = #[trigger] cands[j];
                (e.0, e.1@, e.2 as int) == annotated(v.cells, candidate_moves(v.cells, v.to_move)[j], v.to_move)
            },
    ensures
        scored_spec(v.cells, cands, v.to_move, tt_move, killers, history) == scored_moves(v, tt_move, killers, history),
{
    let a = scored_spec(v.cells, cands, v.to_move, tt_move, killers, history);
    let b = scored_moves(v, tt_move, killers, history);
    assert forall|j: int| 0 <= j < a.len() implies a[j] == b[j] by {
        let e = cands[j];
        assert((e.0, e.1@, e.2 as int) == annotated(v.cells, candidate_moves(v.cells, v.to_move)[j], v.to_move));
    }
    assert(a =~= b);
}

/// A move of the ordered list is a candidate of the side to move.
proof fn lemma_scored_move_candidate(
    cells: Seq<Cell>,
    cands: Seq<(Idx, [Pat; 4], usize)>,
    me: Player,
    tt_move: Option<Idx>,
    killers: (Idx, Idx),
    history: Seq<i32>,
    x: (i32, Idx),
)
    requires
        forall|j: int| 0 <= j < cands.len() ==> #[trigger] cands[j].0 == candidate_moves(cells, me)[j],
        cands.len() == candidate_moves(cells, me).len(),
        scored_spec(cells, cands, me, tt_move, killers, history).contains(x),
    ensures
        candidate_moves(cells, me).contains(x.1),
{
    let sc = scored_spec(cells, cands, me, tt_move, killers, history);
    let k = choose|k: int| 0 <= k < sc.len() && sc[k] == x;
    assert(candidate_moves(cells, me)[k] == x.1);
}

/// What a search changes besides the board: the table, the killer moves,
/// the history scores and the counters.
pub struct SearchState {
    pub tt: TtView,
    pub killers: Seq<(Idx, Idx)>,
    pub history: Seq<i32>,
    pub nodes: u64,
    pub hits: u64,
    pub probes: u64,
}

impl<'a> SearchCtx<'a> {
    /// The search state held by this context and table `tt`.
    pub open spec fn state(&self, tt: TtView) -> SearchState {
        SearchState {
            tt,
            killers: self.killers@,
            history: self.history@,
            nodes: self.nodes,
            hits: self.tt_hits,
            probes: self.tt_probes,
        }
    }
}

/// Negation, wrapping.
pub open spec fn neg_spec(x: i32) -> i32 {
    wrap32(-x) as i32
}

/// Counter increment, wrapping.
pub open spec fn inc(x: u64) -> u64 {
    vstd::wrapping::u64_specs::wrapping_add(x, 1)
}

/// The candidates of the side to move, scored for ordering, in candidate
/// order.
pub open spec fn scored_moves(v: BoardView, tt_move: Option<Idx>, killers: (Idx, Idx), history: Seq<i32>) -> Seq<
    (i32, Idx),
> {
    let me = v.to_move;
    let cands = candidate_moves(v.cells, me);
    Seq::new(
        cands.len(),
        |j: int|
            (
                order_spec(
                    v.cells,
                    cands[j],
                    move_patterns(v.cells, cands[j] as int, me),
                    captured_by(v.cells, cands[j] as int, me).len() as int,
                    opponent(me),
                    tt_move,
                    killers,
                    history,
                ) as i32,
                cands[j],
            ),
    )
}

/// The killer moves after a cutoff by `mv` at `ply`: `mv` becomes the
/// first killer and the old first one the second, unless it already was
/// the first.
pub open spec fn killers_after(k: Seq<(Idx, Idx)>, ply: u8, mv: Idx) -> Seq<(Idx, Idx)> {
    if (ply as int) < k.len() && k[ply as int].0 != mv {
        k.update(ply as int, (mv, k[ply as int].0))
    } else {
        k
    }
}

/// The history scores after a cutoff by `mv` at `depth`: `depth * depth`
/// added to `mv`'s score, saturating.
pub open spec fn history_after(h: Seq<i32>, mv: Idx, depth: u8) -> Seq<i32> {
    if (mv as int) < h.len() {
        let x = h[mv as int];
        let dd = depth * depth;
        h.update(mv as int, if x > i32::MAX - dd { i32::MAX } else { (x + dd) as i32 })
    } else {
        h
    }
}

/// The bound a score has relative to the window it was searched in.
pub open spec fn bound_of(best: i32, orig_alpha: i32, beta: i32) -> Bound {
    if best <= orig_alpha {
        Bound::Upper
    } else if best >= beta {
        Bound::Lower
    } else {
        Bound::Exact
    }
}

/// A node's result, with its best move stored in the table.
pub open spec fn nm_finish(
    v: BoardView,
    s: SearchState,
    best: i32,
    best_move: Option<Idx>,
    orig_alpha: i32,
    beta: i32,
    depth: u8,
) -> (i32, SearchState) {
    match best_move {
        Some(bm) => (
            best,
            SearchState {
                tt: tt_store(
                    s.tt,
                    v.zobrist,
                    TtEntry { key: v.zobrist, score: best, mv: bm, depth, bound: bound_of(best, orig_alpha, beta) },
                ),
                ..s
            },
        ),
        None => (best, s),
    }
}

/// The score and search state of a negamax search of `v` whose clock
/// never stops it (see `negamax`).
pub open spec fn nm(
    v: BoardView,
    s: SearchState,
    depth: u8,
    alpha: i32,
    beta: i32,
    ply: u8,
    ext: u8,
    maxc: usize,
) -> (i32, SearchState)
    decreases depth + 4 - ext, 2int, 0int,
{
    let s1 = SearchState { nodes: inc(s.nodes), ..s };
    if ext > 4 {
        (0, s1)
    } else if depth == 0 {
        (eval_spec(v.acc, v.captures, v.to_move) as i32, s1)
    } else {
        let s2 = SearchState { probes: inc(s1.probes), ..s1 };
        match tt_probe(s.tt, v.zobrist) {
            Some(e) => {
                let s3 = SearchState { hits: inc(s2.hits), ..s2 };
                if e.depth >= depth && (e.bound == Bound::Exact || (e.bound == Bound::Lower && e.score
                    >= beta) || (e.bound == Bound::Upper && e.score <= alpha)) {
                    (e.score, s3)
                } else {
                    nm_node(v, s3, Some(e.mv), depth, alpha, beta, ply, ext, maxc)
                }
            },
            None => nm_node(v, s2, None, depth, alpha, beta, ply, ext, maxc),
        }
    }
}

/// A node past its table probe: the ordered candidates searched in turn.
pub open spec fn nm_node(
    v: BoardView,
    s: SearchState,
    tt_move: Option<Idx>,
    depth: u8,
    alpha: i32,
    beta: i32,
    ply: u8,
    ext: u8,
    maxc: usize,
) -> (i32, SearchState)
    decreases depth + 4 - ext, 1int, 0int,
{
    let me = v.to_move;
    if candidate_moves(v.cells, me).len() == 0 || depth == 0 || ext > 4 {
        (0, s)
    } else {
        let killers_here = if (ply as int) < s.killers.len() {
            s.killers[ply as int]
        } else {
            (Idx::MAX, Idx::MAX)
        };
        let ordered = select_moves(
            sort_by_score(scored_moves(v, tt_move, killers_here, s.history)),
            v.cells,
            me,
            maxc as int,
        );
        let extend = ordered.len() > 0 && ordered[0].0 >= ORD_BLOCK && ext < 4;
        nm_loop(v, s, ordered, 0, (i32::MIN + 1) as i32, None, alpha, alpha, beta, depth, ply, ext, extend, maxc)
    }
}

/// The score of one searched move: a win or a draw at once, or the
/// negated score of the reply (searched reduced first for late quiet
/// moves, then in full if it beats `alpha`).
pub open spec fn nm_move(
    v: BoardView,
    s: SearchState,
    ordered: Seq<(i32, Idx)>,
    i: int,
    alpha: i32,
    beta: i32,
    depth: u8,
    ply: u8,
    ext: u8,
    extend: bool,
    maxc: usize,
) -> (i32, SearchState)
    decreases depth + 4 - ext, 0int, ordered.len() - i,
{
    if i < 0 || i >= ordered.len() || depth == 0 || ext > 4 || (extend && ext >= 4) {
        (0, s)
    } else {
        let sc = ordered[i].0;
        let mv = ordered[i].1;
        let w = play_view(v, mv as int);
        match game_end(w, mv as int) {
            GameEnd::Win(_) => ((WIN - ply - 1) as i32, s),
            GameEnd::Draw => (0, s),
            GameEnd::Ongoing => {
                let child_ext: u8 = if extend { (ext + 1) as u8 } else { ext };
                let extra: u8 = if extend { 1 } else { 0 };
                let reduction: u8 = if depth >= 3 && sc < ORD_CAPTURE_BASE {
                    if i >= 16 { 2 } else if i >= 8 { 1 } else { 0 }
                } else {
                    0
                };
                let full: u8 = (depth - 1 + extra) as u8;
                let reduced: u8 = if full >= reduction { (full - reduction) as u8 } else { 0 };
                let first = nm(w, s, reduced, neg_spec(beta), neg_spec(alpha), (ply + 1) as u8, child_ext, maxc);
                let sc1 = neg_spec(first.0);
                if reduction > 0 && sc1 > alpha {
                    let second = nm(w, first.1, full, neg_spec(beta), neg_spec(alpha), (ply + 1) as u8, child_ext, maxc);
                    (neg_spec(second.0), second.1)
                } else {
                    (sc1, first.1)
                }
            },
        }
    }
}

/// The ordered moves from index `i` on, searched in turn until one
/// raises `alpha` to `beta` or above.
pub open spec fn nm_loop(
    v: BoardView,
    s: SearchState,
    ordered: Seq<(i32, Idx)>,
    i: int,
    best: i32,
    best_move: Option<Idx>,
    alpha: i32,
    orig_alpha: i32,
    beta: i32,
    depth: u8,
    ply: u8,
    ext: u8,
    extend: bool,
    maxc: usize,
) -> (i32, SearchState)
    decreases depth + 4 - ext, 0int, ordered.len() - i + 1,
{
    if i < 0 || i >= ordered.len() || depth == 0 || ext > 4 {
        nm_finish(v, s, best, best_move, orig_alpha, beta, depth)
    } else {
        let mv = ordered[i].1;
        let moved = nm_move(v, s, ordered, i, alpha, beta, depth, ply, ext, extend, maxc);
        let score = moved.0;
        let s2 = moved.1;
        let nbest = if score > best { score } else { best };
        let nbm = if score > best { Some(mv) } else { best_move };
        let nalpha = if nbest > alpha { nbest } else { alpha };
        if nalpha >= beta {
            let s3 = SearchState {
                killers: killers_after(s2.killers, ply, mv),
                history: history_after(s2.history, mv, depth),
                ..s2
            };
            nm_finish(v, s3, nbest, nbm, orig_alpha, beta, depth)
        } else {
            nm_loop(v, s2, ordered, i + 1, nbest, nbm, nalpha, orig_alpha, beta, depth, ply, ext, extend, maxc)
        }
    }
}

/// One step of the move loop of a node.
proof fn lemma_nm_loop_step(
    v: BoardView,
    s: SearchState,
    ordered: Seq<(i32, Idx)>,
    i: int,
    best: i32,
    best_move: Option<Idx>,
    alpha: i32,
    orig_alpha: i32,
    beta: i32,
    depth: u8,
    ply: u8,
    ext: u8,
    extend: bool,
    maxc: usize,
    score: i32,
    s2: SearchState,
)
    requires
        0 <= i < ordered.len(),
        depth != 0,
        ext <= 4,
        nm_move(v, s, ordered, i, alpha, beta, depth, ply, ext, extend, maxc) == (score, s2),
    ensures
        ({
            let mv = ordered[i].1;
            let nbest = if score > best { score } else { best };
            let nbm = if score > best { Some(mv) } else { best_move };
            let nalpha = if nbest > alpha { nbest } else { alpha };
            nm_loop(v, s, ordered, i, best, best_move, alpha, orig_alpha, beta, depth, ply, ext, extend, maxc)
                == if nalpha >= beta {
                nm_finish(
                    v,
                    SearchState {
                        killers: killers_after(s2.killers, ply, mv),
                        history: history_after(s2.history, mv, depth),
                        ..s2
                    },
                    nbest,
                    nbm,
                    orig_alpha,
                    beta,
                    depth,
                )
            } else {
                nm_loop(v, s2, ordered, i + 1, nbest, nbm, nalpha, orig_alpha, beta, depth, ply, ext, extend, maxc)
            }
        }),
{
    let mv = ordered[i].1;
    let moved = nm_move(v, s, ordered, i, alpha, beta, depth, ply, ext, extend, maxc);
    assert(moved.0 == score);
    assert(moved.1 == s2);
    let nbest = if score > best { score } else { best };
    let nbm = if score > best { Some(mv) } else { best_move };
    let nalpha = if nbest > alpha { nbest } else { alpha };
    let r = nm_loop(v, s, ordered, i, best, best_move, alpha, orig_alpha, beta, depth, ply, ext, extend, maxc);
    if nalpha >= beta {
        assert(r == nm_finish(
            v,
            SearchState {
                killers: killers_after(s2.killers, ply, mv),
                history: history_after(s2.history, mv, depth),
                ..s2
            },
            nbest,
            nbm,
            orig_alpha,
            beta,
            depth,
        ));
    } else {
        assert(r == nm_loop(v, s2, ordered, i + 1, nbest, nbm, nalpha, orig_alpha, beta, depth, ply, ext, extend, maxc));
    }
}

/// Past the last ordered move, a node's loop gives its result.
proof fn lemma_nm_loop_end(
    v: BoardView,
    s: SearchState,
    ordered: Seq<(i32, Idx)>,
    i: int,
    best: i32,
    best_move: Option<Idx>,
    alpha: i32,
    orig_alpha: i32,
    beta: i32,
    depth: u8,
    ply: u8,
    ext: u8,
    extend: bool,
    maxc: usize,
)
    requires
        i >= ordered.len(),
    ensures
        nm_loop(v, s, ordered, i, best, best_move, alpha, orig_alpha, beta, depth, ply, ext, extend, maxc)
            == nm_finish(v, s, best, best_move, orig_alpha, beta, depth),
{
}

/// Searches one ordered move of a node: plays it, scores a win or a draw
/// at once, or searches the reply (reduced first for late quiet moves,
/// then in full if it beats `alpha`), and takes the move back. When the
/// clock does not stop it, the score and new state are `nm_move`.
fn search_move(
    b: &mut Board,
    ctx: &mut SearchCtx,
    tt: &mut TranspositionTable,
    ordered: &Vec<(i32, Idx)>,
    i: usize,
    alpha: i32,
    beta: i32,
    depth: u8,
    ply: u8,
    extensions_used: u8,
    extend: bool,
) -> (score: i32)
    requires
        old(b).wf(),
        old(ctx).wf(),
        tt_wf(old(tt)@),
        !old(ctx).aborted,
        i < ordered@.len(),
        in_board(ordered@[i as int].1 as int),
        old(b)@.cells[ordered@[i as int].1 as int] == Cell::Empty,
        1 <= depth,
        extensions_used <= 4,
        extend ==> extensions_used < 4,
        ply + depth + (4 - extensions_used) <= 255,
    ensures
        final(b)@ == old(b)@,
        final(ctx).wf(),
        final(ctx).cfg == old(ctx).cfg,
        final(ctx).pt == old(ctx).pt,
        final(ctx).start == old(ctx).start,
        final(ctx).budget_ms == old(ctx).budget_ms,
        tt_wf(final(tt)@),
        old(ctx).budget_ms is None ==> !final(ctx).aborted,
        !final(ctx).aborted ==> (score, final(ctx).state(final(tt)@)) == nm_move(
            old(b)@,
            old(ctx).state(old(tt)@),
            ordered@,
            i as int,
            alpha,
            beta,
            depth,
            ply,
            extensions_used,
            extend,
            old(ctx).cfg.max_candidates,
        ),
    decreases depth + 4 - extensions_used, 0int,
{
    let ghost v0 = b@;
    let (s, mv) = ordered[i];
    let u = b.play(mv, ctx.pt);
    proof {
        lemma_play_undo_roundtrip(v0, mv as int, u);
    }
    let end = check_end(b, mv, ctx.pt);
    let child_extensions: u8 = if extend {
        extensions_used + 1
    } else {
        extensions_used
    };
    let extra_depth: u8 = if extend {
        1
    } else {
        0
    };
    let score: i32 = match end {
        GameEnd::Win(_) => WIN - ply as i32 - 1,
        GameEnd::Draw => 0,
        GameEnd::Ongoing => {
            let reduction: u8 = if depth >= 3 && !(s >= ORD_CAPTURE_BASE) {
                if i >= 16 {
                    2
                } else if i >= 8 {
                    1
                } else {
                    0
                }
            } else {
                0
            };
            let full_child_depth: u8 = depth - 1 + extra_depth;
            let reduced_depth: u8 = full_child_depth.saturating_sub(reduction);
            let first = negamax(b, ctx, tt, reduced_depth, neg(beta), neg(alpha), ply + 1, child_extensions);
            let ghost aborted_first = ctx.aborted;
            let mut sc_child = neg(first);
            if reduction > 0 && sc_child > alpha {
                let second = negamax(b, ctx, tt, full_child_depth, neg(beta), neg(alpha), ply + 1, child_extensions);
                proof {
                    assert(!ctx.aborted ==> !aborted_first);
                }
                sc_child = neg(second);
            }
            sc_child
        },
    };
    b.undo(&u);
    score
}

/// Negamax with fail-soft alpha-beta, late move reductions and at most
/// four threat extensions along a line. Returns a score from the point of
/// view of the side to move; `0` once the search is aborted by the clock.
/// When the clock does not stop it, the score and the new search state
/// are `nm` of the board and the old state. The board is left as it was.
pub fn negamax(
    b: &mut Board,
    ctx: &mut SearchCtx,
    tt: &mut TranspositionTable,
    depth: u8,
    alpha: i32,
    beta: i32,
    ply: u8,
    extensions_used: u8,
) -> (r: i32)
    requires
        old(b).wf(),
        old(ctx).wf(),
        tt_wf(old(tt)@),
        extensions_used <= 4,
        ply + depth + (4 - extensions_used) <= 255,
    ensures
        final(b)@ == old(b)@,
        final(ctx).wf(),
        final(ctx).cfg == old(ctx).cfg,
        final(ctx).pt == old(ctx).pt,
        final(ctx).start == old(ctx).start,
        final(ctx).budget_ms == old(ctx).budget_ms,
        tt_wf(final(tt)@),
        !old(ctx).aborted && old(ctx).budget_ms is None ==> !final(ctx).aborted,
        old(ctx).aborted ==> final(ctx).aborted,
        final(ctx).aborted ==> r == 0,
        !final(ctx).aborted ==> (r, final(ctx).state(final(tt)@)) == nm(
            old(b)@,
            old(ctx).state(old(tt)@),
            depth,
            alpha,
            beta,
            ply,
            extensions_used,
            old(ctx).cfg.max_candidates,
        ),
    decreases depth + 4 - extensions_used, 1int,
{
    let ghost v0 = b@;
    let ghost s0 = ctx.state(tt@);
    let ghost maxc = ctx.cfg.max_candidates;
    ctx.nodes = ctx.nodes.wrapping_add(1);
    if ctx.nodes % 512 == 0 {
        if let Some(ms) = budget_spent(&ctx.start, ctx.budget_ms) {
            ctx.aborted = true;
            ctx.spent_ms = ms;
        }
    }
    if ctx.aborted {
        return 0;
    }

    if depth == 0 {
        let r = evaluate(b);
        proof {
            lemma_wrap32_range(eval_spec(v0.acc, v0.captures, v0.to_move));
            }
        return r;
    }

    let orig_alpha = alpha;
    let mut alpha = alpha;

    ctx.tt_probes = ctx.tt_probes.wrapping_add(1);
    let mut tt_move: Option<Idx> = None;
    match tt.probe(b.zobrist) {
        Some(e) => {
            ctx.tt_hits = ctx.tt_hits.wrapping_add(1);
            tt_move = Some(e.mv);
            if e.depth >= depth {
                match e.bound {
                    Bound::Exact => {
                        return e.score;
                    },
                    Bound::Lower => {
                        if e.score >= beta {
                            return e.score;
                        }
                    },
                    Bound::Upper => {
                        if e.score <= alpha {
                            return e.score;
                        }
                    },
                }
            }
        },
        None => {},
    }
    let ghost s1 = ctx.state(tt@);
    proof {
        let t1 = SearchState { nodes: inc(s0.nodes), ..s0 };
        let t2 = SearchState { probes: inc(t1.probes), ..t1 };
        match tt_probe(s0.tt, v0.zobrist) {
            Some(e) => {
                let t3 = SearchState { hits: inc(t2.hits), ..t2 };
                assert(s1 == t3);
                assert(tt_move == Some(e.mv));
            },
            None => {
                assert(s1 == t2);
                assert(tt_move.is_none());
            },
        }
        assert(nm(v0, s0, depth, orig_alpha, beta, ply, extensions_used, maxc) == nm_node(
            v0,
            s1,
            tt_move,
            depth,
            orig_alpha,
            beta,
            ply,
            extensions_used,
            maxc,
        ));
    }

    let mut candidates: Vec<(Idx, [Pat; 4], usize)> = Vec::new();
    let me = b.to_move;
    generate_with_patterns(b, me, ctx.pt, &mut candidates);
    if candidates.len() == 0 {
        return 0;
    }
    proof {
        lemma_annotated_ok(v0.cells, me, candidates@);
        lemma_candidate_moves_playable(v0.cells, me);
    }

    let killers_here: (Idx, Idx) = if (ply as usize) < ctx.killers.len() {
        ctx.killers[ply as usize]
    } else {
        (Idx::MAX, Idx::MAX)
    };
    let ghost hist0 = ctx.history@;
    let scored = score_order_and_truncate(b, ctx, &candidates, tt_move, killers_here);
    let ghost sc = scored_spec(v0.cells, candidates@, me, tt_move, killers_here, hist0);
    let ghost cands = candidates@;
    proof {
        lemma_scored_spec_moves(v0, candidates@, tt_move, killers_here, hist0);
    }

    let facing_threat = scored.len() > 0 && scored[0].0 >= ORD_BLOCK;
    let extend = facing_threat && extensions_used < 4;
    let ghost target = nm_loop(
        v0,
        s1,
        scored@,
        0,
        (i32::MIN + 1) as i32,
        None,
        orig_alpha,
        orig_alpha,
        beta,
        depth,
        ply,
        extensions_used,
        extend,
        maxc,
    );
    proof {
        assert(nm(v0, s0, depth, orig_alpha, beta, ply, extensions_used, maxc) == target);
        if scored.len() == 0 {
            lemma_nm_loop_end(v0, s1, scored@, 0, (i32::MIN + 1) as i32, None, orig_alpha, orig_alpha, beta, depth, ply, extensions_used, extend, maxc);
        }
    }

    let mut best: i32 = i32::MIN + 1;
    let mut best_move: Option<Idx> = None;
    let mut i: usize = 0;
    while i < scored.len()
        invariant_except_break
            target == nm_loop(
                v0,
                ctx.state(tt@),
                scored@,
                i as int,
                best,
                best_move,
                alpha,
                orig_alpha,
                beta,
                depth,
                ply,
                extensions_used,
                extend,
                maxc,
            ),
            i >= scored.len() ==> target == nm_finish(v0, ctx.state(tt@), best, best_move, orig_alpha, beta, depth),
        invariant
            i <= scored.len(),
            b.wf(),
            b@ == v0,
            v0 == old(b)@,
            ctx.wf(),
            ctx.cfg == old(ctx).cfg,
            ctx.pt == old(ctx).pt,
            ctx.start == old(ctx).start,
            ctx.budget_ms == old(ctx).budget_ms,
            maxc == ctx.cfg.max_candidates,
            tt_wf(tt@),
            !ctx.aborted,
            me == v0.to_move,
            1 <= depth,
            extensions_used <= 4,
            ply + depth + (4 - extensions_used) <= 255,
            extend ==> extensions_used < 4,
            forall|j: int| 0 <= j < cands.len() ==> #[trigger] cands[j].0 == candidate_moves(v0.cells, me)[j],
            cands.len() == candidate_moves(v0.cells, me).len(),
            sc == scored_spec(v0.cells, cands, me, tt_move, killers_here, hist0),
            forall|j: int| 0 <= j < scored@.len() ==> sc.contains(#[trigger] scored@[j]),
            forall|j: int|
                0 <= j < candidate_moves(v0.cells, me).len() ==> {
                    let c = #[trigger] candidate_moves(v0.cells, me)[j] as int;
                    in_board(c) && v0.cells[c] == Cell::Empty
                },
        ensures
            target == nm_finish(v0, ctx.state(tt@), best, best_move, orig_alpha, beta, depth),
        decreases scored.len() - i,
    {
        let mv = scored[i].1;
        let ghost st = ctx.state(tt@);
        proof {
            assert(sc.contains(scored@[i as int]));
            lemma_scored_move_candidate(v0.cells, cands, me, tt_move, killers_here, hist0, scored@[i as int]);
            let k = choose|k: int| 0 <= k < candidate_moves(v0.cells, me).len() && candidate_moves(v0.cells, me)[k] == mv;
            assert(in_board(candidate_moves(v0.cells, me)[k] as int));
        }
        let score = search_move(b, ctx, tt, &scored, i, alpha, beta, depth, ply, extensions_used, extend);
        if ctx.aborted {
            return 0;
        }
        let ghost s2 = ctx.state(tt@);
        proof {
            lemma_nm_loop_step(v0, st, scored@, i as int, best, best_move, alpha, orig_alpha, beta, depth, ply, extensions_used, extend, maxc, score, s2);
        }
        if score > best {
            best = score;
            best_move = Some(mv);
        }
        if best > alpha {
            alpha = best;
        }
        if alpha >= beta {
            if (ply as usize) < ctx.killers.len() {
                let k = ctx.killers[ply as usize];
                if k.0 != mv {
                    ctx.killers.set(ply as usize, (mv, k.0));
                }
            }
            if (mv as usize) < ctx.history.len() {
                let h = ctx.history[mv as usize];
                assert((depth as int) * (depth as int) <= 65025) by (nonlinear_arith)
                    requires
                        depth <= 255,
                ;
                let dd: i32 = (depth as i32) * (depth as i32);
                let nh = if h > i32::MAX - dd {
                    i32::MAX
                } else {
                    h + dd
                };
                ctx.history.set(mv as usize, nh);
            }
            proof {
                assert(ctx.killers@ =~= killers_after(s2.killers, ply, mv));
                assert(ctx.history@ =~= history_after(s2.history, mv, depth));
            }
            break;
        }
        i = i + 1;
        proof {
            if i >= scored.len() {
                lemma_nm_loop_end(v0, ctx.state(tt@), scored@, i as int, best, best_move, alpha, orig_alpha, beta, depth, ply, extensions_used, extend, maxc);
            }
        }
    }

    match best_move {
        Some(bm) => {
            let bound = if best <= orig_alpha {
                Bound::Upper
            } else if best >= beta {
                Bound::Lower
            } else {
                Bound::Exact
            };
            tt.store(b.zobrist, TtEntry { key: b.zobrist, score: best, mv: bm, depth, bound });
        },
        None => {},
    }

    best
}

/// `(mv, score)` is among the root scores.
pub open spec fn scores_contain(scores: Seq<(Idx, i32)>, mv: Idx, score: i32) -> bool {
    exists|j: int| 0 <= j < scores.len() && #[trigger] scores[j] == (mv, score)
}

/// The score of root move `i`: a win or a draw at once; the first move
/// searched in the full window; later ones with a null window first, then
/// in the full window if they land inside it.
pub open spec fn root_move(
    v: BoardView,
    s: SearchState,
    ordered: Seq<(i32, Idx)>,
    i: int,
    alpha: i32,
    hi: i32,
    depth: u8,
    maxc: usize,
) -> (i32, SearchState) {
    if i < 0 || i >= ordered.len() || depth == 0 {
        (0, s)
    } else {
        let mv = ordered[i].1;
        let w = play_view(v, mv as int);
        match game_end(w, mv as int) {
            GameEnd::Win(_) => ((WIN - 1) as i32, s),
            GameEnd::Draw => (0, s),
            GameEnd::Ongoing => {
                if i == 0 {
                    let full = nm(w, s, (depth - 1) as u8, neg_spec(hi), neg_spec(alpha), 1, 0, maxc);
                    (neg_spec(full.0), full.1)
                } else {
                    let null = nm(
                        w,
                        s,
                        (depth - 1) as u8,
                        vstd::wrapping::i32_specs::wrapping_sub(neg_spec(alpha), 1),
                        neg_spec(alpha),
                        1,
                        0,
                        maxc,
                    );
                    let null_score = neg_spec(null.0);
                    if null_score > alpha && null_score < hi {
                        let full = nm(w, null.1, (depth - 1) as u8, neg_spec(hi), neg_spec(alpha), 1, 0, maxc);
                        (neg_spec(full.0), full.1)
                    } else {
                        (null_score, null.1)
                    }
                }
            },
        }
    }
}

/// The root moves from index `i` on, searched in turn until one raises
/// `alpha` to `hi` or above: the best move, its score, the scores so far
/// and the search state.
pub open spec fn root_loop(
    v: BoardView,
    s: SearchState,
    ordered: Seq<(i32, Idx)>,
    i: int,
    best: i32,
    best_move: Idx,
    alpha: i32,
    hi: i32,
    depth: u8,
    maxc: usize,
    scores: Seq<(Idx, i32)>,
) -> (Idx, i32, Seq<(Idx, i32)>, SearchState)
    decreases ordered.len() - i,
{
    if i < 0 || i >= ordered.len() {
        (best_move, best, scores, s)
    } else {
        let mv = ordered[i].1;
        let moved = root_move(v, s, ordered, i, alpha, hi, depth, maxc);
        let scores2 = scores.push((mv, moved.0));
        let nbest = if moved.0 > best { moved.0 } else { best };
        let nbm = if moved.0 > best { mv } else { best_move };
        let nalpha = if nbest > alpha { nbest } else { alpha };
        if nalpha >= hi {
            (nbm, nbest, scores2, moved.1)
        } else {
            root_loop(v, moved.1, ordered, i + 1, nbest, nbm, nalpha, hi, depth, maxc, scores2)
        }
    }
}

/// The table move of the root, if any.
pub open spec fn root_tt_move(v: BoardView, s: SearchState) -> Option<Idx> {
    match tt_probe(s.tt, v.zobrist) {
        Some(e) => Some(e.mv),
        None => None,
    }
}

/// The ordered root moves.
pub open spec fn root_ordered(v: BoardView, s: SearchState, maxc: usize) -> Seq<(i32, Idx)> {
    select_moves(
        sort_by_score(scored_moves(v, root_tt_move(v, s), (Idx::MAX, Idx::MAX), s.history)),
        v.cells,
        v.to_move,
        maxc as int,
    )
}

/// The result of one iteration at `depth` in the window `[lo, hi]` whose
/// clock never stops it: none without an ordered root move; otherwise the
/// best move, its score, the root scores and the search state.
pub open spec fn root_result(v: BoardView, s: SearchState, depth: u8, lo: i32, hi: i32, maxc: usize) -> Option<
    (Idx, i32, Seq<(Idx, i32)>, SearchState),
> {
    let ordered = root_ordered(v, s, maxc);
    if ordered.len() == 0 {
        None
    } else {
        Some(root_loop(v, s, ordered, 0, (i32::MIN + 1) as i32, ordered[0].1, lo, hi, depth, maxc, Seq::empty()))
    }
}

/// Searches root move `i` (see `root_move`), leaving the board as it was.
fn search_root_move(
    b: &mut Board,
    ctx: &mut SearchCtx,
    tt: &mut TranspositionTable,
    ordered: &Vec<(i32, Idx)>,
    i: usize,
    alpha: i32,
    window_hi: i32,
    depth: u8,
) -> (score: i32)
    requires
        old(b).wf(),
        old(ctx).wf(),
        tt_wf(old(tt)@),
        !old(ctx).aborted,
        i < ordered@.len(),
        in_board(ordered@[i as int].1 as int),
        old(b)@.cells[ordered@[i as int].1 as int] == Cell::Empty,
        1 <= depth <= 250,
    ensures
        final(b)@ == old(b)@,
        final(ctx).wf(),
        final(ctx).cfg == old(ctx).cfg,
        final(ctx).pt == old(ctx).pt,
        final(ctx).start == old(ctx).start,
        final(ctx).budget_ms == old(ctx).budget_ms,
        tt_wf(final(tt)@),
        old(ctx).budget_ms is None ==> !final(ctx).aborted,
        !final(ctx).aborted ==> (score, final(ctx).state(final(tt)@)) == root_move(
            old(b)@,
            old(ctx).state(old(tt)@),
            ordered@,
            i as int,
            alpha,
            window_hi,
            depth,
            old(ctx).cfg.max_candidates,
        ),
{
    let ghost v0 = b@;
    let mv = ordered[i].1;
    let u = b.play(mv, ctx.pt);
    proof {
        lemma_play_undo_roundtrip(v0, mv as int, u);
    }
    let end = check_end(b, mv, ctx.pt);
    let score: i32 = match end {
        GameEnd::Win(_) => WIN - 1,
        GameEnd::Draw => 0,
        GameEnd::Ongoing => {
            if i == 0 {
                neg(negamax(b, ctx, tt, depth - 1, neg(window_hi), neg(alpha), 1, 0))
            } else {
                let null_score = neg(negamax(b, ctx, tt, depth - 1, neg(alpha).wrapping_sub(1), neg(alpha), 1, 0));
                let ghost aborted_null = ctx.aborted;
                if null_score > alpha && null_score < window_hi {
                    let full = neg(negamax(b, ctx, tt, depth - 1, neg(window_hi), neg(alpha), 1, 0));
                    proof {
                        assert(!ctx.aborted ==> !aborted_null);
                    }
                    full
                } else {
                    null_score
                }
            }
        },
    };
    b.undo(&u);
    score
}

/// One full iteration at a fixed `depth` inside the aspiration window
/// `[window_lo, window_hi]`: the best move, its score, the score of every
/// root move searched (in search order), and whether the score fell
/// outside the window. `None` when there is no candidate or the clock
/// aborted the iteration. When the clock does not stop it, the result and
/// the new search state are `root_result`. The board is left as it was.
fn root_search(
    b: &mut Board,
    ctx: &mut SearchCtx,
    tt: &mut TranspositionTable,
    depth: u8,
    window_lo: i32,
    window_hi: i32,
) -> (r: Option<(Idx, i32, Vec<(Idx, i32)>, bool)>)
    requires
        old(b).wf(),
        old(ctx).wf(),
        tt_wf(old(tt)@),
        !old(ctx).aborted,
        1 <= depth <= 250,
    ensures
        final(b)@ == old(b)@,
        final(ctx).wf(),
        final(ctx).cfg == old(ctx).cfg,
        final(ctx).pt == old(ctx).pt,
        final(ctx).start == old(ctx).start,
        final(ctx).budget_ms == old(ctx).budget_ms,
        tt_wf(final(tt)@),
        old(ctx).budget_ms is None ==> !final(ctx).aborted,
        ({
            let cands = candidate_moves(old(b)@.cells, old(b)@.to_move);
            match r {
                Some(res) => {
                    &&& !final(ctx).aborted
                    &&& old(ctx).cfg.max_candidates > 0
                    &&& cands.contains(res.0)
                    &&& forall|j: int| 0 <= j < res.2@.len() ==> cands.contains(#[trigger] res.2@[j].0)
                    &&& forall|j: int| 0 <= j < res.2@.len() ==> #[trigger] res.2@[j].1 <= res.1
                    &&& res.1 == i32::MIN + 1 || scores_contain(res.2@, res.0, res.1)
                    &&& res.3 == (res.1 <= window_lo || res.1 >= window_hi)
                },
                None => cands.len() == 0 || final(ctx).aborted || old(ctx).cfg.max_candidates == 0,
            }
        }),
        !final(ctx).aborted ==> match r {
            Some(res) => root_result(
                old(b)@,
                old(ctx).state(old(tt)@),
                depth,
                window_lo,
                window_hi,
                old(ctx).cfg.max_candidates,
            ) == Some((res.0, res.1, res.2@, final(ctx).state(final(tt)@))),
            None => root_result(
                old(b)@,
                old(ctx).state(old(tt)@),
                depth,
                window_lo,
                window_hi,
                old(ctx).cfg.max_candidates,
            ) is None && final(ctx).state(final(tt)@) == old(ctx).state(old(tt)@),
        },
{
    let ghost v0 = b@;
    let ghost s0 = ctx.state(tt@);
    let ghost maxc = ctx.cfg.max_candidates;
    let mut candidates: Vec<(Idx, [Pat; 4], usize)> = Vec::new();
    let me = b.to_move;
    generate_with_patterns(b, me, ctx.pt, &mut candidates);
    if candidates.len() == 0 {
        proof {
            assert(scored_moves(v0, root_tt_move(v0, s0), (Idx::MAX, Idx::MAX), s0.history).len() == 0);
            lemma_sort_len(scored_moves(v0, root_tt_move(v0, s0), (Idx::MAX, Idx::MAX), s0.history));
        }
        return None;
    }
    proof {
        lemma_annotated_ok(v0.cells, me, candidates@);
        lemma_candidate_moves_playable(v0.cells, me);
    }
    let ghost cands = candidates@;
    let tt_move: Option<Idx> = match tt.probe(b.zobrist) {
        Some(e) => Some(e.mv),
        None => None,
    };
    let ghost hist0 = ctx.history@;
    let scored = score_order_and_truncate(b, ctx, &candidates, tt_move, (Idx::MAX, Idx::MAX));
    let ghost sc = scored_spec(v0.cells, candidates@, me, tt_move, (Idx::MAX, Idx::MAX), hist0);
    proof {
        lemma_scored_spec_moves(v0, candidates@, tt_move, (Idx::MAX, Idx::MAX), hist0);
        assert(scored@ == root_ordered(v0, s0, maxc));
    }

    if scored.len() == 0 {
        return None;
    }
    let mut best_move = scored[0].1;
    proof {
        assert(sc.contains(scored@[0]));
        lemma_scored_move_candidate(v0.cells, cands, me, tt_move, (Idx::MAX, Idx::MAX), hist0, scored@[0]);
    }
    let mut alpha = window_lo;
    let mut best: i32 = i32::MIN + 1;
    let mut root_scores: Vec<(Idx, i32)> = Vec::new();
    let ghost target = root_loop(
        v0,
        s0,
        scored@,
        0,
        (i32::MIN + 1) as i32,
        scored@[0].1,
        window_lo,
        window_hi,
        depth,
        maxc,
        Seq::empty(),
    );
    proof {
        assert(root_result(v0, s0, depth, window_lo, window_hi, maxc) == Some(target));
        assert(root_scores@ =~= Seq::<(Idx, i32)>::empty());
    }

    let mut i: usize = 0;
    while i < scored.len()
        invariant_except_break
            target == root_loop(
                v0,
                ctx.state(tt@),
                scored@,
                i as int,
                best,
                best_move,
                alpha,
                window_hi,
                depth,
                maxc,
                root_scores@,
            ),
        invariant
            i <= scored.len(),
            b.wf(),
            b@ == v0,
            v0 == old(b)@,
            ctx.wf(),
            ctx.cfg == old(ctx).cfg,
            ctx.pt == old(ctx).pt,
            ctx.start == old(ctx).start,
            ctx.budget_ms == old(ctx).budget_ms,
            maxc == ctx.cfg.max_candidates,
            tt_wf(tt@),
            me == v0.to_move,
            1 <= depth <= 250,
            forall|j: int| 0 <= j < cands.len() ==> #[trigger] cands[j].0 == candidate_moves(v0.cells, me)[j],
            cands.len() == candidate_moves(v0.cells, me).len(),
            sc == scored_spec(v0.cells, cands, me, tt_move, (Idx::MAX, Idx::MAX), hist0),
            forall|j: int| 0 <= j < scored@.len() ==> sc.contains(#[trigger] scored@[j]),
            forall|j: int|
                0 <= j < candidate_moves(v0.cells, me).len() ==> {
                    let c = #[trigger] candidate_moves(v0.cells, me)[j] as int;
                    in_board(c) && v0.cells[c] == Cell::Empty
                },
            candidate_moves(v0.cells, me).contains(best_move),
            forall|j: int| 0 <= j < root_scores@.len() ==> candidate_moves(v0.cells, me).contains(#[trigger] root_scores@[j].0),
            forall|j: int| 0 <= j < root_scores@.len() ==> #[trigger] root_scores@[j].1 <= best,
            best == i32::MIN + 1 || scores_contain(root_scores@, best_move, best),
            !ctx.aborted,
            scored.len() > 0,
            i >= scored.len() ==> target == (best_move, best, root_scores@, ctx.state(tt@)),
        ensures
            !ctx.aborted,
            target == (best_move, best, root_scores@, ctx.state(tt@)),
        decreases scored.len() - i,
    {
        let mv = scored[i].1;
        let ghost st = ctx.state(tt@);
        proof {
            assert(sc.contains(scored@[i as int]));
            lemma_scored_move_candidate(v0.cells, cands, me, tt_move, (Idx::MAX, Idx::MAX), hist0, scored@[i as int]);
            let k = choose|k: int| 0 <= k < candidate_moves(v0.cells, me).len() && candidate_moves(v0.cells, me)[k] == mv;
            assert(in_board(candidate_moves(v0.cells, me)[k] as int));
        }
        let score = search_root_move(b, ctx, tt, &scored, i, alpha, window_hi, depth);

        if ctx.aborted {
            return None;
        }
        let ghost s2 = ctx.state(tt@);
        proof {
            lemma_root_loop_step(v0, st, scored@, i as int, best, best_move, alpha, window_hi, depth, maxc, root_scores@, score, s2);
        }
        let ghost rs_before = root_scores@;
        root_scores.push((mv, score));
        proof {
            assert(root_scores@[rs_before.len() as int] == (mv, score));
            assert forall|j: int| 0 <= j < root_scores@.len() implies candidate_moves(v0.cells, me).contains(
                #[trigger] root_scores@[j].0,
            ) by {
                if j < rs_before.len() {
                    assert(root_scores@[j] == rs_before[j]);
                }
            }
            if best != i32::MIN + 1 {
                let j0 = choose|j: int| 0 <= j < rs_before.len() && #[trigger] rs_before[j] == (best_move, best);
                assert(root_scores@[j0] == rs_before[j0]);
            }
        }
        if score > best {
            best = score;
            best_move = mv;
            assert(root_scores@[rs_before.len() as int] == (best_move, best));
        }
        proof {
            assert forall|j: int| 0 <= j < root_scores@.len() implies #[trigger] root_scores@[j].1 <= best by {
                if j < rs_before.len() {
                    assert(root_scores@[j] == rs_before[j]);
                }
            }
        }
        if best > alpha {
            alpha = best;
        }
        if alpha >= window_hi {
            break;
        }
        i = i + 1;
        proof {
            if i >= scored.len() {
                lemma_root_loop_end(v0, ctx.state(tt@), scored@, i as int, best, best_move, alpha, window_hi, depth, maxc, root_scores@);
            }
        }
    }

    let failed = best <= window_lo || best >= window_hi;
    proof {
        assert(candidate_moves(old(b)@.cells, old(b)@.to_move).contains(best_move));
    }
    Some((best_move, best, root_scores, failed))
}

/// The insertion point lies within the list.
proof fn lemma_first_below_range(s: Seq<(i32, Idx)>, k: i32, i: int)
    requires
        0 <= i <= s.len(),
    ensures
        i <= first_below(s, k, i) <= s.len(),
    decreases s.len() - i,
{
    if i < s.len() && s[i].0 >= k {
        lemma_first_below_range(s, k, i + 1);
    }
}

/// Sorting keeps the length.
proof fn lemma_sort_len(s: Seq<(i32, Idx)>)
    ensures
        sort_by_score(s).len() == s.len(),
    decreases s.len(),
{
    if s.len() > 0 {
        lemma_sort_len(s.drop_last());
        lemma_first_below_range(sort_by_score(s.drop_last()), s.last().0, 0);
    }
}

/// One step of the root move loop.
proof fn lemma_root_loop_step(
    v: BoardView,
    s: SearchState,
    ordered: Seq<(i32, Idx)>,
    i: int,
    best: i32,
    best_move: Idx,
    alpha: i32,
    hi: i32,
    depth: u8,
    maxc: usize,
    scores: Seq<(Idx, i32)>,
    score: i32,
    s2: SearchState,
)
    requires
        0 <= i < ordered.len(),
        root_move(v, s, ordered, i, alpha, hi, depth, maxc) == (score, s2),
    ensures
        ({
            let mv = ordered[i].1;
            let nbest = if score > best { score } else { best };
            let nbm = if score > best { mv } else { best_move };
            let nalpha = if nbest > alpha { nbest } else { alpha };
            root_loop(v, s, ordered, i, best, best_move, alpha, hi, depth, maxc, scores) == if nalpha >= hi {
                (nbm, nbest, scores.push((mv, score)), s2)
            } else {
                root_loop(v, s2, ordered, i + 1, nbest, nbm, nalpha, hi, depth, maxc, scores.push((mv, score)))
            }
        }),
{
}

/// Past the last root move, the loop gives its result.
proof fn lemma_root_loop_end(
    v: BoardView,
    s: SearchState,
    ordered: Seq<(i32, Idx)>,
    i: int,
    best: i32,
    best_move: Idx,
    alpha: i32,
    hi: i32,
    depth: u8,
    maxc: usize,
    scores: Seq<(Idx, i32)>,
)
    requires
        i >= ordered.len(),
    ensures
        root_loop(v, s, ordered, i, best, best_move, alpha, hi, depth, maxc, scores) == (best_move, best, scores, s),
{
}

/// `after` is `before` with `mv` played, as recorded in `u`.
#[verifier::opaque]
spec fn played(before: BoardView, after: BoardView, mv: int, u: Undo) -> bool {
    &&& wf_view(before)
    &&& in_board(mv)
    &&& before.cells[mv] == Cell::Empty
    &&& undo_record(u, before, mv)
    &&& after == play_view(before, mv)
}

/// The principal variation read from table `t` from position `v`: the
/// stored best move of each position in turn, for at most `n` moves; it
/// ends at a position with no entry, or whose stored move is not an empty
/// cell.
pub open spec fn pv_walk(v: BoardView, t: TtView, n: nat) -> Seq<Idx>
    decreases n,
{
    if n == 0 {
        Seq::empty()
    } else {
        match tt_probe(t, v.zobrist) {
            None => Seq::empty(),
            Some(e) => if cell_of(v.cells, e.mv as int) != Cell::Empty {
                Seq::empty()
            } else {
                seq![e.mv] + pv_walk(play_view(v, e.mv as int), t, (n - 1) as nat)
            },
        }
    }
}

/// A principal variation read for at most `n` moves has at most `n`.
proof fn lemma_pv_walk_len(v: BoardView, t: TtView, n: nat)
    ensures
        pv_walk(v, t, n).len() <= n,
    decreases n,
{
    if n > 0 {
        if let Some(e) = tt_probe(t, v.zobrist) {
            if cell_of(v.cells, e.mv as int) == Cell::Empty {
                lemma_pv_walk_len(play_view(v, e.mv as int), t, (n - 1) as nat);
            }
        }
    }
}

/// Walks the table forward from the current position, playing each stored
/// best move, to reconstruct the principal variation; stops at a missing
/// entry, an occupied cell or `max_len` moves. Undoes everything it
/// played, leaving the board as it was.
fn extract_pv(b: &mut Board, tt: &TranspositionTable, pt: &PatternTable, max_len: usize) -> (r: Vec<Idx>)
    requires
        old(b).wf(),
        tt_wf(tt@),
    ensures
        final(b)@ == old(b)@,
        r@ == pv_walk(old(b)@, tt@, max_len as nat),
{
    let ghost v0 = b@;
    let mut pv: Vec<Idx> = Vec::new();
    let mut undos: Vec<Undo> = Vec::new();
    let ghost mut views: Seq<BoardView> = seq![v0];
    let mut n: usize = 0;
    while n < max_len
        invariant
            b.wf(),
            v0 == old(b)@,
            tt_wf(tt@),
            pv@.len() == n,
            undos@.len() == n,
            views.len() == n + 1,
            views[0] == v0,
            b@ == views[n as int],
            n <= max_len,
            forall|k: int| 0 <= k < n ==> #[trigger] played(views[k], views[k + 1], pv@[k] as int, undos@[k]),
            pv@ + pv_walk(views[n as int], tt@, (max_len - n) as nat) == pv_walk(v0, tt@, max_len as nat),
        ensures
            pv@ == pv_walk(v0, tt@, max_len as nat),
        decreases max_len - n,
    {
        let e = match tt.probe(b.zobrist) {
            Some(e) => e,
            None => {
                proof {
                    assert(pv@ + Seq::<Idx>::empty() =~= pv@);
                }
                break;
            },
        };
        if b.get(e.mv) != Cell::Empty {
            proof {
                assert(pv@ + Seq::<Idx>::empty() =~= pv@);
            }
            break;
        }
        let ghost vb = b@;
        proof {
            assert(in_board(e.mv as int));
        }
        let ghost pv_old = pv@;
        pv.push(e.mv);
        let u = b.play(e.mv, pt);
        undos.push(u);
        proof {
            let rest = pv_walk(play_view(vb, e.mv as int), tt@, (max_len - n - 1) as nat);
            assert(pv_walk(vb, tt@, (max_len - n) as nat) == seq![e.mv] + rest);
            assert(pv@ + rest =~= pv_old + (seq![e.mv] + rest));
            let vs_old = views;
            views = views.push(b@);
            assert(views[n as int] == vb);
            reveal(played);
            assert(played(views[n as int], views[n + 1], pv@[n as int] as int, undos@[n as int]));
            assert forall|k: int| 0 <= k < n + 1 implies #[trigger] played(views[k], views[k + 1], pv@[k] as int, undos@[k]) by {
                if k < n {
                    assert(views[k] == vs_old[k]);
                    assert(views[k + 1] == vs_old[k + 1]);
                }
            }
        }
        n = n + 1;
    }
    let mut k = undos.len();
    while k > 0
        invariant
            k <= undos@.len(),
            undos@.len() == pv@.len(),
            views.len() == undos@.len() + 1,
            views[0] == v0,
            v0 == old(b)@,
            b.wf(),
            b@ == views[k as int],
            forall|j: int| 0 <= j < undos@.len() ==> #[trigger] played(views[j], views[j + 1], pv@[j] as int, undos@[j]),
        decreases k,
    {
        k = k - 1;
        proof {
            let j = k as int;
            assert(played(views[j], views[j + 1], pv@[j] as int, undos@[j]));
            reveal(played);
            lemma_play_undo_roundtrip(views[j], pv@[j] as int, undos@[j]);
        }
        b.undo(&undos[k]);
    }
    pv
}


/// The search state of a fresh search with table `tt`.
pub open spec fn fresh_state(tt: TtView) -> SearchState {
    SearchState {
        tt,
        killers: Seq::new(MAX_PLY as nat, |i: int| (Idx::MAX, Idx::MAX)),
        history: Seq::new(TOTAL as nat, |i: int| 0i32),
        nodes: 0,
        hits: 0,
        probes: 0,
    }
}

/// One depth of iterative deepening: a search in the window of 50 around
/// the last score (beyond depth 3; the full window before), searched again
/// in the full window when the score falls outside.
pub open spec fn id_step(v: BoardView, s: SearchState, depth: u8, last: i32, maxc: usize) -> Option<
    (Idx, i32, Seq<(Idx, i32)>, SearchState),
> {
    let lo = if depth > 3 { vstd::wrapping::i32_specs::wrapping_sub(last, 50) } else { (-WIN) as i32 };
    let hi = if depth > 3 { vstd::wrapping::i32_specs::wrapping_add(last, 50) } else { WIN };
    match root_result(v, s, depth, lo, hi, maxc) {
        None => None,
        Some(r) => if r.1 <= lo || r.1 >= hi {
            root_result(v, r.3, depth, (-WIN) as i32, WIN, maxc)
        } else {
            Some(r)
        },
    }
}

/// Iterative deepening from `depth` on: it stops past `max_depth`, at
/// depth `stop` (where the clock ran out), when an iteration gives no
/// move, or once a forced win is found; its result is the best move, the
/// root scores and the depth of the last completed iteration, and the
/// search state after it.
pub open spec fn id_run(
    v: BoardView,
    s: SearchState,
    depth: int,
    max_depth: u8,
    stop: int,
    best_move: Idx,
    last: i32,
    scores: Seq<(Idx, i32)>,
    reached: u8,
    maxc: usize,
) -> (Idx, Seq<(Idx, i32)>, u8, SearchState)
    decreases max_depth - depth + 1,
{
    if depth < 1 || depth > max_depth || depth >= stop {
        (best_move, scores, reached, s)
    } else {
        match id_step(v, s, depth as u8, last, maxc) {
            None => (best_move, scores, reached, s),
            Some(r) => if r.1 >= WIN - 1000 {
                (r.0, r.2, depth as u8, r.3)
            } else {
                id_run(v, r.3, depth + 1, max_depth, stop, r.0, r.1, r.2, depth as u8, maxc)
            },
        }
    }
}

/// The side to move wins at once by playing `mv`.
pub open spec fn wins_at(v: BoardView, mv: int) -> bool {
    game_end(play_view(v, mv), mv) is Win
}

/// The first of the first `n` moves of `cands` that wins at once.
pub open spec fn first_win(v: BoardView, cands: Seq<u16>, n: int) -> Option<u16>
    decreases n,
{
    if n <= 0 {
        None
    } else {
        match first_win(v, cands, n - 1) {
            Some(m) => Some(m),
            None => if wins_at(v, cands[n - 1] as int) {
                Some(cands[n - 1])
            } else {
                None
            },
        }
    }
}

/// `score` is at least every root score, and is the score of `mv` unless
/// it is the initial bound.
pub open spec fn best_of(scores: Seq<(Idx, i32)>, mv: Idx, score: i32) -> bool {
    &&& forall|j: int| 0 <= j < scores.len() ==> #[trigger] scores[j].1 <= score
    &&& score == i32::MIN + 1 || scores_contain(scores, mv, score)
}

/// What holds of a move found by searching, whatever the clock did: it
/// is a candidate; before any completed depth it is the first candidate;
/// the root scores are of candidates, and the move has the best of them.
pub open spec fn searched_result(cands: Seq<u16>, max_depth: u8, mv: Idx, stats: SearchStats) -> bool {
    &&& cands.contains(mv)
    &&& stats.depth_reached <= max_depth
    &&& stats.depth_reached == 0 ==> mv == cands[0] && stats.root_scores@.len() == 0
    &&& forall|j: int| 0 <= j < stats.root_scores@.len() ==> cands.contains(#[trigger] stats.root_scores@[j].0)
    &&& stats.depth_reached > 0 ==> exists|s: i32| #[trigger] best_of(stats.root_scores@, mv, s)
    &&& stats.pv@.len() <= if stats.depth_reached > 0 {
        stats.depth_reached as int
    } else {
        1
    }
}

/// Search statistics of a move found without searching.
pub open spec fn unsearched_stats(s: SearchStats) -> bool {
    &&& s.depth_reached == 0
    &&& s.nodes == 0
    &&& s.tt_hits == 0
    &&& s.tt_probes == 0
    &&& s.budget_spent_ms is None
}

/// Iterative deepening of position `v` from a fresh search with table
/// `tt`, from depth 1 with the first candidate as the move so far, cut at
/// depth `stop` (a `stop` past every depth: not cut at all).
pub open spec fn deepening_run(v: BoardView, tt: TtView, max_depth: u8, maxc: usize, stop: int) -> (
    Idx,
    Seq<(Idx, i32)>,
    u8,
    SearchState,
) {
    id_run(
        v,
        fresh_state(tt),
        1,
        max_depth,
        stop,
        candidate_moves(v.cells, v.to_move)[0],
        0,
        Seq::empty(),
        0,
        maxc,
    )
}

/// One completed depth that finds no forced win hands the rest of the run
/// to the next depth, with the state and result of that depth.
proof fn lemma_id_run_advance(
    v: BoardView,
    s: SearchState,
    depth: int,
    maxd: u8,
    bm: Idx,
    last: i32,
    scores: Seq<(Idx, i32)>,
    reached: u8,
    maxc: usize,
    r: (Idx, i32, Seq<(Idx, i32)>, SearchState),
)
    requires
        1 <= depth <= maxd,
        id_step(v, s, depth as u8, last, maxc) == Some(r),
        r.1 < WIN - 1000,
    ensures
        forall|stop: int|
            stop > depth ==> #[trigger] id_run(v, s, depth, maxd, stop, bm, last, scores, reached, maxc)
                == id_run(v, r.3, depth + 1, maxd, stop, r.0, r.1, r.2, depth as u8, maxc),
        id_run(v, r.3, depth + 1, maxd, depth + 1, r.0, r.1, r.2, depth as u8, maxc) == (r.0, r.2, depth as u8, r.3),
{
}

/// A completed depth that finds a forced win ends the run there.
proof fn lemma_id_run_win(
    v: BoardView,
    s: SearchState,
    depth: int,
    maxd: u8,
    bm: Idx,
    last: i32,
    scores: Seq<(Idx, i32)>,
    reached: u8,
    maxc: usize,
    r: (Idx, i32, Seq<(Idx, i32)>, SearchState),
)
    requires
        1 <= depth <= maxd,
        id_step(v, s, depth as u8, last, maxc) == Some(r),
        r.1 >= WIN - 1000,
    ensures
        forall|stop: int|
            stop > depth ==> #[trigger] id_run(v, s, depth, maxd, stop, bm, last, scores, reached, maxc) == (
                r.0,
                r.2,
                depth as u8,
                r.3,
            ),
{
}

/// A depth that finds no move ends the run there, in the state it began.
proof fn lemma_id_run_none(
    v: BoardView,
    s: SearchState,
    depth: int,
    maxd: u8,
    bm: Idx,
    last: i32,
    scores: Seq<(Idx, i32)>,
    reached: u8,
    maxc: usize,
)
    requires
        1 <= depth <= maxd,
        id_step(v, s, depth as u8, last, maxc) is None,
    ensures
        forall|stop: int|
            stop > depth ==> #[trigger] id_run(v, s, depth, maxd, stop, bm, last, scores, reached, maxc) == (
                bm,
                scores,
                reached,
                s,
            ),
{
}

/// The move, root scores and depth of a run, without its final state.
pub open spec fn run_of(x: (Idx, Seq<(Idx, i32)>, u8, SearchState)) -> (Idx, Seq<(Idx, i32)>, u8) {
    (x.0, x.1, x.2)
}

/// One depth of iterative deepening (see `id_step`), unless the time
/// budget is spent: `None` then, before or during the iteration, with the
/// context marked aborted; `None` too when the iteration finds no move,
/// the search state then unchanged. With no budget the clock never stops
/// it, and it gives a result exactly when `id_step` does.
fn deepen(
    b: &mut Board,
    ctx: &mut SearchCtx,
    tt: &mut TranspositionTable,
    depth: u8,
    last_score: i32,
) -> (r: Option<(Idx, i32, Vec<(Idx, i32)>)>)
    requires
        old(b).wf(),
        old(ctx).wf(),
        tt_wf(old(tt)@),
        !old(ctx).aborted,
        1 <= depth <= 250,
    ensures
        final(b)@ == old(b)@,
        final(ctx).wf(),
        final(ctx).cfg == old(ctx).cfg,
        final(ctx).pt == old(ctx).pt,
        final(ctx).start == old(ctx).start,
        final(ctx).budget_ms == old(ctx).budget_ms,
        tt_wf(final(tt)@),
        ({
            let cands = candidate_moves(old(b)@.cells, old(b)@.to_move);
            r matches Some(res) ==> {
                &&& !final(ctx).aborted
                &&& cands.contains(res.0)
                &&& forall|j: int| 0 <= j < res.2@.len() ==> cands.contains(#[trigger] res.2@[j].0)
                &&& best_of(res.2@, res.0, res.1)
                &&& id_step(old(b)@, old(ctx).state(old(tt)@), depth, last_score, old(ctx).cfg.max_candidates)
                    == Some((res.0, res.1, res.2@, final(ctx).state(final(tt)@)))
            }
        }),
        r is None && !final(ctx).aborted ==> id_step(
            old(b)@,
            old(ctx).state(old(tt)@),
            depth,
            last_score,
            old(ctx).cfg.max_candidates,
        ) is None && final(ctx).state(final(tt)@) == old(ctx).state(old(tt)@),
        old(ctx).budget_ms is None ==> !final(ctx).aborted,
        old(ctx).budget_ms is None ==> (r is Some <==> id_step(
            old(b)@,
            old(ctx).state(old(tt)@),
            depth,
            last_score,
            old(ctx).cfg.max_candidates,
        ) is Some),
{
    if let Some(ms) = budget_spent(&ctx.start, ctx.budget_ms) {
        ctx.aborted = true;
        ctx.spent_ms = ms;
        return None;
    }
    let (window_lo, window_hi) = if depth > 3 {
        (last_score.wrapping_sub(50), last_score.wrapping_add(50))
    } else {
        (-WIN, WIN)
    };
    let first = root_search(b, ctx, tt, depth, window_lo, window_hi);
    let (mv, score, scores, failed) = match first {
        Some(res) => res,
        None => {
            return None;
        },
    };
    if failed {
        let second = root_search(b, ctx, tt, depth, -WIN, WIN);
        match second {
            Some((mv2, score2, scores2, _)) => {
                proof {
                    assert(best_of(scores2@, mv2, score2));
                }
                Some((mv2, score2, scores2))
            },
            None => None,
        }
    } else {
        proof {
            assert(best_of(scores@, mv, score));
        }
        Some((mv, score, scores))
    }
}

/// The move to play for the side to move, with search statistics.
///
/// With no candidate move, returns `0` (a value never to be played). A
/// candidate that wins at once is returned without searching (the first
/// such one). Otherwise deepens iteratively from depth 1 to
/// `cfg.max_depth` until `cfg.time_budget_ms` is spent (or a forced win is
/// found), and returns the best move of the last completed depth; before
/// any depth completes, the first candidate. The budget stops the search
/// only on a clock reading of at least `cfg.time_budget_ms` milliseconds,
/// reported in `budget_spent_ms`; when it did not stop it, the move,
/// scores, depth, counters and final table are those of the full
/// deepening (`deepening_run`). The board is left as it was.
pub fn find_best_move(
    b: &mut Board,
    cfg: &SearchConfig,
    pt: &PatternTable,
    tt: &mut TranspositionTable,
) -> (r: (Idx, SearchStats))
    requires
        old(b).wf(),
        tt_wf(old(tt)@),
        cfg.max_depth <= 250,
    ensures
        final(b)@ == old(b)@,
        tt_wf(final(tt)@),
        candidate_moves(old(b)@.cells, old(b)@.to_move).len() == 0 ==> r.0 == 0 && unsearched_stats(r.1)
            && r.1.pv@.len() == 0 && r.1.root_scores@.len() == 0,
        first_win(old(b)@, candidate_moves(old(b)@.cells, old(b)@.to_move), candidate_moves(old(b)@.cells, old(b)@.to_move).len() as int)
            matches Some(w) ==> r.0 == w && unsearched_stats(r.1) && r.1.pv@ == seq![w] && r.1.root_scores@
            == seq![(w, WIN)],
        candidate_moves(old(b)@.cells, old(b)@.to_move).len() > 0 && first_win(
            old(b)@,
            candidate_moves(old(b)@.cells, old(b)@.to_move),
            candidate_moves(old(b)@.cells, old(b)@.to_move).len() as int,
        ) is None ==> searched_result(candidate_moves(old(b)@.cells, old(b)@.to_move), cfg.max_depth, r.0, r.1)
            && r.1.pv@ == pv_walk(
            old(b)@,
            final(tt)@,
            (if r.1.depth_reached > 0 {
                r.1.depth_reached as nat
            } else {
                1nat
            }),
        ),
        candidate_moves(old(b)@.cells, old(b)@.to_move).len() > 0 && first_win(
            old(b)@,
            candidate_moves(old(b)@.cells, old(b)@.to_move),
            candidate_moves(old(b)@.cells, old(b)@.to_move).len() as int,
        ) is None ==> (r.1.budget_spent_ms matches Some(ms) ==> ms >= cfg.time_budget_ms && exists|stop: int|
            #[trigger] deepening_run(old(b)@, old(tt)@, cfg.max_depth, cfg.max_candidates, stop).0 == r.0
                && deepening_run(old(b)@, old(tt)@, cfg.max_depth, cfg.max_candidates, stop).1 == r.1.root_scores@
                && deepening_run(old(b)@, old(tt)@, cfg.max_depth, cfg.max_candidates, stop).2 == r.1.depth_reached),
        candidate_moves(old(b)@.cells, old(b)@.to_move).len() > 0 && first_win(
            old(b)@,
            candidate_moves(old(b)@.cells, old(b)@.to_move),
            candidate_moves(old(b)@.cells, old(b)@.to_move).len() as int,
        ) is None ==> (r.1.budget_spent_ms is None ==> {
            let res = deepening_run(old(b)@, old(tt)@, cfg.max_depth, cfg.max_candidates, 256);
            &&& res.0 == r.0
            &&& res.1 == r.1.root_scores@
            &&& res.2 == r.1.depth_reached
            &&& res.3.tt == final(tt)@
            &&& res.3.nodes == r.1.nodes
            &&& res.3.hits == r.1.tt_hits
            &&& res.3.probes == r.1.tt_probes
        }),
{
    let ghost v0 = b@;
    let ghost tt0 = tt@;
    let start = clock_now();

    let mut candidates: Vec<Idx> = Vec::new();
    let me = b.to_move;
    generate(b, me, pt, &mut candidates);
    let ghost cands = candidates@;
    if candidates.len() == 0 {
        return (
            0,
            SearchStats {
                depth_reached: 0,
                nodes: 0,
                elapsed: elapsed_since(&start),
                pv: Vec::new(),
                root_scores: Vec::new(),
                tt_hits: 0,
                tt_probes: 0,
                budget_spent_ms: None,
            },
        );
    }
    proof {
        lemma_candidate_moves_playable(v0.cells, me);
    }

    let mut i: usize = 0;
    while i < candidates.len()
        invariant
            i <= candidates.len(),
            candidates@ == cands,
            cands == candidate_moves(v0.cells, me),
            me == v0.to_move,
            b.wf(),
            b@ == v0,
            v0 == old(b)@,
            first_win(v0, cands, i as int) is None,
            tt_wf(tt@),
            forall|j: int|
                0 <= j < cands.len() ==> {
                    let c = #[trigger] cands[j] as int;
                    in_board(c) && v0.cells[c] == Cell::Empty
                },
        decreases candidates.len() - i,
    {
        let mv = candidates[i];
        proof {
            assert(in_board(cands[i as int] as int));
        }
        let u = b.play(mv, pt);
        proof {
            lemma_play_undo_roundtrip(v0, mv as int, u);
        }
        let end = check_end(b, mv, pt);
        b.undo(&u);
        if let GameEnd::Win(_) = end {
            proof {
                assert(wins_at(v0, mv as int));
                assert(first_win(v0, cands, i + 1) == Some(mv));
                lemma_first_win_stable(v0, cands, i + 1, cands.len() as int);
            }
            let mut pv: Vec<Idx> = Vec::new();
            pv.push(mv);
            let mut root_scores: Vec<(Idx, i32)> = Vec::new();
            root_scores.push((mv, WIN));
            proof {
                assert(pv@ =~= seq![mv]);
                assert(root_scores@ =~= seq![(mv, WIN)]);
            }
            return (
                mv,
                SearchStats {
                    depth_reached: 0,
                    nodes: 0,
                    elapsed: elapsed_since(&start),
                    pv,
                    root_scores,
                    tt_hits: 0,
                    tt_probes: 0,
                    budget_spent_ms: None,
                },
            );
        }
        proof {
            assert(!wins_at(v0, mv as int));
        }
        i = i + 1;
    }

    let mut ctx = SearchCtx::new(pt, cfg, start, Some(cfg.time_budget_ms));
    let mut best_move = candidates[0];
    let mut last_score: i32 = 0;
    let mut root_scores: Vec<(Idx, i32)> = Vec::new();
    let mut depth_reached: u8 = 0;
    let ghost mut best_score: i32 = 0;
    let ghost maxd = cfg.max_depth;
    let ghost maxc = cfg.max_candidates;
    let ghost s_init = fresh_state(tt0);
    proof {
        assert(ctx.killers@ =~= s_init.killers);
        assert(ctx.history@ =~= s_init.history);
        assert(ctx.state(tt@) == s_init);
        assert(root_scores@ =~= Seq::<(Idx, i32)>::empty());
    }

    let ghost mut witness: int = 1;
    proof {
        assert(run_of(id_run(v0, s_init, 1, maxd, 1, cands[0], 0, Seq::empty(), 0, maxc)) == (best_move, root_scores@, depth_reached));
    }
    let mut depth: u8 = 1;
    while depth <= cfg.max_depth
        invariant_except_break
            !ctx.aborted,
            forall|stop: int|
                stop >= depth ==> #[trigger] id_run(v0, s_init, 1, maxd, stop, cands[0], 0, Seq::empty(), 0, maxc)
                    == id_run(v0, ctx.state(tt@), depth as int, maxd, stop, best_move, last_score, root_scores@, depth_reached, maxc),
        invariant
            1 <= depth <= 251,
            depth_reached <= depth,
            depth_reached <= cfg.max_depth,
            cfg.max_depth <= 250,
            ctx.cfg == cfg,
            ctx.pt == pt,
            ctx.wf(),
            tt_wf(tt@),
            b.wf(),
            b@ == v0,
            v0 == old(b)@,
            me == v0.to_move,
            cands == candidate_moves(v0.cells, me),
            cands.len() > 0,
            cands.contains(best_move),
            depth_reached == 0 ==> best_move == cands[0] && root_scores@.len() == 0,
            forall|j: int| 0 <= j < root_scores@.len() ==> cands.contains(#[trigger] root_scores@[j].0),
            depth_reached > 0 ==> best_of(root_scores@, best_move, best_score),
            maxd == cfg.max_depth,
            maxc == cfg.max_candidates,
            s_init == fresh_state(tt0),
            run_of(id_run(v0, s_init, 1, maxd, witness, cands[0], 0, Seq::empty(), 0, maxc)) == (best_move, root_scores@, depth_reached),
            ctx.budget_ms == Some(cfg.time_budget_ms),
        ensures
            !ctx.aborted ==> id_run(v0, s_init, 1, maxd, 256, cands[0], 0, Seq::empty(), 0, maxc) == (
                best_move,
                root_scores@,
                depth_reached,
                ctx.state(tt@),
            ),
        decreases 251 - depth,
    {
        let ghost s_cur = ctx.state(tt@);
        let ghost prev = (best_move, last_score, root_scores@, depth_reached);
        let step = deepen(b, &mut ctx, tt, depth, last_score);
        let (mv, score, scores) = match step {
            Some(res) => res,
            None => {
                proof {
                    if !ctx.aborted {
                        lemma_id_run_none(v0, s_cur, depth as int, maxd, prev.0, prev.1, prev.2, prev.3, maxc);
                        assert(id_run(v0, s_init, 1, maxd, 256, cands[0], 0, Seq::empty(), 0, maxc)
                            == id_run(v0, s_cur, depth as int, maxd, 256, prev.0, prev.1, prev.2, prev.3, maxc));
                    }
                }
                break;
            },
        };
        let ghost r = (mv, score, scores@, ctx.state(tt@));
        best_move = mv;
        last_score = score;
        root_scores = scores;
        depth_reached = depth;
        proof {
            best_score = score;
        }

        if last_score >= WIN - 1000 {
            proof {
                lemma_id_run_win(v0, s_cur, depth as int, maxd, prev.0, prev.1, prev.2, prev.3, maxc, r);
                assert(id_run(v0, s_init, 1, maxd, 256, cands[0], 0, Seq::empty(), 0, maxc)
                    == id_run(v0, s_cur, depth as int, maxd, 256, prev.0, prev.1, prev.2, prev.3, maxc));
                assert(id_run(v0, s_init, 1, maxd, depth + 1, cands[0], 0, Seq::empty(), 0, maxc)
                    == id_run(v0, s_cur, depth as int, maxd, depth + 1, prev.0, prev.1, prev.2, prev.3, maxc));
                witness = depth + 1;
            }
            break;
        }
        proof {
            lemma_id_run_advance(v0, s_cur, depth as int, maxd, prev.0, prev.1, prev.2, prev.3, maxc, r);
        }
        depth = depth + 1;
        proof {
            witness = depth as int;
            if depth > cfg.max_depth {
                assert(id_run(v0, s_init, 1, maxd, 256, cands[0], 0, Seq::empty(), 0, maxc)
                    == id_run(v0, ctx.state(tt@), depth as int, maxd, 256, best_move, last_score, root_scores@, depth_reached, maxc));
            }
        }
    }

    let pv_len: usize = if depth_reached > 0 {
        depth_reached as usize
    } else {
        1
    };
    let pv = extract_pv(b, tt, pt, pv_len);
    proof {
        lemma_pv_walk_len(v0, tt@, pv_len as nat);
    }
    let budget_spent_ms = if ctx.aborted {
        Some(ctx.spent_ms)
    } else {
        None
    };
    let stats = SearchStats {
        depth_reached,
        nodes: ctx.nodes,
        elapsed: elapsed_since(&start),
        pv,
        root_scores,
        tt_hits: ctx.tt_hits,
        tt_probes: ctx.tt_probes,
        budget_spent_ms,
    };
    proof {
        if depth_reached > 0 {
            assert(best_of(stats.root_scores@, best_move, best_score));
        }
        assert(searched_result(cands, cfg.max_depth, best_move, stats));
        assert(run_of(deepening_run(v0, tt0, cfg.max_depth, cfg.max_candidates, witness)) == (
            best_move,
            stats.root_scores@,
            stats.depth_reached,
        ));
    }
    (best_move, stats)
}

/// Once a win is found among the first `n` moves, looking at more moves
/// finds the same one.
proof fn lemma_first_win_stable(v: BoardView, cands: Seq<u16>, n: int, m: int)
    requires
        0 <= n <= m,
        first_win(v, cands, n) is Some,
    ensures
        first_win(v, cands, m) == first_win(v, cands, n),
    decreases m - n,
{
    if m > n {
        lemma_first_win_stable(v, cands, n, m - 1);
    }
}

} // verus!
