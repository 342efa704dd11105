//! The precomputed nine-cell pattern table.
//!
//! A window is the nine cells `c + k*d` for `k` in `-4..=4` along one axis,
//! each encoded relative to the player being scored: empty = 0, own stone =
//! 1, opponent stone or wall = 2. The window's code is the base-3 number
//! whose `k`-th trit (weight `3^k`) is window slot `k`; slot 4 is the
//! center.
use vstd::prelude::*;

verus! {

/// Width of a pattern window.
pub const W: usize = 9;

/// Position of the window's center cell.
pub const C: usize = 4;

/// Number of distinct window codes, `3^9`.
pub const TABLE_SIZE: usize = 19_683;

/// Powers of three, one per window slot.
pub const POW3: [u32; 9] = [1, 3, 9, 27, 81, 243, 729, 2187, 6561];

pub const F_FIVE: u8 = 1;
pub const F_OPEN_FOUR: u8 = 2;
pub const F_FOUR: u8 = 4;
pub const F_FREE_THREE: u8 = 8;
pub const F_THREE: u8 = 16;

/// One table entry: a heuristic score and the set of shape flags.
#[derive(Copy, Clone, Debug, PartialEq, Eq, Structural)]
pub struct Pat {
    pub score: i32,
    pub flags: u8,
}

impl Default for Pat {
    fn default() -> (r: Pat)
        ensures
            r == pat_none(),
    {
        Pat { score: 0, flags: 0 }
    }
}

/// The entry of a window whose center is not one of the scored player's
/// stones: no score, no flags.
pub open spec fn pat_none() -> Pat {
    Pat { score: 0, flags: 0 }
}

// ---------------------------------------------------------------------------
// Window codes

pub open spec fn pow3(k: nat) -> nat
    decreases k,
{
    if k == 0 {
        1
    } else {
        3 * pow3((k - 1) as nat)
    }
}

/// The trit at window slot `k` of `code`.
pub open spec fn trit_of(code: nat, k: nat) -> nat {
    (code / pow3(k)) % 3
}

/// The nine-slot window that `code` encodes.
pub open spec fn decode_spec(code: nat) -> Seq<u8> {
    Seq::new(9, |k: int| trit_of(code, k as nat) as u8)
}

/// Sum of `w[k] * 3^k` over the first `n` slots.
pub open spec fn encode_prefix(w: Seq<u8>, n: nat) -> nat
    decreases n,
{
    if n == 0 {
        0
    } else {
        encode_prefix(w, (n - 1) as nat) + w[n - 1] as nat * pow3((n - 1) as nat)
    }
}

/// The code of a nine-slot window.
pub open spec fn encode_spec(w: Seq<u8>) -> nat {
    encode_prefix(w, 9)
}

pub proof fn lemma_pow3_values()
    ensures
        pow3(0) == 1,
        pow3(1) == 3,
        pow3(2) == 9,
        pow3(3) == 27,
        pow3(4) == 81,
        pow3(5) == 243,
        pow3(6) == 729,
        pow3(7) == 2187,
        pow3(8) == 6561,
        pow3(9) == 19683,
{
    reveal_with_fuel(pow3, 10);
}

/// The part of a window's code from slot `k` up, scaled down by `3^k`.
pub open spec fn encode_from(w: Seq<u8>, k: int) -> nat
    decreases 9 - k,
{
    if k >= 9 {
        0
    } else {
        w[k] as nat + 3 * encode_from(w, k + 1)
    }
}

pub proof fn lemma_encode_prefix_bound(w: Seq<u8>, k: nat)
    requires
        k <= 9,
        w.len() == 9,
        forall|j: int| 0 <= j < 9 ==> w[j] < 3,
    ensures
        encode_prefix(w, k) < pow3(k),
    decreases k,
{
    reveal_with_fuel(pow3, 1);
    if k > 0 {
        let km = (k - 1) as nat;
        lemma_encode_prefix_bound(w, km);
        let p = pow3(km);
        assert(w[km as int] as nat * p <= 2 * p) by (nonlinear_arith)
            requires
                w[km as int] < 3,
        ;
    }
}

proof fn lemma_encode_split(w: Seq<u8>, k: nat)
    requires
        k <= 9,
        w.len() == 9,
        forall|j: int| 0 <= j < 9 ==> w[j] < 3,
    ensures
        encode_spec(w) == encode_prefix(w, k) + pow3(k) * encode_from(w, k as int),
        encode_prefix(w, k) < pow3(k),
    decreases 9 - k,
{
    lemma_encode_prefix_bound(w, k);
    reveal_with_fuel(pow3, 1);
    if k < 9 {
        lemma_encode_split(w, (k + 1) as nat);
        let p = pow3(k);
        let hi = encode_from(w, k + 1 as int);
        assert(encode_from(w, k as int) == w[k as int] as nat + 3 * hi);
        assert(pow3(k + 1) == 3 * p);
        assert(p * (w[k as int] as nat + 3 * hi) == w[k as int] as nat * p + (3 * p) * hi)
            by (nonlinear_arith);
        assert(encode_prefix(w, (k + 1) as nat) == encode_prefix(w, k) + w[k as int] as nat * p);
        assert(pow3((k + 1) as nat) * hi == (3 * p) * hi);
    } else {
        assert(encode_from(w, 9) == 0);
        assert(pow3(k) * encode_from(w, k as int) == 0);
    }
}

/// Decoding the code of a window of trits gives the window back.
pub proof fn lemma_decode_encode(w: Seq<u8>)
    requires
        w.len() == 9,
        forall|j: int| 0 <= j < 9 ==> w[j] < 3,
    ensures
        encode_spec(w) < TABLE_SIZE,
        decode_spec(encode_spec(w)) == w,
{
    lemma_pow3_values();
    lemma_encode_split(w, 9);
    reveal_with_fuel(encode_from, 2);
    assert forall|k: int| 0 <= k < 9 implies #[trigger] decode_spec(encode_spec(w))[k] == w[k] by {
        lemma_encode_split(w, k as nat);
        lemma_pow3_pos(k as nat);
        let x = encode_spec(w) as int;
        let pk = pow3(k as nat) as int;
        let hi = encode_from(w, k) as int;
        let lo = encode_prefix(w, k as nat) as int;
        assert(x == hi * pk + lo) by (nonlinear_arith)
            requires
                x == lo + pk * hi,
        ;
        vstd::arithmetic::div_mod::lemma_fundamental_div_mod_converse_div(x, pk, hi, lo);
        assert(hi == w[k] as int + 3 * encode_from(w, k + 1));
        vstd::arithmetic::div_mod::lemma_fundamental_div_mod_converse_mod(hi, 3, encode_from(w, k + 1) as int, w[k] as int);
    }
    assert(decode_spec(encode_spec(w)) =~= w);
}

// ---------------------------------------------------------------------------
// Classification of a window

/// Leftmost slot of the run of own stones reaching slot `l` from the right.
pub open spec fn ext_left(w: Seq<u8>, l: int) -> int
    decreases l,
{
    if l > 0 && w[l - 1] == 1 {
        ext_left(w, l - 1)
    } else {
        l
    }
}

/// Rightmost slot of the run of own stones reaching slot `r` from the left.
pub open spec fn ext_right(w: Seq<u8>, r: int) -> int
    decreases 8 - r,
{
    if r < 8 && w[r + 1] == 1 {
        ext_right(w, r + 1)
    } else {
        r
    }
}

/// Left end of the run of own stones through the center.
pub open spec fn run_l(w: Seq<u8>) -> int {
    ext_left(w, 4)
}

/// Right end of the run of own stones through the center.
pub open spec fn run_r(w: Seq<u8>) -> int {
    ext_right(w, 4)
}

/// Length of the run of own stones through the center.
pub open spec fn run_n(w: Seq<u8>) -> int {
    run_r(w) - run_l(w) + 1
}

/// The run through the center ends at the window edge or at an empty cell
/// on its left.
pub open spec fn open_l(w: Seq<u8>) -> bool {
    run_l(w) == 0 || w[run_l(w) - 1] == 0
}

/// The run through the center ends at the window edge or at an empty cell
/// on its right.
pub open spec fn open_r(w: Seq<u8>) -> bool {
    run_r(w) == 8 || w[run_r(w) + 1] == 0
}

/// `w` with an own stone added at slot `e`.
pub open spec fn fill(w: Seq<u8>, e: int) -> Seq<u8> {
    w.update(e, 1)
}

/// Some single empty slot, once filled, gives a run of five or more
/// through the center.
pub open spec fn makes_five(w: Seq<u8>) -> bool {
    exists|e: int| 0 <= e < 9 && w[e] == 0 && run_n(#[trigger] fill(w, e)) >= 5
}

/// Some single empty slot among `1..=7`, once filled, gives a run of
/// exactly four through the center with both ends empty.
pub open spec fn makes_open_four(w: Seq<u8>) -> bool {
    exists|e: int|
        1 <= e <= 7 && w[e] == 0 && {
            let w2 = #[trigger] fill(w, e);
            run_n(w2) == 4 && open_l(w2) && open_r(w2)
        }
}

pub open spec fn is_five(w: Seq<u8>) -> bool {
    w[4] == 1 && run_n(w) >= 5
}

pub open spec fn is_open_four(w: Seq<u8>) -> bool {
    w[4] == 1 && run_n(w) == 4 && open_l(w) && open_r(w)
}

pub open spec fn is_four(w: Seq<u8>) -> bool {
    w[4] == 1 && ((run_n(w) == 4 && !(open_l(w) && open_r(w))) || (run_n(w) < 5 && makes_five(
        w,
    )))
}

pub open spec fn is_three(w: Seq<u8>) -> bool {
    w[4] == 1 && run_n(w) == 3 && (open_l(w) || open_r(w))
}

pub open spec fn is_free_three(w: Seq<u8>) -> bool {
    w[4] == 1 && !is_five(w) && !is_four(w) && !is_open_four(w) && makes_open_four(w)
}

pub open spec fn bit(b: bool, v: u8) -> u8 {
    if b {
        v
    } else {
        0
    }
}

/// The flag byte of a window.
pub open spec fn flags_spec(w: Seq<u8>) -> u8 {
    (bit(is_five(w), F_FIVE) + bit(is_open_four(w), F_OPEN_FOUR) + bit(is_four(w), F_FOUR) + bit(
        is_free_three(w),
        F_FREE_THREE,
    ) + bit(is_three(w), F_THREE)) as u8
}

/// The score of a window, from its strongest shape.
pub open spec fn score_spec(w: Seq<u8>) -> i32 {
    if w[4] != 1 {
        0
    } else if is_five(w) {
        10_000_000
    } else if is_open_four(w) {
        500_000
    } else if is_four(w) {
        50_000
    } else if is_free_three(w) {
        20_000
    } else if is_three(w) {
        2_000
    } else if run_n(w) == 2 {
        if open_l(w) && open_r(w) {
            300
        } else if open_l(w) || open_r(w) {
            50
        } else {
            0
        }
    } else if run_n(w) == 1 {
        if open_l(w) && open_r(w) {
            5
        } else {
            0
        }
    } else {
        0
    }
}

/// The table entry of a window.
pub open spec fn classify_spec(w: Seq<u8>) -> Pat {
    Pat { score: score_spec(w), flags: flags_spec(w) }
}

/// The table entry of a code.
pub open spec fn pat_spec(code: nat) -> Pat {
    classify_spec(decode_spec(code))
}

/// Facts about a flag byte built from five flags.
pub proof fn lemma_flag_bits(a: bool, b: bool, c: bool, d: bool, e: bool)
    ensures
        ({
            let x = (bit(a, 1) + bit(b, 2) + bit(c, 4) + bit(d, 8) + bit(e, 16)) as u8;
            &&& (x & F_FIVE != 0) == a
            &&& (x & F_OPEN_FOUR != 0) == b
            &&& (x & F_FOUR != 0) == c
            &&& (x & F_FREE_THREE != 0) == d
            &&& (x & F_THREE != 0) == e
            &&& (x & (F_FIVE | F_OPEN_FOUR | F_FOUR) != 0) == (a || b || c)
        }),
{
    let a1: u8 = bit(a, 1);
    let b1: u8 = bit(b, 2);
    let c1: u8 = bit(c, 4);
    let d1: u8 = bit(d, 8);
    let e1: u8 = bit(e, 16);
    let x: u8 = (a1 + b1 + c1 + d1 + e1) as u8;
    assert(
        (a1 == 0 || a1 == 1) && (b1 == 0 || b1 == 2) && (c1 == 0 || c1 == 4) && (d1 == 0 || d1 == 8)
            && (e1 == 0 || e1 == 16) && x == (a1 + b1 + c1 + d1 + e1) as u8 ==> {
            &&& (x & 1 != 0) == (a1 == 1)
            &&& (x & 2 != 0) == (b1 == 2)
            &&& (x & 4 != 0) == (c1 == 4)
            &&& (x & 8 != 0) == (d1 == 8)
            &&& (x & 16 != 0) == (e1 == 16)
            &&& (x & (1u8 | 2u8 | 4u8) != 0) == (a1 == 1 || b1 == 2 || c1 == 4)
        }
    ) by (bit_vector);
}

/// The flag byte of a window, read back flag by flag.
pub proof fn lemma_flags_spec_bits(w: Seq<u8>)
    ensures
        (flags_spec(w) & F_FIVE != 0) == is_five(w),
        (flags_spec(w) & F_OPEN_FOUR != 0) == is_open_four(w),
        (flags_spec(w) & F_FOUR != 0) == is_four(w),
        (flags_spec(w) & F_FREE_THREE != 0) == is_free_three(w),
        (flags_spec(w) & F_THREE != 0) == is_three(w),
        (flags_spec(w) & (F_FIVE | F_OPEN_FOUR | F_FOUR) != 0) == (is_five(w) || is_open_four(w)
            || is_four(w)),
{
    lemma_flag_bits(is_five(w), is_open_four(w), is_four(w), is_free_three(w), is_three(w));
}

// ---------------------------------------------------------------------------
// The table

/// All 19,683 entries, entry `code` being `pat_spec(code)`.
pub struct PatternTable {
    entries: Vec<Pat>,
}

impl PatternTable {
    #[verifier::type_invariant]
    spec fn inv(self) -> bool {
        &&& self.entries.len() == TABLE_SIZE
        &&& forall|code: int| 0 <= code < TABLE_SIZE ==> #[trigger] self.entries@[code] == pat_spec(code as nat)
    }

    /// Builds all 19,683 entries. Deterministic.
    pub fn build() -> (t: PatternTable)
        ensures
            forall|code: u32| #[trigger] t.get_spec(code) == table_entry(code),
    {
        let mut entries: Vec<Pat> = Vec::new();
        let mut code: u32 = 0;
        while code < 19_683
            invariant
                code <= TABLE_SIZE,
                entries.len() == code,
                forall|c: int| 0 <= c < code ==> #[trigger] entries@[c] == pat_spec(c as nat),
            decreases TABLE_SIZE - code,
        {
            let w = decode_window(code);
            let p = classify(w);
            entries.push(p);
            code = code + 1;
        }
        PatternTable { entries }
    }

    /// The entry a lookup of `code` returns: the stored entry, or
    /// `pat_none()` beyond the table.
    pub closed spec fn get_spec(&self, code: u32) -> Pat {
        if (code as int) < self.entries.len() {
            self.entries@[code as int]
        } else {
            pat_none()
        }
    }

    /// The entry of `code`; a code beyond the table reads as `pat_none()`.
    pub fn get(&self, code: u32) -> (p: Pat)
        ensures
            p == table_entry(code),
            p == self.get_spec(code),
    {
        proof {
            use_type_invariant(self);
        }
        if (code as usize) < self.entries.len() {
            self.entries[code as usize]
        } else {
            Pat::default()
        }
    }
}

/// What a lookup of `code` gives.
pub open spec fn table_entry(code: u32) -> Pat {
    if code < TABLE_SIZE {
        pat_spec(code as nat)
    } else {
        pat_none()
    }
}

// ---------------------------------------------------------------------------
// Building blocks

proof fn lemma_pow3_pos(k: nat)
    ensures
        pow3(k) > 0,
    decreases k,
{
    if k > 0 {
        lemma_pow3_pos((k - 1) as nat);
    }
}

fn decode_window(code: u32) -> (w: [u8; 9])
    ensures
        w@ == decode_spec(code as nat),
{
    let mut w = [0u8; 9];
    let mut c = code;
    let mut k: usize = 0;
    proof {
        reveal_with_fuel(pow3, 1);
        assert(pow3(0) == 1);
        assert(code as nat / 1 == code as nat);
    }
    while k < 9
        invariant
            k <= 9,
            c as nat == code as nat / pow3(k as nat),
            w@.len() == 9,
            forall|j: int| 0 <= j < k ==> w@[j] as nat == trit_of(code as nat, j as nat),
        decreases 9 - k,
    {
        proof {
            lemma_pow3_pos(k as nat);
            assert(pow3((k + 1) as nat) == pow3(k as nat) * 3);
            vstd::arithmetic::div_mod::lemma_div_denominator(code as int, pow3(k as nat) as int, 3);
        }
        w[k] = (c % 3) as u8;
        c = c / 3;
        k = k + 1;
    }
    assert(w@ =~= decode_spec(code as nat));
    w
}

/// Run of own stones through the center, inclusive bounds `[l, r]`.
fn center_run(w: &[u8; 9]) -> (lr: (usize, usize))
    ensures
        lr.0 == ext_left(w@, 4),
        lr.1 == ext_right(w@, 4),
        lr.0 <= 4 <= lr.1 <= 8,
{
    let mut l: usize = 4;
    while l > 0 && w[l - 1] == 1
        invariant
            l <= 4,
            ext_left(w@, l as int) == ext_left(w@, 4),
        decreases l,
    {
        l = l - 1;
    }
    let mut r: usize = 4;
    while r < 8 && w[r + 1] == 1
        invariant
            4 <= r <= 8,
            ext_right(w@, r as int) == ext_right(w@, 4),
        decreases 8 - r,
    {
        r = r + 1;
    }
    (l, r)
}

/// Classifies one window (see the module documentation for the encoding).
fn classify(w: [u8; 9]) -> (p: Pat)
    ensures
        p == classify_spec(w@),
{
    if w[4] != 1 {
        return Pat::default();
    }
    let (l, r) = center_run(&w);
    let n = r - l + 1;
    let open_left = l == 0 || w[l - 1] == 0;
    let open_right = r == 8 || w[r + 1] == 0;

    let five = n >= 5;
    let open_four = !five && n == 4 && open_left && open_right;
    let mut four = !five && n == 4 && !(open_left && open_right);
    let three = !five && n == 3 && (open_left || open_right);

    if !five {
        let mut e: usize = 0;
        let mut found = false;
        while e < 9 && !found
            invariant
                e <= 9,
                w@[4] == 1,
                found == (exists|j: int| 0 <= j < e && w@[j] == 0 && run_n(#[trigger] fill(w@, j)) >= 5),
            decreases 9 - e,
        {
            if w[e] == 0 {
                let mut w2 = w;
                w2[e] = 1;
                assert(w2@ =~= fill(w@, e as int));
                let (l2, r2) = center_run(&w2);
                if r2 - l2 + 1 >= 5 {
                    found = true;
                }
            }
            e = e + 1;
        }
        assert(found == makes_five(w@));
        if found {
            four = true;
        }
    }

    let mut free_three = false;
    if !five && !four && !open_four {
        let mut e: usize = 1;
        while e <= 7 && !free_three
            invariant
                1 <= e <= 8,
                w@[4] == 1,
                free_three == (exists|j: int|
                    1 <= j < e && w@[j] == 0 && {
                        let w2 = #[trigger] fill(w@, j);
                        run_n(w2) == 4 && open_l(w2) && open_r(w2)
                    }),
            decreases 8 - e,
        {
            if w[e] == 0 {
                let mut w2 = w;
                w2[e] = 1;
                assert(w2@ =~= fill(w@, e as int));
                let (l2, r2) = center_run(&w2);
                let n2 = r2 - l2 + 1;
                let open_left2 = l2 == 0 || w2[l2 - 1] == 0;
                let open_right2 = r2 == 8 || w2[r2 + 1] == 0;
                if n2 == 4 && open_left2 && open_right2 {
                    free_three = true;
                }
            }
            e = e + 1;
        }
        assert(free_three == makes_open_four(w@));
    }

    let flags: u8 = (if five { F_FIVE } else { 0 }) + (if open_four { F_OPEN_FOUR } else { 0 }) + (
    if four { F_FOUR } else { 0 }) + (if free_three { F_FREE_THREE } else { 0 }) + (if three {
        F_THREE
    } else {
        0
    });

    let score: i32 = if five {
        10_000_000
    } else if open_four {
        500_000
    } else if four {
        50_000
    } else if free_three {
        20_000
    } else if three {
        2_000
    } else if n == 2 {
        if open_left && open_right {
            300
        } else if open_left || open_right {
            50
        } else {
            0
        }
    } else if n == 1 {
        if open_left && open_right {
            5
        } else {
            0
        }
    } else {
        0
    };

    Pat { score, flags }
}

} // verus!
