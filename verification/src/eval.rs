//! Static evaluation of a position.
use vstd::prelude::*;
use crate::board::{player_slot, Board, Player, opponent, slot, wrap32, lemma_wrapping_add_i32};

verus! {

/// Score of a won game.
pub const WIN: i32 = 100_000_000;

/// Bonus by number of pairs captured. Non-linear on purpose: the 4th pair
/// is worth far more than the 1st, since it puts the opponent one capture
/// from losing outright and makes every one of their fives breakable.
pub const CAP_BONUS: [i32; 6] = [0, 4_000, 12_000, 30_000, 90_000, 10_000_000];

/// The capture bonus for `stones` captured stones: by pairs, with five
/// pairs or more worth the last entry.
pub open spec fn cap_bonus_spec(stones: u8) -> int {
    let pairs = stones / 2;
    if pairs == 0 {
        0
    } else if pairs == 1 {
        4_000
    } else if pairs == 2 {
        12_000
    } else if pairs == 3 {
        30_000
    } else if pairs == 4 {
        90_000
    } else {
        10_000_000
    }
}

/// Score of a board from the point of view of the side to move: its
/// accumulator plus capture bonus, minus the opponent's (wrapping).
pub open spec fn eval_spec(acc: Seq<i32>, captures: Seq<u8>, me: Player) -> int {
    let op = opponent(me);
    wrap32(
        (acc[slot(me)] + cap_bonus_spec(captures[slot(me)])) - (acc[slot(op)] + cap_bonus_spec(
            captures[slot(op)],
        )),
    )
}

/// Score of the current position from `b.to_move`'s point of view
/// (negamax convention). The accumulator already includes the
/// vulnerability penalty; the capture bonus is applied here.
pub fn evaluate(b: &Board) -> (r: i32)
    ensures
        r as int == eval_spec(b@.acc, b@.captures, b@.to_move),
{
    let me = b.to_move;
    let op = me.other();
    let me_bonus = cap_bonus(player_slot(b.captures, me));
    let op_bonus = cap_bonus(player_slot(b.captures, op));
    let am = player_slot(b.acc, me);
    let ao = player_slot(b.acc, op);
    let a = am.wrapping_add(me_bonus);
    let c = ao.wrapping_add(op_bonus);
    let r = a.wrapping_sub(c);
    proof {
        lemma_wrapping_add_i32(am, me_bonus);
        lemma_wrapping_add_i32(ao, op_bonus);
        lemma_wrapping_sub_i32(a, c);
        lemma_wrap32_sub(am + me_bonus, ao + op_bonus);
    }
    r
}

proof fn lemma_wrapping_sub_i32(a: i32, b: i32)
    ensures
        vstd::wrapping::i32_specs::wrapping_sub(a, b) as int == wrap32(a - b),
{
    let m: int = 0x1_0000_0000;
    let h: int = 0x8000_0000;
    let s = a - b;
    if s > i32::MAX {
        vstd::arithmetic::div_mod::lemma_fundamental_div_mod_converse_mod(s + h, m, 1, s + h - m);
    } else if s < i32::MIN {
        vstd::arithmetic::div_mod::lemma_fundamental_div_mod_converse_mod(s + h, m, -1, s + h + m);
    } else {
        vstd::arithmetic::div_mod::lemma_fundamental_div_mod_converse_mod(s + h, m, 0, s + h);
    }
}

proof fn lemma_wrap32_sub(x: int, y: int)
    ensures
        wrap32(wrap32(x) - wrap32(y)) == wrap32(x - y),
{
    let m: int = 0x1_0000_0000;
    let h: int = 0x8000_0000;
    vstd::arithmetic::div_mod::lemma_fundamental_div_mod(x + h, m);
    vstd::arithmetic::div_mod::lemma_fundamental_div_mod(y + h, m);
    let qx = (x + h) / m;
    let qy = (y + h) / m;
    assert(wrap32(x) - wrap32(y) == (x - y) - m * (qx - qy));
    assert((x - y) - m * (qx - qy) + h == (x - y + h) + m * (qy - qx));
    vstd::arithmetic::div_mod::lemma_mod_multiples_vanish(qy - qx, x - y + h, m);
}

/// Bonus for `stones_captured` stones, by pairs.
fn cap_bonus(stones_captured: u8) -> (r: i32)
    ensures
        r as int == cap_bonus_spec(stones_captured),
{
    let pairs = (stones_captured / 2) as usize;
    if pairs < 6 {
        CAP_BONUS[pairs]
    } else {
        CAP_BONUS[5]
    }
}


/// Negamax convention: the score for one side is the negation of the score
/// for the other (wrapping).
pub proof fn lemma_eval_antisymmetric(acc: Seq<i32>, captures: Seq<u8>, me: Player)
    ensures
        eval_spec(acc, captures, me) == wrap32(-eval_spec(acc, captures, opponent(me))),
{
    let op = opponent(me);
    let x = (acc[slot(me)] + cap_bonus_spec(captures[slot(me)])) - (acc[slot(op)] + cap_bonus_spec(
        captures[slot(op)],
    ));
    assert(opponent(op) == me);
    lemma_wrap32_neg(x);
}

proof fn lemma_wrap32_neg(x: int)
    ensures
        wrap32(x) == wrap32(-wrap32(-x)),
{
    let m: int = 0x1_0000_0000;
    let h: int = 0x8000_0000;
    vstd::arithmetic::div_mod::lemma_fundamental_div_mod(-x + h, m);
    let q = (-x + h) / m;
    assert(-wrap32(-x) == x + m * q);
    assert(x + m * q + h == (x + h) + m * q);
    vstd::arithmetic::div_mod::lemma_mod_multiples_vanish(q, x + h, m);
}

/// Capturing more stones never lowers the capture bonus.
pub proof fn lemma_cap_bonus_monotone(a: u8, b: u8)
    requires
        a <= b,
    ensures
        cap_bonus_spec(a) <= cap_bonus_spec(b),
{
    assert(a / 2 <= b / 2);
}

} // verus!
