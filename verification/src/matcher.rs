//! The combination matcher: one pure check per scoring combination, each
//! telling whether a hand satisfies the combination and, if so, how many
//! points it would score.

use vstd::prelude::*;

use crate::hand::{
    count_in_hand, count_value, five_of_a_kind, four_of_a_kind, full_house, hand_sum, straight,
    three_of_a_kind, valid_hand, Dice,
};

verus! {

/// Outcome of testing one combination against a hand: matched with a score,
/// or not matched at all. Never a bare boolean, since the score differs per
/// combination and must reach the caller.
#[derive(Clone, Copy, Debug, PartialEq, Eq, Structural)]
pub enum CombinationResult {
    Matched(u32),
    NotMatched,
}

/// The scoring combinations of the game.
#[derive(Clone, Copy, Debug, PartialEq, Eq, Structural)]
pub enum Combination {
    FourOfAKind,
    FullHouse,
    ThreeOfAKind,
    Straight,
    Yams,
    Chance,
}

pub const YAMS_SCORE: u32 = 50;

pub const STRAIGHT_SCORE: u32 = 40;

pub const FOUR_OF_A_KIND_SCORE: u32 = 35;

pub const FULL_HOUSE_SCORE: u32 = 30;

pub const THREE_OF_A_KIND_SCORE: u32 = 28;

/// What testing a combination against a hand yields: the fixed score of the
/// combination when its shape predicate holds, or the hand's sum for Chance,
/// which matches every hand.
pub open spec fn combo_result(c: Combination, s: Seq<u8>) -> CombinationResult
    recommends
        valid_hand(s),
{
    match c {
        Combination::Yams => if five_of_a_kind(s) {
            CombinationResult::Matched(YAMS_SCORE)
        } else {
            CombinationResult::NotMatched
        },
        Combination::Straight => if straight(s) {
            CombinationResult::Matched(STRAIGHT_SCORE)
        } else {
            CombinationResult::NotMatched
        },
        Combination::FourOfAKind => if four_of_a_kind(s) {
            CombinationResult::Matched(FOUR_OF_A_KIND_SCORE)
        } else {
            CombinationResult::NotMatched
        },
        Combination::FullHouse => if full_house(s) {
            CombinationResult::Matched(FULL_HOUSE_SCORE)
        } else {
            CombinationResult::NotMatched
        },
        Combination::ThreeOfAKind => if three_of_a_kind(s) {
            CombinationResult::Matched(THREE_OF_A_KIND_SCORE)
        } else {
            CombinationResult::NotMatched
        },
        Combination::Chance => CombinationResult::Matched(hand_sum(s) as u32),
    }
}

/// All five dice show the same value.
pub fn is_yams(dice: &Dice) -> (r: bool)
    ensures
        r == five_of_a_kind(dice@),
{
    dice[1] == dice[0] && dice[2] == dice[0] && dice[3] == dice[0] && dice[4] == dice[0]
}

pub fn check_yams(dice: &Dice) -> (r: CombinationResult)
    ensures
        r == combo_result(Combination::Yams, dice@),
{
    if is_yams(dice) {
        CombinationResult::Matched(YAMS_SCORE)
    } else {
        CombinationResult::NotMatched
    }
}

/// Each of the straight's five values appears exactly once.
pub fn contains_straight(dice: &Dice) -> (r: bool)
    ensures
        r == straight(dice@),
{
    (count_value(dice, 1) == 1 && count_value(dice, 2) == 1 && count_value(dice, 3) == 1
        && count_value(dice, 4) == 1 && count_value(dice, 5) == 1) || (count_value(dice, 2) == 1
        && count_value(dice, 3) == 1 && count_value(dice, 4) == 1 && count_value(dice, 5) == 1
        && count_value(dice, 6) == 1)
}

pub fn check_straight(dice: &Dice) -> (r: CombinationResult)
    ensures
        r == combo_result(Combination::Straight, dice@),
{
    if contains_straight(dice) {
        CombinationResult::Matched(STRAIGHT_SCORE)
    } else {
        CombinationResult::NotMatched
    }
}

/// Some die value of the hand appears at least four times.
pub fn contains_four_of_a_kind(dice: &Dice) -> (r: bool)
    ensures
        r == four_of_a_kind(dice@),
{
    let r = count_value(dice, dice[0]) >= 4 || count_value(dice, dice[1]) >= 4 || count_value(
        dice,
        dice[2],
    ) >= 4 || count_value(dice, dice[3]) >= 4 || count_value(dice, dice[4]) >= 4;
    proof {
        if !r {
            assert forall|v: u8| count_in_hand(dice@, v) < 4 by {
                if count_in_hand(dice@, v) >= 4 {
                    crate::hand::lemma_counted_value_is_in_hand(dice@, v);
                }
            }
        }
    }
    r
}

pub fn check_four_of_a_kind(dice: &Dice) -> (r: CombinationResult)
    ensures
        r == combo_result(Combination::FourOfAKind, dice@),
{
    if contains_four_of_a_kind(dice) {
        CombinationResult::Matched(FOUR_OF_A_KIND_SCORE)
    } else {
        CombinationResult::NotMatched
    }
}

/// Some die value of the hand appears at least three times.
pub fn contains_three_of_a_kind(dice: &Dice) -> (r: bool)
    ensures
        r == three_of_a_kind(dice@),
{
    let r = count_value(dice, dice[0]) >= 3 || count_value(dice, dice[1]) >= 3 || count_value(
        dice,
        dice[2],
    ) >= 3 || count_value(dice, dice[3]) >= 3 || count_value(dice, dice[4]) >= 3;
    proof {
        if !r {
            assert forall|v: u8| count_in_hand(dice@, v) < 3 by {
                if count_in_hand(dice@, v) >= 3 {
                    crate::hand::lemma_counted_value_is_in_hand(dice@, v);
                }
            }
        }
    }
    r
}

pub fn check_three_of_a_kind(dice: &Dice) -> (r: CombinationResult)
    ensures
        r == combo_result(Combination::ThreeOfAKind, dice@),
{
    if contains_three_of_a_kind(dice) {
        CombinationResult::Matched(THREE_OF_A_KIND_SCORE)
    } else {
        CombinationResult::NotMatched
    }
}

/// Some die value appears exactly three times and another exactly twice.
pub fn contains_full_house(dice: &Dice) -> (r: bool)
    ensures
        r == full_house(dice@),
{
    let has_triple = count_value(dice, dice[0]) == 3 || count_value(dice, dice[1]) == 3
        || count_value(dice, dice[2]) == 3 || count_value(dice, dice[3]) == 3 || count_value(
        dice,
        dice[4],
    ) == 3;
    let has_pair = count_value(dice, dice[0]) == 2 || count_value(dice, dice[1]) == 2
        || count_value(dice, dice[2]) == 2 || count_value(dice, dice[3]) == 2 || count_value(
        dice,
        dice[4],
    ) == 2;
    proof {
        if !has_triple {
            assert forall|v: u8| count_in_hand(dice@, v) != 3 by {
                if count_in_hand(dice@, v) == 3 {
                    crate::hand::lemma_counted_value_is_in_hand(dice@, v);
                }
            }
        }
        if !has_pair {
            assert forall|v: u8| count_in_hand(dice@, v) != 2 by {
                if count_in_hand(dice@, v) == 2 {
                    crate::hand::lemma_counted_value_is_in_hand(dice@, v);
                }
            }
        }
    }
    has_triple && has_pair
}

pub fn check_full_house(dice: &Dice) -> (r: CombinationResult)
    ensures
        r == combo_result(Combination::FullHouse, dice@),
{
    if contains_full_house(dice) {
        CombinationResult::Matched(FULL_HOUSE_SCORE)
    } else {
        CombinationResult::NotMatched
    }
}

/// Chance scores the raw sum of the hand; it matches every hand.
pub fn calculate_chance_score(dice: &Dice) -> (r: u32)
    requires
        valid_hand(dice@),
    ensures
        r as int == hand_sum(dice@),
{
    let sum: u8 = dice[0] + dice[1] + dice[2] + dice[3] + dice[4];
    sum as u32
}

pub fn check_chance(dice: &Dice) -> (r: CombinationResult)
    requires
        valid_hand(dice@),
    ensures
        r == combo_result(Combination::Chance, dice@),
{
    CombinationResult::Matched(calculate_chance_score(dice))
}

/// Evaluate one combination against a hand.
pub fn evaluate_combination(c: Combination, dice: &Dice) -> (r: CombinationResult)
    requires
        valid_hand(dice@),
    ensures
        r == combo_result(c, dice@),
{
    match c {
        Combination::Yams => check_yams(dice),
        Combination::Straight => check_straight(dice),
        Combination::FourOfAKind => check_four_of_a_kind(dice),
        Combination::FullHouse => check_full_house(dice),
        Combination::ThreeOfAKind => check_three_of_a_kind(dice),
        Combination::Chance => check_chance(dice),
    }
}

} // verus!
