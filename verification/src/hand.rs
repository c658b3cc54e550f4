//! The hand model: five die values and the spec-level facts about them
//! (per-value counts, the hand's sum, and the shape predicates that the
//! scoring combinations test).

use vstd::prelude::*;

verus! {

/// A hand: the five die values rolled in one round.
pub type Dice = [u8; 5];

/// A die shows a value from 1 to 6.
pub open spec fn valid_die(d: u8) -> bool {
    1 <= d <= 6
}

/// A well-formed hand: exactly five dice, each showing 1 to 6.
pub open spec fn valid_hand(s: Seq<u8>) -> bool {
    &&& s.len() == 5
    &&& valid_die(s[0])
    &&& valid_die(s[1])
    &&& valid_die(s[2])
    &&& valid_die(s[3])
    &&& valid_die(s[4])
}

/// 1 when the die shows `v`, 0 otherwise.
pub open spec fn die_matches(d: u8, v: u8) -> int {
    if d == v {
        1
    } else {
        0
    }
}

/// How many dice of the hand show the value `v`.
pub open spec fn count_in_hand(s: Seq<u8>, v: u8) -> int
    recommends
        s.len() == 5,
{
    die_matches(s[0], v) + die_matches(s[1], v) + die_matches(s[2], v) + die_matches(s[3], v)
        + die_matches(s[4], v)
}

/// The sum of the five die values.
pub open spec fn hand_sum(s: Seq<u8>) -> int
    recommends
        s.len() == 5,
{
    s[0] + s[1] + s[2] + s[3] + s[4]
}

/// All five dice show the same value.
pub open spec fn five_of_a_kind(s: Seq<u8>) -> bool
    recommends
        s.len() == 5,
{
    s[1] == s[0] && s[2] == s[0] && s[3] == s[0] && s[4] == s[0]
}

/// Some value appears at least four times.
pub open spec fn four_of_a_kind(s: Seq<u8>) -> bool
    recommends
        s.len() == 5,
{
    exists|v: u8| count_in_hand(s, v) >= 4
}

/// Some value appears at least three times.
pub open spec fn three_of_a_kind(s: Seq<u8>) -> bool
    recommends
        s.len() == 5,
{
    exists|v: u8| count_in_hand(s, v) >= 3
}

/// One value appears exactly three times and another exactly twice.
pub open spec fn full_house(s: Seq<u8>) -> bool
    recommends
        s.len() == 5,
{
    (exists|v: u8| count_in_hand(s, v) == 3) && (exists|v: u8| count_in_hand(s, v) == 2)
}

/// The sorted hand reads 1,2,3,4,5 or 2,3,4,5,6; for a five-die hand that is
/// the same as each of the five values appearing exactly once.
pub open spec fn straight(s: Seq<u8>) -> bool
    recommends
        s.len() == 5,
{
    ||| (count_in_hand(s, 1) == 1 && count_in_hand(s, 2) == 1 && count_in_hand(s, 3) == 1
        && count_in_hand(s, 4) == 1 && count_in_hand(s, 5) == 1)
    ||| (count_in_hand(s, 2) == 1 && count_in_hand(s, 3) == 1 && count_in_hand(s, 4) == 1
        && count_in_hand(s, 5) == 1 && count_in_hand(s, 6) == 1)
}

/// A value counted at all is the value of one of the five dice.
pub proof fn lemma_counted_value_is_in_hand(s: Seq<u8>, v: u8)
    requires
        s.len() == 5,
        count_in_hand(s, v) > 0,
    ensures
        v == s[0] || v == s[1] || v == s[2] || v == s[3] || v == s[4],
{
}

/// A well-formed hand sums to something between 5 and 30.
pub proof fn lemma_hand_sum_bounds(s: Seq<u8>)
    requires
        valid_hand(s),
    ensures
        5 <= hand_sum(s) <= 30,
{
}

/// The caller-boundary check: a hand with a die outside 1..=6 is rejected
/// here, before any scoring is attempted.
pub fn validate_hand(dice: &Dice) -> (ok: bool)
    ensures
        ok == valid_hand(dice@),
{
    1 <= dice[0] && dice[0] <= 6 && 1 <= dice[1] && dice[1] <= 6 && 1 <= dice[2] && dice[2] <= 6
        && 1 <= dice[3] && dice[3] <= 6 && 1 <= dice[4] && dice[4] <= 6
}

/// Count how many dice of the hand show the value `v`.
pub fn count_value(dice: &Dice, v: u8) -> (n: u8)
    ensures
        n as int == count_in_hand(dice@, v),
{
    let mut n: u8 = 0;
    if dice[0] == v {
        n = n + 1;
    }
    if dice[1] == v {
        n = n + 1;
    }
    if dice[2] == v {
        n = n + 1;
    }
    if dice[3] == v {
        n = n + 1;
    }
    if dice[4] == v {
        n = n + 1;
    }
    n
}

} // verus!
