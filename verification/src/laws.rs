//! The laws of the scoring rules, proved once and for all: which combination
//! a hand of a given shape is awarded, that Chance alone matches every hand,
//! and that a combination consumed in a game is never offered again.

use vstd::prelude::*;

use crate::hand::{
    count_in_hand, five_of_a_kind, four_of_a_kind, full_house, hand_sum,
    lemma_counted_value_is_in_hand, lemma_hand_sum_bounds, straight, three_of_a_kind, valid_hand,
};
use crate::matcher::{
    combo_result, Combination, CombinationResult, FOUR_OF_A_KIND_SCORE, FULL_HOUSE_SCORE,
    STRAIGHT_SCORE, THREE_OF_A_KIND_SCORE, YAMS_SCORE,
};
use crate::scorer::{
    avail_after, lemma_remove_combination_membership, lemma_round_score_props, remove_combination,
    result_le, round_score,
};

verus! {

/// An outcome that scores strictly less than `sc`: a miss, or a match below
/// `sc` points.
pub open spec fn strictly_below(r: CombinationResult, sc: u32) -> bool {
    match r {
        CombinationResult::NotMatched => true,
        CombinationResult::Matched(y) => y < sc,
    }
}

/// When one available combination matches and every other combination scores
/// strictly less on this hand, the round awards exactly that combination.
proof fn lemma_unique_best_award(s: Seq<u8>, avail: Seq<Combination>, c: Combination, sc: u32)
    requires
        avail.contains(c),
        combo_result(c, s) == CombinationResult::Matched(sc),
        forall|x: Combination| x != c ==> strictly_below(#[trigger] combo_result(x, s), sc),
    ensures
        round_score(s, avail) == Some((c, sc)),
{
    lemma_round_score_props(s, avail);
    let i = choose|i: int| 0 <= i < avail.len() && avail[i] == c;
    assert(combo_result(avail[i], s) == CombinationResult::Matched(sc));
    match round_score(s, avail) {
        Some(p) => {
            assert(result_le(combo_result(avail[i], s), CombinationResult::Matched(p.1)));
            if p.0 != c {
                assert(strictly_below(combo_result(p.0, s), sc));
            }
        },
        None => {
            assert(combo_result(avail[i], s) == CombinationResult::NotMatched);
        },
    }
}

/// A hand of five equal dice is awarded Yams, 50 points, whenever Yams is
/// still available.
pub proof fn lemma_yams_awarded(s: Seq<u8>, avail: Seq<Combination>)
    requires
        valid_hand(s),
        five_of_a_kind(s),
        avail.contains(Combination::Yams),
    ensures
        round_score(s, avail) == Some((Combination::Yams, YAMS_SCORE)),
{
    lemma_hand_sum_bounds(s);
    assert forall|x: Combination| x != Combination::Yams implies strictly_below(
        #[trigger] combo_result(x, s),
        YAMS_SCORE,
    ) by {
        lemma_hand_sum_bounds(s);
    }
    lemma_unique_best_award(s, avail, Combination::Yams, YAMS_SCORE);
}

/// A hand whose sorted form is 1,2,3,4,5 or 2,3,4,5,6 is awarded Straight,
/// 40 points, whenever Straight is still available.
pub proof fn lemma_straight_awarded(s: Seq<u8>, avail: Seq<Combination>)
    requires
        valid_hand(s),
        straight(s),
        avail.contains(Combination::Straight),
    ensures
        round_score(s, avail) == Some((Combination::Straight, STRAIGHT_SCORE)),
{
    assert(!five_of_a_kind(s));
    assert forall|x: Combination| x != Combination::Straight implies strictly_below(
        #[trigger] combo_result(x, s),
        STRAIGHT_SCORE,
    ) by {
        lemma_hand_sum_bounds(s);
    }
    lemma_unique_best_award(s, avail, Combination::Straight, STRAIGHT_SCORE);
}

/// A straight has no repeated value, so no value reaches a count of three.
proof fn lemma_straight_has_no_triple(s: Seq<u8>)
    requires
        valid_hand(s),
        straight(s),
    ensures
        forall|v: u8| count_in_hand(s, v) < 3,
{
    assert forall|v: u8| count_in_hand(s, v) < 3 by {
        if count_in_hand(s, v) >= 3 {
            lemma_counted_value_is_in_hand(s, v);
        }
    }
}

/// A hand with four equal dice, but not five, is awarded FourOfAKind, 35
/// points, whenever FourOfAKind is still available.
pub proof fn lemma_four_of_a_kind_awarded(s: Seq<u8>, avail: Seq<Combination>)
    requires
        valid_hand(s),
        four_of_a_kind(s),
        !five_of_a_kind(s),
        avail.contains(Combination::FourOfAKind),
    ensures
        round_score(s, avail) == Some((Combination::FourOfAKind, FOUR_OF_A_KIND_SCORE)),
{
    if straight(s) {
        let v = choose|v: u8| count_in_hand(s, v) >= 4;
        lemma_straight_has_no_triple(s);
        assert(count_in_hand(s, v) < 3);
    }
    assert forall|x: Combination| x != Combination::FourOfAKind implies strictly_below(
        #[trigger] combo_result(x, s),
        FOUR_OF_A_KIND_SCORE,
    ) by {
        lemma_hand_sum_bounds(s);
    }
    lemma_unique_best_award(s, avail, Combination::FourOfAKind, FOUR_OF_A_KIND_SCORE);
}

/// A hand with a triple of one value and a pair of another is awarded
/// FullHouse, 30 points, whenever FullHouse is still available.
pub proof fn lemma_full_house_awarded(s: Seq<u8>, avail: Seq<Combination>)
    requires
        valid_hand(s),
        full_house(s),
        avail.contains(Combination::FullHouse),
    ensures
        round_score(s, avail) == Some((Combination::FullHouse, FULL_HOUSE_SCORE)),
{
    let v3 = choose|v: u8| count_in_hand(s, v) == 3;
    let v2 = choose|v: u8| count_in_hand(s, v) == 2;
    assert(v3 != v2);
    assert(!five_of_a_kind(s));
    if straight(s) {
        lemma_straight_has_no_triple(s);
        assert(count_in_hand(s, v3) < 3);
    }
    if four_of_a_kind(s) {
        let v4 = choose|v: u8| count_in_hand(s, v) >= 4;
        assert(v4 != v3 && v4 != v2);
        assert(count_in_hand(s, v4) + count_in_hand(s, v3) + count_in_hand(s, v2) <= 5);
    }
    assert(hand_sum(s) <= 29);
    assert forall|x: Combination| x != Combination::FullHouse implies strictly_below(
        #[trigger] combo_result(x, s),
        FULL_HOUSE_SCORE,
    ) by {
        assert(hand_sum(s) <= 29);
        lemma_hand_sum_bounds(s);
    }
    lemma_unique_best_award(s, avail, Combination::FullHouse, FULL_HOUSE_SCORE);
}

/// A hand with a triple but neither four of a kind nor a full house is
/// awarded ThreeOfAKind, 28 points, whenever ThreeOfAKind is still
/// available. Its sum is then at most 27, so Chance cannot outscore it.
pub proof fn lemma_three_of_a_kind_awarded(s: Seq<u8>, avail: Seq<Combination>)
    requires
        valid_hand(s),
        three_of_a_kind(s),
        !four_of_a_kind(s),
        !full_house(s),
        avail.contains(Combination::ThreeOfAKind),
    ensures
        round_score(s, avail) == Some((Combination::ThreeOfAKind, THREE_OF_A_KIND_SCORE)),
{
    let v = choose|v: u8| count_in_hand(s, v) >= 3;
    if five_of_a_kind(s) {
        assert(count_in_hand(s, s[0]) == 5);
    }
    if straight(s) {
        lemma_straight_has_no_triple(s);
        assert(count_in_hand(s, v) < 3);
    }
    assert(count_in_hand(s, v) == 3);
    assert(count_in_hand(s, s[0]) != 2);
    assert(count_in_hand(s, s[1]) != 2);
    assert(count_in_hand(s, s[2]) != 2);
    assert(count_in_hand(s, s[3]) != 2);
    assert(count_in_hand(s, s[4]) != 2);
    assert(hand_sum(s) <= 27);
    assert forall|x: Combination| x != Combination::ThreeOfAKind implies strictly_below(
        #[trigger] combo_result(x, s),
        THREE_OF_A_KIND_SCORE,
    ) by {
        assert(hand_sum(s) <= 27);
    }
    lemma_unique_best_award(s, avail, Combination::ThreeOfAKind, THREE_OF_A_KIND_SCORE);
}

/// Chance matches every well-formed hand, scoring the hand's sum, so a round
/// with Chance still available always yields an award.
pub proof fn lemma_chance_always_scores(s: Seq<u8>, avail: Seq<Combination>)
    requires
        valid_hand(s),
        avail.contains(Combination::Chance),
    ensures
        combo_result(Combination::Chance, s) == CombinationResult::Matched(hand_sum(s) as u32),
        round_score(s, avail) is Some,
{
    lemma_round_score_props(s, avail);
    let i = choose|i: int| 0 <= i < avail.len() && avail[i] == Combination::Chance;
    assert(combo_result(avail[i], s) is Matched);
}

/// Chance is the only combination guaranteed to match: every other
/// combination fails on some well-formed hand.
pub proof fn lemma_only_chance_always_matches(c: Combination)
    requires
        c != Combination::Chance,
    ensures
        exists|s: Seq<u8>|
            valid_hand(s) && #[trigger] combo_result(c, s) == CombinationResult::NotMatched,
{
    let w = seq![1u8, 1u8, 2u8, 3u8, 4u8];
    assert(valid_hand(w));
    assert(combo_result(c, w) == CombinationResult::NotMatched) by {
        assert forall|v: u8| count_in_hand(w, v) < 3 by {}
        assert(count_in_hand(w, 1) == 2);
    }
}

/// Whatever rounds are played, a combination absent from the availability
/// never reappears: availability only shrinks.
pub proof fn lemma_availability_only_shrinks(
    rounds: Seq<Seq<u8>>,
    avail: Seq<Combination>,
    c: Combination,
)
    requires
        !avail.contains(c),
    ensures
        !avail_after(rounds, avail).contains(c),
    decreases rounds.len(),
{
    if rounds.len() > 0 {
        match round_score(rounds.first(), avail) {
            Some(p) => {
                lemma_remove_combination_membership(avail, p.0, c);
                lemma_availability_only_shrinks(
                    rounds.drop_first(),
                    remove_combination(avail, p.0),
                    c,
                );
            },
            None => {
                lemma_availability_only_shrinks(rounds.drop_first(), avail, c);
            },
        }
    }
}

/// Playing the concatenation of two stretches of rounds leaves the
/// availability that playing the second stretch leaves from where the first
/// ended.
proof fn lemma_avail_after_concat(r1: Seq<Seq<u8>>, r2: Seq<Seq<u8>>, avail: Seq<Combination>)
    ensures
        avail_after(r1 + r2, avail) == avail_after(r2, avail_after(r1, avail)),
    decreases r1.len(),
{
    if r1.len() == 0 {
        assert(r1 + r2 =~= r2);
    } else {
        assert((r1 + r2).first() == r1.first());
        assert((r1 + r2).drop_first() =~= r1.drop_first() + r2);
        match round_score(r1.first(), avail) {
            Some(p) => {
                lemma_avail_after_concat(r1.drop_first(), r2, remove_combination(avail, p.0));
            },
            None => {
                lemma_avail_after_concat(r1.drop_first(), r2, avail);
            },
        }
    }
}

/// Once a round of a game consumes a combination, no later round of that
/// game is offered it again, and no later round is awarded it — a later hand
/// that would satisfy it falls through to the best remaining match.
pub proof fn lemma_consumed_combination_never_reoffered(
    rounds: Seq<Seq<u8>>,
    init: Seq<Combination>,
    i: int,
    j: int,
    c: Combination,
    sc: u32,
)
    requires
        0 <= i < j < rounds.len(),
        round_score(rounds[i], avail_after(rounds.take(i), init)) == Some((c, sc)),
    ensures
        !avail_after(rounds.take(j), init).contains(c),
        forall|sc2: u32| round_score(rounds[j], avail_after(rounds.take(j), init)) != Some(
            (c, sc2),
        ),
{
    let a_i = avail_after(rounds.take(i), init);
    let single = seq![rounds[i]];
    assert(rounds.take(i + 1) =~= rounds.take(i) + single);
    lemma_avail_after_concat(rounds.take(i), single, init);
    assert(single.first() == rounds[i]);
    assert(single.drop_first() =~= Seq::<Seq<u8>>::empty());
    assert(avail_after(Seq::<Seq<u8>>::empty(), remove_combination(a_i, c)) == remove_combination(
        a_i,
        c,
    ));
    assert(avail_after(rounds.take(i + 1), init) == remove_combination(a_i, c));
    lemma_remove_combination_membership(a_i, c, c);
    assert(rounds.take(j) =~= rounds.take(i + 1) + rounds.subrange(i + 1, j));
    lemma_avail_after_concat(rounds.take(i + 1), rounds.subrange(i + 1, j), init);
    lemma_availability_only_shrinks(
        rounds.subrange(i + 1, j),
        remove_combination(a_i, c),
        c,
    );
    let a_j = avail_after(rounds.take(j), init);
    lemma_round_score_props(rounds[j], a_j);
    assert forall|sc2: u32| round_score(rounds[j], a_j) != Some((c, sc2)) by {
        if round_score(rounds[j], a_j) == Some((c, sc2)) {
            assert(a_j.contains(c));
        }
    }
}

} // verus!
