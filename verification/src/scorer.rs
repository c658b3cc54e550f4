//! The round and game scorers. A round evaluates every still-available
//! combination against the hand and awards the best match; a game feeds each
//! round's hand through the round scorer, retires the awarded combination,
//! and accumulates the total.

use vstd::prelude::*;

use crate::hand::{valid_hand, Dice};
use crate::matcher::{combo_result, evaluate_combination, Combination, CombinationResult};

verus! {

/// One combination's outcome for the current hand, paired with the
/// combination it belongs to.
pub type CaseResult = (CombinationResult, Combination);

/// The canonical order in which combinations are offered at game start and
/// considered within a round; among equal-scoring matches the one listed
/// earlier wins.
pub const ORDERED_COMBINATIONS: [Combination; 6] = [
    Combination::Yams,
    Combination::Straight,
    Combination::FourOfAKind,
    Combination::FullHouse,
    Combination::ThreeOfAKind,
    Combination::Chance,
];

/// `ORDERED_COMBINATIONS` as a sequence, for the contracts.
pub open spec fn canonical_combinations() -> Seq<Combination> {
    seq![
        Combination::Yams,
        Combination::Straight,
        Combination::FourOfAKind,
        Combination::FullHouse,
        Combination::ThreeOfAKind,
        Combination::Chance,
    ]
}

/// Ranking of outcomes: a miss ranks below every match, and matches rank by
/// score.
pub open spec fn result_le(a: CombinationResult, b: CombinationResult) -> bool {
    match a {
        CombinationResult::NotMatched => true,
        CombinationResult::Matched(x) => match b {
            CombinationResult::NotMatched => false,
            CombinationResult::Matched(y) => x <= y,
        },
    }
}

/// Each available combination paired with its outcome for the hand, in the
/// order the combinations are listed.
pub open spec fn case_results(s: Seq<u8>, avail: Seq<Combination>) -> Seq<CaseResult> {
    Seq::new(avail.len(), |i: int| (combo_result(avail[i], s), avail[i]))
}

/// The winning case: the first case whose outcome ranks strictly above every
/// earlier one, so that among equal-ranking cases the earliest listed wins.
pub open spec fn best_case(cases: Seq<CaseResult>) -> Option<CaseResult>
    decreases cases.len(),
{
    if cases.len() == 0 {
        None
    } else {
        match best_case(cases.drop_last()) {
            None => Some(cases.last()),
            Some(acc) => if result_le(cases.last().0, acc.0) {
                Some(acc)
            } else {
                Some(cases.last())
            },
        }
    }
}

/// What a round awards: the best-matching available combination and its
/// score, or nothing when no available combination matches the hand.
pub open spec fn round_score(s: Seq<u8>, avail: Seq<Combination>) -> Option<(Combination, u32)> {
    match best_case(case_results(s, avail)) {
        None => None,
        Some(best) => match best.0 {
            CombinationResult::Matched(sc) => Some((best.1, sc)),
            CombinationResult::NotMatched => None,
        },
    }
}

/// The availability list with every occurrence of `c` removed, order
/// otherwise kept.
pub open spec fn remove_combination(avail: Seq<Combination>, c: Combination) -> Seq<Combination>
    decreases avail.len(),
{
    if avail.len() == 0 {
        Seq::empty()
    } else if avail.last() == c {
        remove_combination(avail.drop_last(), c)
    } else {
        remove_combination(avail.drop_last(), c).push(avail.last())
    }
}

/// The hands of a game, each as its sequence of die values.
pub open spec fn hand_views(rounds: Seq<Dice>) -> Seq<Seq<u8>> {
    rounds.map_values(|d: Dice| d@)
}

/// The combinations still available after playing the given rounds from the
/// given availability.
pub open spec fn avail_after(rounds: Seq<Seq<u8>>, avail: Seq<Combination>) -> Seq<Combination>
    decreases rounds.len(),
{
    if rounds.len() == 0 {
        avail
    } else {
        match round_score(rounds.first(), avail) {
            Some(p) => avail_after(rounds.drop_first(), remove_combination(avail, p.0)),
            None => avail_after(rounds.drop_first(), avail),
        }
    }
}

/// The total a game scores: each round is awarded by the round scorer, an
/// awarded combination is retired, and an unawarded round contributes zero.
pub open spec fn game_total(rounds: Seq<Seq<u8>>, avail: Seq<Combination>) -> int
    decreases rounds.len(),
{
    if rounds.len() == 0 {
        0
    } else {
        match round_score(rounds.first(), avail) {
            Some(p) => p.1 + game_total(rounds.drop_first(), remove_combination(avail, p.0)),
            None => game_total(rounds.drop_first(), avail),
        }
    }
}

/// The most a combination can ever score on a well-formed hand.
pub open spec fn combo_max_score(c: Combination) -> int {
    match c {
        Combination::Yams => 50,
        Combination::Straight => 40,
        Combination::FourOfAKind => 35,
        Combination::FullHouse => 30,
        Combination::ThreeOfAKind => 28,
        Combination::Chance => 30,
    }
}

/// The most the still-available combinations can contribute to a game.
pub open spec fn max_available_score(avail: Seq<Combination>) -> int
    decreases avail.len(),
{
    if avail.len() == 0 {
        0
    } else {
        max_available_score(avail.drop_last()) + combo_max_score(avail.last())
    }
}

/// Pick the winning case from the evaluated cases: the highest-ranked
/// outcome, the earliest listed among equals, or nothing from an empty list.
pub fn get_best_case(cases: &[CaseResult]) -> (r: Option<CaseResult>)
    ensures
        r == best_case(cases@),
{
    let mut best: Option<CaseResult> = None;
    let mut i: usize = 0;
    while i < cases.len()
        invariant
            i <= cases@.len(),
            best == best_case(cases@.take(i as int)),
        decreases cases@.len() - i,
    {
        let cur = cases[i];
        proof {
            assert(cases@.take(i + 1 as int).drop_last() =~= cases@.take(i as int));
            assert(cases@.take(i + 1 as int).last() == cases@[i as int]);
        }
        match best {
            None => {
                best = Some(cur);
            },
            Some(b) => {
                let replace = match (cur.0, b.0) {
                    (CombinationResult::Matched(x), CombinationResult::Matched(y)) => x > y,
                    (CombinationResult::Matched(_), CombinationResult::NotMatched) => true,
                    (CombinationResult::NotMatched, _) => false,
                };
                if replace {
                    best = Some(cur);
                }
            },
        }
        i = i + 1;
    }
    proof {
        assert(cases@.take(cases@.len() as int) =~= cases@);
    }
    best
}

/// Score a single round: evaluate every available combination against the
/// hand and award the best match, or nothing when none of the available
/// combinations matches.
pub fn calculate_yams_round_score(dice: &Dice, available_combinations: &[Combination]) -> (r:
    Option<(Combination, u32)>)
    requires
        valid_hand(dice@),
    ensures
        r == round_score(dice@, available_combinations@),
{
    let mut cases: Vec<CaseResult> = Vec::new();
    let mut i: usize = 0;
    while i < available_combinations.len()
        invariant
            valid_hand(dice@),
            i <= available_combinations@.len(),
            cases@.len() == i as int,
            forall|j: int|
                0 <= j < i as int ==> #[trigger] cases@[j] == (
                combo_result(available_combinations@[j], dice@),
                available_combinations@[j],
            ),
        decreases available_combinations@.len() - i,
    {
        let c = available_combinations[i];
        let res = evaluate_combination(c, dice);
        cases.push((res, c));
        i = i + 1;
    }
    proof {
        assert(cases@ =~= case_results(dice@, available_combinations@));
    }
    let best = get_best_case(cases.as_slice());
    match best {
        Some((CombinationResult::Matched(score), combination)) => Some((combination, score)),
        _ => None,
    }
}

/// The availability list with every occurrence of `c` removed.
fn remove_from_available(available: &Vec<Combination>, c: Combination) -> (r: Vec<Combination>)
    ensures
        r@ == remove_combination(available@, c),
{
    let mut r: Vec<Combination> = Vec::new();
    let mut i: usize = 0;
    while i < available.len()
        invariant
            i <= available@.len(),
            r@ == remove_combination(available@.take(i as int), c),
        decreases available@.len() - i,
    {
        proof {
            assert(available@.take(i + 1 as int).drop_last() =~= available@.take(i as int));
            assert(available@.take(i + 1 as int).last() == available@[i as int]);
        }
        let x = available[i];
        if x != c {
            r.push(x);
        }
        i = i + 1;
    }
    proof {
        assert(available@.take(available@.len() as int) =~= available@);
    }
    r
}

/// Score a whole game: start from the full canonical availability, award
/// each round, retire what was awarded, and sum the scores.
pub fn calculate_yams_total_score(rounds: &[Dice]) -> (total: u32)
    requires
        forall|i: int| 0 <= i < rounds@.len() ==> valid_hand(#[trigger] rounds@[i]@),
    ensures
        total as int == game_total(hand_views(rounds@), canonical_combinations()),
{
    let mut available: Vec<Combination> = Vec::new();
    available.push(Combination::Yams);
    available.push(Combination::Straight);
    available.push(Combination::FourOfAKind);
    available.push(Combination::FullHouse);
    available.push(Combination::ThreeOfAKind);
    available.push(Combination::Chance);
    proof {
        assert(available@ =~= canonical_combinations());
        assert(hand_views(rounds@).skip(0) =~= hand_views(rounds@));
    }
    let ghost all_hands = hand_views(rounds@);
    let ghost full_total = game_total(all_hands, canonical_combinations());
    proof {
        lemma_hand_views_valid(rounds@);
        lemma_game_total_bounds(all_hands, canonical_combinations());
        lemma_canonical_max_score();
    }
    let mut sum: u32 = 0;
    let mut i: usize = 0;
    while i < rounds.len()
        invariant
            i <= rounds@.len(),
            forall|k: int| 0 <= k < rounds@.len() ==> valid_hand(#[trigger] rounds@[k]@),
            all_hands == hand_views(rounds@),
            full_total == game_total(all_hands, canonical_combinations()),
            0 <= full_total <= 213,
            sum as int + game_total(all_hands.skip(i as int), available@) == full_total,
            0 <= game_total(all_hands.skip(i as int), available@),
        decreases rounds@.len() - i,
    {
        let ghost remaining = all_hands.skip(i as int);
        proof {
            lemma_hand_views_valid(rounds@);
            assert(remaining.first() == rounds@[i as int]@);
            assert(remaining.drop_first() =~= all_hands.skip(i + 1 as int));
            assert forall|k: int| 0 <= k < remaining.len() implies valid_hand(
                #[trigger] remaining[k],
            ) by {
                assert(remaining[k] == all_hands[k + i]);
            }
        }
        let result = calculate_yams_round_score(&rounds[i], available.as_slice());
        match result {
            Some((combination, score)) => {
                proof {
                    lemma_game_total_bounds(
                        all_hands.skip(i + 1 as int),
                        remove_combination(available@, combination),
                    );
                    lemma_award_within_max(rounds@[i as int]@, available@, combination, score);
                }
                available = remove_from_available(&available, combination);
                sum = sum + score;
            },
            None => {
                proof {
                    lemma_game_total_bounds(all_hands.skip(i + 1 as int), available@);
                }
            },
        }
        i = i + 1;
    }
    proof {
        assert(all_hands.skip(rounds@.len() as int) =~= Seq::<Seq<u8>>::empty());
    }
    sum
}

/// Every hand view of a slice of well-formed hands is well-formed.
proof fn lemma_hand_views_valid(rounds: Seq<Dice>)
    requires
        forall|i: int| 0 <= i < rounds.len() ==> valid_hand(#[trigger] rounds[i]@),
    ensures
        forall|i: int| 0 <= i < hand_views(rounds).len() ==> valid_hand(
            #[trigger] hand_views(rounds)[i],
        ),
{
    assert forall|i: int| 0 <= i < hand_views(rounds).len() implies valid_hand(
        #[trigger] hand_views(rounds)[i],
    ) by {
        assert(hand_views(rounds)[i] == rounds[i]@);
    }
}

/// A round's awarded score never exceeds the awarded combination's maximum.
proof fn lemma_award_within_max(s: Seq<u8>, avail: Seq<Combination>, c: Combination, sc: u32)
    requires
        valid_hand(s),
        round_score(s, avail) == Some((c, sc)),
    ensures
        sc as int <= combo_max_score(c),
{
    lemma_round_score_props(s, avail);
    lemma_matched_score_bounds(s, c, sc);
}

/// On a well-formed hand, a matched score never exceeds the combination's
/// maximum (a fixed score, or 30 for Chance, the largest possible sum).
pub proof fn lemma_matched_score_bounds(s: Seq<u8>, c: Combination, sc: u32)
    requires
        valid_hand(s),
        combo_result(c, s) == CombinationResult::Matched(sc),
    ensures
        sc as int <= combo_max_score(c),
        sc <= 50,
{
    crate::hand::lemma_hand_sum_bounds(s);
}

/// The winning case comes from the list and ranks at least as high as every
/// case in the list.
pub proof fn lemma_best_case_props(cases: Seq<CaseResult>)
    ensures
        best_case(cases) is None <==> cases.len() == 0,
        best_case(cases) matches Some(b) ==> cases.contains(b) && (forall|j: int|
            0 <= j < cases.len() ==> result_le(#[trigger] cases[j].0, b.0)),
    decreases cases.len(),
{
    if cases.len() > 0 {
        let pre = cases.drop_last();
        lemma_best_case_props(pre);
        assert(forall|i: int| 0 <= i < pre.len() ==> pre[i] == cases[i]);
        assert(cases[cases.len() - 1] == cases.last());
        match best_case(pre) {
            None => {},
            Some(acc) => {
                if pre.contains(acc) {
                    let i = choose|i: int| 0 <= i < pre.len() && pre[i] == acc;
                    assert(cases[i] == acc);
                }
            },
        }
    }
}

/// What the round scorer promises of its award: the awarded combination was
/// available and matched with the returned score, and no available
/// combination matched with a higher score — a hand always falls through to
/// the best still-available match. A round yields nothing exactly when no
/// available combination matches.
pub proof fn lemma_round_score_props(s: Seq<u8>, avail: Seq<Combination>)
    ensures
        round_score(s, avail) matches Some(p) ==> avail.contains(p.0) && combo_result(p.0, s)
            == CombinationResult::Matched(p.1) && (forall|j: int|
            0 <= j < avail.len() ==> result_le(
                #[trigger] combo_result(avail[j], s),
                CombinationResult::Matched(p.1),
            )),
        round_score(s, avail) is None <==> (forall|j: int|
            0 <= j < avail.len() ==> #[trigger] combo_result(avail[j], s)
                == CombinationResult::NotMatched),
{
    let cases = case_results(s, avail);
    lemma_best_case_props(cases);
    assert(forall|j: int|
        0 <= j < avail.len() ==> #[trigger] cases[j] == (combo_result(avail[j], s), avail[j]));
    match best_case(cases) {
        None => {
            assert(avail.len() == 0);
        },
        Some(b) => {
            let i = choose|i: int| 0 <= i < cases.len() && cases[i] == b;
            assert(avail[i] == b.1);
            match b.0 {
                CombinationResult::Matched(sc) => {
                    assert(round_score(s, avail) == Some((b.1, sc)));
                    assert forall|j: int| 0 <= j < avail.len() implies result_le(
                        #[trigger] combo_result(avail[j], s),
                        CombinationResult::Matched(sc),
                    ) by {
                        assert(result_le(cases[j].0, b.0));
                    }
                },
                CombinationResult::NotMatched => {
                    assert forall|j: int|
                        0 <= j < avail.len() implies #[trigger] combo_result(avail[j], s)
                        == CombinationResult::NotMatched by {
                        assert(result_le(cases[j].0, b.0));
                    }
                },
            }
        },
    }
}

/// Removing a combination removes exactly that combination: everything else
/// stays, and the removed one is gone.
pub proof fn lemma_remove_combination_membership(
    avail: Seq<Combination>,
    c: Combination,
    x: Combination,
)
    ensures
        remove_combination(avail, c).contains(x) <==> (avail.contains(x) && x != c),
    decreases avail.len(),
{
    if avail.len() > 0 {
        let pre = avail.drop_last();
        lemma_remove_combination_membership(pre, c, x);
        assert(forall|i: int| 0 <= i < pre.len() ==> pre[i] == avail[i]);
        assert(avail[avail.len() - 1] == avail.last());
        if avail.contains(x) {
            let i = choose|i: int| 0 <= i < avail.len() && avail[i] == x;
            if i < avail.len() - 1 {
                assert(pre[i] == x);
            }
        }
        if avail.last() != c {
            let r = remove_combination(pre, c);
            assert(forall|i: int| 0 <= i < r.len() ==> r.push(avail.last())[i] == r[i]);
            assert(r.push(avail.last())[r.len() as int] == avail.last());
            if r.push(avail.last()).contains(x) {
                let i = choose|i: int| 0 <= i < r.len() + 1 && r.push(avail.last())[i] == x;
                if i < r.len() {
                    assert(r[i] == x);
                }
            }
            if r.contains(x) {
                let i = choose|i: int| 0 <= i < r.len() && r[i] == x;
                assert(r.push(avail.last())[i] == x);
            }
        }
    }
}

/// A combination absent from the availability list is not removed by
/// `remove_combination`: the list is unchanged.
proof fn lemma_remove_absent(avail: Seq<Combination>, c: Combination)
    requires
        !avail.contains(c),
    ensures
        remove_combination(avail, c) == avail,
    decreases avail.len(),
{
    if avail.len() == 0 {
        assert(remove_combination(avail, c) =~= avail);
    } else {
        let pre = avail.drop_last();
        assert(avail[avail.len() - 1] == avail.last());
        assert(forall|i: int| 0 <= i < pre.len() ==> pre[i] == avail[i]);
        if pre.contains(c) {
            let i = choose|i: int| 0 <= i < pre.len() && pre[i] == c;
            assert(avail[i] == c);
        }
        lemma_remove_absent(pre, c);
        assert(remove_combination(avail, c) =~= avail);
    }
}

/// Retiring an available combination lowers the availability's maximum
/// contribution by at least that combination's maximum score.
pub proof fn lemma_remove_max_score(avail: Seq<Combination>, c: Combination)
    requires
        avail.contains(c),
    ensures
        max_available_score(remove_combination(avail, c)) <= max_available_score(avail)
            - combo_max_score(c),
    decreases avail.len(),
{
    let pre = avail.drop_last();
    assert(avail[avail.len() - 1] == avail.last());
    assert(forall|i: int| 0 <= i < pre.len() ==> pre[i] == avail[i]);
    if avail.last() == c {
        if pre.contains(c) {
            lemma_remove_max_score(pre, c);
        } else {
            lemma_remove_absent(pre, c);
        }
    } else {
        let i = choose|i: int| 0 <= i < avail.len() && avail[i] == c;
        assert(pre[i] == c);
        lemma_remove_max_score(pre, c);
        let r = remove_combination(pre, c);
        assert(r.push(avail.last()).drop_last() =~= r);
        assert(r.push(avail.last()).last() == avail.last());
    }
}

/// Maximum contributions are never negative.
proof fn lemma_max_available_score_nonneg(avail: Seq<Combination>)
    ensures
        max_available_score(avail) >= 0,
    decreases avail.len(),
{
    if avail.len() > 0 {
        lemma_max_available_score_nonneg(avail.drop_last());
    }
}

/// A game's total is never negative and never exceeds what the available
/// combinations can contribute: each combination scores at most once.
pub proof fn lemma_game_total_bounds(rounds: Seq<Seq<u8>>, avail: Seq<Combination>)
    requires
        forall|i: int| 0 <= i < rounds.len() ==> valid_hand(#[trigger] rounds[i]),
    ensures
        0 <= game_total(rounds, avail) <= max_available_score(avail),
    decreases rounds.len(),
{
    lemma_max_available_score_nonneg(avail);
    if rounds.len() > 0 {
        let rest = rounds.drop_first();
        assert(rounds.first() == rounds[0]);
        assert forall|i: int| 0 <= i < rest.len() implies valid_hand(#[trigger] rest[i]) by {
            assert(rest[i] == rounds[i + 1]);
        }
        lemma_round_score_props(rounds.first(), avail);
        match round_score(rounds.first(), avail) {
            Some(p) => {
                lemma_matched_score_bounds(rounds.first(), p.0, p.1);
                lemma_remove_max_score(avail, p.0);
                lemma_game_total_bounds(rest, remove_combination(avail, p.0));
            },
            None => {
                lemma_game_total_bounds(rest, avail);
            },
        }
    }
}

/// With the full canonical availability at most 213 points can be scored in
/// one game: 50 + 40 + 35 + 30 + 28 + 30.
pub proof fn lemma_canonical_max_score()
    ensures
        max_available_score(canonical_combinations()) == 213,
{
    let s1 = seq![Combination::Yams];
    let s2 = s1.push(Combination::Straight);
    let s3 = s2.push(Combination::FourOfAKind);
    let s4 = s3.push(Combination::FullHouse);
    let s5 = s4.push(Combination::ThreeOfAKind);
    let s6 = s5.push(Combination::Chance);
    assert(canonical_combinations() =~= s6);
    assert(s6.drop_last() =~= s5);
    assert(s5.drop_last() =~= s4);
    assert(s4.drop_last() =~= s3);
    assert(s3.drop_last() =~= s2);
    assert(s2.drop_last() =~= s1);
    assert(s1.drop_last() =~= Seq::<Combination>::empty());
    assert(max_available_score(Seq::<Combination>::empty()) == 0);
    assert(max_available_score(s1) == 50);
    assert(max_available_score(s2) == 90);
    assert(max_available_score(s3) == 125);
    assert(max_available_score(s4) == 155);
    assert(max_available_score(s5) == 183);
    assert(max_available_score(s6) == 213);
}

} // verus!
