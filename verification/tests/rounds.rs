use yams::matcher::{
    calculate_chance_score, check_chance, check_four_of_a_kind, check_full_house, check_straight,
    check_three_of_a_kind, check_yams, contains_four_of_a_kind, contains_full_house,
    contains_straight, contains_three_of_a_kind, is_yams, Combination, CombinationResult,
};
use yams::hand::validate_hand;
use yams::scorer::{calculate_yams_round_score, get_best_case, ORDERED_COMBINATIONS};

#[test]
fn validation_rejects_out_of_range_dice() {
    assert!(validate_hand(&[1, 2, 3, 4, 6]));
    assert!(validate_hand(&[6, 6, 6, 6, 6]));
    assert!(!validate_hand(&[0, 2, 3, 4, 6]));
    assert!(!validate_hand(&[1, 2, 7, 4, 6]));
}

#[test]
fn test_three_of_a_kind() {
    let dice = [3, 3, 3, 2, 5];
    assert_eq!(
        calculate_yams_round_score(&dice, &ORDERED_COMBINATIONS),
        Some((Combination::ThreeOfAKind, 28)),
    );
}

#[test]
fn test_four_of_a_kind() {
    let dice = [4, 4, 4, 4, 1];
    assert_eq!(
        calculate_yams_round_score(&dice, &ORDERED_COMBINATIONS),
        Some((Combination::FourOfAKind, 35)),
    );
}

#[test]
fn test_full_house() {
    let dice = [2, 2, 3, 3, 3];
    assert_eq!(
        calculate_yams_round_score(&dice, &ORDERED_COMBINATIONS),
        Some((Combination::FullHouse, 30)),
    );
}

#[test]
fn test_straight() {
    let dice = [1, 2, 3, 4, 5];
    assert_eq!(
        calculate_yams_round_score(&dice, &ORDERED_COMBINATIONS),
        Some((Combination::Straight, 40)),
    );
}

#[test]
fn test_yams() {
    let dice = [6, 6, 6, 6, 6];
    assert_eq!(
        calculate_yams_round_score(&dice, &ORDERED_COMBINATIONS),
        Some((Combination::Yams, 50)),
    );
}

#[test]
fn test_chance() {
    let dice = [1, 2, 3, 4, 6];
    assert_eq!(
        calculate_yams_round_score(&dice, &ORDERED_COMBINATIONS),
        Some((Combination::Chance, 16)),
    );
}

#[test]
fn all_ones_is_yams() {
    let dice = [1, 1, 1, 1, 1];
    assert_eq!(
        calculate_yams_round_score(&dice, &ORDERED_COMBINATIONS),
        Some((Combination::Yams, 50)),
    );
}

#[test]
fn high_straight_scores_forty() {
    let dice = [6, 4, 2, 5, 3];
    assert_eq!(
        calculate_yams_round_score(&dice, &ORDERED_COMBINATIONS),
        Some((Combination::Straight, 40)),
    );
}

#[test]
fn yams_hand_without_yams_available_falls_to_four_of_a_kind() {
    let dice = [6, 6, 6, 6, 6];
    let available = [
        Combination::Straight,
        Combination::FourOfAKind,
        Combination::FullHouse,
        Combination::ThreeOfAKind,
        Combination::Chance,
    ];
    assert_eq!(
        calculate_yams_round_score(&dice, &available),
        Some((Combination::FourOfAKind, 35)),
    );
}

#[test]
fn equal_scores_go_to_the_earlier_combination() {
    // With FullHouse consumed, [6,6,6,5,5] matches ThreeOfAKind (28) and
    // Chance (sum 28); the tie goes to the combination listed first.
    let dice = [6, 6, 6, 5, 5];
    let available = [
        Combination::Yams,
        Combination::Straight,
        Combination::FourOfAKind,
        Combination::ThreeOfAKind,
        Combination::Chance,
    ];
    assert_eq!(
        calculate_yams_round_score(&dice, &available),
        Some((Combination::ThreeOfAKind, 28)),
    );
}

#[test]
fn chance_alone_scores_the_sum() {
    let dice = [1, 1, 1, 2, 3];
    let available = [Combination::Chance];
    assert_eq!(
        calculate_yams_round_score(&dice, &available),
        Some((Combination::Chance, 8)),
    );
}

#[test]
fn empty_availability_yields_nothing() {
    let dice = [6, 6, 6, 6, 6];
    let available: [Combination; 0] = [];
    assert_eq!(calculate_yams_round_score(&dice, &available), None);
}

#[test]
fn no_matching_available_combination_yields_nothing() {
    let dice = [1, 2, 3, 4, 6];
    let available = [
        Combination::Yams,
        Combination::Straight,
        Combination::FourOfAKind,
        Combination::FullHouse,
        Combination::ThreeOfAKind,
    ];
    assert_eq!(calculate_yams_round_score(&dice, &available), None);
}

#[test]
fn yams_checks() {
    assert!(is_yams(&[4, 4, 4, 4, 4]));
    assert!(!is_yams(&[4, 4, 4, 4, 5]));
    assert_eq!(check_yams(&[2, 2, 2, 2, 2]), CombinationResult::Matched(50));
    assert_eq!(check_yams(&[2, 2, 2, 2, 1]), CombinationResult::NotMatched);
}

#[test]
fn straight_checks() {
    assert!(contains_straight(&[1, 2, 3, 4, 5]));
    assert!(contains_straight(&[6, 5, 4, 3, 2]));
    assert!(!contains_straight(&[1, 2, 3, 4, 6]));
    assert!(!contains_straight(&[1, 1, 2, 3, 4]));
    assert_eq!(check_straight(&[3, 1, 4, 2, 5]), CombinationResult::Matched(40));
    assert_eq!(check_straight(&[3, 3, 4, 2, 5]), CombinationResult::NotMatched);
}

#[test]
fn four_of_a_kind_checks() {
    assert!(contains_four_of_a_kind(&[5, 5, 5, 5, 1]));
    assert!(contains_four_of_a_kind(&[6, 6, 6, 6, 6]));
    assert!(!contains_four_of_a_kind(&[5, 5, 5, 1, 1]));
    assert_eq!(check_four_of_a_kind(&[1, 5, 5, 5, 5]), CombinationResult::Matched(35));
    assert_eq!(check_four_of_a_kind(&[1, 1, 5, 5, 5]), CombinationResult::NotMatched);
}

#[test]
fn full_house_checks() {
    assert!(contains_full_house(&[2, 2, 3, 3, 3]));
    assert!(!contains_full_house(&[2, 2, 2, 2, 3]));
    assert!(!contains_full_house(&[6, 6, 6, 6, 6]));
    assert_eq!(check_full_house(&[5, 4, 5, 4, 4]), CombinationResult::Matched(30));
    assert_eq!(check_full_house(&[5, 4, 5, 4, 6]), CombinationResult::NotMatched);
}

#[test]
fn three_of_a_kind_checks() {
    assert!(contains_three_of_a_kind(&[2, 5, 2, 6, 2]));
    assert!(contains_three_of_a_kind(&[4, 4, 4, 4, 1]));
    assert!(!contains_three_of_a_kind(&[2, 2, 3, 3, 4]));
    assert_eq!(check_three_of_a_kind(&[6, 6, 6, 1, 2]), CombinationResult::Matched(28));
    assert_eq!(check_three_of_a_kind(&[6, 6, 1, 1, 2]), CombinationResult::NotMatched);
}

#[test]
fn chance_checks() {
    assert_eq!(calculate_chance_score(&[1, 2, 3, 4, 6]), 16);
    assert_eq!(calculate_chance_score(&[1, 1, 1, 1, 1]), 5);
    assert_eq!(calculate_chance_score(&[6, 6, 6, 6, 6]), 30);
    assert_eq!(check_chance(&[2, 3, 1, 1, 4]), CombinationResult::Matched(11));
}

#[test]
fn best_case_picks_the_highest_score() {
    assert_eq!(get_best_case(&[]), None);
    assert_eq!(
        get_best_case(&[(CombinationResult::NotMatched, Combination::Yams)]),
        Some((CombinationResult::NotMatched, Combination::Yams)),
    );
    assert_eq!(
        get_best_case(&[
            (CombinationResult::NotMatched, Combination::Yams),
            (CombinationResult::Matched(28), Combination::ThreeOfAKind),
            (CombinationResult::Matched(30), Combination::FullHouse),
        ]),
        Some((CombinationResult::Matched(30), Combination::FullHouse)),
    );
    // A match always outranks a miss, and among equal scores the first wins.
    assert_eq!(
        get_best_case(&[
            (CombinationResult::Matched(28), Combination::ThreeOfAKind),
            (CombinationResult::Matched(28), Combination::Chance),
            (CombinationResult::NotMatched, Combination::Yams),
        ]),
        Some((CombinationResult::Matched(28), Combination::ThreeOfAKind)),
    );
}
