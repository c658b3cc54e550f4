use yams::scorer::calculate_yams_total_score;

#[test]
fn test_yams_total_score() {
    let rounds = vec![
        [3, 3, 3, 2, 5], // Three of a kind: 28
        [4, 4, 4, 4, 1], // Four of a kind: 35
        [2, 2, 3, 3, 3], // Full house: 30
        [1, 2, 3, 4, 5], // Straight: 40
        [1, 2, 3, 4, 6], // Chance: 16
    ];
    assert_eq!(calculate_yams_total_score(&rounds), 149);
}

#[test]
fn test_no_repeat_combination() {
    let rounds = vec![
        [1, 1, 1, 2, 2], // Full house: 30
        [2, 2, 2, 3, 3], // Three of a kind: 28, full house already consumed
        [3, 3, 3, 4, 4], // Chance: 17, both better matches already consumed
    ];
    assert_eq!(calculate_yams_total_score(&rounds), 75);
}

#[test]
fn empty_game_scores_zero() {
    let rounds: Vec<[u8; 5]> = vec![];
    assert_eq!(calculate_yams_total_score(&rounds), 0);
}

#[test]
fn unmatched_round_contributes_zero() {
    let rounds = vec![
        [1, 2, 3, 4, 6], // Chance: 16
        [1, 2, 3, 4, 6], // nothing left that matches: 0
        [5, 5, 5, 5, 5], // Yams: 50
    ];
    assert_eq!(calculate_yams_total_score(&rounds), 66);
}

#[test]
fn rounds_beyond_exhaustion_score_nothing() {
    let rounds = vec![
        [6, 6, 6, 6, 6], // Yams: 50
        [1, 2, 3, 4, 5], // Straight: 40
        [5, 5, 5, 5, 1], // Four of a kind: 35
        [2, 2, 3, 3, 3], // Full house: 30
        [4, 4, 4, 1, 2], // Three of a kind: 28
        [1, 2, 3, 4, 6], // Chance: 16
        [6, 6, 6, 6, 6], // everything consumed: 0
        [1, 2, 3, 4, 5], // still nothing left: 0
    ];
    assert_eq!(calculate_yams_total_score(&rounds), 199);
}
