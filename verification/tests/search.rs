use amar::search::{lowered_match_score, name_match_score};

#[test]
fn closest_match_ordering() {
    // exact < prefix < word-start < substring < fuzzy
    let exact = name_match_score("finlo", "Finlo").unwrap();
    let prefix = name_match_score("finlo", "Finlo Renn").unwrap();
    let word = name_match_score("vorian", "Guard Captain Vorian Macch").unwrap();
    let sub = name_match_score("ori", "Thalarien Solscar");
    let fuzzy = name_match_score("dwrvnroad", "TheDwarvenRoad").unwrap();
    assert!(exact < prefix);
    assert!(prefix < word);
    assert!(sub.is_none() || word < sub.unwrap());
    assert!(fuzzy > word);
    // No plausible match at all → None.
    assert!(name_match_score("zzzqqq", "Finlo Renn").is_none());
}

#[test]
fn shorter_name_wins_ties() {
    let a = name_match_score("durgan", "Durgan Stonehand").unwrap();
    let b = name_match_score("durgan", "Durgan Stonehand the Elder of Borgheim").unwrap();
    assert!(a < b);
}

#[test]
fn exact_match_scores_zero() {
    assert_eq!(name_match_score("finlo", "FINLO"), Some(0));
}

#[test]
fn prefix_score_is_hundred_plus_length() {
    // "finlo renn" is 10 bytes.
    assert_eq!(name_match_score("finlo", "Finlo Renn"), Some(110));
}

#[test]
fn word_start_and_inner_substring_scores() {
    // "guard captain vorian macch": "vorian" at byte 14, 26 bytes long.
    assert_eq!(name_match_score("vorian", "Guard Captain Vorian Macch"), Some(500 + 14 * 4 + 26));
    // "thalarien": "lar" at byte 3, not at a word start; 9 bytes long.
    assert_eq!(name_match_score("lar", "Thalarien"), Some(1000 + 3 * 4 + 9));
}

#[test]
fn fuzzy_score_uses_match_span() {
    // "thedwarvenroad": 'd' at 3 … final 'd' at 13 → span 10; 14 bytes.
    assert_eq!(name_match_score("dwrvnroad", "TheDwarvenRoad"), Some(5000 + 10 * 10 + 14));
}

#[test]
fn empty_query_matches_everything_as_prefix() {
    assert_eq!(name_match_score("", "abc"), Some(103));
    assert_eq!(name_match_score("", ""), Some(0));
}

#[test]
fn non_ascii_offsets_count_bytes() {
    // "é" takes two bytes, so "x" sits at byte 3 of "é x" (4 bytes).
    assert_eq!(name_match_score("x", "é x"), Some(500 + 3 * 4 + 4));
}

#[test]
fn later_word_start_beats_inner_substring() {
    // "ann" first occurs inside "joanna", but also starts the word "ann".
    assert_eq!(name_match_score("ann", "Joanna Ann"), Some(500 + 7 * 4 + 10));
    assert_eq!(name_match_score("ann", "Joanna"), Some(1000 + 2 * 4 + 6));
}

#[test]
fn lowered_score_takes_the_name_as_given() {
    assert_eq!(lowered_match_score("finlo", "finlo"), Some(0));
    assert_eq!(lowered_match_score("finlo", "FINLO"), None);
    assert_eq!(lowered_match_score("fin", "finlo renn"), Some(110));
}
