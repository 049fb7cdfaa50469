//! Scenario checks for the hand-ranking rules: the classifier on concrete
//! hands under both modes, the comparator, and the exact parse errors.

use adc23::day7::{
    challenge, cmp_cards, cmp_hands, parse_hand, parse_hands, Card, HandType, Mode, ParseError,
};
use adc23::day7::part1;
use adc23::day7::part2;
use std::cmp::Ordering;

fn hand(line: &str) -> adc23::day7::Hand {
    parse_hand(line).unwrap()
}

#[test]
fn classify_five_of_a_kind_standard() {
    assert_eq!(
        HandType::FiveOfAKind,
        hand("AAAAA 1").hand_type(Mode::Standard)
    );
}

#[test]
fn classify_four_of_a_kind_standard() {
    assert_eq!(
        HandType::FourOfAKind,
        hand("AA8AA 1").hand_type(Mode::Standard)
    );
}

#[test]
fn classify_high_card_standard() {
    assert_eq!(HandType::HighCard, hand("23456 1").hand_type(Mode::Standard));
}

#[test]
fn classify_middle_categories_standard() {
    assert_eq!(HandType::FullHouse, hand("23332 1").hand_type(Mode::Standard));
    assert_eq!(
        HandType::ThreeOfAKind,
        hand("TTT98 1").hand_type(Mode::Standard)
    );
    assert_eq!(HandType::TwoPair, hand("23432 1").hand_type(Mode::Standard));
    assert_eq!(HandType::OnePair, hand("A23A4 1").hand_type(Mode::Standard));
}

#[test]
fn wildcard_reinforces_the_three_fives() {
    assert_eq!(
        HandType::FourOfAKind,
        hand("T55J5 1").hand_type(Mode::Wildcard)
    );
}

#[test]
fn four_wildcards_reinforce_the_king() {
    assert_eq!(
        HandType::FiveOfAKind,
        hand("JJJKJ 1").hand_type(Mode::Wildcard)
    );
}

#[test]
fn all_wildcards_are_five_of_a_kind() {
    assert_eq!(
        HandType::FiveOfAKind,
        hand("JJJJJ 1").hand_type(Mode::Wildcard)
    );
    assert_eq!(
        HandType::FiveOfAKind,
        hand("JJJJJ 1").hand_type(Mode::Standard)
    );
}

#[test]
fn comparator_orders_by_category_then_position() {
    // same category, first position decides
    let a = hand("33332 1");
    let b = hand("2AAAA 1");
    assert_eq!(Ordering::Greater, cmp_hands(&a, &b, Mode::Standard));
    assert_eq!(Ordering::Less, cmp_hands(&b, &a, Mode::Standard));
    // equal hands compare equal
    assert_eq!(Ordering::Equal, cmp_hands(&a, &hand("33332 9"), Mode::Standard));
    // category dominates the positions
    let c = hand("77888 1");
    let d = hand("AAA23 1");
    assert_eq!(Ordering::Greater, cmp_hands(&c, &d, Mode::Standard));
}

#[test]
fn wildcard_card_order_puts_the_joker_lowest() {
    assert_eq!(Ordering::Greater, cmp_cards(&Card::J, &Card::Two, Mode::Standard));
    assert_eq!(Ordering::Less, cmp_cards(&Card::J, &Card::Two, Mode::Wildcard));
    assert_eq!(Ordering::Equal, cmp_cards(&Card::J, &Card::J, Mode::Wildcard));
}

#[test]
fn strategy_entry_points_agree_with_the_modes() {
    let h = hand("T55J5 1");
    assert_eq!(HandType::ThreeOfAKind, part1::hand_type(&h));
    assert_eq!(HandType::FourOfAKind, part2::hand_type(&h));
    let p1 = part1::Part1Hand::parse("T55J5 33").unwrap();
    assert_eq!(33, p1.bid());
    assert_eq!(HandType::ThreeOfAKind, p1.hand_type());
    let p2 = part2::Part2Hand::parse("T55J5 33").unwrap();
    assert_eq!(33, p2.bid());
    assert_eq!(HandType::FourOfAKind, p2.hand_type());
}

#[test]
fn malformed_line_aborts_the_batch() {
    // four symbols: the batch fails fast with a wrong-length error
    let lines = vec!["32T3 765".to_string(), "T55J5 684".to_string()];
    assert_eq!(Err(ParseError::WrongLength), challenge(1, &lines));
    assert_eq!(Err(ParseError::WrongLength), parse_hands(&lines).map(|_| ()));
}

#[test]
fn each_parse_error_has_its_input() {
    assert_eq!(
        Err(ParseError::MissingSeparator),
        parse_hand("AAAAA").map(|_| ())
    );
    assert_eq!(
        Err(ParseError::InvalidSymbol),
        parse_hand("AAXAA 12").map(|_| ())
    );
    assert_eq!(
        Err(ParseError::WrongLength),
        parse_hand("AAAAAA 12").map(|_| ())
    );
    assert_eq!(
        Err(ParseError::InvalidInteger),
        parse_hand("AAAAA twelve").map(|_| ())
    );
    assert_eq!(
        Err(ParseError::InvalidInteger),
        parse_hand("AAAAA 99999999999").map(|_| ())
    );
    assert!(parse_hand("32T3K 765").is_ok());
}

#[test]
fn empty_batch_scores_zero() {
    let lines: Vec<String> = vec![];
    assert_eq!(Ok(0), challenge(1, &lines));
    assert_eq!(Ok(0), challenge(2, &lines));
    assert_eq!(Ok(0), challenge(3, &lines));
}
