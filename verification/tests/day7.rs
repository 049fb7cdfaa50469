use adc23::{day7, day7_1, day7_2};

fn to_input(lines: &Vec<&str>) -> Vec<String> {
    lines.iter().map(|it| it.to_string()).collect()
}

#[test]
fn day7_part1_example() {
    // Given
    let binding = vec![
        "32T3K 765",
        "T55J5 684",
        "KK677 28",
        "KTJJT 220",
        "QQQJA 483",
    ];

    // When
    let total = day7_1::challenge(&to_input(&binding)).unwrap();

    // Then
    assert_eq!(6440, total);
}

#[test]
fn mod_part1_example() {
    // Given
    let binding = vec![
        "32T3K 765",
        "T55J5 684",
        "KK677 28",
        "KTJJT 220",
        "QQQJA 483",
    ];

    // When
    let total = day7::challenge(1, &to_input(&binding)).unwrap();

    // Then
    assert_eq!(6440, total);
}

#[test]
fn j_ordering() {
    // Given
    let binding = vec!["J3456 1", "T345J 4"];

    // When
    let total_part1 = day7::challenge(1, &to_input(&binding)).unwrap();
    let total_part2 = day7::challenge(2, &to_input(&binding)).unwrap();

    // Then
    assert_eq!(4 + 2, total_part1);
    assert_eq!(1 + 8, total_part2);
}

#[test]
fn mod_part2_example() {
    // Given
    let binding = vec![
        "32T3K 765",
        "T55J5 684",
        "KK677 28",
        "KTJJT 220",
        "QQQJA 483",
    ];

    // When
    let total = day7::challenge(2, &to_input(&binding)).unwrap();

    // Then
    assert_eq!(5905, total);
}

#[test]
fn five_of_a_kind_with_jokers() {
    // Given
    let binding = vec!["JJJKJ 1", "T55J5 4"];

    // When
    let total = day7::challenge(2, &to_input(&binding)).unwrap();

    // Then
    assert_eq!(2 + 4, total);
}

#[test]
fn day7_2_part2_example() {
    // Given
    let binding = vec![
        "32T3K 765",
        "T55J5 684",
        "KK677 28",
        "KTJJT 220",
        "QQQJA 483",
    ];

    // When
    let total = day7_2::challenge(&to_input(&binding)).unwrap();

    // Then
    assert_eq!(5905, total);
}
