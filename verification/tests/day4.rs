use adc23::day4::challenge;

#[test]
fn day4_part1_example() {
    // Given
    let input: Vec<String> = vec![
        "Card 1: 41 48 83 86 17 | 83 86  6 31 17  9 48 53",
        "Card 2: 13 32 20 16 61 | 61 30 68 82 17 32 24 19",
        "Card 3:  1 21 53 59 44 | 69 82 63 72 16 21 14  1",
        "Card 4: 41 92 73 84 69 | 59 84 76 51 58  5 54 83",
        "Card 5: 87 83 26 28 32 | 88 30 70 12 93 22 82 36",
        "Card 6: 31 18 13 56 72 | 74 77 10 23 35 67 36 11",
    ]
    .iter()
    .map(|line| line.to_string())
    .collect();

    // When
    let sum = challenge(1, &input).unwrap();

    // Then
    assert_eq!(13, sum);
}

#[test]
fn day4_part2_example() {
    // Given
    let input: Vec<String> = vec![
        "Card 1: 41 48 83 86 17 | 83 86  6 31 17  9 48 53",
        "Card 2: 13 32 20 16 61 | 61 30 68 82 17 32 24 19",
        "Card 3:  1 21 53 59 44 | 69 82 63 72 16 21 14  1",
        "Card 4: 41 92 73 84 69 | 59 84 76 51 58  5 54 83",
        "Card 5: 87 83 26 28 32 | 88 30 70 12 93 22 82 36",
        "Card 6: 31 18 13 56 72 | 74 77 10 23 35 67 36 11",
    ]
    .iter()
    .map(|line| line.to_string())
    .collect();

    // When
    let sum = challenge(2, &input).unwrap();

    // Then
    assert_eq!(30, sum);
}

#[test]
fn missing_pipe_is_rejected() {
    let input = vec!["Card 1: 41 48".to_string()];
    assert!(challenge(1, &input).is_err());
}
