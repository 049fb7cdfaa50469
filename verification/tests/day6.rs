use adc23::day6::challenge;

#[test]
fn day6_part1_example() {
    // Given
    let lines: Vec<String> = vec!["Time:      7  15   30", "Distance:  9  40  200"]
        .iter()
        .map(|it| it.to_string())
        .collect();

    // When
    let sum = challenge(1, &lines).unwrap();

    assert_eq!(288, sum);
}

#[test]
fn part1_real() {
    // Given
    let lines: Vec<String> = vec![
        "Time:        34     90     89     86",
        "Distance:   204   1713   1210   1780",
    ]
    .iter()
    .map(|it| it.to_string())
    .collect();

    // When
    let sum = challenge(1, &lines).unwrap();

    assert_eq!(633080, sum);
}

#[test]
fn day6_part2_example() {
    // Given
    let lines: Vec<String> = vec!["Time:      7  15   30", "Distance:  9  40  200"]
        .iter()
        .map(|it| it.to_string())
        .collect();

    // When
    let sum = challenge(2, &lines).unwrap();

    assert_eq!(71503, sum);
}

#[test]
fn part2_real() {
    // Given
    let lines: Vec<String> = vec![
        "Time:        34     90     89     86",
        "Distance:   204   1713   1210   1780",
    ]
    .iter()
    .map(|it| it.to_string())
    .collect();

    // When
    let sum = challenge(2, &lines).unwrap();

    assert_eq!(20048741, sum);
}

#[test]
fn missing_line_is_rejected() {
    let lines = vec!["Time: 7".to_string()];
    assert!(challenge(1, &lines).is_err());
}
