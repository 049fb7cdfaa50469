use adc23::day9::challenge;

#[test]
fn test_example() {
    // Given
    let input = vec![
        "0 3 6 9 12 15".to_string(),
        "1 3 6 10 15 21".to_string(),
        "10 13 16 21 30 45".to_string(),
    ];

    // When
    let sum = challenge(2, &input).unwrap();

    // Then
    assert_eq!(2, sum);
}

#[test]
fn next_values_of_the_example() {
    let input = vec![
        "0 3 6 9 12 15".to_string(),
        "1 3 6 10 15 21".to_string(),
        "10 13 16 21 30 45".to_string(),
    ];
    assert_eq!(18 + 28 + 68, challenge(1, &input).unwrap());
}

#[test]
fn negative_values_parse() {
    let input = vec!["-3 -1 1 3".to_string()];
    assert_eq!(5, challenge(1, &input).unwrap());
    assert_eq!(-5, challenge(2, &input).unwrap());
}

#[test]
fn non_numeric_series_is_rejected() {
    let input = vec!["1 two 3".to_string()];
    assert!(challenge(1, &input).is_err());
}
