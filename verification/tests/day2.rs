use adc23::day2::elf_challenge;

#[test]
fn day2_part1_example() {
    // Given
    let input: Vec<String> = "Game 1: 3 blue, 4 red; 1 red, 2 green, 6 blue; 2 green
Game 2: 1 blue, 2 green; 3 green, 4 blue, 1 red; 1 green, 1 blue
Game 3: 8 green, 6 blue, 20 red; 5 blue, 4 red, 13 green; 5 green, 1 red
Game 4: 1 green, 3 red, 6 blue; 3 green, 6 red; 3 green, 15 blue, 14 red
Game 5: 6 red, 1 blue, 3 green; 2 blue, 1 red, 2 green"
        .lines()
        .map(|it| it.to_string())
        .collect();

    // When
    let sum = elf_challenge(1, input).unwrap();

    // Then
    assert_eq!(1 + 2 + 5, sum);
}

#[test]
fn day2_part2_example() {
    // Given
    let input: Vec<String> = "Game 1: 3 blue, 4 red; 1 red, 2 green, 6 blue; 2 green
Game 2: 1 blue, 2 green; 3 green, 4 blue, 1 red; 1 green, 1 blue
Game 3: 8 green, 6 blue, 20 red; 5 blue, 4 red, 13 green; 5 green, 1 red
Game 4: 1 green, 3 red, 6 blue; 3 green, 6 red; 3 green, 15 blue, 14 red
Game 5: 6 red, 1 blue, 3 green; 2 blue, 1 red, 2 green"
        .lines()
        .map(|it| it.to_string())
        .collect();

    // When
    let sum = elf_challenge(2, input).unwrap();

    // Then
    assert_eq!(2286, sum);
}

#[test]
fn invalid_color_is_rejected() {
    let input = vec!["Game 1: 3 mauve".to_string()];
    assert!(elf_challenge(1, input).is_err());
}

#[test]
fn missing_colon_is_rejected() {
    let input = vec!["Game 1 3 blue".to_string()];
    assert!(elf_challenge(2, input).is_err());
}
