use adc23::day5::{challenge, CategoryMap, Range};

#[test]
fn test_convert_with_range() {
    // Given
    let range = Range {
        source_start: 98,
        destination_start: 50,
        len: 2,
    };

    // When - Then
    assert_eq!(None, range.convert(97));
    assert_eq!(Some(50), range.convert(98));
    assert_eq!(Some(51), range.convert(99));
    assert_eq!(None, range.convert(100));
}

#[test]
fn test_convert_with_map() {
    // Given
    let map = CategoryMap {
        ranges: vec![
            Range {
                source_start: 98,
                destination_start: 50,
                len: 2,
            },
            Range {
                source_start: 50,
                destination_start: 52,
                len: 48,
            },
        ],
    };

    // When - Then
    assert_eq!(49, map.convert(49));
    assert_eq!(52, map.convert(50));
    assert_eq!(99, map.convert(97));
    assert_eq!(50, map.convert(98));
    assert_eq!(51, map.convert(99));
    assert_eq!(100, map.convert(100));
}

#[test]
fn day5_part1_example() {
    // Given
    let input: Vec<String> = vec![
        "seeds: 79 14 55 13",
        "",
        "seed-to-soil map:",
        "50 98 2",
        "52 50 48",
        "",
        "soil-to-fertilizer map:",
        "0 15 37",
        "37 52 2",
        "39 0 15",
        "",
        "fertilizer-to-water map:",
        "49 53 8",
        "0 11 42",
        "42 0 7",
        "57 7 4",
        "",
        "water-to-light map:",
        "88 18 7",
        "18 25 70",
        "",
        "light-to-temperature map:",
        "45 77 23",
        "81 45 19",
        "68 64 13",
        "",
        "temperature-to-humidity map:",
        "0 69 1",
        "1 0 69",
        "",
        "humidity-to-location map:",
        "60 56 37",
        "56 93 4",
    ]
    .iter()
    .map(|it| it.to_string())
    .collect();

    // When
    let lowest = challenge(1, &input).unwrap();

    // Then
    assert_eq!(35, lowest);
}

#[test]
fn short_range_line_is_rejected() {
    let input: Vec<String> = vec!["seeds: 1 2", "", "a-to-b map:", "50 98"]
        .iter()
        .map(|it| it.to_string())
        .collect();
    assert!(challenge(1, &input).is_err());
}
