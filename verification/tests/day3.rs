use adc23::day3::{
    challenge, parse_schematic, parse_schematic_part, sum_part_numbers, EngineNumber,
    SchematicPart,
};
use adc23::math::Point;

#[test]
fn verify_parse_number() {
    // Given
    let line = "...123".as_bytes();
    let start_index = 0;
    let y = 0;

    // When
    let (part, next_index) = parse_schematic_part(line, start_index, y).unwrap();

    // Then
    assert_eq!(next_index, 6);
    assert_eq!(
        SchematicPart::Number(EngineNumber {
            start: Point::new(3, 0),
            len: 3,
            value: 123
        }),
        part.unwrap()
    );
}

#[test]
fn verify_parse_symbol() {
    // Given
    let line = ".*".as_bytes();
    let start_index = 0;
    let y = 0;

    // When
    let (part, next_index) = parse_schematic_part(line, start_index, y).unwrap();

    // Then
    assert_eq!(next_index, 2);
    assert_eq!(SchematicPart::Symbol(Point::new(1, 0), '*'), part.unwrap());
}

#[test]
fn verify_parse_schematic() {
    // Given
    let input: Vec<String> = vec!["467..114..", "...*......", "..35..633.", "......#..."]
        .iter()
        .map(|line| line.to_string())
        .collect();

    // When
    let (numbers, symbols) = parse_schematic(&input).unwrap();

    // Then
    assert_eq!(
        vec![
            EngineNumber {
                start: Point::new(0, 0),
                len: 3,
                value: 467
            },
            EngineNumber {
                start: Point::new(5, 0),
                len: 3,
                value: 114
            },
            EngineNumber {
                start: Point::new(2, 2),
                len: 2,
                value: 35
            },
            EngineNumber {
                start: Point::new(6, 2),
                len: 3,
                value: 633
            }
        ],
        numbers
    );

    assert_eq!(
        vec![(Point::new(3, 1), '*'), (Point::new(6, 3), '#')],
        symbols
    );
}

#[test]
fn verify_sum_part_numbers() {
    // Given
    let input: Vec<String> = vec![
        "467..114..",
        "...*......",
        "..35..633.",
        "......#...",
        "617*......",
        ".....+.58.",
        "..592.....",
        "......755.",
        "...$.*....",
        ".664.598..",
    ]
    .iter()
    .map(|line| line.to_string())
    .collect();

    // When
    let sum = sum_part_numbers(&input).unwrap();

    // Then
    assert_eq!(4361, sum);
}

#[test]
fn other_parts_are_zero() {
    let input = vec!["467..114..".to_string()];
    assert_eq!(0, challenge(2, &input).unwrap());
}
