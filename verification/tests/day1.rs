use adc23::day1::sum_calibration_values;

#[test]
fn day1_part1_example() {
    // Given
    let lines = vec![
        "1abc2".to_string(),
        "pqr3stu8vwx".to_string(),
        "a1b2c3d4e5f".to_string(),
        "treb7uchet".to_string(),
    ];

    // When
    let sum = sum_calibration_values(1, &lines);

    // Then
    assert_eq!(sum, 142);
}

#[test]
fn day1_part2_example() {
    // Given
    let lines = vec![
        "two1nine".to_string(),
        "eightwothree".to_string(),
        "abcone2threexyz".to_string(),
        "xtwone3four".to_string(),
        "4nineeightseven2".to_string(),
        "zoneight234".to_string(),
        "7pqrstsixteen".to_string(),
    ];

    // When
    let sum = sum_calibration_values(2, &lines);

    // Then
    assert_eq!(sum, 29 + 83 + 13 + 24 + 42 + 14 + 76);
}

#[test]
fn part2_advanced() {
    // Given
    let input = "ckmb52fldxkseven3fkjgcbzmnr7
        gckhqpb6twoqnjxqplthree2fourkspnsnzxlz1
        2onetwocrgbqm7
        frkh2nineqmqxrvdsevenfive
        four9two
        six7sixqrdfive3twonehsk
        xkvsone2
        one65
        rggxsff1seven
        djbcgrrtqdshpqqzj43rgcr
        br89fivetwoqggnxjfourtl3
        zoneight47five5sixjxd74
        4five1
        5seveneighteightzzbnzsvdjnkvndsxlttfour
        htdcmsl12ninethreepkqtdlvtl
        twocghtvtdlfchfqnjhrfour19
        rptwofiveonecvlldmppxtrvj3
        6gqsvsqpzxj
        5twomgkzsvg
        4ninedflntfsn1
        4threethree
        43two6eight9
        4gqnkntjthree9one45
        24";

    // When
    let lines: Vec<String> = input.split_whitespace().map(|it| it.to_string()).collect();
    let sum = sum_calibration_values(2, &lines);

    // Then
    assert_eq!(
        sum,
        57 + 61
            + 27
            + 25
            + 42
            + 61
            + 12
            + 15
            + 17
            + 43
            + 83
            + 14
            + 41
            + 54
            + 13
            + 29
            + 23
            + 66
            + 52
            + 41
            + 43
            + 49
            + 45
            + 24
    )
}
