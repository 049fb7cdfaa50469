use adc23::parse::parse_num_line_with_prefix;

#[test]
fn numbers_after_a_prefix() {
    let ns = parse_num_line_with_prefix("Time:      7  15   30").unwrap();
    assert_eq!(vec![7u64, 15, 30], ns);
}

#[test]
fn missing_prefix_is_rejected() {
    assert!(parse_num_line_with_prefix("7 15 30").is_err());
}

#[test]
fn non_numeric_piece_is_rejected() {
    assert!(parse_num_line_with_prefix("Time: 7 x 30").is_err());
}

#[test]
fn empty_tail_is_no_numbers() {
    let ns = parse_num_line_with_prefix("Time:").unwrap();
    assert_eq!(Vec::<u64>::new(), ns);
}
