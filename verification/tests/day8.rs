use adc23::day8::{challenge, find_factors, is_prime};

#[test]
fn two_steps_right() {
    let input: Vec<String> = vec![
        "RL",
        "",
        "AAA = (BBB, CCC)",
        "BBB = (DDD, EEE)",
        "CCC = (ZZZ, GGG)",
        "DDD = (DDD, DDD)",
        "EEE = (EEE, EEE)",
        "GGG = (GGG, GGG)",
        "ZZZ = (ZZZ, ZZZ)",
    ]
    .iter()
    .map(|it| it.to_string())
    .collect();
    assert_eq!(2, challenge(1, &input).unwrap());
}

#[test]
fn directions_wrap_around() {
    let input: Vec<String> = vec![
        "LLR",
        "",
        "AAA = (BBB, BBB)",
        "BBB = (AAA, ZZZ)",
        "ZZZ = (ZZZ, ZZZ)",
    ]
    .iter()
    .map(|it| it.to_string())
    .collect();
    assert_eq!(6, challenge(1, &input).unwrap());
}

#[test]
fn ghost_walk_combines_the_cycle_lengths() {
    let input: Vec<String> = vec![
        "LR",
        "",
        "11A = (11B, XXX)",
        "11B = (XXX, 11Z)",
        "11Z = (11B, XXX)",
        "22A = (22B, XXX)",
        "22B = (22C, 22C)",
        "22C = (22Z, 22Z)",
        "22Z = (22B, 22B)",
        "XXX = (XXX, XXX)",
    ]
    .iter()
    .map(|it| it.to_string())
    .collect();
    // walk lengths 2 and 3: the distinct prime factors multiply to 6
    assert_eq!(6, challenge(2, &input).unwrap());
}

#[test]
fn walking_off_the_map_is_an_error() {
    let input: Vec<String> = vec!["R", "", "AAA = (BBB, CCC)"]
        .iter()
        .map(|it| it.to_string())
        .collect();
    assert!(challenge(1, &input).is_err());
}

#[test]
fn primality_of_small_numbers() {
    let primes = [2u64, 3, 5, 7, 11, 13, 17, 19, 23, 29, 31, 37, 97, 7919];
    for p in primes {
        assert!(is_prime(p), "{} should be prime", p);
    }
    let composites = [0u64, 1, 4, 6, 8, 9, 15, 21, 25, 49, 91, 7917];
    for c in composites {
        assert!(!is_prime(c), "{} should not be prime", c);
    }
}

#[test]
fn factors_of_a_product_of_primes() {
    assert_eq!(vec![2u64, 3, 5], find_factors(30));
    assert_eq!(vec![2u64, 3], find_factors(12));
    assert_eq!(Vec::<u64>::new(), find_factors(1));
}
