use json_parser::number::NumberTokenizer;

#[test]
fn test_number_tokenizer_tokenize() {
    assert_eq!(
        NumberTokenizer::new().tokenize(&"0".chars().collect::<Vec<char>>(), &mut 0),
        "0".to_string()
    );

    assert_eq!(
        NumberTokenizer::new().tokenize(&"99999999".chars().collect::<Vec<char>>(), &mut 0),
        "99999999".to_string()
    );

    assert_eq!(
        NumberTokenizer::new().tokenize(&"-3".chars().collect::<Vec<char>>(), &mut 0),
        "-3".to_string()
    );

    assert_eq!(
        NumberTokenizer::new().tokenize(&"0.0001".chars().collect::<Vec<char>>(), &mut 0),
        "0.0001".to_string()
    );

    assert_eq!(
        NumberTokenizer::new().tokenize(&"-0.0001".chars().collect::<Vec<char>>(), &mut 0),
        "-0.0001".to_string()
    );

    assert_eq!(
        NumberTokenizer::new().tokenize(&"-1.3e+5".chars().collect::<Vec<char>>(), &mut 0),
        "-1.3e+5".to_string()
    );

    assert_eq!(
        NumberTokenizer::new().tokenize(&"-1.3e-5".chars().collect::<Vec<char>>(), &mut 0),
        "-1.3e-5".to_string()
    );

    assert_eq!(
        NumberTokenizer::new().tokenize(&"-1.3e5".chars().collect::<Vec<char>>(), &mut 0),
        "-1.3e5".to_string()
    );
}

#[test]
fn scanner_stops_at_first_invalid_character() {
    let mut cursor: usize = 0;
    let text = "125}".chars().collect::<Vec<char>>();
    assert_eq!(NumberTokenizer::new().tokenize(&text, &mut cursor), "125".to_string());
    assert_eq!(cursor, 3);
}

#[test]
fn scanner_advances_cursor_by_lexeme_length() {
    let mut cursor: usize = 0;
    let text = "-1.3e+5".chars().collect::<Vec<char>>();
    assert_eq!(NumberTokenizer::new().tokenize(&text, &mut cursor), "-1.3e+5".to_string());
    assert_eq!(cursor, 7);
}

#[test]
fn scanner_rejects_leading_zero_digits() {
    // After a leading zero only a dot or an exponent may follow.
    let mut cursor: usize = 0;
    let text = "0123".chars().collect::<Vec<char>>();
    assert_eq!(NumberTokenizer::new().tokenize(&text, &mut cursor), "0".to_string());
    assert_eq!(cursor, 1);
}

#[test]
fn scanner_accepts_lone_minus() {
    // The transition table accepts a bare sign as a matched lexeme.
    let mut cursor: usize = 0;
    let text = "-".chars().collect::<Vec<char>>();
    assert_eq!(NumberTokenizer::new().tokenize(&text, &mut cursor), "-".to_string());
    assert_eq!(cursor, 1);
}

#[test]
fn scanner_accepts_trailing_exponent_sign() {
    // The transition table accepts a dangling exponent sign as matched.
    let mut cursor: usize = 0;
    let text = "1e+".chars().collect::<Vec<char>>();
    assert_eq!(NumberTokenizer::new().tokenize(&text, &mut cursor), "1e+".to_string());
    assert_eq!(cursor, 3);
}

#[test]
fn scanner_rejects_plus_outside_exponent() {
    let mut cursor: usize = 0;
    let text = "+1".chars().collect::<Vec<char>>();
    assert_eq!(NumberTokenizer::new().tokenize(&text, &mut cursor), "".to_string());
    assert_eq!(cursor, 0);
}
