use json_parser::tokenizer::{
    distinguish_false, distinguish_null, distinguish_number, distinguish_string, distinguish_true,
    tokenize, Token, TokenizeError,
};

#[test]
fn test_tokenize() {
    assert_eq!(
        tokenize("{".chars().collect::<Vec<char>>()).unwrap(),
        vec![Token::LeftBrace]
    );
    assert_eq!(
        tokenize("}".chars().collect::<Vec<char>>()).unwrap(),
        vec![Token::RightBrace]
    );
    assert_eq!(
        tokenize("[".chars().collect::<Vec<char>>()).unwrap(),
        vec![Token::LeftBracket]
    );
    assert_eq!(
        tokenize("]".chars().collect::<Vec<char>>()).unwrap(),
        vec![Token::RightBracket]
    );
    assert_eq!(
        tokenize(",".chars().collect::<Vec<char>>()).unwrap(),
        vec![Token::Comma]
    );
    assert_eq!(
        tokenize(":".chars().collect::<Vec<char>>()).unwrap(),
        vec![Token::Colon]
    );
    assert_eq!(
        tokenize("\"hoge\"".chars().collect::<Vec<char>>()).unwrap(),
        vec![Token::StringLiteral("\"hoge\"".to_string())]
    );
    assert_eq!(
        tokenize("false".chars().collect::<Vec<char>>()).unwrap(),
        vec![Token::BooleanLiteral("false".to_string())]
    );
    assert_eq!(
        tokenize("true".chars().collect::<Vec<char>>()).unwrap(),
        vec![Token::BooleanLiteral("true".to_string())]
    );
    assert_eq!(
        tokenize("null".chars().collect::<Vec<char>>()).unwrap(),
        vec![Token::NullLiteral]
    );
    assert_eq!(
        tokenize("100".chars().collect::<Vec<char>>()).unwrap(),
        vec![Token::NumberLiteral("100".to_string())]
    );

    assert_eq!(
        tokenize(
            "{  \"key\"  \t :  \"value\" \r\n}"
                .chars()
                .collect::<Vec<char>>()
        )
        .unwrap(),
        vec![
            Token::LeftBrace,
            Token::StringLiteral("\"key\"".to_string()),
            Token::Colon,
            Token::StringLiteral("\"value\"".to_string()),
            Token::RightBrace
        ]
    );
}

#[test]
fn test_distinguish_string() {
    let str_vec = "\"hoge\"".chars().collect::<Vec<char>>();
    let mut count: usize = 0;
    let mut vec: Vec<Token> = Vec::new();
    distinguish_string(&str_vec, &mut count, &mut vec).unwrap();
    assert_eq!(vec, vec![Token::StringLiteral("\"hoge\"".to_string())]);
    assert_eq!(count, 6);
}

#[test]
fn test_distinguish_false() {
    let str_vec = "false".chars().collect::<Vec<char>>();
    let mut count: usize = 0;
    let mut vec: Vec<Token> = Vec::new();
    distinguish_false(&str_vec, &mut count, &mut vec).unwrap();
    assert_eq!(vec, vec![Token::BooleanLiteral("false".to_string())]);
    assert_eq!(count, 5);
}

#[test]
fn test_distinguish_true() {
    let str_vec = "true".chars().collect::<Vec<char>>();
    let mut count: usize = 0;
    let mut vec: Vec<Token> = Vec::new();
    distinguish_true(&str_vec, &mut count, &mut vec).unwrap();
    assert_eq!(vec, vec![Token::BooleanLiteral("true".to_string())]);
    assert_eq!(count, 4);
}

#[test]
fn test_distinguish_null() {
    let str_vec = "null".chars().collect::<Vec<char>>();
    let mut count: usize = 0;
    let mut vec: Vec<Token> = Vec::new();
    distinguish_null(&str_vec, &mut count, &mut vec).unwrap();
    assert_eq!(vec, vec![Token::NullLiteral]);
    assert_eq!(count, 4);
}

#[test]
fn test_distinguish_number() {
    let str_vec = "12".chars().collect::<Vec<char>>();
    let mut count: usize = 0;
    let mut vec: Vec<Token> = Vec::new();
    distinguish_number(&str_vec, &mut count, &mut vec);
    assert_eq!(vec, vec![Token::NumberLiteral("12".to_string())]);
    assert_eq!(count, 2);
}

#[test]
fn tokenize_negative_and_zero_led_numbers() {
    assert_eq!(
        tokenize("-3".chars().collect::<Vec<char>>()).unwrap(),
        vec![Token::NumberLiteral("-3".to_string())]
    );
    assert_eq!(
        tokenize("0.5".chars().collect::<Vec<char>>()).unwrap(),
        vec![Token::NumberLiteral("0.5".to_string())]
    );
}

#[test]
fn tokenize_one_token_per_lexeme_left_to_right() {
    assert_eq!(
        tokenize("{\"a\":[1,true,null]}".chars().collect::<Vec<char>>()).unwrap(),
        vec![
            Token::LeftBrace,
            Token::StringLiteral("\"a\"".to_string()),
            Token::Colon,
            Token::LeftBracket,
            Token::NumberLiteral("1".to_string()),
            Token::Comma,
            Token::BooleanLiteral("true".to_string()),
            Token::Comma,
            Token::NullLiteral,
            Token::RightBracket,
            Token::RightBrace
        ]
    );
}

#[test]
fn tokenize_unterminated_string_is_invalid_string() {
    assert!(matches!(
        tokenize("{\"key".chars().collect::<Vec<char>>()),
        Err(TokenizeError::InvalidString)
    ));
}

#[test]
fn tokenize_unknown_character_is_invalid_character() {
    assert!(matches!(
        tokenize("@".chars().collect::<Vec<char>>()),
        Err(TokenizeError::InvalidCharacter)
    ));
}

#[test]
fn tokenize_broken_keywords_report_their_errors() {
    assert!(matches!(
        tokenize("tru".chars().collect::<Vec<char>>()),
        Err(TokenizeError::NotTrue)
    ));
    assert!(matches!(
        tokenize("fals".chars().collect::<Vec<char>>()),
        Err(TokenizeError::NotFalse)
    ));
    assert!(matches!(
        tokenize("nul".chars().collect::<Vec<char>>()),
        Err(TokenizeError::NotNull)
    ));
}
