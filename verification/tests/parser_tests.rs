use json_parser::parser::{
    parse, parse_array, parse_bool, parse_null, parse_number, parse_object, parse_objects,
    parse_string, parse_value, Node, ObjectListNode, ObjectNode, ParseError, StringNode,
};
use json_parser::tokenizer::{tokenize, Token};

#[test]
fn test_parse() {
    assert_eq!(
        parse(vec![
            Token::LeftBrace,
            Token::StringLiteral("\"key\"".to_string()),
            Token::Colon,
            Token::StringLiteral("\"value\"".to_string()),
            Token::RightBrace,
        ])
        .unwrap()
        .print_node(),
        "{\"key\":\"value\"}".to_string()
    );

    assert_eq!(
        parse(vec![
            Token::LeftBrace,
            Token::StringLiteral("\"key\"".to_string()),
            Token::Colon,
            Token::StringLiteral("1".to_string()),
            Token::RightBrace,
        ])
        .unwrap()
        .print_node(),
        "{\"key\":1}".to_string()
    );

    assert_eq!(
        parse(vec![
            Token::LeftBrace,
            Token::StringLiteral("\"key\"".to_string()),
            Token::Colon,
            Token::StringLiteral("true".to_string()),
            Token::RightBrace,
        ])
        .unwrap()
        .print_node(),
        "{\"key\":true}".to_string()
    );

    assert_eq!(
        parse(vec![
            Token::LeftBrace,
            Token::StringLiteral("\"key\"".to_string()),
            Token::Colon,
            Token::StringLiteral("null".to_string()),
            Token::RightBrace,
        ])
        .unwrap()
        .print_node(),
        "{\"key\":null}".to_string()
    );

    assert_eq!(
        parse(vec![
            Token::LeftBrace,
            Token::StringLiteral("\"key\"".to_string()),
            Token::Colon,
            Token::LeftBrace,
            Token::StringLiteral("\"key\"".to_string()),
            Token::Colon,
            Token::StringLiteral("\"value\"".to_string()),
            Token::RightBrace,
            Token::RightBrace,
        ])
        .unwrap()
        .print_node(),
        "{\"key\":{\"key\":\"value\"}}".to_string()
    );

    assert_eq!(
        parse(vec![
            Token::LeftBrace,
            Token::StringLiteral("\"key\"".to_string()),
            Token::Colon,
            Token::LeftBracket,
            Token::StringLiteral("\"a\"".to_string()),
            Token::Comma,
            Token::StringLiteral("\"b\"".to_string()),
            Token::RightBracket,
            Token::RightBrace,
        ])
        .unwrap()
        .print_node(),
        "{\"key\":[\"a\",\"b\"]}".to_string()
    );

    assert_eq!(
        parse(vec![
            Token::LeftBrace,
            Token::StringLiteral("\"key\"".to_string()),
            Token::Colon,
            Token::StringLiteral("\"value\"".to_string()),
            Token::Comma,
            Token::StringLiteral("\"key\"".to_string()),
            Token::Colon,
            Token::StringLiteral("\"value\"".to_string()),
            Token::RightBrace,
        ])
        .unwrap()
        .print_node(),
        "{\"key\":\"value\",\"key\":\"value\"}".to_string()
    );
}

#[test]
fn test_format_node() {
    let indent = "  ".to_string();
    assert_eq!(
        ObjectListNode {
            value: vec![Node::Member(ObjectNode {
                key: Box::new(Node::StringValue(StringNode {
                    value: "\"key\"".to_string(),
                })),
                value: Box::new(Node::StringValue(StringNode {
                    value: "\"value\"".to_string(),
                })),
            })],
        }
        .format_node(&indent),
        "{\n  \"key\": \"value\"\n}".to_string()
    );
}

fn render_compact(input: &str) -> String {
    parse(tokenize(input.chars().collect()).unwrap())
        .unwrap()
        .print_node()
}

#[test]
fn scenario_string_member() {
    let tokens = tokenize("{\"key\":\"value\"}".chars().collect()).unwrap();
    assert_eq!(
        tokens,
        vec![
            Token::LeftBrace,
            Token::StringLiteral("\"key\"".to_string()),
            Token::Colon,
            Token::StringLiteral("\"value\"".to_string()),
            Token::RightBrace
        ]
    );
    assert_eq!(parse(tokens).unwrap().print_node(), "{\"key\":\"value\"}".to_string());
}

#[test]
fn scenario_number_member() {
    assert_eq!(render_compact("{\"key\":1}"), "{\"key\":1}".to_string());
}

#[test]
fn scenario_array_member() {
    assert_eq!(render_compact("{\"a\":[1,2]}"), "{\"a\":[1,2]}".to_string());
}

#[test]
fn scenario_nested_document() {
    assert_eq!(
        render_compact("{\"k\":{\"k2\":null}}"),
        "{\"k\":{\"k2\":null}}".to_string()
    );
}

#[test]
fn scenario_missing_value_is_invalid_token() {
    let tokens = tokenize("{\"key\":}".chars().collect()).unwrap();
    assert!(matches!(parse(tokens), Err(ParseError::InvalidToken)));
}

#[test]
fn empty_document_is_rejected() {
    // The member loop always attempts at least one member.
    let tokens = tokenize("{}".chars().collect()).unwrap();
    assert!(matches!(parse(tokens), Err(ParseError::NotAString)));
}

#[test]
fn missing_colon_is_unexpected_token() {
    let tokens = tokenize("{\"key\" 1}".chars().collect()).unwrap();
    assert!(matches!(parse(tokens), Err(ParseError::UnexpectedToken)));
}

#[test]
fn missing_document_brace_is_unexpected_token() {
    let tokens = tokenize("[1]".chars().collect()).unwrap();
    assert!(matches!(parse(tokens), Err(ParseError::UnexpectedToken)));
}

#[test]
fn round_trip_keeps_compact_text() {
    let inputs = [
        "{\"key\":\"value\"}",
        "{\"a\":[1,2]}",
        "{\"k\":{\"k2\":null}}",
        "{\"n\":-1.3e+5,\"b\":false}",
    ];
    for input in inputs {
        let once = render_compact(input);
        let again = parse(tokenize(once.chars().collect()).unwrap())
            .unwrap()
            .print_node();
        assert_eq!(once, again);
        assert_eq!(once, input.to_string());
    }
}

#[test]
fn indented_rendering_tracks_nesting_depth() {
    let tokens = tokenize("{\"a\":{\"b\":[1,2]}}".chars().collect()).unwrap();
    let tree = parse(tokens).unwrap();
    assert_eq!(
        tree.format_node(&"  ".to_string()),
        "{\n  \"a\": {\n    \"b\": [\n      1,\n      2\n    ]\n  }\n}".to_string()
    );
}

#[test]
fn indented_rendering_strips_to_compact() {
    let tokens = tokenize("{\"a\":{\"b\":[1,true]},\"c\":null}".chars().collect()).unwrap();
    let tree = parse(tokens).unwrap();
    let compact = tree.print_node();
    let indented = tree.format_node(&"  ".to_string());
    let stripped: String = indented
        .chars()
        .filter(|c| !matches!(c, ' ' | '\t' | '\r' | '\n'))
        .collect();
    assert_eq!(stripped, compact);
}

#[test]
fn leaf_parsers_reject_wrong_tokens() {
    let tokens = vec![Token::Colon];
    let mut index: usize = 0;
    assert!(matches!(
        parse_string(&tokens, &mut index),
        Err(ParseError::NotAString)
    ));
    assert!(matches!(
        parse_number(&tokens, &mut index),
        Err(ParseError::NotANumber)
    ));
    assert!(matches!(
        parse_bool(&tokens, &mut index),
        Err(ParseError::NotABoolean)
    ));
    assert!(matches!(
        parse_null(&tokens, &mut index),
        Err(ParseError::NotANull)
    ));
    assert_eq!(index, 0);
}

#[test]
fn leaf_parsers_convert_their_tokens() {
    let tokens = vec![
        Token::StringLiteral("\"s\"".to_string()),
        Token::NumberLiteral("12".to_string()),
        Token::BooleanLiteral("true".to_string()),
        Token::NullLiteral,
    ];
    let mut index: usize = 0;
    assert_eq!(parse_string(&tokens, &mut index).unwrap().print_node(), "\"s\"".to_string());
    assert_eq!(parse_number(&tokens, &mut index).unwrap().print_node(), "12".to_string());
    assert_eq!(parse_bool(&tokens, &mut index).unwrap().print_node(), "true".to_string());
    assert_eq!(parse_null(&tokens, &mut index).unwrap().print_node(), "null".to_string());
    assert_eq!(index, 4);
    let mut from_start: usize = 0;
    assert_eq!(
        parse_value(&tokens, &mut from_start).unwrap().print_node(),
        "\"s\"".to_string()
    );
}

#[test]
fn unterminated_array_is_unexpected_token() {
    let tokens = tokenize("[1,2".chars().collect()).unwrap();
    let mut index: usize = 0;
    assert!(matches!(
        parse_array(&tokens, &mut index),
        Err(ParseError::UnexpectedToken)
    ));
}

#[test]
fn error_paths_leave_cursor_where_parsing_stopped() {
    // A non-string key: cursor unmoved.
    let tokens = vec![Token::Colon];
    let mut index: usize = 0;
    assert!(matches!(
        parse_object(&tokens, &mut index),
        Err(ParseError::NotAString)
    ));
    assert_eq!(index, 0);
    // A missing colon: cursor one past the key.
    let tokens = vec![
        Token::StringLiteral("\"k\"".to_string()),
        Token::RightBrace,
    ];
    let mut index: usize = 0;
    assert!(matches!(
        parse_object(&tokens, &mut index),
        Err(ParseError::UnexpectedToken)
    ));
    assert_eq!(index, 1);
    // A missing opening brace: cursor unmoved.
    let tokens = vec![Token::LeftBracket];
    let mut index: usize = 0;
    assert!(matches!(
        parse_objects(&tokens, &mut index),
        Err(ParseError::UnexpectedToken)
    ));
    assert_eq!(index, 0);
    // A propagated value error: cursor at the offending token.
    let tokens = tokenize("{\"k\":}".chars().collect()).unwrap();
    let mut index: usize = 0;
    assert!(matches!(
        parse_objects(&tokens, &mut index),
        Err(ParseError::InvalidToken)
    ));
    assert_eq!(index, 3);
    // A wrong leaf token: cursor unmoved.
    let tokens = vec![Token::NullLiteral];
    let mut index: usize = 0;
    assert!(matches!(
        parse_value(&tokens, &mut index).unwrap(),
        Node::NullValue(_)
    ));
    assert_eq!(index, 1);
    let mut index: usize = 1;
    assert!(matches!(
        parse_value(&tokens, &mut index),
        Err(ParseError::InvalidToken)
    ));
    assert_eq!(index, 1);
}
