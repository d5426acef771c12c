use markdown_parser::parser::{parser, ASTNode, ParseError};
use markdown_parser::tokenizer::Token;

#[test]
fn parse_normal_text() {
    let text = "Hi I am a piece of text".to_string();
    let tokens = vec![Token::Text(text.clone())];

    let ast = parser(&tokens).unwrap();

    assert_eq!(ast, vec![ASTNode::Text(text)]);
}

#[test]
fn parse_italic_text() {
    let text = "Hi I am an italic piece of text".to_string();
    let tokens = vec![Token::Italic, Token::Text(text.clone()), Token::Italic];

    let ast = parser(&tokens).unwrap();

    assert_eq!(ast, vec![ASTNode::Italic(vec![ASTNode::Text(text)])]);
}

#[test]
fn parse_bold_text() {
    let text = "Hi I am a bold piece of text".to_string();
    let tokens = vec![Token::Bold, Token::Text(text.clone()), Token::Bold];

    let ast = parser(&tokens).unwrap();

    assert_eq!(ast, vec![ASTNode::Bold(vec![ASTNode::Text(text)])]);
}

#[test]
fn parse_mix() {
    let tokens = vec![
        Token::Text("Hi I am a ".to_string()),
        Token::Bold,
        Token::Text("bold ".to_string()),
        Token::Strikethrough,
        Token::Text("or".to_string()),
        Token::Strikethrough,
        Token::Text(" and ".to_string()),
        Token::Italic,
        Token::Text("italic".to_string()),
        Token::Italic,
        Token::Bold,
        Token::Text(" piece of text".to_string()),
    ];

    let ast = parser(&tokens).unwrap();

    assert_eq!(
        ast,
        vec![
            ASTNode::Text("Hi I am a ".to_string()),
            ASTNode::Bold(vec![
                ASTNode::Text("bold ".to_string()),
                ASTNode::Strikethrough(vec![ASTNode::Text("or".to_string())]),
                ASTNode::Text(" and ".to_string()),
                ASTNode::Italic(vec![ASTNode::Text("italic".to_string())])
            ]),
            ASTNode::Text(" piece of text".to_string())
        ]
    );
}

#[test]
fn parse_strikethrough_text() {
    let text = "Hi I am a strikethrough piece of text".to_string();
    let tokens = vec![
        Token::Strikethrough,
        Token::Text(text.clone()),
        Token::Strikethrough,
    ];

    let ast = parser(&tokens).unwrap();

    assert_eq!(ast, vec![ASTNode::Strikethrough(vec![ASTNode::Text(text)])]);
}

#[test]
fn parse_empty_tokens() {
    let tokens: Vec<Token> = vec![];

    let ast = parser(&tokens).unwrap();

    assert_eq!(ast, vec![]);
}

#[test]
fn parse_spoiler_tokens() {
    let tokens = vec![
        Token::Spoiler,
        Token::Text("secret".to_string()),
        Token::Spoiler,
    ];

    let ast = parser(&tokens).unwrap();

    assert_eq!(ast, vec![ASTNode::Spoiler(vec![ASTNode::Text("secret".to_string())])]);
}

#[test]
fn parse_balanced_pair_keeps_siblings() {
    let tokens = vec![
        Token::Strikethrough,
        Token::Text("gone".to_string()),
        Token::Strikethrough,
        Token::Text(" stays".to_string()),
    ];

    let ast = parser(&tokens).unwrap();

    assert_eq!(
        ast,
        vec![
            ASTNode::Strikethrough(vec![ASTNode::Text("gone".to_string())]),
            ASTNode::Text(" stays".to_string())
        ]
    );
}

#[test]
fn parse_unterminated_absorbs_rest() {
    let tokens = vec![
        Token::Bold,
        Token::Text("abc".to_string()),
        Token::Italic,
        Token::Text("def".to_string()),
        Token::Italic,
    ];

    let ast = parser(&tokens).unwrap();

    assert_eq!(
        ast,
        vec![ASTNode::Bold(vec![
            ASTNode::Text("abc".to_string()),
            ASTNode::Italic(vec![ASTNode::Text("def".to_string())])
        ])]
    );
}

#[test]
fn parse_bold_or_italic_is_fatal() {
    let tokens = vec![
        Token::BoldOrItalic,
        Token::Text("x".to_string()),
        Token::BoldOrItalic,
    ];

    let result = parser(&tokens);

    assert_eq!(result, Err(ParseError::UnsupportedToken));
}

#[test]
fn parse_nested_bold_or_italic_is_fatal() {
    let tokens = vec![
        Token::Bold,
        Token::BoldOrItalic,
        Token::Text("x".to_string()),
    ];

    let result = parser(&tokens);

    assert_eq!(result, Err(ParseError::UnsupportedToken));
}

#[test]
fn node_names_match_serialized_kinds() {
    assert_eq!(ASTNode::Text("x".to_string()).get_name(), "text");
    assert_eq!(ASTNode::Bold(vec![]).get_name(), "bold");
    assert_eq!(ASTNode::Italic(vec![]).get_name(), "italic");
    assert_eq!(ASTNode::Strikethrough(vec![]).get_name(), "strikethrough");
    assert_eq!(ASTNode::Spoiler(vec![]).get_name(), "spoiler");
}
