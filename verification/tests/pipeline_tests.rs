use markdown_parser::parser::{parser, ASTNode, ParseError};
use markdown_parser::tokenizer::{tokenize, Token};

fn parse_str(text: &str) -> Result<Vec<ASTNode>, ParseError> {
    let chars: Vec<char> = text.chars().collect();
    let tokens = tokenize(&chars);
    parser(&tokens)
}

#[test]
fn pipeline_plain_text() {
    let text = "Hi I am a piece of text";
    let chars: Vec<char> = text.chars().collect();

    let tokens = tokenize(&chars);
    assert_eq!(tokens, vec![Token::Text(text.to_string())]);

    let ast = parser(&tokens).unwrap();
    assert_eq!(ast, vec![ASTNode::Text(text.to_string())]);
}

#[test]
fn pipeline_bold() {
    let chars: Vec<char> = "**bold**".chars().collect();

    let tokens = tokenize(&chars);
    assert_eq!(
        tokens,
        vec![Token::Bold, Token::Text("bold".to_string()), Token::Bold]
    );

    let ast = parser(&tokens).unwrap();
    assert_eq!(
        ast,
        vec![ASTNode::Bold(vec![ASTNode::Text("bold".to_string())])]
    );
}

#[test]
fn pipeline_all_kinds() {
    let ast = parse_str("*a* **b** ~~c~~ ||d||").unwrap();

    assert_eq!(
        ast,
        vec![
            ASTNode::Italic(vec![ASTNode::Text("a".to_string())]),
            ASTNode::Text(" ".to_string()),
            ASTNode::Bold(vec![ASTNode::Text("b".to_string())]),
            ASTNode::Text(" ".to_string()),
            ASTNode::Strikethrough(vec![ASTNode::Text("c".to_string())]),
            ASTNode::Text(" ".to_string()),
            ASTNode::Spoiler(vec![ASTNode::Text("d".to_string())]),
        ]
    );
}

#[test]
fn pipeline_single_pipes_stay_literal() {
    let ast = parse_str("|not a spoiler|").unwrap();

    assert_eq!(ast, vec![ASTNode::Text("|not a spoiler|".to_string())]);
}

#[test]
fn pipeline_unterminated_nesting() {
    let ast = parse_str("**a ~~b").unwrap();

    assert_eq!(
        ast,
        vec![ASTNode::Bold(vec![
            ASTNode::Text("a ".to_string()),
            ASTNode::Strikethrough(vec![ASTNode::Text("b".to_string())])
        ])]
    );
}

#[test]
fn pipeline_triple_stars_fail_typed() {
    let chars: Vec<char> = "***x***".chars().collect();

    let tokens = tokenize(&chars);
    assert_eq!(
        tokens,
        vec![
            Token::BoldOrItalic,
            Token::Text("x".to_string()),
            Token::BoldOrItalic
        ]
    );

    let result = parser(&tokens);
    assert_eq!(result, Err(ParseError::UnsupportedToken));
}

#[test]
fn pipeline_interleaved_kinds_close_at_next_same_kind() {
    let ast = parse_str("**a ~~b** c~~").unwrap();

    assert_eq!(
        ast,
        vec![
            ASTNode::Bold(vec![
                ASTNode::Text("a ".to_string()),
                ASTNode::Strikethrough(vec![ASTNode::Text("b".to_string())]),
            ]),
            ASTNode::Text(" c".to_string()),
            ASTNode::Strikethrough(vec![]),
        ]
    );
}
