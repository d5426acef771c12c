use markdown_parser::tokenizer::{add_to_text, tokenize, Token};

#[test]
fn add_to_text_empty() {
    let mut tokens = vec![];

    add_to_text(&mut tokens, 'H');

    assert_eq!(tokens, vec![Token::Text(String::from("H"))]);
}

#[test]
fn add_to_text_non_empty() {
    let mut tokens = vec![Token::Text(String::from("H"))];

    add_to_text(&mut tokens, 'i');

    assert_eq!(tokens, vec![Token::Text(String::from("Hi"))]);
}

#[test]
fn normal_text() {
    let text = String::from("Hi I am a piece of text");
    let chars: Vec<char> = text.chars().collect();

    let tokens = tokenize(&chars);

    assert_eq!(tokens, vec![Token::Text(text)]);
}

#[test]
fn bold_text() {
    let inner_text = "Hi I am a bold piece of text";
    let text = format!("**{}**", inner_text);
    let chars: Vec<char> = text.chars().collect();

    let tokens = tokenize(&chars);

    assert_eq!(
        tokens,
        vec![
            Token::Bold,
            Token::Text(inner_text.to_string()),
            Token::Bold
        ]
    );
}

#[test]
fn strikethrough_text() {
    let inner_text = "Hi I am a strikethrough piece of text";
    let text = format!("~~{}~~", inner_text);
    let chars: Vec<char> = text.chars().collect();

    let tokens = tokenize(&chars);

    assert_eq!(
        tokens,
        vec![
            Token::Strikethrough,
            Token::Text(inner_text.to_string()),
            Token::Strikethrough
        ]
    );
}

#[test]
fn italic_text() {
    let inner_text = "Hi I am an italic piece of text";
    let text = format!("*{}*", inner_text);
    let chars: Vec<char> = text.chars().collect();

    let tokens = tokenize(&chars);

    assert_eq!(
        tokens,
        vec![
            Token::Italic,
            Token::Text(inner_text.to_string()),
            Token::Italic
        ]
    );
}

#[test]
fn italic_and_bold_text() {
    let text = "Hi I am an ***italic and bold*** piece of text";
    let chars: Vec<char> = text.chars().collect();

    let tokens = tokenize(&chars);

    assert_eq!(
        tokens,
        vec![
            Token::Text("Hi I am an ".to_string()),
            Token::BoldOrItalic,
            Token::Text("italic and bold".to_string()),
            Token::BoldOrItalic,
            Token::Text(" piece of text".to_string())
        ]
    );
}

#[test]
fn spoiler_text() {
    let inner_text = "Hi I am a spoiler";
    let text = format!("||{}||", inner_text);
    let chars: Vec<char> = text.chars().collect();

    let tokens = tokenize(&chars);

    assert_eq!(
        tokens,
        vec![
            Token::Spoiler,
            Token::Text(inner_text.to_string()),
            Token::Spoiler
        ]
    );
}

#[test]
fn no_spoiler_single_char_text() {
    let inner_text = "Hi I am not a spoiler";
    let text = format!("|{}|", inner_text);
    let chars: Vec<char> = text.chars().collect();

    let tokens = tokenize(&chars);

    assert_eq!(tokens, vec![Token::Text(text.to_string())]);
}

#[test]
fn mixed_text() {
    let text = "Hi I am a *mixed* **piece** of text";
    let chars: Vec<char> = text.chars().collect();

    let tokens = tokenize(&chars);

    assert_eq!(
        tokens,
        vec![
            Token::Text("Hi I am a ".to_string()),
            Token::Italic,
            Token::Text("mixed".to_string()),
            Token::Italic,
            Token::Text(" ".to_string()),
            Token::Bold,
            Token::Text("piece".to_string()),
            Token::Bold,
            Token::Text(" of text".to_string())
        ]
    );
}

#[test]
fn empty_input() {
    let chars: Vec<char> = Vec::new();

    let tokens = tokenize(&chars);

    assert_eq!(tokens, vec![]);
}

#[test]
fn lone_tilde_is_literal() {
    let chars: Vec<char> = "~".chars().collect();

    let tokens = tokenize(&chars);

    assert_eq!(tokens, vec![Token::Text("~".to_string())]);
}

#[test]
fn lone_pipe_is_literal() {
    let chars: Vec<char> = "|".chars().collect();

    let tokens = tokenize(&chars);

    assert_eq!(tokens, vec![Token::Text("|".to_string())]);
}

#[test]
fn literal_runs_coalesce() {
    let chars: Vec<char> = "a~b|c".chars().collect();

    let tokens = tokenize(&chars);

    assert_eq!(tokens, vec![Token::Text("a~b|c".to_string())]);
}

#[test]
fn tokens_reconstruct_input() {
    let text = "**a* ~x ||y|| z~~";
    let chars: Vec<char> = text.chars().collect();

    let tokens = tokenize(&chars);

    let mut rebuilt = String::new();
    for token in &tokens {
        match token {
            Token::Bold => rebuilt.push_str("**"),
            Token::Italic => rebuilt.push_str("*"),
            Token::BoldOrItalic => rebuilt.push_str("***"),
            Token::Strikethrough => rebuilt.push_str("~~"),
            Token::Spoiler => rebuilt.push_str("||"),
            Token::Text(t) => rebuilt.push_str(t),
        }
    }
    assert_eq!(rebuilt, text);
}

#[test]
fn four_stars_are_bold_then_italic() {
    let chars: Vec<char> = "****".chars().collect();

    let tokens = tokenize(&chars);

    assert_eq!(tokens, vec![Token::BoldOrItalic, Token::Italic]);
}
