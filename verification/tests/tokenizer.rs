use rhtml5::{tokenize, Attribute, CollectingSink, Token};

fn tokenize_all(input: &str) -> Vec<Token> {
    let mut sink = CollectingSink::default();
    tokenize(input, &mut sink);
    sink.tokens
}

#[test]
fn plain_text_becomes_a_single_characters_token_plus_eof() {
    let tokens = tokenize_all("hello world");
    assert_eq!(tokens, vec![Token::Characters("hello world".to_string()), Token::Eof]);
}

#[test]
fn simple_start_and_end_tag_round_trip() {
    let tokens = tokenize_all("<p>hi</p>");
    assert_eq!(
        tokens,
        vec![
            Token::StartTag { name: "p".to_string(), attrs: vec![], self_closing: false },
            Token::Characters("hi".to_string()),
            Token::EndTag { name: "p".to_string() },
            Token::Eof,
        ]
    );
}

#[test]
fn attributes_with_double_single_and_unquoted_values() {
    let tokens = tokenize_all(r#"<a href="https://example.com" class='btn' disabled>x</a>"#);
    let Token::StartTag { name, attrs, self_closing } = &tokens[0] else {
        panic!("expected a start tag token");
    };
    assert_eq!(name, "a");
    assert!(!self_closing);
    assert_eq!(
        attrs,
        &vec![
            Attribute { name: "href".to_string(), value: "https://example.com".to_string() },
            Attribute { name: "class".to_string(), value: "btn".to_string() },
            Attribute { name: "disabled".to_string(), value: String::new() },
        ]
    );
}

#[test]
fn self_closing_tag_is_flagged() {
    let tokens = tokenize_all(r#"<img src="x.png"/>"#);
    assert_eq!(
        tokens[0],
        Token::StartTag {
            name: "img".to_string(),
            attrs: vec![Attribute { name: "src".to_string(), value: "x.png".to_string() }],
            self_closing: true,
        }
    );
}

#[test]
fn comment_is_captured_verbatim() {
    let tokens = tokenize_all("<!-- a comment -->text");
    assert_eq!(
        tokens,
        vec![
            Token::Comment(" a comment ".to_string()),
            Token::Characters("text".to_string()),
            Token::Eof,
        ]
    );
}

#[test]
fn doctype_html5_is_recognized() {
    let tokens = tokenize_all("<!DOCTYPE html>");
    assert_eq!(tokens, vec![Token::Doctype { name: "html".to_string() }, Token::Eof]);
}

#[test]
fn full_document_shape_tokenizes_without_panicking() {
    let html = r#"<!DOCTYPE html>
<html lang="ja">
<head><title>Test</title></head>
<body><p class="a b">Hello, <b>world</b>!</p></body>
</html>"#;
    let tokens = tokenize_all(html);
    assert_eq!(tokens.last(), Some(&Token::Eof));
    assert!(tokens.iter().any(|t| matches!(t, Token::Doctype { name } if name == "html")));
    assert!(tokens.iter().any(|t| matches!(t, Token::StartTag { name, .. } if name == "html")));
    assert!(tokens.iter().any(|t| matches!(t, Token::EndTag { name } if name == "html")));
}
