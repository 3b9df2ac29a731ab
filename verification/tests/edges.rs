use rhtml5::{
    parse_document, serialize_node, tokenize, Attribute, CollectingSink, Element, Node, Token,
    TokenSink, Tokenizer, TreeBuilder,
};

fn tokens(input: &str) -> Vec<Token> {
    let mut sink = CollectingSink::default();
    tokenize(input, &mut sink);
    sink.tokens
}

fn text(s: &str) -> Token {
    Token::Characters(s.to_string())
}

#[test]
fn lone_lt_stays_in_the_text_but_splits_it() {
    assert_eq!(tokens("a < b"), vec![text("a "), text("< b"), Token::Eof]);
}

#[test]
fn end_tag_open_without_a_letter_drops_the_markup() {
    assert_eq!(tokens("a</ b"), vec![text("a"), text("b"), Token::Eof]);
}

#[test]
fn unknown_declaration_is_swallowed_as_an_unfinished_comment() {
    assert_eq!(tokens("x<!y>z"), vec![text("x"), Token::Eof]);
}

#[test]
fn comment_keeps_inner_dashes() {
    assert_eq!(
        tokens("<!-- a -- b - c --->"),
        vec![Token::Comment(" a -- b - c -".to_string()), Token::Eof]
    );
}

#[test]
fn unterminated_comment_emits_nothing() {
    assert_eq!(tokens("<!-- never closed"), vec![Token::Eof]);
}

#[test]
fn doctype_keyword_is_case_insensitive_and_name_is_lowered() {
    assert_eq!(tokens("<!doctype HTML>"), vec![Token::Doctype { name: "html".to_string() }, Token::Eof]);
    assert_eq!(tokens("<!DOCTYPE>"), vec![Token::Doctype { name: String::new() }, Token::Eof]);
}

#[test]
fn characters_after_doctype_keyword_without_space_are_dropped() {
    assert_eq!(tokens("<!DOCTYPEhtml>"), vec![Token::Doctype { name: String::new() }, Token::Eof]);
}

#[test]
fn unquoted_value_and_missing_space_between_attributes() {
    let ts = tokens(r#"<a x=1 y="2"z='3'/>"#);
    assert_eq!(
        ts[0],
        Token::StartTag {
            name: "a".to_string(),
            attrs: vec![
                Attribute { name: "x".to_string(), value: "1".to_string() },
                Attribute { name: "y".to_string(), value: "2".to_string() },
                Attribute { name: "z".to_string(), value: "3".to_string() },
            ],
            self_closing: true,
        }
    );
}

#[test]
fn attributes_written_in_an_end_tag_are_dropped() {
    let ts = tokens(r#"</p class="x"><div>"#);
    assert_eq!(
        ts,
        vec![
            Token::EndTag { name: "p".to_string() },
            Token::StartTag { name: "div".to_string(), attrs: vec![], self_closing: false },
            Token::Eof,
        ]
    );
    let ts = tokens("</p a=b><i x=1>");
    assert_eq!(
        ts[1],
        Token::StartTag {
            name: "i".to_string(),
            attrs: vec![Attribute { name: "x".to_string(), value: "1".to_string() }],
            self_closing: false,
        }
    );
}

#[test]
fn unfinished_tag_at_the_end_is_dropped() {
    assert_eq!(tokens("ok<div class="), vec![text("ok"), Token::Eof]);
}

#[test]
fn non_ascii_white_space_separates_attributes() {
    let ts = tokens("<p\u{3000}a>");
    assert_eq!(
        ts[0],
        Token::StartTag {
            name: "p".to_string(),
            attrs: vec![Attribute { name: "a".to_string(), value: String::new() }],
            self_closing: false,
        }
    );
}

#[test]
fn self_closing_non_void_element_has_no_children() {
    let doc = parse_document("<div/>after");
    assert_eq!(doc.children.len(), 2);
    let Node::Element(div) = &doc.children[0] else { panic!("expected element") };
    assert!(div.children.is_empty());
    assert_eq!(doc.children[1], Node::Text("after".to_string()));
}

#[test]
fn attr_returns_the_first_value_of_a_name() {
    let doc = parse_document("<a x=1 y x=2>");
    let Node::Element(a) = &doc.children[0] else { panic!("expected element") };
    assert_eq!(a.attr("x"), Some("1"));
    assert_eq!(a.attr("y"), Some(""));
    assert_eq!(a.attr("z"), None);
}

#[test]
fn to_html_writes_the_doctype_first() {
    let doc = parse_document("<!DOCTYPE html><p a='1'>x</p>");
    assert_eq!(doc.to_html(), r#"<!DOCTYPE html><p a="1">x</p>"#);
}

#[test]
fn serialize_node_appends_to_the_output() {
    let mut out = String::from("> ");
    serialize_node(&Node::Comment("c".to_string()), &mut out);
    serialize_node(
        &Node::Element(Element {
            tag_name: "br".to_string(),
            attrs: vec![],
            children: vec![],
        }),
        &mut out,
    );
    serialize_node(&Node::Text("t".to_string()), &mut out);
    assert_eq!(out, "> <!--c--><br>t");
}

#[test]
fn every_void_element_is_written_without_an_end_tag() {
    for name in [
        "area", "base", "br", "col", "embed", "hr", "img", "input", "link", "meta", "param",
        "source", "track", "wbr",
    ] {
        let doc = parse_document(&format!("<{name}>x"));
        assert_eq!(doc.to_html(), format!("<{name}>x"));
    }
    let doc = parse_document("<span>x");
    assert_eq!(doc.to_html(), "<span>x</span>");
}

#[test]
fn tree_builder_used_as_a_sink_directly() {
    let mut builder = TreeBuilder::new();
    builder.process_token(Token::StartTag { name: "p".to_string(), attrs: vec![], self_closing: false });
    builder.process_token(Token::Characters("hi".to_string()));
    builder.process_token(Token::Doctype { name: "x".to_string() });
    builder.process_token(Token::Eof);
    let doc = builder.finish();
    assert_eq!(doc.doctype.as_deref(), Some("x"));
    assert_eq!(doc.to_html(), "<!DOCTYPE x><p>hi</p>");
}

#[test]
fn tokenizer_runs_from_new() {
    let mut sink = CollectingSink::default();
    Tokenizer::new(&mut sink).run("<b>x</b>");
    assert_eq!(sink.tokens.len(), 4);
    assert_eq!(sink.tokens[3], Token::Eof);
}

#[test]
fn tokenizing_into_a_sink_keeps_what_it_held() {
    let mut sink = CollectingSink::default();
    tokenize("a", &mut sink);
    tokenize("b", &mut sink);
    assert_eq!(sink.tokens, vec![text("a"), Token::Eof, text("b"), Token::Eof]);
}

#[test]
fn cloned_nodes_and_documents_are_equal() {
    let doc = parse_document("<!DOCTYPE html><div id=x><p>t</p><!--c--></div>");
    let copy = doc.clone();
    assert_eq!(copy, doc);
    let node_copy = doc.children[0].clone();
    assert_eq!(node_copy, doc.children[0]);
    let Node::Element(el) = &doc.children[0] else { panic!("expected element") };
    assert_eq!(&el.clone(), el);
}

#[test]
fn default_document_is_empty() {
    let doc = rhtml5::Document::default();
    assert_eq!(doc.doctype, None);
    assert!(doc.children.is_empty());
    assert_eq!(doc.to_html(), "");
}
