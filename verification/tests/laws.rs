use rhtml5::{
    parse_document, tokenize, Attribute, CollectingSink, Document, Element, Node, Token,
};

fn tokens(input: &str) -> Vec<Token> {
    let mut sink = CollectingSink::default();
    tokenize(input, &mut sink);
    sink.tokens
}

#[test]
fn eof_comes_exactly_once_and_last() {
    for input in ["", "x", "<p>", "<!-- open", "<a href='", "<!DOCTYPE", "</", "<", "a<b>c</b>"] {
        let ts = tokens(input);
        assert_eq!(ts.last(), Some(&Token::Eof), "input {input:?}");
        assert_eq!(ts.iter().filter(|t| **t == Token::Eof).count(), 1, "input {input:?}");
    }
}

#[test]
fn text_without_markup_is_one_characters_token() {
    assert_eq!(tokens("a > b & c"), vec![Token::Characters("a > b & c".to_string()), Token::Eof]);
    assert_eq!(tokens(""), vec![Token::Eof]);
}

#[test]
fn tag_and_attribute_names_are_lower_cased() {
    let ts = tokens("<DIV Class=Big></Div><!doctype HTML>");
    assert_eq!(
        ts,
        vec![
            Token::StartTag {
                name: "div".to_string(),
                attrs: vec![Attribute { name: "class".to_string(), value: "Big".to_string() }],
                self_closing: false,
            },
            Token::EndTag { name: "div".to_string() },
            Token::Doctype { name: "html".to_string() },
            Token::Eof,
        ]
    );
}

#[test]
fn void_elements_never_hold_children() {
    let doc = parse_document("<p><br>line<hr>end</p>");
    let Node::Element(p) = &doc.children[0] else { panic!("expected element") };
    assert_eq!(p.children.len(), 4);
    for child in &p.children {
        if let Node::Element(e) = child {
            assert!(e.children.is_empty());
        }
    }
}

#[test]
fn parsing_the_html_of_a_document_gives_it_back() {
    let doc = Document {
        doctype: Some("html".to_string()),
        children: vec![
            Node::Comment(" intro - with -- dashes ".to_string()),
            Node::Element(Element {
                tag_name: "div".to_string(),
                attrs: vec![
                    Attribute { name: "id".to_string(), value: "main".to_string() },
                    Attribute { name: "hidden".to_string(), value: String::new() },
                ],
                children: vec![
                    Node::Text("< b &amp; c > d".to_string()),
                    Node::Element(Element {
                        tag_name: "img".to_string(),
                        attrs: vec![Attribute { name: "alt".to_string(), value: "it's".to_string() }],
                        children: vec![],
                    }),
                    Node::Text("<< tail".to_string()),
                    Node::Element(Element {
                        tag_name: "div".to_string(),
                        attrs: vec![],
                        children: vec![],
                    }),
                ],
            }),
            Node::Text("after".to_string()),
        ],
    };
    let html = doc.to_html();
    assert_eq!(parse_document(&html), doc);
}

#[test]
fn unmatched_end_tag_is_ignored() {
    let doc = parse_document("<p>a</span>b</p>");
    let Node::Element(p) = &doc.children[0] else { panic!("expected element") };
    assert_eq!(p.children, vec![Node::Text("a".to_string()), Node::Text("b".to_string())]);
}

#[test]
fn end_tag_closes_the_innermost_match_and_everything_inside_it() {
    let doc = parse_document("<div><p><b>x</div>y");
    assert_eq!(doc.children.len(), 2);
    let Node::Element(div) = &doc.children[0] else { panic!("expected element") };
    let Node::Element(p) = &div.children[0] else { panic!("expected element") };
    let Node::Element(b) = &p.children[0] else { panic!("expected element") };
    assert_eq!(b.children, vec![Node::Text("x".to_string())]);
    assert_eq!(doc.children[1], Node::Text("y".to_string()));
}

#[test]
fn open_elements_are_closed_at_the_end() {
    let doc = parse_document("<!-- c --><ul><li>one<li>two");
    assert_eq!(doc.children.len(), 2);
    assert_eq!(doc.children[0], Node::Comment(" c ".to_string()));
    let Node::Element(ul) = &doc.children[1] else { panic!("expected element") };
    assert_eq!(ul.tag_name, "ul");
    assert_eq!(doc.to_html(), "<!-- c --><ul><li>one<li>two</li></li></ul>");
}

#[test]
fn each_step_emits_at_most_one_token_of_the_right_kind() {
    for input in ["<p a=1>x</p>", "a<!--c-->b<!DOCTYPE x>", "<br/><<", ""] {
        let ts = tokens(input);
        assert!(ts.len() <= input.chars().count() + 1);
        for t in &ts[..ts.len() - 1] {
            assert_ne!(*t, Token::Eof);
            if let Token::Characters(s) = t {
                assert!(!s.is_empty());
            }
        }
    }
}

fn walk(nodes: &[Node], out: &mut Vec<Token>) {
    for n in nodes {
        match n {
            Node::Element(e) => {
                out.push(Token::StartTag { name: e.tag_name.clone(), attrs: e.attrs.clone(), self_closing: false });
                walk(&e.children, out);
            }
            Node::Text(t) => out.push(Token::Characters(t.clone())),
            Node::Comment(t) => out.push(Token::Comment(t.clone())),
        }
    }
}

#[test]
fn builder_keeps_every_node_in_order() {
    let input = "<!DOCTYPE x><p id=1>a</q><b>c<!--x--></p>d<i>e";
    let doc = parse_document(input);
    let mut walked = Vec::new();
    walk(&doc.children, &mut walked);
    let expected: Vec<Token> = tokens(input)
        .into_iter()
        .filter_map(|t| match t {
            Token::StartTag { name, attrs, .. } => Some(Token::StartTag { name, attrs, self_closing: false }),
            Token::Characters(_) | Token::Comment(_) => Some(t),
            _ => None,
        })
        .collect();
    assert_eq!(walked, expected);
}

#[test]
fn a_parsed_document_reads_back_as_itself() {
    for input in [
        "<!doctype HTML><DIV Class=a data-x='y z'>t<br>u<IMG src=x/></div><!-- c -- d -->x<P>open",
        "<ul><li>one</li><li>two</ul>tail",
        "<<a b>c</a>",
    ] {
        let doc = parse_document(input);
        assert_eq!(parse_document(&doc.to_html()), doc, "input {input:?}");
    }
}
