use rhtml5::{parse_document, Node};

#[test]
fn simple_nested_element_builds_correct_tree() {
    let doc = parse_document("<p>Hello, <b>world</b>!</p>");
    assert_eq!(doc.children.len(), 1);
    let Node::Element(p) = &doc.children[0] else { panic!("expected element") };
    assert_eq!(p.tag_name, "p");
    assert_eq!(p.children.len(), 3);
    assert_eq!(p.children[0], Node::Text("Hello, ".to_string()));
    let Node::Element(b) = &p.children[1] else { panic!("expected element") };
    assert_eq!(b.tag_name, "b");
    assert_eq!(b.children, vec![Node::Text("world".to_string())]);
    assert_eq!(p.children[2], Node::Text("!".to_string()));
}

#[test]
fn void_elements_have_no_children_and_are_not_pushed_onto_the_stack() {
    let doc = parse_document(r#"<div>before<img src="x.png">after</div>"#);
    let Node::Element(div) = &doc.children[0] else { panic!("expected element") };
    assert_eq!(div.children.len(), 3);
    assert!(matches!(&div.children[1], Node::Element(img) if img.tag_name == "img" && img.children.is_empty()));
    assert_eq!(div.children[2], Node::Text("after".to_string()));
}

#[test]
fn doctype_is_captured_on_the_document() {
    let doc = parse_document("<!DOCTYPE html><html></html>");
    assert_eq!(doc.doctype.as_deref(), Some("html"));
}

#[test]
fn unclosed_elements_are_folded_in_at_eof() {
    let doc = parse_document("<div><p>text");
    assert_eq!(doc.children.len(), 1);
    let Node::Element(div) = &doc.children[0] else { panic!("expected element") };
    assert_eq!(div.tag_name, "div");
    let Node::Element(p) = &div.children[0] else { panic!("expected element") };
    assert_eq!(p.tag_name, "p");
    assert_eq!(p.children, vec![Node::Text("text".to_string())]);
}

#[test]
fn serializing_a_parsed_document_round_trips_structurally() {
    let html = r#"<p class="a">Hello, <b>world</b>!</p>"#;
    let doc = parse_document(html);
    assert_eq!(doc.to_html(), html);
}

#[test]
fn void_element_serializes_without_a_closing_tag() {
    let doc = parse_document(r#"<img src="x.png">"#);
    assert_eq!(doc.to_html(), r#"<img src="x.png">"#);
}
