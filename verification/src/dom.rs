//! The document tree and the tree builder that assembles it from tokens.
//!
//! The builder keeps a stack of open elements; it does not reproduce the
//! insertion modes or the adoption agency algorithm of the HTML standard.
//! Properly nested input gives the expected tree; an end tag closes the most
//! recent open element of its name together with every element opened after
//! it, an end tag with no open element of its name is ignored, and elements
//! still open at the end are closed there.

use vstd::prelude::*;

use crate::chars::{push_char, push_string, str_eq};
use crate::token::{attrs_view, Attribute, AttributeV, Token, TokenSink, TokenV};
use crate::tokenizer::{tokenize, tokens_of};

verus! {

#[derive(Debug, PartialEq, Eq)]
pub enum Node {
    Element(Element),
    Text(String),
    Comment(String),
}

#[derive(Debug, PartialEq, Eq)]
pub struct Element {
    pub tag_name: String,
    pub attrs: Vec<Attribute>,
    pub children: Vec<Node>,
}

#[derive(Debug, PartialEq, Eq)]
pub struct Document {
    pub doctype: Option<String>,
    pub children: Vec<Node>,
}

/// The mathematical value of a [`Node`].
#[verifier::ext_equal]
pub enum NodeV {
    Element(ElementV),
    Text(Seq<char>),
    Comment(Seq<char>),
}

/// The mathematical value of an [`Element`].
#[verifier::ext_equal]
pub struct ElementV {
    pub tag_name: Seq<char>,
    pub attrs: Seq<AttributeV>,
    pub children: Seq<NodeV>,
}

/// The mathematical value of a [`Document`].
#[verifier::ext_equal]
pub struct DocumentV {
    pub doctype: Option<Seq<char>>,
    pub children: Seq<NodeV>,
}

pub open spec fn node_view(n: Node) -> NodeV
    decreases n,
{
    match n {
        Node::Element(e) => NodeV::Element(
            ElementV {
                tag_name: e.tag_name@,
                attrs: attrs_view(e.attrs@),
                children: nodes_view(e.children@),
            },
        ),
        Node::Text(t) => NodeV::Text(t@),
        Node::Comment(t) => NodeV::Comment(t@),
    }
}

pub open spec fn nodes_view(s: Seq<Node>) -> Seq<NodeV>
    decreases s,
{
    if s.len() == 0 {
        seq![]
    } else {
        nodes_view(s.drop_last()).push(node_view(s.last()))
    }
}

impl View for Node {
    type V = NodeV;

    open spec fn view(&self) -> NodeV {
        node_view(*self)
    }
}

impl View for Element {
    type V = ElementV;

    open spec fn view(&self) -> ElementV {
        ElementV {
            tag_name: self.tag_name@,
            attrs: attrs_view(self.attrs@),
            children: nodes_view(self.children@),
        }
    }
}

impl View for Document {
    type V = DocumentV;

    open spec fn view(&self) -> DocumentV {
        DocumentV {
            doctype: match self.doctype {
                Some(name) => Some(name@),
                None => None,
            },
            children: nodes_view(self.children@),
        }
    }
}

pub open spec fn elements_view(s: Seq<Element>) -> Seq<ElementV> {
    s.map_values(|e: Element| e@)
}

pub proof fn lemma_nodes_view_push(s: Seq<Node>, n: Node)
    ensures
        nodes_view(s.push(n)) == nodes_view(s).push(n@),
{
    assert(s.push(n).drop_last() =~= s);
}

pub proof fn lemma_nodes_view_index(s: Seq<Node>)
    ensures
        nodes_view(s).len() == s.len(),
        forall|i: int| 0 <= i < s.len() ==> #[trigger] nodes_view(s)[i] == s[i]@,
    decreases s.len(),
{
    if s.len() > 0 {
        lemma_nodes_view_index(s.drop_last());
    }
}

/// The names of the void elements: elements that have no end tag and no
/// children.
pub open spec fn is_void_name(name: Seq<char>) -> bool {
    ||| name == seq!['a', 'r', 'e', 'a']
    ||| name == seq!['b', 'a', 's', 'e']
    ||| name == seq!['b', 'r']
    ||| name == seq!['c', 'o', 'l']
    ||| name == seq!['e', 'm', 'b', 'e', 'd']
    ||| name == seq!['h', 'r']
    ||| name == seq!['i', 'm', 'g']
    ||| name == seq!['i', 'n', 'p', 'u', 't']
    ||| name == seq!['l', 'i', 'n', 'k']
    ||| name == seq!['m', 'e', 't', 'a']
    ||| name == seq!['p', 'a', 'r', 'a', 'm']
    ||| name == seq!['s', 'o', 'u', 'r', 'c', 'e']
    ||| name == seq!['t', 'r', 'a', 'c', 'k']
    ||| name == seq!['w', 'b', 'r']
}

fn is_void_element(tag_name: &str) -> (r: bool)
    ensures
        r == is_void_name(tag_name@),
{
    proof {
        reveal_strlit("area");
        assert("area"@ =~= seq!['a', 'r', 'e', 'a']);
        reveal_strlit("base");
        assert("base"@ =~= seq!['b', 'a', 's', 'e']);
        reveal_strlit("br");
        assert("br"@ =~= seq!['b', 'r']);
        reveal_strlit("col");
        assert("col"@ =~= seq!['c', 'o', 'l']);
        reveal_strlit("embed");
        assert("embed"@ =~= seq!['e', 'm', 'b', 'e', 'd']);
        reveal_strlit("hr");
        assert("hr"@ =~= seq!['h', 'r']);
        reveal_strlit("img");
        assert("img"@ =~= seq!['i', 'm', 'g']);
        reveal_strlit("input");
        assert("input"@ =~= seq!['i', 'n', 'p', 'u', 't']);
        reveal_strlit("link");
        assert("link"@ =~= seq!['l', 'i', 'n', 'k']);
        reveal_strlit("meta");
        assert("meta"@ =~= seq!['m', 'e', 't', 'a']);
        reveal_strlit("param");
        assert("param"@ =~= seq!['p', 'a', 'r', 'a', 'm']);
        reveal_strlit("source");
        assert("source"@ =~= seq!['s', 'o', 'u', 'r', 'c', 'e']);
        reveal_strlit("track");
        assert("track"@ =~= seq!['t', 'r', 'a', 'c', 'k']);
        reveal_strlit("wbr");
        assert("wbr"@ =~= seq!['w', 'b', 'r']);
    }
    str_eq(tag_name, "area") || str_eq(tag_name, "base") || str_eq(tag_name, "br") || str_eq(
        tag_name,
        "col",
    ) || str_eq(tag_name, "embed") || str_eq(tag_name, "hr") || str_eq(tag_name, "img")
        || str_eq(tag_name, "input") || str_eq(tag_name, "link") || str_eq(tag_name, "meta")
        || str_eq(tag_name, "param") || str_eq(tag_name, "source") || str_eq(tag_name, "track")
        || str_eq(tag_name, "wbr")
}

/// The value of the first attribute called `name`, if there is one.
pub open spec fn attr_value(attrs: Seq<AttributeV>, name: Seq<char>) -> Option<Seq<char>>
    decreases attrs.len(),
{
    if attrs.len() == 0 {
        None
    } else if attrs[0].name == name {
        Some(attrs[0].value)
    } else {
        attr_value(attrs.drop_first(), name)
    }
}

impl Element {
    fn new(tag_name: String, attrs: Vec<Attribute>) -> (e: Self)
        ensures
            e@ == (ElementV { tag_name: tag_name@, attrs: attrs_view(attrs@), children: seq![] }),
    {
        Element { tag_name, attrs, children: Vec::new() }
    }

    /// The value of the first attribute called `name`.
    pub fn attr(&self, name: &str) -> (r: Option<&str>)
        ensures
            match r {
                Some(v) => attr_value(self@.attrs, name@) == Some(v@),
                None => attr_value(self@.attrs, name@) is None,
            },
    {
        let mut i: usize = 0;
        assert(self@.attrs.skip(0) =~= self@.attrs);
        while i < self.attrs.len()
            invariant
                i <= self.attrs@.len(),
                attr_value(self@.attrs, name@) == attr_value(self@.attrs.skip(i as int), name@),
            decreases self.attrs.len() - i,
        {
            assert(self@.attrs.skip(i as int)[0] == self.attrs@[i as int]@);
            if str_eq(self.attrs[i].name.as_str(), name) {
                return Some(self.attrs[i].value.as_str());
            }
            assert(self@.attrs.skip(i as int).drop_first() =~= self@.attrs.skip(i + 1));
            i = i + 1;
        }
        None
    }
}


fn clone_attrs(v: &Vec<Attribute>) -> (r: Vec<Attribute>)
    ensures
        attrs_view(r@) == attrs_view(v@),
{
    let mut r: Vec<Attribute> = Vec::new();
    let mut i: usize = 0;
    while i < v.len()
        invariant
            i <= v@.len(),
            attrs_view(r@) == attrs_view(v@.take(i as int)),
        decreases v.len() - i,
    {
        let a = Attribute { name: v[i].name.clone(), value: v[i].value.clone() };
        let ghost before = r@;
        r.push(a);
        assert(a@ == v@[i as int]@);
        assert(attrs_view(r@) =~= attrs_view(before).push(a@));
        assert(attrs_view(v@.take(i + 1)) =~= attrs_view(v@.take(i as int)).push(v@[i as int]@));
        i = i + 1;
    }
    assert(v@.take(i as int) =~= v@);
    r
}

#[verifier::loop_isolation(false)]
fn clone_node(n: &Node) -> (r: Node)
    ensures
        r@ == n@,
    decreases n,
{
    match n {
        Node::Element(e) => {
            let mut children: Vec<Node> = Vec::new();
            let mut i: usize = 0;
            while i < e.children.len()
                invariant
                    i <= e.children@.len(),
                    nodes_view(children@) == nodes_view(e.children@.take(i as int)),
                decreases e.children.len() - i,
            {
                proof {
                    assert(decreases_to!(e.children => e.children@));
                    assert(decreases_to!(e.children@ => e.children@[i as int]));
                }
                let c = clone_node(&e.children[i]);
                proof {
                    lemma_nodes_view_push(children@, c);
                    lemma_nodes_view_push(e.children@.take(i as int), e.children@[i as int]);
                    assert(e.children@.take(i + 1) =~= e.children@.take(i as int).push(
                        e.children@[i as int],
                    ));
                }
                children.push(c);
                i = i + 1;
            }
            assert(e.children@.take(i as int) =~= e.children@);
            Node::Element(
                Element {
                    tag_name: e.tag_name.clone(),
                    attrs: clone_attrs(&e.attrs),
                    children,
                },
            )
        },
        Node::Text(t) => Node::Text(t.clone()),
        Node::Comment(t) => Node::Comment(t.clone()),
    }
}

fn clone_nodes(v: &Vec<Node>) -> (r: Vec<Node>)
    ensures
        nodes_view(r@) == nodes_view(v@),
{
    let mut r: Vec<Node> = Vec::new();
    let mut i: usize = 0;
    while i < v.len()
        invariant
            i <= v@.len(),
            nodes_view(r@) == nodes_view(v@.take(i as int)),
        decreases v.len() - i,
    {
        let c = clone_node(&v[i]);
        proof {
            lemma_nodes_view_push(r@, c);
            lemma_nodes_view_push(v@.take(i as int), v@[i as int]);
            assert(v@.take(i + 1) =~= v@.take(i as int).push(v@[i as int]));
        }
        r.push(c);
        i = i + 1;
    }
    assert(v@.take(i as int) =~= v@);
    r
}

impl Clone for Node {
    fn clone(&self) -> (r: Self)
        ensures
            r@ == self@,
    {
        clone_node(self)
    }
}

impl Clone for Element {
    fn clone(&self) -> (r: Self)
        ensures
            r@ == self@,
    {
        Element {
            tag_name: self.tag_name.clone(),
            attrs: clone_attrs(&self.attrs),
            children: clone_nodes(&self.children),
        }
    }
}

impl Default for Document {
    fn default() -> (d: Self)
        ensures
            d@ == empty_document(),
    {
        let d = Document { doctype: None, children: Vec::new() };
        assert(d@ =~= empty_document());
        d
    }
}

impl Clone for Document {
    fn clone(&self) -> (r: Self)
        ensures
            r@ == self@,
    {
        let doctype = match &self.doctype {
            Some(name) => Some(name.clone()),
            None => None,
        };
        Document { doctype, children: clone_nodes(&self.children) }
    }
}


/// ` name` for an attribute with an empty value, ` name="value"` otherwise.
pub open spec fn attr_html(a: AttributeV) -> Seq<char> {
    if a.value.len() == 0 {
        seq![' '] + a.name
    } else {
        seq![' '] + a.name + seq!['=', '"'] + a.value + seq!['"']
    }
}

pub open spec fn attrs_html(attrs: Seq<AttributeV>) -> Seq<char>
    decreases attrs.len(),
{
    if attrs.len() == 0 {
        seq![]
    } else {
        attrs_html(attrs.drop_last()) + attr_html(attrs.last())
    }
}

/// The start tag of an element.
pub open spec fn start_tag_html(e: ElementV) -> Seq<char> {
    seq!['<'] + e.tag_name + attrs_html(e.attrs) + seq!['>']
}

/// The end tag for the name `name`.
pub open spec fn end_tag_html(name: Seq<char>) -> Seq<char> {
    seq!['<', '/'] + name + seq!['>']
}

/// The HTML text of a node. Attribute values are always written in double
/// quotes, and a void element is written as its start tag alone.
pub open spec fn node_html(n: NodeV) -> Seq<char>
    decreases n,
{
    match n {
        NodeV::Text(t) => t,
        NodeV::Comment(t) => seq!['<', '!', '-', '-'] + t + seq!['-', '-', '>'],
        NodeV::Element(e) => if is_void_name(e.tag_name) {
            start_tag_html(e)
        } else {
            start_tag_html(e) + nodes_html(e.children) + end_tag_html(e.tag_name)
        },
    }
}

pub open spec fn nodes_html(s: Seq<NodeV>) -> Seq<char>
    decreases s,
{
    if s.len() == 0 {
        seq![]
    } else {
        nodes_html(s.drop_last()) + node_html(s.last())
    }
}

pub open spec fn doctype_html(name: Seq<char>) -> Seq<char> {
    seq!['<', '!', 'D', 'O', 'C', 'T', 'Y', 'P', 'E', ' '] + name + seq!['>']
}

/// The HTML text of a document: its DOCTYPE, if it has one, then its nodes.
pub open spec fn document_html(d: DocumentV) -> Seq<char> {
    match d.doctype {
        Some(name) => doctype_html(name) + nodes_html(d.children),
        None => nodes_html(d.children),
    }
}

fn push_chars(out: &mut String, cs: &[char])
    ensures
        final(out)@ == old(out)@ + cs@,
{
    let mut i: usize = 0;
    while i < cs.len()
        invariant
            i <= cs@.len(),
            out@ == old(out)@ + cs@.take(i as int),
        decreases cs.len() - i,
    {
        push_char(out, cs[i]);
        i = i + 1;
        assert(cs@.take(i as int) =~= cs@.take(i - 1).push(cs@[i - 1]));
    }
    assert(cs@.take(i as int) =~= cs@);
}

fn serialize_attrs(attrs: &Vec<Attribute>, out: &mut String)
    ensures
        final(out)@ == old(out)@ + attrs_html(attrs_view(attrs@)),
{
    let mut i: usize = 0;
    while i < attrs.len()
        invariant
            i <= attrs@.len(),
            out@ == old(out)@ + attrs_html(attrs_view(attrs@).take(i as int)),
        decreases attrs.len() - i,
    {
        let ghost before = out@;
        let attr = &attrs[i];
        push_char(out, ' ');
        push_string(out, &attr.name);
        if !attr.value.as_str().is_empty() {
            push_chars(out, &['=', '"']);
            push_string(out, &attr.value);
            push_char(out, '"');
        }
        proof {
            let av = attrs_view(attrs@);
            assert(av.take(i + 1).drop_last() =~= av.take(i as int));
            assert(av.take(i + 1).last() == attr@);
            assert(out@ =~= before + attr_html(attr@));
        }
        i = i + 1;
    }
    assert(attrs_view(attrs@).take(i as int) =~= attrs_view(attrs@));
}

fn serialize_start_tag(el: &Element, out: &mut String)
    ensures
        final(out)@ == old(out)@ + start_tag_html(el@),
{
    push_char(out, '<');
    push_string(out, &el.tag_name);
    serialize_attrs(&el.attrs, out);
    push_char(out, '>');
    assert(out@ =~= old(out)@ + start_tag_html(el@));
}

/// Appends the HTML text of `node` to `out`.
#[verifier::loop_isolation(false)]
pub fn serialize_node(node: &Node, out: &mut String)
    ensures
        final(out)@ == old(out)@ + node_html(node@),
    decreases node,
{
    match node {
        Node::Text(text) => {
            push_string(out, text);
        },
        Node::Comment(text) => {
            push_chars(out, &['<', '!', '-', '-']);
            push_string(out, text);
            push_chars(out, &['-', '-', '>']);
            assert(out@ =~= old(out)@ + node_html(node@));
        },
        Node::Element(el) => {
            serialize_start_tag(el, out);
            if !is_void_element(el.tag_name.as_str()) {
                let ghost after_start = out@;
                let ghost kids = nodes_view(el.children@);
                proof {
                    lemma_nodes_view_index(el.children@);
                }
                let mut i: usize = 0;
                while i < el.children.len()
                    invariant
                        i <= el.children@.len(),
                        out@ == after_start + nodes_html(kids.take(i as int)),
                    decreases el.children.len() - i,
                {
                    proof {
                        assert(decreases_to!(el.children => el.children@));
                        assert(decreases_to!(el.children@ => el.children@[i as int]));
                    }
                    let ghost before = out@;
                    serialize_node(&el.children[i], out);
                    proof {
                        assert(kids.take(i + 1).drop_last() =~= kids.take(i as int));
                        assert(kids.take(i + 1).last() == el.children@[i as int]@);
                    }
                    i = i + 1;
                }
                assert(kids.take(i as int) =~= kids);
                push_chars(out, &['<', '/']);
                push_string(out, &el.tag_name);
                push_char(out, '>');
                assert(out@ =~= old(out)@ + node_html(node@));
            }
        },
    }
}

impl Document {
    /// The HTML text of the whole document. Quoting style and self-closing
    /// slashes are not kept: attribute values are written in double quotes
    /// and void elements as their start tag alone, so the text need not equal
    /// the text the document was parsed from.
    pub fn to_html(&self) -> (s: String)
        ensures
            s@ == document_html(self@),
    {
        let mut out = String::new();
        match &self.doctype {
            Some(name) => {
                push_chars(&mut out, &['<', '!', 'D', 'O', 'C', 'T', 'Y', 'P', 'E', ' ']);
                push_string(&mut out, name);
                push_char(&mut out, '>');
            },
            None => {},
        }
        let ghost after_doctype = out@;
        let ghost kids = nodes_view(self.children@);
        proof {
            lemma_nodes_view_index(self.children@);
        }
        let mut i: usize = 0;
        while i < self.children.len()
            invariant
                i <= self.children@.len(),
                kids == nodes_view(self.children@),
                kids.len() == self.children@.len(),
                forall|j: int| 0 <= j < self.children@.len() ==> #[trigger] kids[j] == self.children@[j]@,
                out@ == after_doctype + nodes_html(kids.take(i as int)),
            decreases self.children.len() - i,
        {
            serialize_node(&self.children[i], &mut out);
            proof {
                assert(kids.take(i + 1).drop_last() =~= kids.take(i as int));
            }
            i = i + 1;
        }
        assert(kids.take(i as int) =~= kids);
        assert(out@ =~= document_html(self@));
        out
    }
}


/// The state of a tree builder: the document so far and the stack of open
/// elements, innermost last.
#[verifier::ext_equal]
pub struct BuilderV {
    pub document: DocumentV,
    pub stack: Seq<ElementV>,
}

pub open spec fn empty_document() -> DocumentV {
    DocumentV { doctype: None, children: seq![] }
}

pub open spec fn initial_builder() -> BuilderV {
    BuilderV { document: empty_document(), stack: seq![] }
}

/// Appends `n` to the innermost open element, or to the document when no
/// element is open.
pub open spec fn insert_node(b: BuilderV, n: NodeV) -> BuilderV {
    if b.stack.len() > 0 {
        let top = b.stack.last();
        BuilderV {
            stack: b.stack.drop_last().push(ElementV { children: top.children.push(n), ..top }),
            ..b
        }
    } else {
        BuilderV {
            document: DocumentV { children: b.document.children.push(n), ..b.document },
            ..b
        }
    }
}

/// Closes open elements, innermost first, until `depth` of them are left;
/// each closed element is appended to the one around it.
pub open spec fn close_to(b: BuilderV, depth: nat) -> BuilderV
    decreases b.stack.len(),
{
    if b.stack.len() > depth {
        let top = b.stack.last();
        close_to(insert_node(BuilderV { stack: b.stack.drop_last(), ..b }, NodeV::Element(top)), depth)
    } else {
        b
    }
}

/// The position of the innermost open element named `name`.
pub open spec fn last_index_named(stack: Seq<ElementV>, name: Seq<char>) -> Option<nat>
    decreases stack.len(),
{
    if stack.len() == 0 {
        None
    } else if stack.last().tag_name == name {
        Some((stack.len() - 1) as nat)
    } else {
        last_index_named(stack.drop_last(), name)
    }
}

/// What the tree builder does with one token.
pub open spec fn process(b: BuilderV, t: TokenV) -> BuilderV {
    match t {
        TokenV::Doctype { name } => BuilderV {
            document: DocumentV { doctype: Some(name), ..b.document },
            ..b
        },
        TokenV::StartTag { name, attrs, self_closing } => {
            let e = ElementV { tag_name: name, attrs, children: seq![] };
            if self_closing || is_void_name(name) {
                insert_node(b, NodeV::Element(e))
            } else {
                BuilderV { stack: b.stack.push(e), ..b }
            }
        },
        TokenV::EndTag { name } => match last_index_named(b.stack, name) {
            Some(p) => close_to(b, p),
            None => b,
        },
        TokenV::Characters(text) => insert_node(b, NodeV::Text(text)),
        TokenV::Comment(text) => insert_node(b, NodeV::Comment(text)),
        TokenV::Eof => b,
    }
}

/// The builder state after `tokens`, from a fresh builder.
pub open spec fn build(tokens: Seq<TokenV>) -> BuilderV
    decreases tokens.len(),
{
    if tokens.len() == 0 {
        initial_builder()
    } else {
        process(build(tokens.drop_last()), tokens.last())
    }
}

/// The document once the elements still open have been closed.
pub open spec fn finished(b: BuilderV) -> DocumentV {
    close_to(b, 0).document
}

/// The document that `parse_document` makes of `input`.
pub open spec fn parse(input: Seq<char>) -> DocumentV {
    finished(build(tokens_of(input)))
}

/// The document and open elements of a tree builder, as plain data.
struct Tree {
    document: Document,
    open_stack: Vec<Element>,
}

impl View for Tree {
    type V = BuilderV;

    closed spec fn view(&self) -> BuilderV {
        BuilderV { document: self.document@, stack: elements_view(self.open_stack@) }
    }
}

impl Tree {
    fn new() -> (t: Self)
        ensures
            t@ == initial_builder(),
    {
        let t = Tree { document: Document { doctype: None, children: Vec::new() }, open_stack: Vec::new() };
        assert(t@ =~= initial_builder());
        t
    }

    fn insert_node(&mut self, node: Node)
        ensures
            final(self)@ == insert_node(old(self)@, node@),
    {
        if self.open_stack.len() > 0 {
            let mut parent = self.open_stack.pop().unwrap();
            proof {
                lemma_nodes_view_push(parent.children@, node);
            }
            parent.children.push(node);
            self.open_stack.push(parent);
            assert(elements_view(self.open_stack@) =~= elements_view(old(self).open_stack@).drop_last().push(parent@));
        } else {
            proof {
                lemma_nodes_view_push(self.document.children@, node);
            }
            self.document.children.push(node);
        }
    }

    fn close_to(&mut self, depth: usize)
        ensures
            final(self)@ == close_to(old(self)@, depth as nat),
    {
        while self.open_stack.len() > depth
            invariant
                close_to(self@, depth as nat) == close_to(old(self)@, depth as nat),
            decreases self.open_stack.len(),
        {
            let ghost b = self@;
            let el = self.open_stack.pop().unwrap();
            assert(elements_view(self.open_stack@) =~= b.stack.drop_last());
            self.insert_node(Node::Element(el));
        }
    }

    fn last_index_named(&self, name: &String) -> (r: Option<usize>)
        ensures
            match r {
                Some(p) => last_index_named(self@.stack, name@) == Some(p as nat),
                None => last_index_named(self@.stack, name@) is None,
            },
    {
        let ghost st = self@.stack;
        let mut i: usize = self.open_stack.len();
        assert(st.take(i as int) =~= st);
        while i > 0
            invariant
                i <= st.len(),
                st == elements_view(self.open_stack@),
                last_index_named(st.take(i as int), name@) == last_index_named(st, name@),
            decreases i,
        {
            i = i - 1;
            assert(st.take(i + 1).drop_last() =~= st.take(i as int));
            if self.open_stack[i].tag_name == *name {
                return Some(i);
            }
        }
        None
    }

    fn process(&mut self, token: Token)
        ensures
            final(self)@ == process(old(self)@, token@),
    {
        match token {
            Token::Doctype { name } => {
                self.document.doctype = Some(name);
            },
            Token::StartTag { name, attrs, self_closing } => {
                let void = is_void_element(name.as_str());
                let element = Element::new(name, attrs);
                if self_closing || void {
                    self.insert_node(Node::Element(element));
                } else {
                    self.open_stack.push(element);
                    assert(elements_view(self.open_stack@) =~= elements_view(old(self).open_stack@).push(element@));
                }
            },
            Token::EndTag { name } => {
                // The innermost open element of this name is closed with
                // every element opened after it; an end tag that matches no
                // open element is ignored.
                match self.last_index_named(&name) {
                    Some(pos) => self.close_to(pos),
                    None => {},
                }
            },
            Token::Characters(text) => {
                self.insert_node(Node::Text(text));
            },
            Token::Comment(text) => {
                self.insert_node(Node::Comment(text));
            },
            Token::Eof => {},
        }
    }
}

/// A `TokenSink` that builds a document tree from the tokens it receives.
pub struct TreeBuilder {
    tree: Tree,
    log: Ghost<Seq<TokenV>>,
}

impl TreeBuilder {
    #[verifier::type_invariant]
    spec fn built_from_log(&self) -> bool {
        self.tree@ == build(self.log@)
    }

    pub fn new() -> (b: Self)
        ensures
            b.received() == Seq::<TokenV>::empty(),
    {
        TreeBuilder { tree: Tree::new(), log: Ghost(Seq::empty()) }
    }

    /// The document, once every element still open has been closed (end tags
    /// that were left out are supplied at the end).
    pub fn finish(self) -> (d: Document)
        ensures
            d@ == finished(build(self.received())),
    {
        proof {
            use_type_invariant(&self);
        }
        let TreeBuilder { tree, .. } = self;
        let mut tree = tree;
        tree.close_to(0);
        tree.document
    }
}

impl Default for TreeBuilder {
    fn default() -> (b: Self)
        ensures
            b.received() == Seq::<TokenV>::empty(),
    {
        TreeBuilder::new()
    }
}

impl TokenSink for TreeBuilder {
    closed spec fn received(&self) -> Seq<TokenV> {
        self.log@
    }

    fn process_token(&mut self, token: Token) {
        let ghost t = token@;
        let mut taken = TreeBuilder::new();
        std::mem::swap(self, &mut taken);
        proof {
            use_type_invariant(&taken);
        }
        let TreeBuilder { tree, log } = taken;
        let mut tree = tree;
        tree.process(token);
        proof {
            assert(log@.push(t).drop_last() =~= log@);
        }
        *self = TreeBuilder { tree, log: Ghost(log@.push(t)) };
    }
}

/// Parses `input` into a document: tokenizes it and builds the tree from the
/// tokens.
pub fn parse_document(input: &str) -> (d: Document)
    ensures
        d@ == parse(input@),
{
    let mut builder = TreeBuilder::new();
    tokenize(input, &mut builder);
    assert(builder.received() =~= tokens_of(input@));
    builder.finish()
}

} // verus!
