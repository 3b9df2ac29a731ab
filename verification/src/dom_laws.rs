//! Properties of the tree builder and the serializer.

use vstd::prelude::*;

use crate::dom::{
    attr_value, attrs_html, build, close_to, document_html, finished, insert_node, is_void_name,
    last_index_named, node_html, nodes_html, parse, process, BuilderV, DocumentV, ElementV, NodeV,
};
use crate::token::{AttributeV, TokenV};
use crate::tokenizer::tokens_of;

verus! {

/// A void element in `n`, at any depth, has no children.
pub open spec fn void_childless(n: NodeV) -> bool
    decreases n,
{
    match n {
        NodeV::Element(e) => {
            &&& is_void_name(e.tag_name) ==> e.children.len() == 0
            &&& forall|i: int| 0 <= i < e.children.len() ==> void_childless(#[trigger] e.children[i])
        },
        _ => true,
    }
}

pub open spec fn all_void_childless(s: Seq<NodeV>) -> bool {
    forall|i: int| 0 <= i < s.len() ==> void_childless(#[trigger] s[i])
}

/// Open elements are never void, and the trees built so far keep void
/// elements childless.
spec fn builder_void_ok(b: BuilderV) -> bool {
    &&& all_void_childless(b.document.children)
    &&& forall|i: int| 0 <= i < b.stack.len() ==> !is_void_name(#[trigger] b.stack[i].tag_name)
    &&& forall|i: int| 0 <= i < b.stack.len() ==> all_void_childless(#[trigger] b.stack[i].children)
}

proof fn lemma_push_void_childless(s: Seq<NodeV>, n: NodeV)
    requires
        all_void_childless(s),
        void_childless(n),
    ensures
        all_void_childless(s.push(n)),
{
    assert forall|i: int| 0 <= i < s.push(n).len() implies void_childless(#[trigger] s.push(n)[i]) by {
        if i < s.len() {
            assert(s.push(n)[i] == s[i]);
        }
    }
}

proof fn lemma_insert_keeps_void_ok(b: BuilderV, n: NodeV)
    requires
        builder_void_ok(b),
        void_childless(n),
    ensures
        builder_void_ok(insert_node(b, n)),
        insert_node(b, n).stack.len() == b.stack.len(),
{
    if b.stack.len() > 0 {
        let top = b.stack.last();
        lemma_push_void_childless(top.children, n);
        let nb = insert_node(b, n);
        assert forall|i: int| 0 <= i < nb.stack.len() implies !is_void_name(#[trigger] nb.stack[i].tag_name)
            && all_void_childless(nb.stack[i].children) by {
            if i < b.stack.len() - 1 {
                assert(nb.stack[i] == b.stack[i]);
            }
        }
    } else {
        lemma_push_void_childless(b.document.children, n);
    }
}

proof fn lemma_close_keeps_void_ok(b: BuilderV, depth: nat)
    requires
        builder_void_ok(b),
    ensures
        builder_void_ok(close_to(b, depth)),
    decreases b.stack.len(),
{
    if b.stack.len() > depth {
        let top = b.stack.last();
        let popped = BuilderV { stack: b.stack.drop_last(), ..b };
        assert forall|i: int| 0 <= i < popped.stack.len() implies !is_void_name(#[trigger] popped.stack[i].tag_name)
            && all_void_childless(popped.stack[i].children) by {
            assert(popped.stack[i] == b.stack[i]);
        }
        assert(void_childless(NodeV::Element(top)));
        lemma_insert_keeps_void_ok(popped, NodeV::Element(top));
        lemma_close_keeps_void_ok(insert_node(popped, NodeV::Element(top)), depth);
    }
}

proof fn lemma_process_keeps_void_ok(b: BuilderV, t: TokenV)
    requires
        builder_void_ok(b),
    ensures
        builder_void_ok(process(b, t)),
{
    match t {
        TokenV::StartTag { name, attrs, self_closing } => {
            let e = ElementV { tag_name: name, attrs, children: seq![] };
            if self_closing || is_void_name(name) {
                assert(void_childless(NodeV::Element(e)));
                lemma_insert_keeps_void_ok(b, NodeV::Element(e));
            } else {
                let nb = process(b, t);
                assert forall|i: int| 0 <= i < nb.stack.len() implies !is_void_name(#[trigger] nb.stack[i].tag_name)
                    && all_void_childless(nb.stack[i].children) by {
                    if i < b.stack.len() {
                        assert(nb.stack[i] == b.stack[i]);
                    }
                }
            }
        },
        TokenV::EndTag { name } => {
            match last_index_named(b.stack, name) {
                Some(p) => lemma_close_keeps_void_ok(b, p),
                None => {},
            }
        },
        TokenV::Characters(text) => lemma_insert_keeps_void_ok(b, NodeV::Text(text)),
        TokenV::Comment(text) => lemma_insert_keeps_void_ok(b, NodeV::Comment(text)),
        _ => {},
    }
}

proof fn lemma_build_void_ok(tokens: Seq<TokenV>)
    ensures
        builder_void_ok(build(tokens)),
    decreases tokens.len(),
{
    if tokens.len() > 0 {
        lemma_build_void_ok(tokens.drop_last());
        lemma_process_keeps_void_ok(build(tokens.drop_last()), tokens.last());
    }
}

/// In a parsed document a void element (`img`, `br`, ...) never has
/// children, at any depth: it is never left open for later content.
pub proof fn law_void_elements_have_no_children(input: Seq<char>)
    ensures
        all_void_childless(parse(input).children),
{
    lemma_build_void_ok(tokens_of(input));
    lemma_close_keeps_void_ok(build(tokens_of(input)), 0);
}


/// An end tag that matches no open element leaves the builder as it was.
pub proof fn law_unmatched_end_tag_is_ignored(b: BuilderV, name: Seq<char>)
    requires
        forall|i: int| 0 <= i < b.stack.len() ==> #[trigger] b.stack[i].tag_name != name,
    ensures
        process(b, TokenV::EndTag { name }) == b,
{
    lemma_last_index_named(b.stack, name);
}

/// The innermost open element named `name` is where `last_index_named`
/// points, if there is any.
pub proof fn lemma_last_index_named(stack: Seq<ElementV>, name: Seq<char>)
    ensures
        match last_index_named(stack, name) {
            Some(p) => p < stack.len() && stack[p as int].tag_name == name && forall|j: int|
                p < j < stack.len() ==> #[trigger] stack[j].tag_name != name,
            None => forall|j: int| 0 <= j < stack.len() ==> #[trigger] stack[j].tag_name != name,
        },
    decreases stack.len(),
{
    if stack.len() > 0 && stack.last().tag_name != name {
        let init = stack.drop_last();
        lemma_last_index_named(init, name);
        match last_index_named(init, name) {
            Some(p) => {
                assert(stack[p as int] == init[p as int]);
                assert forall|j: int| p < j < stack.len() implies #[trigger] stack[j].tag_name
                    != name by {
                    if j < init.len() {
                        assert(init[j] == stack[j]);
                    }
                }
            },
            None => {
                assert forall|j: int| 0 <= j < stack.len() implies #[trigger] stack[j].tag_name
                    != name by {
                    if j < init.len() {
                        assert(init[j] == stack[j]);
                    }
                }
            },
        }
    }
}

/// Closing elements keeps the names and attributes of those that stay open.
spec fn keeps_open(b: BuilderV, c: BuilderV, depth: nat) -> bool {
    &&& c.stack.len() == depth
    &&& forall|j: int|
        0 <= j < depth ==> (#[trigger] c.stack[j]).tag_name == b.stack[j].tag_name
            && c.stack[j].attrs == b.stack[j].attrs
}

proof fn lemma_close_to_stack(b: BuilderV, depth: nat)
    requires
        depth <= b.stack.len(),
    ensures
        keeps_open(b, close_to(b, depth), depth),
    decreases b.stack.len(),
{
    if b.stack.len() > depth {
        let top = b.stack.last();
        let popped = BuilderV { stack: b.stack.drop_last(), ..b };
        let next = insert_node(popped, NodeV::Element(top));
        lemma_close_to_stack(next, depth);
        let c = close_to(b, depth);
        assert forall|j: int| 0 <= j < depth implies (#[trigger] c.stack[j]).tag_name
            == b.stack[j].tag_name && c.stack[j].attrs == b.stack[j].attrs by {
            assert(next.stack[j].tag_name == b.stack[j].tag_name);
            assert(next.stack[j].attrs == b.stack[j].attrs);
        }
    }
}

/// An end tag closes the innermost open element of its name together with
/// every element opened after it; the elements opened before it stay open.
pub proof fn law_end_tag_closes_innermost_match(b: BuilderV, name: Seq<char>, p: int)
    requires
        0 <= p < b.stack.len(),
        b.stack[p].tag_name == name,
        forall|j: int| p < j < b.stack.len() ==> #[trigger] b.stack[j].tag_name != name,
    ensures
        process(b, TokenV::EndTag { name }).stack.len() == p,
        forall|j: int|
            0 <= j < p ==> (#[trigger] process(b, TokenV::EndTag { name }).stack[j]).tag_name
                == b.stack[j].tag_name,
{
    lemma_last_index_named(b.stack, name);
    match last_index_named(b.stack, name) {
        Some(q) => {
            if q < p {
                assert(b.stack[p].tag_name != name);
            }
            assert(q as int == p);
        },
        None => {
            assert(b.stack[p].tag_name != name);
        },
    }
    lemma_close_to_stack(b, p as nat);
}


/// At the end, the elements still open are closed: the outermost of them,
/// holding the others, becomes the last node of the document, and the nodes
/// before it are left as they were.
pub proof fn law_open_elements_are_closed_at_the_end(b: BuilderV)
    requires
        b.stack.len() > 0,
    ensures
        finished(b).children.len() == b.document.children.len() + 1,
        finished(b).children.drop_last() == b.document.children,
        finished(b).children.last() matches NodeV::Element(e) && e.tag_name
            == b.stack[0].tag_name,
        finished(b).doctype == b.document.doctype,
    decreases b.stack.len(),
{
    let top = b.stack.last();
    let popped = BuilderV { stack: b.stack.drop_last(), ..b };
    let next = insert_node(popped, NodeV::Element(top));
    if b.stack.len() == 1 {
        assert(close_to(next, 0) == next);
        assert(next.document.children.drop_last() =~= b.document.children);
    } else {
        assert(next.stack[0].tag_name == b.stack[0].tag_name);
        law_open_elements_are_closed_at_the_end(next);
    }
}


/// A node as met in a pre-order walk of a tree: an element without its
/// children, a text or a comment.
#[verifier::ext_equal]
pub enum Visit {
    Element { name: Seq<char>, attrs: Seq<AttributeV> },
    Text(Seq<char>),
    Comment(Seq<char>),
}

/// The pre-order walk of a node.
pub open spec fn node_visits(n: NodeV) -> Seq<Visit>
    decreases n,
{
    match n {
        NodeV::Element(e) => seq![Visit::Element { name: e.tag_name, attrs: e.attrs }]
            + nodes_visits(e.children),
        NodeV::Text(t) => seq![Visit::Text(t)],
        NodeV::Comment(t) => seq![Visit::Comment(t)],
    }
}

/// The pre-order walk of a node list.
pub open spec fn nodes_visits(s: Seq<NodeV>) -> Seq<Visit>
    decreases s,
{
    if s.len() == 0 {
        seq![]
    } else {
        nodes_visits(s.drop_last()) + node_visits(s.last())
    }
}

/// The node that a token stands for, if any: start tags, texts and comments
/// stand for one node each; end tags, DOCTYPEs and `Eof` for none.
pub open spec fn token_visits(t: TokenV) -> Seq<Visit> {
    match t {
        TokenV::StartTag { name, attrs, .. } => seq![Visit::Element { name, attrs }],
        TokenV::Characters(text) => seq![Visit::Text(text)],
        TokenV::Comment(text) => seq![Visit::Comment(text)],
        _ => seq![],
    }
}

pub open spec fn tokens_visits(ts: Seq<TokenV>) -> Seq<Visit>
    decreases ts.len(),
{
    if ts.len() == 0 {
        seq![]
    } else {
        tokens_visits(ts.drop_last()) + token_visits(ts.last())
    }
}

/// The walk of the open elements: each one, then its children so far; the
/// next open element will follow those children.
spec fn stack_visits(stack: Seq<ElementV>) -> Seq<Visit>
    decreases stack.len(),
{
    if stack.len() == 0 {
        seq![]
    } else {
        stack_visits(stack.drop_last()) + seq![
            Visit::Element { name: stack.last().tag_name, attrs: stack.last().attrs },
        ] + nodes_visits(stack.last().children)
    }
}

/// The pre-order walk of the tree that a builder will finish with.
spec fn builder_visits(b: BuilderV) -> Seq<Visit> {
    nodes_visits(b.document.children) + stack_visits(b.stack)
}

proof fn lemma_nodes_visits_push(s: Seq<NodeV>, n: NodeV)
    ensures
        nodes_visits(s.push(n)) == nodes_visits(s) + node_visits(n),
{
    assert(s.push(n).drop_last() =~= s);
}

proof fn lemma_insert_visits(b: BuilderV, n: NodeV)
    ensures
        builder_visits(insert_node(b, n)) == builder_visits(b) + node_visits(n),
{
    if b.stack.len() > 0 {
        let top = b.stack.last();
        let init = b.stack.drop_last();
        let top2 = ElementV { children: top.children.push(n), ..top };
        let nb = insert_node(b, n);
        assert(nb.stack.drop_last() =~= init);
        assert(nb.stack.last() == top2);
        lemma_nodes_visits_push(top.children, n);
        let head = seq![Visit::Element { name: top.tag_name, attrs: top.attrs }];
        assert(stack_visits(nb.stack) == stack_visits(init) + head + nodes_visits(top2.children));
        assert(stack_visits(b.stack) == stack_visits(init) + head + nodes_visits(top.children));
        assert(builder_visits(nb) =~= builder_visits(b) + node_visits(n));
    } else {
        lemma_nodes_visits_push(b.document.children, n);
        assert(builder_visits(insert_node(b, n)) =~= builder_visits(b) + node_visits(n));
    }
}

proof fn lemma_close_visits(b: BuilderV, depth: nat)
    ensures
        builder_visits(close_to(b, depth)) == builder_visits(b),
    decreases b.stack.len(),
{
    if b.stack.len() > depth {
        let top = b.stack.last();
        let popped = BuilderV { stack: b.stack.drop_last(), ..b };
        lemma_insert_visits(popped, NodeV::Element(top));
        assert(builder_visits(insert_node(popped, NodeV::Element(top))) =~= builder_visits(b));
        lemma_close_visits(insert_node(popped, NodeV::Element(top)), depth);
    }
}

proof fn lemma_process_visits(b: BuilderV, t: TokenV)
    ensures
        builder_visits(process(b, t)) == builder_visits(b) + token_visits(t),
{
    match t {
        TokenV::StartTag { name, attrs, self_closing } => {
            let e = ElementV { tag_name: name, attrs, children: seq![] };
            assert(nodes_visits(e.children) =~= Seq::<Visit>::empty());
            if self_closing || is_void_name(name) {
                lemma_insert_visits(b, NodeV::Element(e));
                assert(node_visits(NodeV::Element(e)) =~= token_visits(t));
            } else {
                let nb = process(b, t);
                assert(nb.stack.drop_last() =~= b.stack);
                assert(builder_visits(nb) =~= builder_visits(b) + token_visits(t));
            }
        },
        TokenV::EndTag { name } => {
            match last_index_named(b.stack, name) {
                Some(p) => lemma_close_visits(b, p),
                None => {},
            }
            assert(builder_visits(process(b, t)) =~= builder_visits(b) + token_visits(t));
        },
        TokenV::Characters(text) => {
            lemma_insert_visits(b, NodeV::Text(text));
        },
        TokenV::Comment(text) => {
            lemma_insert_visits(b, NodeV::Comment(text));
        },
        _ => {
            assert(builder_visits(process(b, t)) =~= builder_visits(b) + token_visits(t));
        },
    }
}

proof fn lemma_build_visits(tokens: Seq<TokenV>)
    ensures
        builder_visits(build(tokens)) == tokens_visits(tokens),
    decreases tokens.len(),
{
    if tokens.len() == 0 {
        assert(builder_visits(build(tokens)) =~= tokens_visits(tokens));
    } else {
        lemma_build_visits(tokens.drop_last());
        lemma_process_visits(build(tokens.drop_last()), tokens.last());
    }
}

/// The tree builder keeps every node that the tokens stand for, in order:
/// the pre-order walk of the finished document meets one element per start
/// tag (with its name and attributes), one text per run of character data
/// and one comment per comment, in the order of the tokens; nothing is lost,
/// repeated or moved.
pub proof fn law_builder_keeps_every_node_in_order(tokens: Seq<TokenV>)
    ensures
        nodes_visits(finished(build(tokens)).children) == tokens_visits(tokens),
{
    let b = build(tokens);
    lemma_build_visits(tokens);
    lemma_close_visits(b, 0);
    lemma_close_to_stack(b, 0);
    let c = close_to(b, 0);
    assert(c.stack.len() == 0);
    assert(builder_visits(c) =~= nodes_visits(c.document.children));
}


/// The HTML text of a document is its DOCTYPE, if any, then the text of each
/// of its nodes in order, every node written: adding a node at the end adds
/// exactly that node's text at the end.
pub proof fn law_document_html_writes_every_node(
    doctype: Option<Seq<char>>,
    children: Seq<NodeV>,
    n: NodeV,
)
    ensures
        document_html((DocumentV { doctype, children: children.push(n) })) == document_html(
            (DocumentV { doctype, children }),
        ) + node_html(n),
        document_html((DocumentV { doctype: None, children: seq![] })) == Seq::<char>::empty(),
        forall|name: Seq<char>|
            #![trigger document_html((DocumentV { doctype: Some(name), children: seq![] }))]
            document_html((DocumentV { doctype: Some(name), children: seq![] })) == seq![
                '<',
                '!',
                'D',
                'O',
                'C',
                'T',
                'Y',
                'P',
                'E',
                ' ',
            ] + name + seq!['>'],
{
    assert(children.push(n).drop_last() =~= children);
    let none: Seq<NodeV> = seq![];
    assert(nodes_html(none) =~= Seq::<char>::empty());
    assert forall|name: Seq<char>|
        #![trigger document_html((DocumentV { doctype: Some(name), children: seq![] }))]
        document_html((DocumentV { doctype: Some(name), children: seq![] })) == seq![
            '<',
            '!',
            'D',
            'O',
            'C',
            'T',
            'Y',
            'P',
            'E',
            ' ',
        ] + name + seq!['>'] by {
        let e: Seq<NodeV> = seq![];
        assert(nodes_html(e) =~= Seq::<char>::empty());
        assert(document_html((DocumentV { doctype: Some(name), children: e })) =~= seq![
            '<',
            '!',
            'D',
            'O',
            'C',
            'T',
            'Y',
            'P',
            'E',
            ' ',
        ] + name + seq!['>']);
    }
    if doctype is Some {
        assert(document_html((DocumentV { doctype, children: children.push(n) })) =~= document_html(
            (DocumentV { doctype, children }),
        ) + node_html(n));
    }
}

/// The HTML text of each kind of node: a text as it is, a comment between
/// `<!--` and `-->`, a void element as its start tag alone, and any other
/// element as its start tag, the text of each of its children in order (as
/// a document of those children would be written), and its end tag.
pub proof fn law_node_html_writes_every_child(n: NodeV)
    ensures
        n matches NodeV::Text(t) ==> node_html(n) == t,
        n matches NodeV::Comment(t) ==> node_html(n) == seq!['<', '!', '-', '-'] + t + seq![
            '-',
            '-',
            '>',
        ],
        n matches NodeV::Element(e) ==> node_html(n) == seq!['<'] + e.tag_name + attrs_html(
            e.attrs,
        ) + seq!['>'] + (if is_void_name(e.tag_name) {
            Seq::<char>::empty()
        } else {
            document_html((DocumentV { doctype: None, children: e.children })) + seq!['<', '/']
                + e.tag_name + seq!['>']
        }),
{
    match n {
        NodeV::Element(e) => {
            if is_void_name(e.tag_name) {
                assert(node_html(n) =~= seq!['<'] + e.tag_name + attrs_html(e.attrs) + seq!['>']
                    + Seq::<char>::empty());
            } else {
                assert(node_html(n) =~= seq!['<'] + e.tag_name + attrs_html(e.attrs) + seq!['>']
                    + (document_html((DocumentV { doctype: None, children: e.children }))
                    + seq!['<', '/'] + e.tag_name + seq!['>']));
            }
        },
        _ => {},
    }
}

/// The attributes are written in order, each one as a space and its name,
/// followed by `="value"` when its value is not empty.
pub proof fn law_attributes_are_written_in_order(attrs: Seq<AttributeV>, a: AttributeV)
    ensures
        attrs_html(seq![]) == Seq::<char>::empty(),
        attrs_html(attrs.push(a)) == attrs_html(attrs) + seq![' '] + a.name + (if a.value.len()
            == 0 {
            Seq::<char>::empty()
        } else {
            seq!['=', '"'] + a.value + seq!['"']
        }),
{
    assert(attrs.push(a).drop_last() =~= attrs);
    if a.value.len() == 0 {
        assert(attrs_html(attrs.push(a)) =~= attrs_html(attrs) + seq![' '] + a.name
            + Seq::<char>::empty());
    } else {
        assert(attrs_html(attrs.push(a)) =~= attrs_html(attrs) + seq![' '] + a.name + (seq![
            '=',
            '"',
        ] + a.value + seq!['"']));
    }
}

proof fn lemma_attr_first(attrs: Seq<AttributeV>, name: Seq<char>, i: int)
    requires
        0 <= i < attrs.len(),
        attrs[i].name == name,
        forall|j: int| 0 <= j < i ==> #[trigger] attrs[j].name != name,
    ensures
        attr_value(attrs, name) == Some(attrs[i].value),
    decreases i,
{
    if i > 0 {
        let tail = attrs.drop_first();
        assert(attrs[0].name != name);
        assert(tail[i - 1] == attrs[i]);
        assert forall|j: int| 0 <= j < i - 1 implies #[trigger] tail[j].name != name by {
            assert(tail[j] == attrs[j + 1]);
        }
        lemma_attr_first(tail, name, i - 1);
    }
}

proof fn lemma_attr_none(attrs: Seq<AttributeV>, name: Seq<char>)
    requires
        forall|j: int| 0 <= j < attrs.len() ==> #[trigger] attrs[j].name != name,
    ensures
        attr_value(attrs, name) is None,
    decreases attrs.len(),
{
    if attrs.len() > 0 {
        let tail = attrs.drop_first();
        assert(attrs[0].name != name);
        assert forall|j: int| 0 <= j < tail.len() implies #[trigger] tail[j].name != name by {
            assert(tail[j] == attrs[j + 1]);
        }
        lemma_attr_none(tail, name);
    }
}

proof fn lemma_attr_some(attrs: Seq<AttributeV>, name: Seq<char>, i: int)
    requires
        0 <= i < attrs.len(),
        attrs[i].name == name,
    ensures
        attr_value(attrs, name) is Some,
    decreases i,
{
    if i > 0 && attrs[0].name != name {
        let tail = attrs.drop_first();
        assert(tail[i - 1] == attrs[i]);
        lemma_attr_some(tail, name, i - 1);
    }
}

/// `attr_value` finds an attribute exactly when one has the name asked
/// for, and then gives the value of the first one that has it.
pub proof fn law_attr_finds_the_first_match(attrs: Seq<AttributeV>, name: Seq<char>)
    ensures
        (attr_value(attrs, name) is Some) == (exists|i: int|
            0 <= i < attrs.len() && #[trigger] attrs[i].name == name),
        forall|i: int|
            0 <= i < attrs.len() && #[trigger] attrs[i].name == name && (forall|j: int|
                0 <= j < i ==> attrs[j].name != name) ==> attr_value(attrs, name) == Some(
                attrs[i].value,
            ),
{
    if exists|i: int| 0 <= i < attrs.len() && #[trigger] attrs[i].name == name {
        let i = choose|i: int| 0 <= i < attrs.len() && #[trigger] attrs[i].name == name;
        lemma_attr_some(attrs, name, i);
    } else {
        lemma_attr_none(attrs, name);
    }
    assert forall|i: int|
        0 <= i < attrs.len() && #[trigger] attrs[i].name == name && (forall|j: int|
            0 <= j < i ==> attrs[j].name != name) implies attr_value(attrs, name) == Some(
        attrs[i].value,
    ) by {
        lemma_attr_first(attrs, name, i);
    }
}

} // verus!
