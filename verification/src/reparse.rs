//! A parsed document reads back as itself once serialized, as long as no
//! attribute value holds `"` and no two text nodes are adjacent.

use vstd::prelude::*;

use crate::chars::{ascii_lower, is_ascii_alpha, is_white_space};
use crate::token::{AttributeV, TokenV};
use crate::dom::{
    build, close_to, document_html, insert_node, is_void_name, last_index_named, parse, process,
    BuilderV, DocumentV, ElementV, NodeV,
};
use crate::round_trip::{
    attr_name_ok, comment_ok, document_ok, doctype_ok, law_parse_of_serialization, node_ok,
    nodes_ok, not_upper, tag_name_ok, text_ok, text_shape, value_unquoted,
};
use crate::tokenizer::{
    committed, end_tokens, flush_out, initial_state, spec_run, spec_step, tokens_of, State,
    TokState,
};

verus! {

/// The attribute names are all ones that read back as themselves.
pub open spec fn attr_names_ok(attrs: Seq<AttributeV>) -> bool {
    forall|i: int| 0 <= i < attrs.len() ==> attr_name_ok(#[trigger] attrs[i].name)
}

/// The shapes of the tokens that the tokenizer emits.
pub open spec fn token_shape(t: TokenV) -> bool {
    match t {
        TokenV::Characters(text) => text_ok(text),
        TokenV::Comment(text) => comment_ok(text),
        TokenV::Doctype { name } => doctype_ok(name),
        TokenV::StartTag { name, attrs, .. } => tag_name_ok(name) && attr_names_ok(attrs),
        TokenV::EndTag { name } => tag_name_ok(name),
        TokenV::Eof => true,
    }
}

pub open spec fn in_tag_state(st: State) -> bool {
    ||| st == State::TagName
    ||| st == State::BeforeAttributeName
    ||| in_attr_state(st)
    ||| st == State::AfterAttributeValueQuoted
    ||| st == State::SelfClosingStartTag
}

pub open spec fn in_attr_state(st: State) -> bool {
    ||| st == State::AttributeName
    ||| st == State::BeforeAttributeValue
    ||| st == State::AttributeValueDoubleQuoted
    ||| st == State::AttributeValueSingleQuoted
    ||| st == State::AttributeValueUnquoted
}

/// What holds of the tokenizer's state between two steps.
pub open spec fn shape_inv(s: TokState) -> bool {
    &&& s.state != State::Data ==> s.char_buf.len() == 0
    &&& s.state == State::Data ==> text_shape(s.char_buf)
    &&& in_tag_state(s.state) ==> tag_name_ok(s.tag_name)
    &&& in_attr_state(s.state) ==> attr_name_ok(s.attr_name)
    &&& attr_names_ok(s.attrs)
    &&& (s.state == State::Doctype || s.state == State::BeforeDoctypeName)
        ==> s.doctype_name.len() == 0
    &&& s.state == State::DoctypeName ==> doctype_ok(s.doctype_name) && s.doctype_name.len() > 0
    &&& s.state == State::CommentStart ==> s.comment.len() == 0
    &&& s.state == State::Comment ==> comment_ok(s.comment) && (s.comment.len() == 0
        || s.comment.last() != '-')
    &&& s.state == State::CommentEndDash ==> comment_ok(s.comment.push('-')) && (
    s.comment.len() == 0 || s.comment.last() != '-')
    &&& s.state == State::CommentEnd ==> comment_ok(s.comment + seq!['-', '-'])
}

proof fn lemma_lower(c: char)
    ensures
        not_upper(ascii_lower(c)),
        is_white_space(ascii_lower(c)) == is_white_space(c),
        (ascii_lower(c) == '/') == (c == '/'),
        (ascii_lower(c) == '>') == (c == '>'),
        (ascii_lower(c) == '=') == (c == '='),
        is_ascii_alpha(c) ==> 'a' <= ascii_lower(c) && ascii_lower(c) <= 'z',
{
    if 'A' <= c && c <= 'Z' {
        assert(((c as u8) + 32) as char as int == c as int + 32);
    }
}

proof fn lemma_tag_name_push(t: Seq<char>, c: char)
    requires
        tag_name_ok(t),
        !is_white_space(c),
        c != '/',
        c != '>',
    ensures
        tag_name_ok(t.push(ascii_lower(c))),
{
    lemma_lower(c);
    let u = t.push(ascii_lower(c));
    assert forall|i: int| 1 <= i < u.len() implies !is_white_space(#[trigger] u[i]) && u[i]
        != '/' && u[i] != '>' && not_upper(u[i]) by {
        if i < t.len() {
            assert(u[i] == t[i]);
        }
    }
}

proof fn lemma_attr_name_push(n: Seq<char>, c: char)
    requires
        attr_name_ok(n),
        !is_white_space(c),
        c != '=',
        c != '/',
        c != '>',
    ensures
        attr_name_ok(n.push(ascii_lower(c))),
{
    lemma_lower(c);
    let u = n.push(ascii_lower(c));
    assert forall|i: int| 1 <= i < u.len() implies !is_white_space(#[trigger] u[i]) && u[i]
        != '=' && u[i] != '/' && u[i] != '>' && not_upper(u[i]) by {
        if i < n.len() {
            assert(u[i] == n[i]);
        }
    }
}

proof fn lemma_doctype_push(d: Seq<char>, c: char)
    requires
        doctype_ok(d),
        c != '>',
        d.len() == 0 ==> !is_white_space(c),
    ensures
        doctype_ok(d.push(ascii_lower(c))),
{
    lemma_lower(c);
    let u = d.push(ascii_lower(c));
    assert forall|i: int| 0 <= i < u.len() implies #[trigger] u[i] != '>' && not_upper(u[i]) by {
        if i < d.len() {
            assert(u[i] == d[i]);
        }
    }
    if d.len() > 0 {
        assert(u[0] == d[0]);
    }
}

proof fn lemma_text_push(b: Seq<char>, c: char)
    requires
        text_shape(b),
        c != '<',
    ensures
        text_shape(b.push(c)),
{
    let u = b.push(c);
    if forall|i: int| 0 <= i < b.len() ==> #[trigger] b[i] != '<' {
        assert forall|i: int| 0 <= i < u.len() implies #[trigger] u[i] != '<' by {
            if i < b.len() {
                assert(u[i] == b[i]);
            }
        }
    } else {
        assert(u[0] == b[0] && u[1] == b[1]);
        assert forall|i: int| 2 <= i < u.len() implies #[trigger] u[i] != '<' by {
            if i < b.len() {
                assert(u[i] == b[i]);
            }
        }
    }
}

/// Appending `c` makes no `-->` unless `u` ends with `--` and `c` is `>`.
proof fn lemma_comment_push(u: Seq<char>, c: char)
    requires
        comment_ok(u),
        !(u.len() >= 2 && u[u.len() - 2] == '-' && u[u.len() - 1] == '-' && c == '>'),
    ensures
        comment_ok(u.push(c)),
{
    let v = u.push(c);
    assert forall|j: int| 0 <= j && j + 3 <= v.len() implies !(#[trigger] v[j] == '-' && v[j + 1]
        == '-' && v[j + 2] == '>') by {
        if j + 3 <= u.len() {
            assert(v[j] == u[j] && v[j + 1] == u[j + 1] && v[j + 2] == u[j + 2]);
        } else {
            assert(v[j] == u[u.len() - 2] && v[j + 1] == u[u.len() - 1]);
        }
    }
}

proof fn lemma_comment_prefix(u: Seq<char>, k: int)
    requires
        comment_ok(u),
        0 <= k <= u.len(),
    ensures
        comment_ok(u.take(k)),
{
    let v = u.take(k);
    assert forall|j: int| 0 <= j && j + 3 <= v.len() implies !(#[trigger] v[j] == '-' && v[j + 1]
        == '-' && v[j + 2] == '>') by {
        assert(v[j] == u[j] && v[j + 1] == u[j + 1] && v[j + 2] == u[j + 2]);
    }
}

proof fn lemma_committed_names(s: TokState)
    requires
        attr_names_ok(s.attrs),
        s.attr_name.len() > 0 ==> attr_name_ok(s.attr_name),
    ensures
        attr_names_ok(committed(s).attrs),
{
    if s.attr_name.len() > 0 {
        let a = committed(s).attrs;
        assert forall|i: int| 0 <= i < a.len() implies attr_name_ok(#[trigger] a[i].name) by {
            if i < s.attrs.len() {
                assert(a[i] == s.attrs[i]);
            }
        }
    }
}


proof fn lemma_starts(c: char)
    ensures
        !is_white_space(c) && c != '/' && c != '>' ==> attr_name_ok(seq![ascii_lower(c)]),
        is_ascii_alpha(c) ==> tag_name_ok(seq![ascii_lower(c)]),
        !is_white_space(c) && c != '>' ==> doctype_ok(seq![ascii_lower(c)]),
{
    lemma_lower(c);
    let empty: Seq<char> = seq![];
    if !is_white_space(c) && c != '>' {
        lemma_doctype_push(empty, c);
        assert(empty.push(ascii_lower(c)) =~= seq![ascii_lower(c)]);
    }
}

/// The step keeps `shape_inv` and emits tokens of the expected shapes.
pub open spec fn step_keeps_shape(s: TokState, rest: Seq<char>) -> bool {
    &&& shape_inv(spec_step(s, rest).next)
    &&& forall|i: int|
        0 <= i < spec_step(s, rest).emitted.len() ==> token_shape(
            #[trigger] spec_step(s, rest).emitted[i],
        )
}

#[verifier::rlimit(60)]
proof fn lemma_step_shape_tag(s: TokState, rest: Seq<char>)
    requires
        rest.len() > 0,
        shape_inv(s),
        in_tag_state(s.state),
    ensures
        step_keeps_shape(s, rest),
{
    let c = rest[0];
    lemma_lower(c);
    lemma_starts(c);
    if !is_white_space(c) && c != '/' && c != '>' {
        lemma_tag_name_push(s.tag_name, c);
    }
    if in_attr_state(s.state) {
        if !is_white_space(c) && c != '=' && c != '/' && c != '>' {
            lemma_attr_name_push(s.attr_name, c);
        }
    }
    if in_attr_state(s.state) {
        lemma_committed_names(s);
    }
    let empty: Seq<char> = seq![];
    assert(text_shape(empty));
    let no_attrs: Seq<AttributeV> = seq![];
    assert(attr_names_ok(no_attrs));
}

#[verifier::rlimit(60)]
proof fn lemma_step_shape_comment(s: TokState, rest: Seq<char>)
    requires
        rest.len() > 0,
        shape_inv(s),
        s.state == State::CommentStart || s.state == State::Comment || s.state
            == State::CommentEndDash || s.state == State::CommentEnd,
    ensures
        step_keeps_shape(s, rest),
{
    let c = rest[0];
    let b = s.comment;
    let empty: Seq<char> = seq![];
    assert(text_shape(empty));
    let o = spec_step(s, rest);
    if s.state == State::CommentStart {
        assert(b =~= empty);
        assert(comment_ok(empty));
        lemma_comment_push(empty, '-');
        lemma_comment_push(empty, c);
        assert(empty.push(c) =~= seq![c]);
    } else if s.state == State::Comment {
        lemma_comment_push(b, '-');
        lemma_comment_push(b, c);
    } else if s.state == State::CommentEndDash {
        let b1 = b.push('-');
        if c == '-' {
            lemma_comment_push(b1, '-');
            assert(b1.push('-') =~= b + seq!['-', '-']);
        } else {
            lemma_comment_push(b1, c);
            assert(o.next.comment == b1.push(c));
        }
    } else {
        let u = b + seq!['-', '-'];
        if c == '>' {
            lemma_comment_prefix(u, b.len() as int);
            assert(u.take(b.len() as int) =~= b);
        } else if c == '-' {
            lemma_comment_push(u, '-');
            assert(u.push('-') =~= b.push('-') + seq!['-', '-']);
        } else {
            lemma_comment_push(u, c);
            assert(o.next.comment == b.push('-').push('-').push(c));
            assert(b.push('-').push('-') =~= u);
        }
    }
}

#[verifier::rlimit(60)]
proof fn lemma_step_shape_other(s: TokState, rest: Seq<char>)
    requires
        rest.len() > 0,
        shape_inv(s),
        !in_tag_state(s.state),
        !(s.state == State::CommentStart || s.state == State::Comment || s.state
            == State::CommentEndDash || s.state == State::CommentEnd),
    ensures
        step_keeps_shape(s, rest),
{
    let c = rest[0];
    lemma_lower(c);
    lemma_starts(c);
    let empty: Seq<char> = seq![];
    assert(text_shape(empty));
    assert(comment_ok(empty));
    assert(doctype_ok(empty));
    if s.state == State::Data && c != '<' {
        lemma_text_push(s.char_buf, c);
    }
    if s.state == State::TagOpen {
        let two = empty.push('<').push(c);
        assert(two[0] == '<' && two[1] == c);
    }
    if s.state == State::DoctypeName && c != '>' {
        lemma_doctype_push(s.doctype_name, c);
    }
}

proof fn lemma_step_shape(s: TokState, rest: Seq<char>)
    requires
        rest.len() > 0,
        shape_inv(s),
    ensures
        step_keeps_shape(s, rest),
{
    if in_tag_state(s.state) {
        lemma_step_shape_tag(s, rest);
    } else if s.state == State::CommentStart || s.state == State::Comment || s.state
        == State::CommentEndDash || s.state == State::CommentEnd {
        lemma_step_shape_comment(s, rest);
    } else {
        lemma_step_shape_other(s, rest);
    }
}

/// Every token of a run from a state that meets `shape_inv` has the expected
/// shape.
proof fn lemma_run_shapes(s: TokState, rest: Seq<char>)
    requires
        shape_inv(s),
    ensures
        forall|i: int| 0 <= i < spec_run(s, rest).len() ==> token_shape(#[trigger] spec_run(s, rest)[i]),
    decreases rest.len(),
{
    if rest.len() == 0 {
        assert(end_tokens(s) == flush_out(s).push(TokenV::Eof));
    } else {
        let o = spec_step(s, rest);
        lemma_step_shape(s, rest);
        lemma_run_shapes(o.next, rest.skip(o.consumed as int));
        let tail = spec_run(o.next, rest.skip(o.consumed as int));
        assert forall|i: int| 0 <= i < spec_run(s, rest).len() implies token_shape(
            #[trigger] spec_run(s, rest)[i],
        ) by {
            if i < o.emitted.len() {
                assert(spec_run(s, rest)[i] == o.emitted[i]);
            } else {
                assert(spec_run(s, rest)[i] == tail[i - o.emitted.len()]);
            }
        }
    }
}


/// What the tree builder makes of tokens of the expected shapes, at any depth.
pub open spec fn node_shape(n: NodeV) -> bool
    decreases n,
{
    match n {
        NodeV::Text(t) => text_ok(t),
        NodeV::Comment(t) => comment_ok(t),
        NodeV::Element(e) => {
            &&& tag_name_ok(e.tag_name)
            &&& attr_names_ok(e.attrs)
            &&& is_void_name(e.tag_name) ==> e.children.len() == 0
            &&& forall|i: int| 0 <= i < e.children.len() ==> node_shape(#[trigger] e.children[i])
        },
    }
}

pub open spec fn all_shape(s: Seq<NodeV>) -> bool {
    forall|i: int| 0 <= i < s.len() ==> node_shape(#[trigger] s[i])
}

spec fn builder_shape(b: BuilderV) -> bool {
    &&& all_shape(b.document.children)
    &&& b.document.doctype matches Some(name) ==> doctype_ok(name)
    &&& forall|i: int|
        0 <= i < b.stack.len() ==> tag_name_ok((#[trigger] b.stack[i]).tag_name) && attr_names_ok(
            b.stack[i].attrs,
        ) && !is_void_name(b.stack[i].tag_name) && all_shape(b.stack[i].children)
}

proof fn lemma_push_shape(s: Seq<NodeV>, n: NodeV)
    requires
        all_shape(s),
        node_shape(n),
    ensures
        all_shape(s.push(n)),
{
    assert forall|i: int| 0 <= i < s.push(n).len() implies node_shape(#[trigger] s.push(n)[i]) by {
        if i < s.len() {
            assert(s.push(n)[i] == s[i]);
        }
    }
}

proof fn lemma_insert_shape(b: BuilderV, n: NodeV)
    requires
        builder_shape(b),
        node_shape(n),
    ensures
        builder_shape(insert_node(b, n)),
{
    if b.stack.len() > 0 {
        lemma_push_shape(b.stack.last().children, n);
        let nb = insert_node(b, n);
        assert forall|i: int| 0 <= i < nb.stack.len() implies tag_name_ok(
            (#[trigger] nb.stack[i]).tag_name,
        ) && attr_names_ok(nb.stack[i].attrs) && !is_void_name(nb.stack[i].tag_name) && all_shape(
            nb.stack[i].children,
        ) by {
            if i < b.stack.len() - 1 {
                assert(nb.stack[i] == b.stack[i]);
            }
        }
    } else {
        lemma_push_shape(b.document.children, n);
    }
}

proof fn lemma_close_shape(b: BuilderV, depth: nat)
    requires
        builder_shape(b),
    ensures
        builder_shape(close_to(b, depth)),
    decreases b.stack.len(),
{
    if b.stack.len() > depth {
        let top = b.stack.last();
        let popped = BuilderV { stack: b.stack.drop_last(), ..b };
        assert forall|i: int| 0 <= i < popped.stack.len() implies tag_name_ok(
            (#[trigger] popped.stack[i]).tag_name,
        ) && attr_names_ok(popped.stack[i].attrs) && !is_void_name(popped.stack[i].tag_name)
            && all_shape(popped.stack[i].children) by {
            assert(popped.stack[i] == b.stack[i]);
        }
        assert(node_shape(NodeV::Element(top)));
        lemma_insert_shape(popped, NodeV::Element(top));
        lemma_close_shape(insert_node(popped, NodeV::Element(top)), depth);
    }
}

proof fn lemma_process_shape(b: BuilderV, t: TokenV)
    requires
        builder_shape(b),
        token_shape(t),
    ensures
        builder_shape(process(b, t)),
{
    match t {
        TokenV::StartTag { name, attrs, self_closing } => {
            let e = ElementV { tag_name: name, attrs, children: seq![] };
            if self_closing || is_void_name(name) {
                assert(node_shape(NodeV::Element(e)));
                lemma_insert_shape(b, NodeV::Element(e));
            } else {
                let nb = process(b, t);
                assert(all_shape(e.children));
                assert forall|i: int| 0 <= i < nb.stack.len() implies tag_name_ok(
                    (#[trigger] nb.stack[i]).tag_name,
                ) && attr_names_ok(nb.stack[i].attrs) && !is_void_name(nb.stack[i].tag_name)
                    && all_shape(nb.stack[i].children) by {
                    if i < b.stack.len() {
                        assert(nb.stack[i] == b.stack[i]);
                    }
                }
            }
        },
        TokenV::EndTag { name } => {
            match last_index_named(b.stack, name) {
                Some(p) => lemma_close_shape(b, p),
                None => {},
            }
        },
        TokenV::Characters(text) => lemma_insert_shape(b, NodeV::Text(text)),
        TokenV::Comment(text) => lemma_insert_shape(b, NodeV::Comment(text)),
        _ => {},
    }
}

proof fn lemma_build_shape(tokens: Seq<TokenV>)
    requires
        forall|i: int| 0 <= i < tokens.len() ==> token_shape(#[trigger] tokens[i]),
    ensures
        builder_shape(build(tokens)),
    decreases tokens.len(),
{
    if tokens.len() > 0 {
        let init = tokens.drop_last();
        assert forall|i: int| 0 <= i < init.len() implies token_shape(#[trigger] init[i]) by {
            assert(init[i] == tokens[i]);
        }
        lemma_build_shape(init);
        lemma_process_shape(build(init), tokens.last());
    } else {
        let empty: Seq<NodeV> = seq![];
        assert(all_shape(empty));
    }
}

/// No two text nodes of `s` are adjacent.
pub open spec fn texts_apart(s: Seq<NodeV>) -> bool {
    forall|i: int| 0 <= i < s.len() - 1 ==> !(#[trigger] s[i] is Text && s[i + 1] is Text)
}

/// At any depth in `n`, no attribute value holds `"` and no two text nodes
/// are adjacent.
pub open spec fn serializable(n: NodeV) -> bool
    decreases n,
{
    match n {
        NodeV::Element(e) => {
            &&& forall|i: int| 0 <= i < e.attrs.len() ==> value_unquoted(#[trigger] e.attrs[i].value)
            &&& texts_apart(e.children)
            &&& forall|i: int| 0 <= i < e.children.len() ==> serializable(#[trigger] e.children[i])
        },
        _ => true,
    }
}

/// No two top-level text nodes are adjacent, and every node is
/// `serializable`.
pub open spec fn document_serializable(d: DocumentV) -> bool {
    &&& texts_apart(d.children)
    &&& forall|i: int| 0 <= i < d.children.len() ==> serializable(#[trigger] d.children[i])
}

proof fn lemma_node_reads_back(n: NodeV)
    requires
        node_shape(n),
        serializable(n),
    ensures
        node_ok(n),
    decreases n,
{
    match n {
        NodeV::Element(e) => {
            lemma_nodes_read_back(e.children);
        },
        _ => {},
    }
}

proof fn lemma_nodes_read_back(s: Seq<NodeV>)
    requires
        all_shape(s),
        texts_apart(s),
        forall|i: int| 0 <= i < s.len() ==> serializable(#[trigger] s[i]),
    ensures
        nodes_ok(s),
    decreases s,
{
    if s.len() > 0 {
        let init = s.drop_last();
        assert forall|i: int| 0 <= i < init.len() implies node_shape(#[trigger] init[i])
            && serializable(init[i]) by {
            assert(init[i] == s[i]);
        }
        assert forall|i: int| 0 <= i < init.len() - 1 implies !(#[trigger] init[i] is Text
            && init[i + 1] is Text) by {
            assert(init[i] == s[i] && init[i + 1] == s[i + 1]);
        }
        lemma_nodes_read_back(init);
        lemma_node_reads_back(s.last());
        if s.len() >= 2 {
            assert(init.last() == s[s.len() - 2]);
        }
    }
}

/// A parsed document in which no attribute value holds `"` and no two text
/// nodes are adjacent reads back as itself: it is well-formed in the sense
/// of `document_ok`, so parsing its HTML text gives it back.
pub proof fn law_parsed_document_reads_back(input: Seq<char>)
    requires
        document_serializable(parse(input)),
    ensures
        document_ok(parse(input)),
        parse(document_html(parse(input))) == parse(input),
{
    let tokens = tokens_of(input);
    let empty: Seq<char> = seq![];
    let no_attrs: Seq<AttributeV> = seq![];
    assert(text_shape(empty));
    assert(attr_names_ok(no_attrs));
    assert(shape_inv(initial_state()));
    lemma_run_shapes(initial_state(), input);
    lemma_build_shape(tokens);
    lemma_close_shape(build(tokens), 0);
    let d = parse(input);
    lemma_nodes_read_back(d.children);
    law_parse_of_serialization(d);
}

} // verus!
