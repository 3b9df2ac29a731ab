//! Serializing a well-formed document and parsing the text again gives the
//! same document back.

use vstd::prelude::*;

use crate::chars::{ascii_lower, ascii_upper, is_ascii_alpha, is_white_space};
use crate::dom::{
    attr_html, attrs_html, build, close_to, doctype_html, document_html, end_tag_html,
    initial_builder, insert_node, is_void_name, last_index_named, node_html, nodes_html, parse,
    process, start_tag_html, BuilderV, DocumentV, ElementV, NodeV,
};
use crate::token::{AttributeV, TokenV};
use crate::tokenizer::{
    committed, doctype_word, emit_tag, flush_out, flushed, initial_state, spec_run, starts_with_dashes,
    starts_with_doctype, step_char, then_data, tokens_of, State, TokState,
};

verus! {

/// Not an ASCII upper-case letter.
pub open spec fn not_upper(c: char) -> bool {
    !('A' <= c && c <= 'Z')
}

/// A tokenizer state between two nodes: in the data state, with no pending
/// text, no pending attributes and the self-closing flag down.
pub open spec fn clean(s: TokState) -> bool {
    &&& s.state == State::Data
    &&& s.char_buf.len() == 0
    &&& s.attrs.len() == 0
    &&& !s.self_closing
}

/// The input that follows a text node: nothing, or markup.
pub open spec fn follows_text(rest: Seq<char>) -> bool {
    rest.len() == 0 || rest[0] == '<'
}

/// One step on `c` followed by `w`, outside the markup declaration state.
proof fn lemma_one(s: TokState, c: char, w: Seq<char>)
    requires
        s.state != State::MarkupDeclarationOpen,
    ensures
        spec_run(s, seq![c] + w) == step_char(s, c).1 + spec_run(step_char(s, c).0, w),
{
    let rest = seq![c] + w;
    assert(rest[0] == c);
    assert(rest.skip(1) =~= w);
}

/// Reading tag-name characters in the tag-name state appends them to the
/// tag name.
proof fn lemma_run_tag_name(s: TokState, w: Seq<char>, rest: Seq<char>)
    requires
        s.state == State::TagName,
        forall|i: int|
            0 <= i < w.len() ==> !is_white_space(#[trigger] w[i]) && w[i] != '/' && w[i] != '>'
                && not_upper(w[i]),
    ensures
        spec_run(s, w + rest) == spec_run(TokState { tag_name: s.tag_name + w, ..s }, rest),
    decreases w.len(),
{
    if w.len() == 0 {
        assert(w + rest =~= rest);
        assert(s.tag_name + w =~= s.tag_name);
        assert(TokState { tag_name: s.tag_name + w, ..s } == s);
    } else {
        let c = w[0];
        let w1 = w.skip(1);
        assert(w + rest =~= seq![c] + (w1 + rest));
        lemma_one(s, c, w1 + rest);
        let s1 = TokState { tag_name: s.tag_name.push(c), ..s };
        assert(step_char(s, c).0 == s1);
        assert(step_char(s, c).1 =~= Seq::<TokenV>::empty());
        assert(w1 + rest =~= w1 + rest);
        lemma_run_tag_name(s1, w1, rest);
        assert(s1.tag_name + w1 =~= s.tag_name + w);
        assert(spec_run(s, w + rest) =~= spec_run(s1, w1 + rest));
    }
}


/// Reading attribute-name characters in the attribute-name state appends them
/// to the attribute name.
proof fn lemma_run_attr_name(s: TokState, w: Seq<char>, rest: Seq<char>)
    requires
        s.state == State::AttributeName,
        forall|i: int|
            0 <= i < w.len() ==> !is_white_space(#[trigger] w[i]) && w[i] != '=' && w[i] != '/'
                && w[i] != '>' && not_upper(w[i]),
    ensures
        spec_run(s, w + rest) == spec_run(TokState { attr_name: s.attr_name + w, ..s }, rest),
    decreases w.len(),
{
    if w.len() == 0 {
        assert(w + rest =~= rest);
        assert(s.attr_name + w =~= s.attr_name);
        assert(TokState { attr_name: s.attr_name + w, ..s } == s);
    } else {
        let c = w[0];
        let w1 = w.skip(1);
        assert(w + rest =~= seq![c] + (w1 + rest));
        lemma_one(s, c, w1 + rest);
        let s1 = TokState { attr_name: s.attr_name.push(c), ..s };
        assert(step_char(s, c).0 == s1);
        assert(step_char(s, c).1 =~= Seq::<TokenV>::empty());
        lemma_run_attr_name(s1, w1, rest);
        assert(s1.attr_name + w1 =~= s.attr_name + w);
        assert(spec_run(s, w + rest) =~= spec_run(s1, w1 + rest));
    }
}

/// Reading characters other than `"` in a double-quoted attribute value
/// appends them to the value.
proof fn lemma_run_quoted_value(s: TokState, w: Seq<char>, rest: Seq<char>)
    requires
        s.state == State::AttributeValueDoubleQuoted,
        forall|i: int| 0 <= i < w.len() ==> #[trigger] w[i] != '"',
    ensures
        spec_run(s, w + rest) == spec_run(TokState { attr_value: s.attr_value + w, ..s }, rest),
    decreases w.len(),
{
    if w.len() == 0 {
        assert(w + rest =~= rest);
        assert(s.attr_value + w =~= s.attr_value);
        assert(TokState { attr_value: s.attr_value + w, ..s } == s);
    } else {
        let c = w[0];
        let w1 = w.skip(1);
        assert(w + rest =~= seq![c] + (w1 + rest));
        lemma_one(s, c, w1 + rest);
        let s1 = TokState { attr_value: s.attr_value.push(c), ..s };
        assert(step_char(s, c).0 == s1);
        assert(step_char(s, c).1 =~= Seq::<TokenV>::empty());
        lemma_run_quoted_value(s1, w1, rest);
        assert(s1.attr_value + w1 =~= s.attr_value + w);
        assert(spec_run(s, w + rest) =~= spec_run(s1, w1 + rest));
    }
}

/// Reading DOCTYPE-name characters appends them to the DOCTYPE name.
proof fn lemma_run_doctype_name(s: TokState, w: Seq<char>, rest: Seq<char>)
    requires
        s.state == State::DoctypeName,
        forall|i: int| 0 <= i < w.len() ==> #[trigger] w[i] != '>' && not_upper(w[i]),
    ensures
        spec_run(s, w + rest) == spec_run(
            TokState { doctype_name: s.doctype_name + w, ..s },
            rest,
        ),
    decreases w.len(),
{
    if w.len() == 0 {
        assert(w + rest =~= rest);
        assert(s.doctype_name + w =~= s.doctype_name);
        assert(TokState { doctype_name: s.doctype_name + w, ..s } == s);
    } else {
        let c = w[0];
        let w1 = w.skip(1);
        assert(w + rest =~= seq![c] + (w1 + rest));
        lemma_one(s, c, w1 + rest);
        let s1 = TokState { doctype_name: s.doctype_name.push(c), ..s };
        assert(step_char(s, c).0 == s1);
        assert(step_char(s, c).1 =~= Seq::<TokenV>::empty());
        lemma_run_doctype_name(s1, w1, rest);
        assert(s1.doctype_name + w1 =~= s.doctype_name + w);
        assert(spec_run(s, w + rest) =~= spec_run(s1, w1 + rest));
    }
}

/// Reading characters other than `<` in the data state appends them to the
/// pending text.
proof fn lemma_run_data(s: TokState, w: Seq<char>, rest: Seq<char>)
    requires
        s.state == State::Data,
        forall|i: int| 0 <= i < w.len() ==> #[trigger] w[i] != '<',
    ensures
        spec_run(s, w + rest) == spec_run(TokState { char_buf: s.char_buf + w, ..s }, rest),
    decreases w.len(),
{
    if w.len() == 0 {
        assert(w + rest =~= rest);
        assert(s.char_buf + w =~= s.char_buf);
        assert(TokState { char_buf: s.char_buf + w, ..s } == s);
    } else {
        let c = w[0];
        let w1 = w.skip(1);
        assert(w + rest =~= seq![c] + (w1 + rest));
        lemma_one(s, c, w1 + rest);
        let s1 = TokState { char_buf: s.char_buf.push(c), ..s };
        assert(step_char(s, c).0 == s1);
        assert(step_char(s, c).1 =~= Seq::<TokenV>::empty());
        lemma_run_data(s1, w1, rest);
        assert(s1.char_buf + w1 =~= s.char_buf + w);
        assert(spec_run(s, w + rest) =~= spec_run(s1, w1 + rest));
    }
}

/// In the data state, before markup or at the end of the input, the pending
/// text can be taken to be emitted at once.
proof fn lemma_flush_before_markup(s: TokState, rest: Seq<char>)
    requires
        s.state == State::Data,
        follows_text(rest),
    ensures
        spec_run(s, rest) == flush_out(s) + spec_run(flushed(s), rest),
{
    if rest.len() == 0 {
        assert(flush_out(flushed(s)) =~= Seq::<TokenV>::empty());
        assert(spec_run(s, rest) =~= flush_out(s) + spec_run(flushed(s), rest));
    } else {
        let w = rest.skip(1);
        assert(rest =~= seq!['<'] + w);
        lemma_one(s, '<', w);
        lemma_one(flushed(s), '<', w);
        assert(flushed(flushed(s)) == flushed(s));
        assert(flush_out(flushed(s)) =~= Seq::<TokenV>::empty());
        assert(spec_run(flushed(s), rest) =~= spec_run(
            TokState { state: State::TagOpen, ..flushed(s) },
            w,
        ));
    }
}


/// `t` holds no `-->`.
pub open spec fn comment_ok(t: Seq<char>) -> bool {
    forall|j: int|
        0 <= j && j + 3 <= t.len() ==> !(#[trigger] t[j] == '-' && t[j + 1] == '-' && t[j + 2]
            == '>')
}

spec fn arrow() -> Seq<char> {
    seq!['-', '-', '>']
}

/// The dashes that the comment states hold back: none in the comment state,
/// one after a dash, two after two dashes.
spec fn held_dashes(st: State) -> Seq<char> {
    if st == State::CommentEndDash {
        seq!['-']
    } else if st == State::CommentEnd {
        seq!['-', '-']
    } else {
        seq![]
    }
}

spec fn in_comment(st: State) -> bool {
    st == State::Comment || st == State::CommentEndDash || st == State::CommentEnd
}

proof fn lemma_comment_ok_skip(u: Seq<char>, k: int)
    requires
        comment_ok(u),
        0 <= k <= u.len(),
    ensures
        comment_ok(u.skip(k)),
{
    let v = u.skip(k);
    assert forall|j: int| 0 <= j && j + 3 <= v.len() implies !(#[trigger] v[j] == '-' && v[j + 1]
        == '-' && v[j + 2] == '>') by {
        assert(v[j] == u[j + k]);
        assert(v[j + 1] == u[j + k + 1]);
        assert(v[j + 2] == u[j + k + 2]);
    }
}

/// In a comment state, the rest of the comment text `w` and the closing
/// `-->` make one `Comment` token holding the text read so far, the dashes
/// held back and `w`.
#[verifier::rlimit(40)]
proof fn lemma_run_comment_body(s: TokState, w: Seq<char>, rest: Seq<char>)
    requires
        in_comment(s.state),
        comment_ok(held_dashes(s.state) + w),
    ensures
        spec_run(s, w + arrow() + rest) == seq![
            TokenV::Comment(s.comment + held_dashes(s.state) + w),
        ] + spec_run(TokState { state: State::Data, comment: seq![], ..s }, rest),
    decreases w.len(),
{
    let done = TokState { state: State::Data, comment: seq![], ..s };
    if w.len() == 0 {
        let r2 = seq!['>'] + rest;
        let r1 = seq!['-'] + r2;
        assert(w + arrow() + rest =~= seq!['-'] + r1);
        assert(s.comment + held_dashes(s.state) + w =~= s.comment + held_dashes(s.state));
        if s.state == State::Comment {
            lemma_one(s, '-', r1);
            let s1 = TokState { state: State::CommentEndDash, ..s };
            lemma_one(s1, '-', r2);
            let s2 = TokState { state: State::CommentEnd, ..s };
            lemma_one(s2, '>', rest);
            assert(s.comment + held_dashes(s.state) =~= s.comment);
            assert(spec_run(s, w + arrow() + rest) =~= seq![
                TokenV::Comment(s.comment + held_dashes(s.state) + w),
            ] + spec_run(done, rest));
        } else if s.state == State::CommentEndDash {
            lemma_one(s, '-', r1);
            let s1 = TokState { state: State::CommentEnd, ..s };
            lemma_one(s1, '-', r2);
            let s2 = TokState { state: State::CommentEnd, comment: s.comment.push('-'), ..s };
            lemma_one(s2, '>', rest);
            assert(s.comment.push('-') =~= s.comment + held_dashes(s.state));
            assert(spec_run(s, w + arrow() + rest) =~= seq![
                TokenV::Comment(s.comment + held_dashes(s.state) + w),
            ] + spec_run(done, rest));
        } else {
            lemma_one(s, '-', r1);
            let s1 = TokState { comment: s.comment.push('-'), ..s };
            lemma_one(s1, '-', r2);
            let s2 = TokState { comment: s.comment.push('-').push('-'), ..s };
            lemma_one(s2, '>', rest);
            assert(s.comment.push('-').push('-') =~= s.comment + held_dashes(s.state));
            assert(spec_run(s, w + arrow() + rest) =~= seq![
                TokenV::Comment(s.comment + held_dashes(s.state) + w),
            ] + spec_run(done, rest));
        }
    } else {
        let c = w[0];
        let w1 = w.skip(1);
        let u = held_dashes(s.state) + w;
        assert(w + arrow() + rest =~= seq![c] + (w1 + arrow() + rest));
        lemma_one(s, c, w1 + arrow() + rest);
        let next = step_char(s, c).0;
        if s.state == State::CommentEnd {
            assert(u[0] == '-' && u[1] == '-' && u[2] == c);
            assert(!(u[0] == '-' && u[1] == '-' && u[2] == '>'));
        }
        assert(step_char(s, c).1 =~= Seq::<TokenV>::empty());
        if s.state == State::Comment {
            if c == '-' {
                assert(held_dashes(next.state) + w1 =~= u);
                assert(next.comment == s.comment);
            } else {
                assert(held_dashes(next.state) + w1 =~= u.skip(1));
                lemma_comment_ok_skip(u, 1);
                assert(next.comment + held_dashes(next.state) + w1 =~= s.comment + u);
            }
        } else if s.state == State::CommentEndDash {
            if c == '-' {
                assert(held_dashes(next.state) + w1 =~= u);
                assert(next.comment + held_dashes(next.state) + w1 =~= s.comment + u);
            } else {
                assert(held_dashes(next.state) + w1 =~= u.skip(2));
                lemma_comment_ok_skip(u, 2);
                assert(next.comment + held_dashes(next.state) + w1 =~= s.comment + u);
            }
        } else {
            assert(u[0] == '-' && u[1] == '-' && u[2] == c);
            if c == '-' {
                assert(held_dashes(next.state) + w1 =~= u.skip(1));
                lemma_comment_ok_skip(u, 1);
                assert(next.comment + held_dashes(next.state) + w1 =~= s.comment + u);
            } else {
                assert(c != '>');
                assert(held_dashes(next.state) + w1 =~= u.skip(3));
                lemma_comment_ok_skip(u, 3);
                assert(next.comment + held_dashes(next.state) + w1 =~= s.comment + u);
            }
        }
        lemma_run_comment_body(next, w1, rest);
        assert(TokState { state: State::Data, comment: seq![], ..next } == done);
        assert(s.comment + held_dashes(s.state) + w =~= s.comment + u);
        assert(next.comment + held_dashes(next.state) + w1 == s.comment + held_dashes(s.state) + w);
        assert(spec_run(s, w + arrow() + rest) =~= seq![
            TokenV::Comment(s.comment + held_dashes(s.state) + w),
        ] + spec_run(done, rest));
    }
}


/// A tag name that reads back as itself: an ASCII lower-case letter, then
/// characters that are neither white space, `/`, `>` nor ASCII upper-case.
pub open spec fn tag_name_ok(n: Seq<char>) -> bool {
    &&& n.len() > 0
    &&& 'a' <= n[0] && n[0] <= 'z'
    &&& forall|i: int|
        1 <= i < n.len() ==> !is_white_space(#[trigger] n[i]) && n[i] != '/' && n[i] != '>'
            && not_upper(n[i])
}

/// An attribute name that reads back as itself: not empty, with no white
/// space, `/`, `>` or ASCII upper-case letter, and no `=` after its first
/// character.
pub open spec fn attr_name_ok(n: Seq<char>) -> bool {
    &&& n.len() > 0
    &&& !is_white_space(n[0]) && n[0] != '/' && n[0] != '>' && not_upper(n[0])
    &&& forall|i: int|
        1 <= i < n.len() ==> !is_white_space(#[trigger] n[i]) && n[i] != '=' && n[i] != '/'
            && n[i] != '>' && not_upper(n[i])
}

/// `v` holds no `"`.
pub open spec fn value_unquoted(v: Seq<char>) -> bool {
    forall|i: int| 0 <= i < v.len() ==> #[trigger] v[i] != '"'
}

/// An attribute that reads back as itself: its name does (see
/// `attr_name_ok`), and its value holds no `"`.
pub open spec fn attr_ok(a: AttributeV) -> bool {
    &&& attr_name_ok(a.name)
    &&& value_unquoted(a.value)
}

pub open spec fn attrs_ok(attrs: Seq<AttributeV>) -> bool {
    forall|i: int| 0 <= i < attrs.len() ==> attr_ok(#[trigger] attrs[i])
}

/// The state inside a start tag after its name and some of its attributes:
/// the attribute being read, if any, counts as read.
spec fn effective(s: TokState) -> TokState {
    if s.state == State::AttributeName {
        committed(s)
    } else {
        s
    }
}

spec fn ready(s: TokState, name: Seq<char>, done: Seq<AttributeV>) -> bool {
    &&& s.state == State::TagName || s.state == State::AfterAttributeValueQuoted || (s.state
        == State::AttributeName && s.attr_name.len() > 0)
    &&& s.tag_name == name
    &&& effective(s).attrs == done
    &&& !s.is_end
    &&& !s.self_closing
    &&& s.char_buf.len() == 0
}

/// One attribute inside a start tag.
#[verifier::rlimit(40)]
proof fn lemma_run_attr(s: TokState, name: Seq<char>, done: Seq<AttributeV>, a: AttributeV, rest: Seq<char>) -> (s2: TokState)
    requires
        ready(s, name, done),
        attr_ok(a),
    ensures
        ready(s2, name, done.push(a)),
        spec_run(s, attr_html(a) + rest) == spec_run(s2, rest),
{
    let n0 = a.name[0];
    let nrest = a.name.skip(1);
    let tail = if a.value.len() == 0 {
        rest
    } else {
        seq!['=', '"'] + a.value + seq!['"'] + rest
    };
    assert(attr_html(a) + rest =~= seq![' '] + (seq![n0] + (nrest + tail)));
    lemma_one(s, ' ', seq![n0] + (nrest + tail));
    let s1 = TokState { state: State::BeforeAttributeName, ..effective(s) };
    assert(step_char(s, ' ').0 == s1);
    assert(step_char(s, ' ').1 =~= Seq::<TokenV>::empty());
    lemma_one(s1, n0, nrest + tail);
    let s2 = TokState {
        state: State::AttributeName,
        attr_name: seq![n0],
        attr_value: seq![],
        ..s1
    };
    assert(step_char(s1, n0).0 == s2);
    assert(step_char(s1, n0).1 =~= Seq::<TokenV>::empty());
    assert forall|i: int| 0 <= i < nrest.len() implies !is_white_space(#[trigger] nrest[i])
        && nrest[i] != '=' && nrest[i] != '/' && nrest[i] != '>' && not_upper(nrest[i]) by {
        assert(nrest[i] == a.name[i + 1]);
    }
    lemma_run_attr_name(s2, nrest, tail);
    let s3 = TokState { attr_name: seq![n0] + nrest, ..s2 };
    assert(seq![n0] + nrest =~= a.name);
    assert(spec_run(s, attr_html(a) + rest) =~= spec_run(s3, tail));
    if a.value.len() == 0 {
        assert(a.value =~= Seq::<char>::empty());
        assert(ready(s3, name, done.push(a)));
        s3
    } else {
        let v = a.value;
        let t2 = seq!['"'] + (v + (seq!['"'] + rest));
        assert(tail =~= seq!['='] + t2);
        lemma_one(s3, '=', t2);
        let s4 = TokState { state: State::BeforeAttributeValue, ..s3 };
        assert(step_char(s3, '=').1 =~= Seq::<TokenV>::empty());
        lemma_one(s4, '"', v + (seq!['"'] + rest));
        let s5 = TokState { state: State::AttributeValueDoubleQuoted, ..s3 };
        assert(step_char(s4, '"').0 == s5);
        assert(step_char(s4, '"').1 =~= Seq::<TokenV>::empty());
        lemma_run_quoted_value(s5, v, seq!['"'] + rest);
        let s6 = TokState { attr_value: s5.attr_value + v, ..s5 };
        assert(s5.attr_value + v =~= v);
        lemma_one(s6, '"', rest);
        let s7 = TokState { state: State::AfterAttributeValueQuoted, ..committed(s6) };
        assert(step_char(s6, '"').0 == s7);
        assert(step_char(s6, '"').1 =~= Seq::<TokenV>::empty());
        assert(s7.attrs =~= done.push(a));
        assert(ready(s7, name, done.push(a)));
        s7
    }
}

proof fn lemma_run_attrs(s: TokState, name: Seq<char>, done: Seq<AttributeV>, attrs: Seq<AttributeV>, rest: Seq<char>) -> (s2: TokState)
    requires
        ready(s, name, done),
        attrs_ok(attrs),
    ensures
        ready(s2, name, done + attrs),
        spec_run(s, attrs_html(attrs) + rest) == spec_run(s2, rest),
    decreases attrs.len(),
{
    if attrs.len() == 0 {
        assert(attrs_html(attrs) + rest =~= rest);
        assert(done + attrs =~= done);
        s
    } else {
        let init = attrs.drop_last();
        let a = attrs.last();
        assert(attrs_ok(init)) by {
            assert forall|i: int| 0 <= i < init.len() implies attr_ok(#[trigger] init[i]) by {
                assert(init[i] == attrs[i]);
            }
        }
        assert(attrs_html(attrs) + rest =~= attrs_html(init) + (attr_html(a) + rest));
        let s1 = lemma_run_attrs(s, name, done, init, attr_html(a) + rest);
        let s2 = lemma_run_attr(s1, name, done + init, a, rest);
        assert((done + init).push(a) =~= done + attrs);
        s2
    }
}

/// A start tag, read from a clean state.
#[verifier::rlimit(40)]
proof fn lemma_run_start_tag(s: TokState, e: ElementV, rest: Seq<char>) -> (s2: TokState)
    requires
        clean(s),
        tag_name_ok(e.tag_name),
        attrs_ok(e.attrs),
    ensures
        clean(s2),
        spec_run(s, start_tag_html(e) + rest) == seq![
            TokenV::StartTag { name: e.tag_name, attrs: e.attrs, self_closing: false },
        ] + spec_run(s2, rest),
{
    let name = e.tag_name;
    let n0 = name[0];
    let nrest = name.skip(1);
    let after_name = attrs_html(e.attrs) + (seq!['>'] + rest);
    assert(start_tag_html(e) + rest =~= seq!['<'] + (seq![n0] + (nrest + after_name)));
    lemma_one(s, '<', seq![n0] + (nrest + after_name));
    let s1 = TokState { state: State::TagOpen, ..flushed(s) };
    assert(step_char(s, '<').0 == s1);
    assert(step_char(s, '<').1 =~= Seq::<TokenV>::empty());
    lemma_one(s1, n0, nrest + after_name);
    let s2 = TokState { state: State::TagName, is_end: false, tag_name: seq![n0], ..s1 };
    assert(step_char(s1, n0).0 == s2);
    assert(step_char(s1, n0).1 =~= Seq::<TokenV>::empty());
    assert forall|i: int| 0 <= i < nrest.len() implies !is_white_space(#[trigger] nrest[i])
        && nrest[i] != '/' && nrest[i] != '>' && not_upper(nrest[i]) by {
        assert(nrest[i] == name[i + 1]);
    }
    lemma_run_tag_name(s2, nrest, after_name);
    let s3 = TokState { tag_name: seq![n0] + nrest, ..s2 };
    assert(seq![n0] + nrest =~= name);
    let no_attrs: Seq<AttributeV> = seq![];
    assert(s3.attrs =~= no_attrs);
    assert(ready(s3, name, no_attrs));
    let s4 = lemma_run_attrs(s3, name, no_attrs, e.attrs, seq!['>'] + rest);
    assert(no_attrs + e.attrs =~= e.attrs);
    lemma_one(s4, '>', rest);
    let (s5, out) = then_data(emit_tag(effective(s4)));
    assert(step_char(s4, '>') == then_data(emit_tag(effective(s4))));
    assert(out =~= seq![
        TokenV::StartTag { name: e.tag_name, attrs: e.attrs, self_closing: false },
    ]);
    assert(clean(s5));
    s5
}

/// An end tag, read from a clean state.
proof fn lemma_run_end_tag(s: TokState, name: Seq<char>, rest: Seq<char>) -> (s2: TokState)
    requires
        clean(s),
        tag_name_ok(name),
    ensures
        clean(s2),
        spec_run(s, end_tag_html(name) + rest) == seq![TokenV::EndTag { name }] + spec_run(s2, rest),
{
    let n0 = name[0];
    let nrest = name.skip(1);
    let after_name = seq!['>'] + rest;
    assert(end_tag_html(name) + rest =~= seq!['<'] + (seq!['/'] + (seq![n0] + (nrest + after_name))));
    lemma_one(s, '<', seq!['/'] + (seq![n0] + (nrest + after_name)));
    let s1 = TokState { state: State::TagOpen, ..flushed(s) };
    assert(step_char(s, '<').0 == s1);
    assert(step_char(s, '<').1 =~= Seq::<TokenV>::empty());
    lemma_one(s1, '/', seq![n0] + (nrest + after_name));
    let s1b = TokState { state: State::EndTagOpen, ..s1 };
    assert(step_char(s1, '/').1 =~= Seq::<TokenV>::empty());
    lemma_one(s1b, n0, nrest + after_name);
    let s2 = TokState { state: State::TagName, is_end: true, tag_name: seq![n0], ..s1b };
    assert(step_char(s1b, n0).0 == s2);
    assert(step_char(s1b, n0).1 =~= Seq::<TokenV>::empty());
    assert forall|i: int| 0 <= i < nrest.len() implies !is_white_space(#[trigger] nrest[i])
        && nrest[i] != '/' && nrest[i] != '>' && not_upper(nrest[i]) by {
        assert(nrest[i] == name[i + 1]);
    }
    lemma_run_tag_name(s2, nrest, after_name);
    let s3 = TokState { tag_name: seq![n0] + nrest, ..s2 };
    assert(seq![n0] + nrest =~= name);
    lemma_one(s3, '>', rest);
    let (s4, out) = then_data(emit_tag(s3));
    assert(out =~= seq![TokenV::EndTag { name }]);
    assert(clean(s4));
    s4
}


/// A text node that reads back as itself: not empty, and either free of `<`
/// or made of `<`, a character that opens no markup (not `/`, `!` or an ASCII
/// letter), and then no `<`.
pub open spec fn text_ok(t: Seq<char>) -> bool {
    &&& t.len() > 0
    &&& text_shape(t)
}

/// Free of `<`, or made of `<`, a character that opens no markup (not `/`,
/// `!` or an ASCII letter), and then no `<`.
pub open spec fn text_shape(t: Seq<char>) -> bool {
    ||| forall|i: int| 0 <= i < t.len() ==> #[trigger] t[i] != '<'
    ||| {
        &&& t.len() >= 2
        &&& t[0] == '<'
        &&& t[1] != '/' && t[1] != '!' && !is_ascii_alpha(t[1])
        &&& forall|i: int| 2 <= i < t.len() ==> #[trigger] t[i] != '<'
    }
}

/// A DOCTYPE name that reads back as itself: no `>`, no ASCII upper-case
/// letter, and no white space at its start.
pub open spec fn doctype_ok(n: Seq<char>) -> bool {
    &&& forall|i: int| 0 <= i < n.len() ==> #[trigger] n[i] != '>' && not_upper(n[i])
    &&& n.len() > 0 ==> !is_white_space(n[0])
}

/// A node that reads back as itself (see `text_ok`, `comment_ok`,
/// `tag_name_ok`, `attr_ok`); a void element has no children.
pub open spec fn node_ok(n: NodeV) -> bool
    decreases n,
{
    match n {
        NodeV::Text(t) => text_ok(t),
        NodeV::Comment(t) => comment_ok(t),
        NodeV::Element(e) => {
            &&& tag_name_ok(e.tag_name)
            &&& attrs_ok(e.attrs)
            &&& is_void_name(e.tag_name) ==> e.children.len() == 0
            &&& nodes_ok(e.children)
        },
    }
}

/// Every node reads back as itself, and no two text nodes are adjacent
/// (their texts would read back as one).
pub open spec fn nodes_ok(s: Seq<NodeV>) -> bool
    decreases s,
{
    if s.len() == 0 {
        true
    } else {
        &&& nodes_ok(s.drop_last())
        &&& node_ok(s.last())
        &&& s.len() >= 2 && s.last() is Text ==> !(s.drop_last().last() is Text)
    }
}

/// The tokens that the text of a node reads as.
pub open spec fn node_tokens(n: NodeV) -> Seq<TokenV>
    decreases n,
{
    match n {
        NodeV::Text(t) => seq![TokenV::Characters(t)],
        NodeV::Comment(t) => seq![TokenV::Comment(t)],
        NodeV::Element(e) => {
            let start = seq![
                TokenV::StartTag { name: e.tag_name, attrs: e.attrs, self_closing: false },
            ];
            if is_void_name(e.tag_name) {
                start
            } else {
                start + nodes_tokens(e.children) + seq![TokenV::EndTag { name: e.tag_name }]
            }
        },
    }
}

pub open spec fn nodes_tokens(s: Seq<NodeV>) -> Seq<TokenV>
    decreases s,
{
    if s.len() == 0 {
        seq![]
    } else {
        nodes_tokens(s.drop_last()) + node_tokens(s.last())
    }
}

/// A text node, read from a clean state before markup or the end.
proof fn lemma_run_text_node(s: TokState, t: Seq<char>, rest: Seq<char>)
    requires
        clean(s),
        text_ok(t),
        follows_text(rest),
    ensures
        spec_run(s, t + rest) == seq![TokenV::Characters(t)] + spec_run(s, rest),
{
    let with_text = TokState { char_buf: t, ..s };
    if forall|i: int| 0 <= i < t.len() ==> #[trigger] t[i] != '<' {
        lemma_run_data(s, t, rest);
        assert(s.char_buf + t =~= t);
    } else {
        let c = t[1];
        let w = t.skip(2);
        assert(t + rest =~= seq!['<'] + (seq![c] + (w + rest)));
        lemma_one(s, '<', seq![c] + (w + rest));
        let s1 = TokState { state: State::TagOpen, ..flushed(s) };
        assert(step_char(s, '<').0 == s1);
        assert(step_char(s, '<').1 =~= Seq::<TokenV>::empty());
        lemma_one(s1, c, w + rest);
        let s2 = TokState { state: State::Data, char_buf: s1.char_buf.push('<').push(c), ..s1 };
        assert(step_char(s1, c).0 == s2);
        assert(step_char(s1, c).1 =~= Seq::<TokenV>::empty());
        assert forall|i: int| 0 <= i < w.len() implies #[trigger] w[i] != '<' by {
            assert(w[i] == t[i + 2]);
        }
        lemma_run_data(s2, w, rest);
        assert(s2.char_buf + w =~= t);
        assert(TokState { char_buf: s2.char_buf + w, ..s2 } == with_text);
    }
    lemma_flush_before_markup(with_text, rest);
    assert(flushed(with_text) == s);
}

/// In the markup declaration state before `--`.
proof fn lemma_run_comment_open(s: TokState, rest: Seq<char>)
    requires
        s.state == State::MarkupDeclarationOpen,
        starts_with_dashes(rest),
    ensures
        spec_run(s, rest) == spec_run(
            TokState { state: State::CommentStart, comment: seq![], ..s },
            rest.skip(2),
        ),
{
}

/// A comment node, read from a clean state.
proof fn lemma_run_comment_node(s: TokState, t: Seq<char>, rest: Seq<char>) -> (s2: TokState)
    requires
        clean(s),
        comment_ok(t),
    ensures
        clean(s2),
        spec_run(s, node_html(NodeV::Comment(t)) + rest) == seq![TokenV::Comment(t)] + spec_run(
            s2,
            rest,
        ),
{
    let body = t + arrow() + rest;
    let dashes = seq!['-', '-'] + body;
    assert(node_html(NodeV::Comment(t)) + rest =~= seq!['<'] + (seq!['!'] + dashes));
    lemma_one(s, '<', seq!['!'] + dashes);
    let s1 = TokState { state: State::TagOpen, ..flushed(s) };
    assert(step_char(s, '<').0 == s1);
    assert(step_char(s, '<').1 =~= Seq::<TokenV>::empty());
    lemma_one(s1, '!', dashes);
    let s2 = TokState { state: State::MarkupDeclarationOpen, ..s1 };
    assert(step_char(s1, '!').1 =~= Seq::<TokenV>::empty());
    lemma_run_comment_open(s2, dashes);
    assert(dashes.skip(2) =~= body);
    let s3 = TokState { state: State::CommentStart, comment: seq![], ..s2 };
    let s4 = TokState { state: State::Comment, ..s3 };
    let c = body[0];
    assert(body =~= seq![c] + body.skip(1));
    lemma_one(s3, c, body.skip(1));
    lemma_one(s4, c, body.skip(1));
    assert(held_dashes(s4.state) + t =~= t);
    lemma_run_comment_body(s4, t, rest);
    assert(s4.comment + held_dashes(s4.state) + t =~= t);
    let done = TokState { state: State::Data, comment: seq![], ..s4 };
    assert(clean(done));
    done
}

/// A DOCTYPE, read from a clean state.
#[verifier::rlimit(40)]
proof fn lemma_run_doctype(s: TokState, name: Seq<char>, rest: Seq<char>) -> (s2: TokState)
    requires
        clean(s),
        doctype_ok(name),
    ensures
        clean(s2),
        spec_run(s, doctype_html(name) + rest) == seq![TokenV::Doctype { name }] + spec_run(
            s2,
            rest,
        ),
{
    let after_word = seq![' '] + (name + (seq!['>'] + rest));
    let word = seq!['D', 'O', 'C', 'T', 'Y', 'P', 'E'] + after_word;
    assert(doctype_html(name) + rest =~= seq!['<'] + (seq!['!'] + word));
    lemma_one(s, '<', seq!['!'] + word);
    let s1 = TokState { state: State::TagOpen, ..flushed(s) };
    assert(step_char(s, '<').0 == s1);
    assert(step_char(s, '<').1 =~= Seq::<TokenV>::empty());
    lemma_one(s1, '!', word);
    let s2 = TokState { state: State::MarkupDeclarationOpen, ..s1 };
    assert(step_char(s1, '!').1 =~= Seq::<TokenV>::empty());
    assert(!starts_with_dashes(word));
    assert(starts_with_doctype(word)) by {
        assert forall|i: int| 0 <= i < 7 implies ascii_upper(#[trigger] word[i]) == doctype_word()[i] by {
            assert(word[i] == doctype_word()[i]);
        }
    }
    let s3 = TokState { state: State::Doctype, doctype_name: seq![], ..s2 };
    assert(word.skip(7) =~= after_word);
    assert(spec_run(s2, word) == spec_run(s3, after_word));
    lemma_one(s3, ' ', name + (seq!['>'] + rest));
    let s4 = TokState { state: State::BeforeDoctypeName, ..s3 };
    assert(step_char(s3, ' ').1 =~= Seq::<TokenV>::empty());
    let s6 = if name.len() == 0 {
        assert(name + (seq!['>'] + rest) =~= seq!['>'] + rest);
        s4
    } else {
        let n0 = name[0];
        let nrest = name.skip(1);
        assert(name + (seq!['>'] + rest) =~= seq![n0] + (nrest + (seq!['>'] + rest)));
        lemma_one(s4, n0, nrest + (seq!['>'] + rest));
        let s5 = TokState { state: State::DoctypeName, doctype_name: seq![n0], ..s4 };
        assert(step_char(s4, n0).0 == s5);
        assert(step_char(s4, n0).1 =~= Seq::<TokenV>::empty());
        assert forall|i: int| 0 <= i < nrest.len() implies #[trigger] nrest[i] != '>' && not_upper(nrest[i]) by {
            assert(nrest[i] == name[i + 1]);
        }
        lemma_run_doctype_name(s5, nrest, seq!['>'] + rest);
        assert(seq![n0] + nrest =~= name);
        TokState { doctype_name: name, ..s5 }
    };
    assert(spec_run(s, doctype_html(name) + rest) == spec_run(s6, seq!['>'] + rest));
    assert(s6.doctype_name =~= name);
    lemma_one(s6, '>', rest);
    let done = TokState { state: State::Data, doctype_name: seq![], ..s6 };
    assert(step_char(s6, '>').0 == done);
    assert(step_char(s6, '>').1 =~= seq![TokenV::Doctype { name }]);
    assert(clean(done));
    done
}


proof fn lemma_html_starts_with_lt(n: NodeV)
    requires
        !(n is Text),
    ensures
        node_html(n).len() > 0,
        node_html(n)[0] == '<',
{
    match n {
        NodeV::Element(e) => {
            assert(start_tag_html(e)[0] == '<');
        },
        _ => {},
    }
}

/// A well-formed node, read from a clean state, gives its tokens and leaves
/// a clean state.
proof fn lemma_run_node(s: TokState, n: NodeV, rest: Seq<char>) -> (s2: TokState)
    requires
        clean(s),
        node_ok(n),
        n is Text ==> follows_text(rest),
    ensures
        clean(s2),
        spec_run(s, node_html(n) + rest) == node_tokens(n) + spec_run(s2, rest),
    decreases n,
{
    match n {
        NodeV::Text(t) => {
            lemma_run_text_node(s, t, rest);
            s
        },
        NodeV::Comment(t) => lemma_run_comment_node(s, t, rest),
        NodeV::Element(e) => {
            let start = seq![
                TokenV::StartTag { name: e.tag_name, attrs: e.attrs, self_closing: false },
            ];
            if is_void_name(e.tag_name) {
                lemma_run_start_tag(s, e, rest)
            } else {
                let end = end_tag_html(e.tag_name);
                assert(node_html(n) + rest =~= start_tag_html(e) + (nodes_html(e.children) + (end
                    + rest)));
                let s1 = lemma_run_start_tag(s, e, nodes_html(e.children) + (end + rest));
                assert(end[0] == '<');
                assert(follows_text(end + rest));
                let s2 = lemma_run_nodes(s1, e.children, end + rest);
                let s3 = lemma_run_end_tag(s2, e.tag_name, rest);
                assert(node_tokens(n) =~= start + nodes_tokens(e.children) + seq![
                    TokenV::EndTag { name: e.tag_name },
                ]);
                assert(spec_run(s, node_html(n) + rest) =~= node_tokens(n) + spec_run(s3, rest));
                s3
            }
        },
    }
}

/// A well-formed node list, read from a clean state, gives the tokens of its
/// nodes in order and leaves a clean state.
proof fn lemma_run_nodes(s: TokState, list: Seq<NodeV>, rest: Seq<char>) -> (s2: TokState)
    requires
        clean(s),
        nodes_ok(list),
        list.len() > 0 && list.last() is Text ==> follows_text(rest),
    ensures
        clean(s2),
        spec_run(s, nodes_html(list) + rest) == nodes_tokens(list) + spec_run(s2, rest),
    decreases list,
{
    if list.len() == 0 {
        assert(nodes_html(list) + rest =~= rest);
        assert(nodes_tokens(list) + spec_run(s, rest) =~= spec_run(s, rest));
        s
    } else {
        let init = list.drop_last();
        let last = list.last();
        let mid = node_html(last) + rest;
        if init.len() > 0 && init.last() is Text {
            assert(!(last is Text));
            lemma_html_starts_with_lt(last);
            assert(mid[0] == '<');
        }
        assert(nodes_html(list) + rest =~= nodes_html(init) + mid);
        let s1 = lemma_run_nodes(s, init, mid);
        let s2 = lemma_run_node(s1, last, rest);
        assert(spec_run(s, nodes_html(list) + rest) =~= nodes_tokens(list) + spec_run(s2, rest));
        s2
    }
}


/// The builder state after `tokens`, from `b`.
spec fn build_from(b: BuilderV, tokens: Seq<TokenV>) -> BuilderV
    decreases tokens.len(),
{
    if tokens.len() == 0 {
        b
    } else {
        process(build_from(b, tokens.drop_last()), tokens.last())
    }
}

proof fn lemma_build_from_one(b: BuilderV, t: TokenV)
    ensures
        build_from(b, seq![t]) == process(b, t),
{
    let one = seq![t];
    assert(one.drop_last() =~= Seq::<TokenV>::empty());
    assert(build_from(b, one.drop_last()) == b);
}

proof fn lemma_build_is_build_from(tokens: Seq<TokenV>)
    ensures
        build(tokens) == build_from(initial_builder(), tokens),
    decreases tokens.len(),
{
    if tokens.len() > 0 {
        lemma_build_is_build_from(tokens.drop_last());
    }
}

proof fn lemma_build_from_concat(b: BuilderV, t1: Seq<TokenV>, t2: Seq<TokenV>)
    ensures
        build_from(b, t1 + t2) == build_from(build_from(b, t1), t2),
    decreases t2.len(),
{
    if t2.len() == 0 {
        assert(t1 + t2 =~= t1);
    } else {
        assert((t1 + t2).drop_last() =~= t1 + t2.drop_last());
        assert((t1 + t2).last() == t2.last());
        lemma_build_from_concat(b, t1, t2.drop_last());
    }
}

/// Inserting every node of `list`, in order.
spec fn insert_all(b: BuilderV, list: Seq<NodeV>) -> BuilderV
    decreases list.len(),
{
    if list.len() == 0 {
        b
    } else {
        insert_node(insert_all(b, list.drop_last()), list.last())
    }
}

proof fn lemma_insert_all_into_open(b: BuilderV, e: ElementV, list: Seq<NodeV>)
    ensures
        insert_all((BuilderV { stack: b.stack.push(e), ..b }), list) == (BuilderV {
            stack: b.stack.push(ElementV { children: e.children + list, ..e }),
            ..b
        }),
    decreases list.len(),
{
    if list.len() == 0 {
        assert(e.children + list =~= e.children);
        assert(ElementV { children: e.children + list, ..e } == e);
    } else {
        lemma_insert_all_into_open(b, e, list.drop_last());
        let e1 = ElementV { children: e.children + list.drop_last(), ..e };
        let b1 = BuilderV { stack: b.stack.push(e1), ..b };
        assert(b1.stack.drop_last() =~= b.stack);
        assert(e1.children.push(list.last()) =~= e.children + list);
        assert(b1.stack.last() == e1);
    }
}

proof fn lemma_insert_all_into_document(b: BuilderV, list: Seq<NodeV>)
    requires
        b.stack.len() == 0,
    ensures
        insert_all(b, list) == (BuilderV {
            document: DocumentV { children: b.document.children + list, ..b.document },
            ..b
        }),
    decreases list.len(),
{
    if list.len() == 0 {
        assert(b.document.children + list =~= b.document.children);
        assert(DocumentV { children: b.document.children + list, ..b.document } == b.document);
    } else {
        lemma_insert_all_into_document(b, list.drop_last());
        assert((b.document.children + list.drop_last()).push(list.last()) =~= b.document.children
            + list);
    }
}

/// The tokens of a well-formed node make the builder insert that node.
proof fn lemma_build_node(b: BuilderV, n: NodeV)
    requires
        node_ok(n),
    ensures
        build_from(b, node_tokens(n)) == insert_node(b, n),
    decreases n,
{
    match n {
        NodeV::Element(e) => {
            let start_tok = TokenV::StartTag {
                name: e.tag_name,
                attrs: e.attrs,
                self_closing: false,
            };
            let start = seq![start_tok];
            let e0 = ElementV { tag_name: e.tag_name, attrs: e.attrs, children: seq![] };
            lemma_build_from_one(b, start_tok);
            if is_void_name(e.tag_name) {
                assert(e0 == e);
            } else {
                let end = seq![TokenV::EndTag { name: e.tag_name }];
                let b1 = BuilderV { stack: b.stack.push(e0), ..b };
                assert(process(b, start_tok) == b1);
                lemma_build_from_concat(b, start, nodes_tokens(e.children));
                lemma_build_nodes(b1, e.children);
                lemma_insert_all_into_open(b, e0, e.children);
                assert(e0.children + e.children =~= e.children);
                assert(ElementV { children: e0.children + e.children, ..e0 } == e);
                let b2 = BuilderV { stack: b.stack.push(e), ..b };
                lemma_build_from_concat(b, start + nodes_tokens(e.children), end);
                lemma_build_from_one(b2, TokenV::EndTag { name: e.tag_name });
                assert(last_index_named(b2.stack, e.tag_name) == Some(b.stack.len()));
                assert(b2.stack.drop_last() =~= b.stack);
                let popped = BuilderV { stack: b2.stack.drop_last(), ..b2 };
                assert(popped == b);
                assert(insert_node(b, n).stack.len() == b.stack.len());
                assert(close_to(b2, b.stack.len()) == close_to(insert_node(b, n), b.stack.len()));
                assert(node_tokens(n) =~= start + nodes_tokens(e.children) + end);
            }
        },
        NodeV::Text(t) => lemma_build_from_one(b, TokenV::Characters(t)),
        NodeV::Comment(t) => lemma_build_from_one(b, TokenV::Comment(t)),
    }
}

/// The tokens of a well-formed node list make the builder insert its nodes
/// in order.
proof fn lemma_build_nodes(b: BuilderV, list: Seq<NodeV>)
    requires
        nodes_ok(list),
    ensures
        build_from(b, nodes_tokens(list)) == insert_all(b, list),
    decreases list,
{
    if list.len() > 0 {
        lemma_build_nodes(b, list.drop_last());
        lemma_build_from_concat(b, nodes_tokens(list.drop_last()), node_tokens(list.last()));
        lemma_build_node(insert_all(b, list.drop_last()), list.last());
    }
}

/// A document that reads back as itself: its DOCTYPE name, if any, and its
/// nodes read back as themselves (see `doctype_ok` and `nodes_ok`).
pub open spec fn document_ok(d: DocumentV) -> bool {
    &&& d.doctype matches Some(name) ==> doctype_ok(name)
    &&& nodes_ok(d.children)
}

/// Round trip: parsing the HTML text of a well-formed document gives the
/// same document back. Serialization loses only what parsing ignores, such
/// as the quoting style of attribute values.
pub proof fn law_parse_of_serialization(d: DocumentV)
    requires
        document_ok(d),
    ensures
        parse(document_html(d)) == d,
{
    let html = document_html(d);
    let empty: Seq<char> = seq![];
    let s0 = initial_state();
    assert(clean(s0));
    let (prefix, s1) = match d.doctype {
        Some(name) => {
            assert(html + empty =~= doctype_html(name) + (nodes_html(d.children) + empty));
            let s1 = lemma_run_doctype(s0, name, nodes_html(d.children) + empty);
            (seq![TokenV::Doctype { name }], s1)
        },
        None => {
            assert(html + empty =~= nodes_html(d.children) + empty);
            (Seq::<TokenV>::empty(), s0)
        },
    };
    assert(html + empty =~= html);
    assert(spec_run(s0, html) == prefix + spec_run(s1, nodes_html(d.children) + empty));
    let s2 = lemma_run_nodes(s1, d.children, empty);
    assert(spec_run(s2, empty) =~= seq![TokenV::Eof]);
    let tokens = prefix + nodes_tokens(d.children) + seq![TokenV::Eof];
    assert(tokens_of(html) =~= tokens);
    lemma_build_is_build_from(tokens);
    lemma_build_from_concat(initial_builder(), prefix + nodes_tokens(d.children), seq![TokenV::Eof]);
    lemma_build_from_concat(initial_builder(), prefix, nodes_tokens(d.children));
    let b1 = build_from(initial_builder(), prefix);
    assert(b1 == BuilderV {
        document: DocumentV { doctype: d.doctype, children: seq![] },
        stack: seq![],
    }) by {
        match d.doctype {
            Some(name) => lemma_build_from_one(initial_builder(), TokenV::Doctype { name }),
            None => {},
        }
    }
    lemma_build_nodes(b1, d.children);
    lemma_insert_all_into_document(b1, d.children);
    let b2 = insert_all(b1, d.children);
    assert(b1.document.children + d.children =~= d.children);
    lemma_build_from_one(b2, TokenV::Eof);
    assert(close_to(b2, 0) == b2);
    assert(b2.document == d);
}


/// Reading characters other than `'` in a single-quoted attribute value
/// appends them to the value.
proof fn lemma_run_single_quoted_value(s: TokState, w: Seq<char>, rest: Seq<char>)
    requires
        s.state == State::AttributeValueSingleQuoted,
        forall|i: int| 0 <= i < w.len() ==> #[trigger] w[i] != '\'',
    ensures
        spec_run(s, w + rest) == spec_run(TokState { attr_value: s.attr_value + w, ..s }, rest),
    decreases w.len(),
{
    if w.len() == 0 {
        assert(w + rest =~= rest);
        assert(s.attr_value + w =~= s.attr_value);
        assert(TokState { attr_value: s.attr_value + w, ..s } == s);
    } else {
        let c = w[0];
        let w1 = w.skip(1);
        assert(w + rest =~= seq![c] + (w1 + rest));
        lemma_one(s, c, w1 + rest);
        let s1 = TokState { attr_value: s.attr_value.push(c), ..s };
        assert(step_char(s, c).0 == s1);
        assert(step_char(s, c).1 =~= Seq::<TokenV>::empty());
        lemma_run_single_quoted_value(s1, w1, rest);
        assert(s1.attr_value + w1 =~= s.attr_value + w);
        assert(spec_run(s, w + rest) =~= spec_run(s1, w1 + rest));
    }
}

/// `<` and a tag name, read from a clean state, leave the tokenizer inside
/// the start tag with no attribute yet.
proof fn lemma_run_tag_open(s: TokState, name: Seq<char>, rest: Seq<char>) -> (s3: TokState)
    requires
        clean(s),
        tag_name_ok(name),
    ensures
        ready(s3, name, seq![]),
        spec_run(s, seq!['<'] + name + rest) == spec_run(s3, rest),
{
    let n0 = name[0];
    let nrest = name.skip(1);
    assert(seq!['<'] + name + rest =~= seq!['<'] + (seq![n0] + (nrest + rest)));
    lemma_one(s, '<', seq![n0] + (nrest + rest));
    let s1 = TokState { state: State::TagOpen, ..flushed(s) };
    assert(step_char(s, '<').0 == s1);
    assert(step_char(s, '<').1 =~= Seq::<TokenV>::empty());
    lemma_one(s1, n0, nrest + rest);
    let s2 = TokState { state: State::TagName, is_end: false, tag_name: seq![n0], ..s1 };
    assert(step_char(s1, n0).0 == s2);
    assert(step_char(s1, n0).1 =~= Seq::<TokenV>::empty());
    assert forall|i: int| 0 <= i < nrest.len() implies !is_white_space(#[trigger] nrest[i])
        && nrest[i] != '/' && nrest[i] != '>' && not_upper(nrest[i]) by {
        assert(nrest[i] == name[i + 1]);
    }
    lemma_run_tag_name(s2, nrest, rest);
    let s3 = TokState { tag_name: seq![n0] + nrest, ..s2 };
    assert(seq![n0] + nrest =~= name);
    let no_attrs: Seq<AttributeV> = seq![];
    assert(s3.attrs =~= no_attrs);
    s3
}

/// An attribute `name=qvalueq` with `q` a double or a single quote, read
/// inside a start tag.
#[verifier::rlimit(40)]
proof fn lemma_run_quoted_attr(
    s: TokState,
    tag: Seq<char>,
    done: Seq<AttributeV>,
    x: Seq<char>,
    v: Seq<char>,
    q: char,
    rest: Seq<char>,
) -> (s2: TokState)
    requires
        ready(s, tag, done),
        attr_name_ok(x),
        q == '"' || q == '\'',
        forall|i: int| 0 <= i < v.len() ==> #[trigger] v[i] != q,
    ensures
        ready(s2, tag, done.push(AttributeV { name: x, value: v })),
        spec_run(s, seq![' '] + x + seq!['=', q] + v + seq![q] + rest) == spec_run(s2, rest),
{
    let x0 = x[0];
    let xrest = x.skip(1);
    let after_value = seq![q] + rest;
    let after_eq = seq![q] + (v + after_value);
    let after_name = seq!['='] + after_eq;
    assert(seq![' '] + x + seq!['=', q] + v + seq![q] + rest =~= seq![' '] + (seq![x0] + (xrest
        + after_name)));
    lemma_one(s, ' ', seq![x0] + (xrest + after_name));
    let s1 = TokState { state: State::BeforeAttributeName, ..effective(s) };
    assert(step_char(s, ' ').0 == s1);
    assert(step_char(s, ' ').1 =~= Seq::<TokenV>::empty());
    lemma_one(s1, x0, xrest + after_name);
    let s2 = TokState {
        state: State::AttributeName,
        attr_name: seq![x0],
        attr_value: seq![],
        ..s1
    };
    assert(step_char(s1, x0).0 == s2);
    assert(step_char(s1, x0).1 =~= Seq::<TokenV>::empty());
    assert forall|i: int| 0 <= i < xrest.len() implies !is_white_space(#[trigger] xrest[i])
        && xrest[i] != '=' && xrest[i] != '/' && xrest[i] != '>' && not_upper(xrest[i]) by {
        assert(xrest[i] == x[i + 1]);
    }
    lemma_run_attr_name(s2, xrest, after_name);
    let s3 = TokState { attr_name: seq![x0] + xrest, ..s2 };
    assert(seq![x0] + xrest =~= x);
    lemma_one(s3, '=', after_eq);
    let s4 = TokState { state: State::BeforeAttributeValue, ..s3 };
    assert(step_char(s3, '=').1 =~= Seq::<TokenV>::empty());
    lemma_one(s4, q, v + after_value);
    assert(step_char(s4, q).1 =~= Seq::<TokenV>::empty());
    let s5 = step_char(s4, q).0;
    if q == '"' {
        assert(s5 == TokState { state: State::AttributeValueDoubleQuoted, ..s3 });
        lemma_run_quoted_value(s5, v, after_value);
    } else {
        assert(s5 == TokState { state: State::AttributeValueSingleQuoted, ..s3 });
        lemma_run_single_quoted_value(s5, v, after_value);
    }
    let s6 = TokState { attr_value: s5.attr_value + v, ..s5 };
    assert(s5.attr_value + v =~= v);
    lemma_one(s6, q, rest);
    let s7 = TokState { state: State::AfterAttributeValueQuoted, ..committed(s6) };
    assert(step_char(s6, q).0 == s7);
    assert(step_char(s6, q).1 =~= Seq::<TokenV>::empty());
    assert(s7.attrs =~= done.push(AttributeV { name: x, value: v }));
    s7
}

/// `>` inside a start tag emits the start tag.
proof fn lemma_run_close_start(s: TokState, tag: Seq<char>, attrs: Seq<AttributeV>, rest: Seq<char>) -> (s2: TokState)
    requires
        ready(s, tag, attrs),
    ensures
        clean(s2),
        spec_run(s, seq!['>'] + rest) == seq![
            TokenV::StartTag { name: tag, attrs, self_closing: false },
        ] + spec_run(s2, rest),
{
    lemma_one(s, '>', rest);
    let (s2, out) = then_data(emit_tag(effective(s)));
    assert(step_char(s, '>') == then_data(emit_tag(effective(s))));
    assert(out =~= seq![TokenV::StartTag { name: tag, attrs, self_closing: false }]);
    s2
}

/// A quoted attribute value is read verbatim, white space, `=`, `<`, `>`
/// and the other quote included: `<t x='v'>` and `<t x="v">` are one start
/// tag `t` with the one attribute `x` of value `v`, for every tag name `t`,
/// attribute name `x` and value `v` without the quote used.
pub proof fn law_quoted_attribute_value_is_read_verbatim(
    t: Seq<char>,
    x: Seq<char>,
    v: Seq<char>,
    q: char,
)
    requires
        tag_name_ok(t),
        attr_name_ok(x),
        q == '"' || q == '\'',
        forall|i: int| 0 <= i < v.len() ==> #[trigger] v[i] != q,
    ensures
        tokens_of(seq!['<'] + t + seq![' '] + x + seq!['=', q] + v + seq![q, '>']) == seq![
            TokenV::StartTag {
                name: t,
                attrs: seq![AttributeV { name: x, value: v }],
                self_closing: false,
            },
            TokenV::Eof,
        ],
{
    let empty: Seq<char> = seq![];
    let tail = seq![' '] + x + seq!['=', q] + v + seq![q] + (seq!['>'] + empty);
    let input = seq!['<'] + t + seq![' '] + x + seq!['=', q] + v + seq![q, '>'];
    assert(input =~= seq!['<'] + t + tail);
    let s0 = initial_state();
    let s1 = lemma_run_tag_open(s0, t, tail);
    let no_attrs: Seq<AttributeV> = seq![];
    let s2 = lemma_run_quoted_attr(s1, t, no_attrs, x, v, q, seq!['>'] + empty);
    let attrs = no_attrs.push(AttributeV { name: x, value: v });
    assert(attrs =~= seq![AttributeV { name: x, value: v }]);
    let s3 = lemma_run_close_start(s2, t, attrs, empty);
    assert(spec_run(s3, empty) =~= seq![TokenV::Eof]);
    assert(tokens_of(input) =~= seq![
        TokenV::StartTag { name: t, attrs, self_closing: false },
        TokenV::Eof,
    ]);
}


/// The void elements of HTML, `area`, `base`, `br`, `col`, `embed`, `hr`,
/// `img`, `input`, `link`, `meta`, `param`, `source`, `track` and `wbr`,
/// take no content: `<t>x` is the element `t`, empty, followed by the text
/// `x`.
pub proof fn law_void_elements_take_no_content(t: Seq<char>, x: Seq<char>)
    requires
        ({
        ||| t == seq!['a', 'r', 'e', 'a']
        ||| t == seq!['b', 'a', 's', 'e']
        ||| t == seq!['b', 'r']
        ||| t == seq!['c', 'o', 'l']
        ||| t == seq!['e', 'm', 'b', 'e', 'd']
        ||| t == seq!['h', 'r']
        ||| t == seq!['i', 'm', 'g']
        ||| t == seq!['i', 'n', 'p', 'u', 't']
        ||| t == seq!['l', 'i', 'n', 'k']
        ||| t == seq!['m', 'e', 't', 'a']
        ||| t == seq!['p', 'a', 'r', 'a', 'm']
        ||| t == seq!['s', 'o', 'u', 'r', 'c', 'e']
        ||| t == seq!['t', 'r', 'a', 'c', 'k']
        ||| t == seq!['w', 'b', 'r']
        }),
        text_ok(x),
    ensures
        parse(seq!['<'] + t + seq!['>'] + x) == (DocumentV {
            doctype: None,
            children: seq![
                NodeV::Element(ElementV { tag_name: t, attrs: seq![], children: seq![] }),
                NodeV::Text(x),
            ],
        }),
{
    let e = ElementV { tag_name: t, attrs: seq![], children: seq![] };
    let d = DocumentV { doctype: None, children: seq![NodeV::Element(e), NodeV::Text(x)] };
    assert(tag_name_ok(t));
    assert(is_void_name(t));
    let no_attrs: Seq<AttributeV> = seq![];
    assert(attrs_html(no_attrs) =~= Seq::<char>::empty());
    assert(attrs_ok(no_attrs));
    let one = seq![NodeV::Element(e)];
    let none: Seq<NodeV> = seq![];
    assert(nodes_ok(none));
    assert(nodes_html(none) =~= Seq::<char>::empty());
    assert(node_ok(NodeV::Element(e)));
    assert(d.children.drop_last() =~= one);
    assert(d.children.last() == NodeV::Text(x));
    assert(one.drop_last() =~= none);
    assert(one.last() == NodeV::Element(e));
    assert(nodes_ok(one));
    assert(nodes_html(one) =~= nodes_html(none) + node_html(NodeV::Element(e)));
    assert(node_ok(NodeV::Text(x)));
    assert(node_html(NodeV::Text(x)) == x);
    assert(node_html(NodeV::Element(e)) == start_tag_html(e));
    assert(nodes_html(d.children) =~= nodes_html(one) + node_html(NodeV::Text(x)));
    assert(nodes_ok(d.children));
    assert(nodes_html(one) =~= start_tag_html(e));
    assert(document_html(d) =~= seq!['<'] + t + seq!['>'] + x);
    law_parse_of_serialization(d);
}

/// Every other element holds its content until its end tag: `<t>x</t>` is
/// the element `t` holding the text `x`, for every tag name `t` that is not
/// one of the void elements listed above.
pub proof fn law_other_elements_hold_their_content(t: Seq<char>, x: Seq<char>)
    requires
        tag_name_ok(t),
        t != seq!['a', 'r', 'e', 'a'],
        t != seq!['b', 'a', 's', 'e'],
        t != seq!['b', 'r'],
        t != seq!['c', 'o', 'l'],
        t != seq!['e', 'm', 'b', 'e', 'd'],
        t != seq!['h', 'r'],
        t != seq!['i', 'm', 'g'],
        t != seq!['i', 'n', 'p', 'u', 't'],
        t != seq!['l', 'i', 'n', 'k'],
        t != seq!['m', 'e', 't', 'a'],
        t != seq!['p', 'a', 'r', 'a', 'm'],
        t != seq!['s', 'o', 'u', 'r', 'c', 'e'],
        t != seq!['t', 'r', 'a', 'c', 'k'],
        t != seq!['w', 'b', 'r'],
        text_ok(x),
    ensures
        parse(seq!['<'] + t + seq!['>'] + x + seq!['<', '/'] + t + seq!['>']) == (DocumentV {
            doctype: None,
            children: seq![
                NodeV::Element(ElementV { tag_name: t, attrs: seq![], children: seq![NodeV::Text(x)] }),
            ],
        }),
{
    let kids = seq![NodeV::Text(x)];
    let e = ElementV { tag_name: t, attrs: seq![], children: kids };
    let d = DocumentV { doctype: None, children: seq![NodeV::Element(e)] };
    assert(!is_void_name(t));
    let no_attrs: Seq<AttributeV> = seq![];
    assert(attrs_html(no_attrs) =~= Seq::<char>::empty());
    assert(attrs_ok(no_attrs));
    let none: Seq<NodeV> = seq![];
    assert(nodes_ok(none));
    assert(nodes_html(none) =~= Seq::<char>::empty());
    assert(kids.drop_last() =~= none);
    assert(kids.last() == NodeV::Text(x));
    assert(node_ok(NodeV::Text(x)));
    assert(nodes_ok(kids));
    assert(nodes_html(kids) =~= nodes_html(none) + node_html(NodeV::Text(x)));
    assert(nodes_html(kids) =~= x);
    assert(node_ok(NodeV::Element(e)));
    assert(d.children.drop_last() =~= none);
    assert(d.children.last() == NodeV::Element(e));
    assert(nodes_ok(d.children));
    assert(nodes_html(d.children) =~= node_html(NodeV::Element(e)));
    assert(document_html(d) =~= seq!['<'] + t + seq!['>'] + x + seq!['<', '/'] + t + seq!['>']);
    law_parse_of_serialization(d);
}


/// Reading characters that end no unquoted attribute value appends them to
/// the value.
proof fn lemma_run_unquoted_value(s: TokState, w: Seq<char>, rest: Seq<char>)
    requires
        s.state == State::AttributeValueUnquoted,
        forall|i: int| 0 <= i < w.len() ==> !is_white_space(#[trigger] w[i]) && w[i] != '>',
    ensures
        spec_run(s, w + rest) == spec_run(TokState { attr_value: s.attr_value + w, ..s }, rest),
    decreases w.len(),
{
    if w.len() == 0 {
        assert(w + rest =~= rest);
        assert(s.attr_value + w =~= s.attr_value);
        assert(TokState { attr_value: s.attr_value + w, ..s } == s);
    } else {
        let c = w[0];
        let w1 = w.skip(1);
        assert(w + rest =~= seq![c] + (w1 + rest));
        lemma_one(s, c, w1 + rest);
        let s1 = TokState { attr_value: s.attr_value.push(c), ..s };
        assert(step_char(s, c).0 == s1);
        assert(step_char(s, c).1 =~= Seq::<TokenV>::empty());
        lemma_run_unquoted_value(s1, w1, rest);
        assert(s1.attr_value + w1 =~= s.attr_value + w);
        assert(spec_run(s, w + rest) =~= spec_run(s1, w1 + rest));
    }
}

/// An unquoted attribute value is read up to the `>` that closes the tag:
/// `<t x=v>` is one start tag `t` with the one attribute `x` of value `v`,
/// for every value that is not empty, holds no white space or `>`, and does
/// not begin with a quote.
#[verifier::rlimit(40)]
pub proof fn law_unquoted_attribute_value_is_read_verbatim(t: Seq<char>, x: Seq<char>, v: Seq<char>)
    requires
        tag_name_ok(t),
        attr_name_ok(x),
        v.len() > 0,
        v[0] != '"' && v[0] != '\'',
        forall|i: int| 0 <= i < v.len() ==> !is_white_space(#[trigger] v[i]) && v[i] != '>',
    ensures
        tokens_of(seq!['<'] + t + seq![' '] + x + seq!['='] + v + seq!['>']) == seq![
            TokenV::StartTag {
                name: t,
                attrs: seq![AttributeV { name: x, value: v }],
                self_closing: false,
            },
            TokenV::Eof,
        ],
{
    let empty: Seq<char> = seq![];
    let v0 = v[0];
    let vrest = v.skip(1);
    let end = seq!['>'] + empty;
    let after_eq = seq![v0] + (vrest + end);
    let after_name = seq!['='] + after_eq;
    let x0 = x[0];
    let xrest = x.skip(1);
    let tail = seq![' '] + (seq![x0] + (xrest + after_name));
    let input = seq!['<'] + t + seq![' '] + x + seq!['='] + v + seq!['>'];
    assert(input =~= seq!['<'] + t + tail);
    let s0 = initial_state();
    let s1 = lemma_run_tag_open(s0, t, tail);
    lemma_one(s1, ' ', seq![x0] + (xrest + after_name));
    let s2 = TokState { state: State::BeforeAttributeName, ..effective(s1) };
    assert(step_char(s1, ' ').0 == s2);
    assert(step_char(s1, ' ').1 =~= Seq::<TokenV>::empty());
    lemma_one(s2, x0, xrest + after_name);
    let s3 = TokState {
        state: State::AttributeName,
        attr_name: seq![x0],
        attr_value: seq![],
        ..s2
    };
    assert(step_char(s2, x0).0 == s3);
    assert(step_char(s2, x0).1 =~= Seq::<TokenV>::empty());
    assert forall|i: int| 0 <= i < xrest.len() implies !is_white_space(#[trigger] xrest[i])
        && xrest[i] != '=' && xrest[i] != '/' && xrest[i] != '>' && not_upper(xrest[i]) by {
        assert(xrest[i] == x[i + 1]);
    }
    lemma_run_attr_name(s3, xrest, after_name);
    let s4 = TokState { attr_name: seq![x0] + xrest, ..s3 };
    assert(seq![x0] + xrest =~= x);
    lemma_one(s4, '=', after_eq);
    let s5 = TokState { state: State::BeforeAttributeValue, ..s4 };
    assert(step_char(s4, '=').1 =~= Seq::<TokenV>::empty());
    lemma_one(s5, v0, vrest + end);
    let s6 = TokState {
        state: State::AttributeValueUnquoted,
        attr_value: s5.attr_value.push(v0),
        ..s5
    };
    assert(step_char(s5, v0).0 == s6);
    assert(step_char(s5, v0).1 =~= Seq::<TokenV>::empty());
    assert forall|i: int| 0 <= i < vrest.len() implies !is_white_space(#[trigger] vrest[i])
        && vrest[i] != '>' by {
        assert(vrest[i] == v[i + 1]);
    }
    lemma_run_unquoted_value(s6, vrest, end);
    let s7 = TokState { attr_value: s6.attr_value + vrest, ..s6 };
    assert(s6.attr_value + vrest =~= v);
    lemma_one(s7, '>', empty);
    let attrs = seq![AttributeV { name: x, value: v }];
    assert(committed(s7).attrs =~= attrs);
    let (s8, out) = then_data(emit_tag(committed(s7)));
    assert(step_char(s7, '>') == then_data(emit_tag(committed(s7))));
    assert(out =~= seq![TokenV::StartTag { name: t, attrs, self_closing: false }]);
    assert(spec_run(s8, empty) =~= seq![TokenV::Eof]);
    assert(tokens_of(input) =~= seq![
        TokenV::StartTag { name: t, attrs, self_closing: false },
        TokenV::Eof,
    ]);
}

/// `<t/>` is one start tag `t`, flagged as self-closing, with no attribute.
pub proof fn law_self_closing_tag_is_flagged(t: Seq<char>)
    requires
        tag_name_ok(t),
    ensures
        tokens_of(seq!['<'] + t + seq!['/', '>']) == seq![
            TokenV::StartTag { name: t, attrs: seq![], self_closing: true },
            TokenV::Eof,
        ],
{
    let empty: Seq<char> = seq![];
    let tail = seq!['/'] + (seq!['>'] + empty);
    let input = seq!['<'] + t + seq!['/', '>'];
    assert(input =~= seq!['<'] + t + tail);
    let s0 = initial_state();
    let s1 = lemma_run_tag_open(s0, t, tail);
    lemma_one(s1, '/', seq!['>'] + empty);
    let s2 = TokState { state: State::SelfClosingStartTag, ..s1 };
    assert(step_char(s1, '/').0 == s2);
    assert(step_char(s1, '/').1 =~= Seq::<TokenV>::empty());
    lemma_one(s2, '>', empty);
    let no_attrs: Seq<AttributeV> = seq![];
    let (s3, out) = then_data(emit_tag(TokState { self_closing: true, ..s2 }));
    assert(out =~= seq![TokenV::StartTag { name: t, attrs: no_attrs, self_closing: true }]);
    assert(spec_run(s3, empty) =~= seq![TokenV::Eof]);
    assert(tokens_of(input) =~= seq![
        TokenV::StartTag { name: t, attrs: no_attrs, self_closing: true },
        TokenV::Eof,
    ]);
}


/// `<t/>`, read from a clean state, is a self-closing start tag.
proof fn lemma_run_self_closing(s: TokState, t: Seq<char>, rest: Seq<char>) -> (s3: TokState)
    requires
        clean(s),
        tag_name_ok(t),
    ensures
        clean(s3),
        spec_run(s, seq!['<'] + t + seq!['/', '>'] + rest) == seq![
            TokenV::StartTag { name: t, attrs: seq![], self_closing: true },
        ] + spec_run(s3, rest),
{
    let tail = seq!['/'] + (seq!['>'] + rest);
    assert(seq!['<'] + t + seq!['/', '>'] + rest =~= seq!['<'] + t + tail);
    let s1 = lemma_run_tag_open(s, t, tail);
    lemma_one(s1, '/', seq!['>'] + rest);
    let s2 = TokState { state: State::SelfClosingStartTag, ..s1 };
    assert(step_char(s1, '/').0 == s2);
    assert(step_char(s1, '/').1 =~= Seq::<TokenV>::empty());
    lemma_one(s2, '>', rest);
    let no_attrs: Seq<AttributeV> = seq![];
    let (s3, out) = then_data(emit_tag(TokState { self_closing: true, ..s2 }));
    assert(out =~= seq![TokenV::StartTag { name: t, attrs: no_attrs, self_closing: true }]);
    s3
}

/// A self-closing element takes no content, whatever its name: `<t/>x` is
/// the element `t`, empty, followed by the text `x`.
pub proof fn law_self_closing_element_takes_no_content(t: Seq<char>, x: Seq<char>)
    requires
        tag_name_ok(t),
        text_ok(x),
    ensures
        parse(seq!['<'] + t + seq!['/', '>'] + x) == (DocumentV {
            doctype: None,
            children: seq![
                NodeV::Element(ElementV { tag_name: t, attrs: seq![], children: seq![] }),
                NodeV::Text(x),
            ],
        }),
{
    let empty: Seq<char> = seq![];
    let input = seq!['<'] + t + seq!['/', '>'] + x;
    assert(input =~= seq!['<'] + t + seq!['/', '>'] + (x + empty));
    let s0 = initial_state();
    let s1 = lemma_run_self_closing(s0, t, x + empty);
    lemma_run_text_node(s1, x, empty);
    let no_attrs: Seq<AttributeV> = seq![];
    let start = TokenV::StartTag { name: t, attrs: no_attrs, self_closing: true };
    let tokens = seq![start, TokenV::Characters(x), TokenV::Eof];
    assert(spec_run(s1, empty) =~= seq![TokenV::Eof]);
    assert(tokens_of(input) =~= tokens);
    let e = ElementV { tag_name: t, attrs: no_attrs, children: seq![] };
    lemma_build_is_build_from(tokens);
    let b0 = initial_builder();
    lemma_build_from_one(b0, start);
    let b1 = process(b0, start);
    lemma_build_from_concat(b0, seq![start], seq![TokenV::Characters(x)]);
    lemma_build_from_one(b1, TokenV::Characters(x));
    let b2 = process(b1, TokenV::Characters(x));
    lemma_build_from_concat(b0, seq![start, TokenV::Characters(x)], seq![TokenV::Eof]);
    lemma_build_from_one(b2, TokenV::Eof);
    assert(seq![start] + seq![TokenV::Characters(x)] =~= seq![start, TokenV::Characters(x)]);
    assert(seq![start, TokenV::Characters(x)] + seq![TokenV::Eof] =~= tokens);
    assert(b1.document.children =~= seq![NodeV::Element(e)]);
    assert(b2.document.children =~= seq![NodeV::Element(e), NodeV::Text(x)]);
    assert(b2.stack.len() == 0);
    assert(close_to(b2, 0) == b2);
}

/// The ASCII lower-case form of every character of `t`.
pub open spec fn lowered(t: Seq<char>) -> Seq<char> {
    t.map_values(|c: char| ascii_lower(c))
}

/// Reading tag-name characters, of any case, appends their lower-case forms
/// to the tag name.
proof fn lemma_run_tag_name_any_case(s: TokState, w: Seq<char>, rest: Seq<char>)
    requires
        s.state == State::TagName,
        forall|i: int|
            0 <= i < w.len() ==> !is_white_space(#[trigger] w[i]) && w[i] != '/' && w[i] != '>',
    ensures
        spec_run(s, w + rest) == spec_run(
            TokState { tag_name: s.tag_name + lowered(w), ..s },
            rest,
        ),
    decreases w.len(),
{
    if w.len() == 0 {
        assert(w + rest =~= rest);
        assert(s.tag_name + lowered(w) =~= s.tag_name);
        assert(TokState { tag_name: s.tag_name + lowered(w), ..s } == s);
    } else {
        let c = w[0];
        let w1 = w.skip(1);
        assert(w + rest =~= seq![c] + (w1 + rest));
        lemma_one(s, c, w1 + rest);
        let s1 = TokState { tag_name: s.tag_name.push(ascii_lower(c)), ..s };
        assert(step_char(s, c).0 == s1);
        assert(step_char(s, c).1 =~= Seq::<TokenV>::empty());
        lemma_run_tag_name_any_case(s1, w1, rest);
        assert(s1.tag_name + lowered(w1) =~= s.tag_name + lowered(w));
        assert(spec_run(s, w + rest) =~= spec_run(s1, w1 + rest));
    }
}

/// Tag names are ASCII-case-insensitive: `<T>` and `</T>`, for a name `T`
/// of any case that begins with an ASCII letter and holds no white space,
/// `/` or `>`, are the start and the end tag named by the lower-case form of
/// `T`.
pub proof fn law_tag_names_are_lowered(t: Seq<char>)
    requires
        t.len() > 0,
        is_ascii_alpha(t[0]),
        forall|i: int|
            0 <= i < t.len() ==> !is_white_space(#[trigger] t[i]) && t[i] != '/' && t[i] != '>',
    ensures
        tokens_of(seq!['<'] + t + seq!['>']) == seq![
            TokenV::StartTag { name: lowered(t), attrs: seq![], self_closing: false },
            TokenV::Eof,
        ],
        tokens_of(seq!['<', '/'] + t + seq!['>']) == seq![
            TokenV::EndTag { name: lowered(t) },
            TokenV::Eof,
        ],
{
    let empty: Seq<char> = seq![];
    let t0 = t[0];
    let trest = t.skip(1);
    let end = seq!['>'] + empty;
    assert forall|i: int| 0 <= i < trest.len() implies !is_white_space(#[trigger] trest[i])
        && trest[i] != '/' && trest[i] != '>' by {
        assert(trest[i] == t[i + 1]);
    }
    assert(seq![ascii_lower(t0)] + lowered(trest) =~= lowered(t));
    let no_attrs: Seq<AttributeV> = seq![];
    let s0 = initial_state();
    let s1 = TokState { state: State::TagOpen, ..flushed(s0) };
    // start tag
    let start_in = seq!['<'] + t + seq!['>'];
    assert(start_in =~= seq!['<'] + (seq![t0] + (trest + end)));
    lemma_one(s0, '<', seq![t0] + (trest + end));
    assert(step_char(s0, '<').0 == s1);
    assert(step_char(s0, '<').1 =~= Seq::<TokenV>::empty());
    lemma_one(s1, t0, trest + end);
    let s2 = TokState {
        state: State::TagName,
        is_end: false,
        tag_name: seq![ascii_lower(t0)],
        ..s1
    };
    assert(step_char(s1, t0).0 == s2);
    assert(step_char(s1, t0).1 =~= Seq::<TokenV>::empty());
    lemma_run_tag_name_any_case(s2, trest, end);
    let s3 = TokState { tag_name: s2.tag_name + lowered(trest), ..s2 };
    lemma_one(s3, '>', empty);
    let (s4, out) = then_data(emit_tag(s3));
    assert(out =~= seq![
        TokenV::StartTag { name: lowered(t), attrs: no_attrs, self_closing: false },
    ]);
    assert(spec_run(s4, empty) =~= seq![TokenV::Eof]);
    assert(tokens_of(start_in) =~= seq![
        TokenV::StartTag { name: lowered(t), attrs: no_attrs, self_closing: false },
        TokenV::Eof,
    ]);
    // end tag
    let end_in = seq!['<', '/'] + t + seq!['>'];
    assert(end_in =~= seq!['<'] + (seq!['/'] + (seq![t0] + (trest + end))));
    lemma_one(s0, '<', seq!['/'] + (seq![t0] + (trest + end)));
    lemma_one(s1, '/', seq![t0] + (trest + end));
    let e1 = TokState { state: State::EndTagOpen, ..s1 };
    assert(step_char(s1, '/').1 =~= Seq::<TokenV>::empty());
    lemma_one(e1, t0, trest + end);
    let e2 = TokState {
        state: State::TagName,
        is_end: true,
        tag_name: seq![ascii_lower(t0)],
        ..e1
    };
    assert(step_char(e1, t0).0 == e2);
    assert(step_char(e1, t0).1 =~= Seq::<TokenV>::empty());
    lemma_run_tag_name_any_case(e2, trest, end);
    let e3 = TokState { tag_name: e2.tag_name + lowered(trest), ..e2 };
    lemma_one(e3, '>', empty);
    let (e4, out2) = then_data(emit_tag(e3));
    assert(out2 =~= seq![TokenV::EndTag { name: lowered(t) }]);
    assert(spec_run(e4, empty) =~= seq![TokenV::Eof]);
    assert(tokens_of(end_in) =~= seq![TokenV::EndTag { name: lowered(t) }, TokenV::Eof]);
}

} // verus!
