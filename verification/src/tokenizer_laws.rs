//! Properties of the tokenizer that hold for every input.

use vstd::prelude::*;

use crate::chars::{ascii_lower, has_no_upper, lemma_lower_is_not_upper};
use crate::token::{AttributeV, TokenV};
use crate::tokenizer::{
    end_tokens, flush_out, initial_state, spec_run, spec_step, tokens_of, State,
    TokState,
};

verus! {

/// No token of `ts` is `Eof`.
pub open spec fn no_eof(ts: Seq<TokenV>) -> bool {
    forall|i: int| 0 <= i < ts.len() ==> !(#[trigger] ts[i] is Eof)
}

proof fn lemma_step_emits_no_eof(s: TokState, rest: Seq<char>)
    requires
        rest.len() > 0,
    ensures
        no_eof(spec_step(s, rest).emitted),
        spec_step(s, rest).emitted.len() <= 1,
{
}

proof fn lemma_run_ends_with_one_eof(s: TokState, rest: Seq<char>)
    ensures
        spec_run(s, rest).len() >= 1,
        spec_run(s, rest).last() is Eof,
        no_eof(spec_run(s, rest).drop_last()),
    decreases rest.len(),
{
    if rest.len() == 0 {
        assert(spec_run(s, rest).drop_last() =~= flush_out(s));
    } else {
        let o = spec_step(s, rest);
        lemma_step_emits_no_eof(s, rest);
        lemma_run_ends_with_one_eof(o.next, rest.skip(o.consumed as int));
        let tail = spec_run(o.next, rest.skip(o.consumed as int));
        assert((o.emitted + tail).drop_last() =~= o.emitted + tail.drop_last());
    }
}

/// The tokenizer hands its sink `Eof` exactly once, as the last token.
pub proof fn law_eof_exactly_once_at_the_end(input: Seq<char>)
    ensures
        tokens_of(input).len() >= 1,
        tokens_of(input).last() is Eof,
        forall|i: int| 0 <= i < tokens_of(input).len() - 1 ==> !(#[trigger] tokens_of(input)[i] is Eof),
{
    lemma_run_ends_with_one_eof(initial_state(), input);
    let ts = tokens_of(input);
    assert forall|i: int| 0 <= i < ts.len() - 1 implies !(#[trigger] ts[i] is Eof) by {
        assert(ts.drop_last()[i] == ts[i]);
    }
}

/// `s` holds no `<`.
pub open spec fn has_no_lt(s: Seq<char>) -> bool {
    forall|i: int| 0 <= i < s.len() ==> #[trigger] s[i] != '<'
}

proof fn lemma_run_text(s: TokState, rest: Seq<char>)
    requires
        s.state == State::Data,
        has_no_lt(rest),
    ensures
        spec_run(s, rest) == end_tokens(TokState { char_buf: s.char_buf + rest, ..s }),
    decreases rest.len(),
{
    if rest.len() == 0 {
        assert(s.char_buf + rest =~= s.char_buf);
        assert(TokState { char_buf: s.char_buf + rest, ..s } == s);
    } else {
        let o = spec_step(s, rest);
        assert(rest[0] != '<');
        let next = TokState { char_buf: s.char_buf.push(rest[0]), ..s };
        assert(o.next == next);
        assert(o.emitted =~= Seq::<TokenV>::empty());
        let tail = rest.skip(1);
        assert forall|i: int| 0 <= i < tail.len() implies #[trigger] tail[i] != '<' by {
            assert(tail[i] == rest[i + 1]);
        }
        lemma_run_text(next, tail);
        assert(next.char_buf + tail =~= s.char_buf + rest);
        assert(spec_run(s, rest) =~= spec_run(next, tail));
    }
}

/// Input with no `<` is character data from end to end: one `Characters`
/// token holding all of it (none when it is empty), then `Eof`.
pub proof fn law_text_without_markup_is_one_characters_token(input: Seq<char>)
    requires
        has_no_lt(input),
    ensures
        input.len() > 0 ==> tokens_of(input) == seq![TokenV::Characters(input), TokenV::Eof],
        input.len() == 0 ==> tokens_of(input) == seq![TokenV::Eof],
{
    lemma_run_text(initial_state(), input);
    assert(Seq::<char>::empty() + input =~= input);
}


/// Every attribute has a name, and no name holds an ASCII upper-case letter.
pub open spec fn attr_names_lower(attrs: Seq<AttributeV>) -> bool {
    forall|i: int|
        0 <= i < attrs.len() ==> (#[trigger] attrs[i]).name.len() > 0 && has_no_upper(
            attrs[i].name,
        )
}

/// Tag names are non-empty, and no tag, attribute or DOCTYPE name holds an
/// ASCII upper-case letter.
pub open spec fn names_lower(t: TokenV) -> bool {
    match t {
        TokenV::StartTag { name, attrs, .. } => name.len() > 0 && has_no_upper(name)
            && attr_names_lower(attrs),
        TokenV::EndTag { name } => name.len() > 0 && has_no_upper(name),
        TokenV::Doctype { name } => has_no_upper(name),
        _ => true,
    }
}

pub open spec fn in_tag(st: State) -> bool {
    ||| st == State::TagName
    ||| st == State::BeforeAttributeName
    ||| st == State::AttributeName
    ||| st == State::BeforeAttributeValue
    ||| st == State::AttributeValueDoubleQuoted
    ||| st == State::AttributeValueSingleQuoted
    ||| st == State::AttributeValueUnquoted
    ||| st == State::AfterAttributeValueQuoted
    ||| st == State::SelfClosingStartTag
}

spec fn names_inv(s: TokState) -> bool {
    &&& has_no_upper(s.tag_name)
    &&& has_no_upper(s.attr_name)
    &&& has_no_upper(s.doctype_name)
    &&& attr_names_lower(s.attrs)
    &&& in_tag(s.state) ==> s.tag_name.len() > 0
}

proof fn lemma_push_lower(s: Seq<char>, c: char)
    requires
        has_no_upper(s),
    ensures
        has_no_upper(s.push(ascii_lower(c))),
        has_no_upper(seq![ascii_lower(c)]),
{
    lemma_lower_is_not_upper(c);
    assert forall|i: int| 0 <= i < s.push(ascii_lower(c)).len() implies !('A' <= #[trigger] s.push(
        ascii_lower(c),
    )[i] && s.push(ascii_lower(c))[i] <= 'Z') by {
        if i < s.len() {
            assert(s.push(ascii_lower(c))[i] == s[i]);
        }
    }
}

#[verifier::rlimit(50)]
proof fn lemma_step_keeps_names_lower(s: TokState, rest: Seq<char>)
    requires
        rest.len() > 0,
        names_inv(s),
    ensures
        names_inv(spec_step(s, rest).next),
        forall|i: int|
            0 <= i < spec_step(s, rest).emitted.len() ==> names_lower(
                #[trigger] spec_step(s, rest).emitted[i],
            ),
{
    let c = rest[0];
    lemma_push_lower(s.tag_name, c);
    lemma_push_lower(s.attr_name, c);
    lemma_push_lower(s.doctype_name, c);
    let empty: Seq<char> = seq![];
    assert(has_no_upper(empty));
    if s.attr_name.len() > 0 {
        let pushed = s.attrs.push(AttributeV { name: s.attr_name, value: s.attr_value });
        assert forall|i: int| 0 <= i < pushed.len() implies (#[trigger] pushed[i]).name.len() > 0
            && has_no_upper(pushed[i].name) by {
            if i < s.attrs.len() {
                assert(pushed[i] == s.attrs[i]);
            }
        }
    }
    let no_attrs: Seq<AttributeV> = seq![];
    assert(attr_names_lower(no_attrs));
}

proof fn lemma_run_names_lower(s: TokState, rest: Seq<char>)
    requires
        names_inv(s),
    ensures
        forall|i: int| 0 <= i < spec_run(s, rest).len() ==> names_lower(#[trigger] spec_run(s, rest)[i]),
    decreases rest.len(),
{
    if rest.len() > 0 {
        let o = spec_step(s, rest);
        lemma_step_keeps_names_lower(s, rest);
        lemma_run_names_lower(o.next, rest.skip(o.consumed as int));
        let tail = spec_run(o.next, rest.skip(o.consumed as int));
        assert forall|i: int| 0 <= i < spec_run(s, rest).len() implies names_lower(
            #[trigger] spec_run(s, rest)[i],
        ) by {
            if i < o.emitted.len() {
                assert(spec_run(s, rest)[i] == o.emitted[i]);
            } else {
                assert(spec_run(s, rest)[i] == tail[i - o.emitted.len()]);
            }
        }
    }
}

/// Tag and attribute names are ASCII-lower-cased and never empty, and DOCTYPE
/// names are ASCII-lower-cased, whatever the case of the input.
pub proof fn law_names_are_lower_case(input: Seq<char>)
    ensures
        forall|i: int| 0 <= i < tokens_of(input).len() ==> names_lower(#[trigger] tokens_of(input)[i]),
{
    let empty: Seq<char> = seq![];
    let no_attrs: Seq<AttributeV> = seq![];
    assert(has_no_upper(empty));
    assert(attr_names_lower(no_attrs));
    lemma_run_names_lower(initial_state(), input);
}


/// What a token emitted on reading `c` can be: pending text, not empty, on
/// `<`; a tag, a comment or a DOCTYPE on `>`; never `Eof`.
pub open spec fn emitted_on(t: TokenV, c: char) -> bool {
    match t {
        TokenV::Characters(text) => c == '<' && text.len() > 0,
        TokenV::Eof => false,
        _ => c == '>',
    }
}

/// One step of the tokenizer hands out at most one token, never `Eof`:
/// pending text only when it reads `<`, and a tag, a comment or a DOCTYPE
/// only when it reads `>`.
pub proof fn law_one_step_emits_at_most_one_token(s: TokState, rest: Seq<char>)
    requires
        rest.len() > 0,
    ensures
        spec_step(s, rest).emitted.len() <= 1,
        forall|i: int|
            0 <= i < spec_step(s, rest).emitted.len() ==> emitted_on(
                #[trigger] spec_step(s, rest).emitted[i],
                rest[0],
            ),
{
}


/// A step that emits a tag, start or end, leaves no attribute pending: the
/// attributes written in one tag are never handed to another.
pub proof fn law_no_attribute_outlives_its_tag(s: TokState, rest: Seq<char>)
    requires
        rest.len() > 0,
        spec_step(s, rest).emitted.len() > 0,
        spec_step(s, rest).emitted[0] is StartTag || spec_step(s, rest).emitted[0] is EndTag,
    ensures
        spec_step(s, rest).next.attrs.len() == 0,
        spec_step(s, rest).emitted[0] is EndTag ==> spec_step(s, rest).next.state == State::Data,
{
}

} // verus!
