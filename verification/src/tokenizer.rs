//! The HTML tokenizer: a subset of the state machine of the HTML standard
//! (text, start tags with quoted and unquoted attribute values, self-closing
//! tags, end tags, comments, DOCTYPE and end of input).
//!
//! Not handled: CDATA sections, character references, the raw-text modes of
//! `<script>`/`<style>`, and the error-recovery rules of the standard.
//!
//! The behaviour is given as a function on mathematical values: `spec_step`
//! moves the machine over one unit of input, `spec_run` over the whole rest
//! of the input, and `tokens_of` is the token sequence that the tokenizer
//! hands to its sink for a given input.

use vstd::prelude::*;

use crate::chars::{
    ascii_lower, ascii_upper, chars_of, is_ascii_alpha, is_ascii_alphabetic, is_white_space,
    is_whitespace, push_char, to_ascii_lowercase, to_ascii_uppercase,
};
use crate::token::{attrs_view, Attribute, AttributeV, Token, TokenSink, TokenV};

verus! {

#[derive(Debug, Clone, Copy, PartialEq, Eq, Structural)]
pub enum State {
    Data,
    TagOpen,
    EndTagOpen,
    TagName,
    BeforeAttributeName,
    AttributeName,
    BeforeAttributeValue,
    AttributeValueDoubleQuoted,
    AttributeValueSingleQuoted,
    AttributeValueUnquoted,
    AfterAttributeValueQuoted,
    SelfClosingStartTag,
    MarkupDeclarationOpen,
    CommentStart,
    Comment,
    CommentEndDash,
    CommentEnd,
    Doctype,
    BeforeDoctypeName,
    DoctypeName,
}

/// Everything the tokenizer remembers between two input characters.
#[verifier::ext_equal]
pub struct TokState {
    pub state: State,
    pub char_buf: Seq<char>,
    pub tag_name: Seq<char>,
    pub self_closing: bool,
    pub is_end: bool,
    pub attrs: Seq<AttributeV>,
    pub attr_name: Seq<char>,
    pub attr_value: Seq<char>,
    pub comment: Seq<char>,
    pub doctype_name: Seq<char>,
}

/// The outcome of one step: the next state, how many input characters the
/// step consumed, and the tokens it emitted.
pub struct StepOutcome {
    pub next: TokState,
    pub consumed: nat,
    pub emitted: Seq<TokenV>,
}

pub open spec fn initial_state() -> TokState {
    TokState {
        state: State::Data,
        char_buf: seq![],
        tag_name: seq![],
        self_closing: false,
        is_end: false,
        attrs: seq![],
        attr_name: seq![],
        attr_value: seq![],
        comment: seq![],
        doctype_name: seq![],
    }
}

pub open spec fn in_state(s: TokState, st: State) -> TokState {
    TokState { state: st, ..s }
}

/// The `Characters` token that the pending text makes, if there is any.
pub open spec fn flush_out(s: TokState) -> Seq<TokenV> {
    if s.char_buf.len() > 0 {
        seq![TokenV::Characters(s.char_buf)]
    } else {
        seq![]
    }
}

pub open spec fn flushed(s: TokState) -> TokState {
    TokState { char_buf: seq![], ..s }
}

/// The tag token that the pending tag makes.
pub open spec fn tag_token(s: TokState) -> TokenV {
    if s.is_end {
        TokenV::EndTag { name: s.tag_name }
    } else {
        TokenV::StartTag { name: s.tag_name, attrs: s.attrs, self_closing: s.self_closing }
    }
}

/// Emits the pending tag. A start tag carries the attributes written in it;
/// an end tag carries none, and the attributes written in it are dropped, so
/// that no tag receives attributes written in another.
pub open spec fn emit_tag(s: TokState) -> (TokState, Seq<TokenV>) {
    (
        TokState {
            tag_name: seq![],
            attrs: seq![],
            self_closing: false,
            is_end: false,
            ..s
        },
        seq![tag_token(s)],
    )
}

/// Adds the pending attribute to the tag, when it has a name, and clears it.
pub open spec fn committed(s: TokState) -> TokState {
    TokState {
        attrs: if s.attr_name.len() > 0 {
            s.attrs.push(AttributeV { name: s.attr_name, value: s.attr_value })
        } else {
            s.attrs
        },
        attr_name: seq![],
        attr_value: seq![],
        ..s
    }
}

/// Emits the pending DOCTYPE.
pub open spec fn emit_doctype(s: TokState) -> (TokState, Seq<TokenV>) {
    (
        TokState { doctype_name: seq![], ..s },
        seq![TokenV::Doctype { name: s.doctype_name }],
    )
}

/// The outcome of an emission, followed by a return to the data state.
pub open spec fn then_data(r: (TokState, Seq<TokenV>)) -> (TokState, Seq<TokenV>) {
    (in_state(r.0, State::Data), r.1)
}

pub open spec fn comment_char(s: TokState, c: char) -> TokState {
    if c == '-' {
        in_state(s, State::CommentEndDash)
    } else {
        TokState { comment: s.comment.push(c), ..s }
    }
}

pub open spec fn no_tokens() -> Seq<TokenV> {
    seq![]
}

/// The step taken in the state before an attribute name.
pub open spec fn before_attr_name(s: TokState, c: char) -> (TokState, Seq<TokenV>) {
    if is_white_space(c) {
        (s, no_tokens())
    } else if c == '/' {
        (in_state(s, State::SelfClosingStartTag), no_tokens())
    } else if c == '>' {
        then_data(emit_tag(s))
    } else {
        (
            TokState {
                state: State::AttributeName,
                attr_name: seq![ascii_lower(c)],
                attr_value: seq![],
                ..s
            },
            no_tokens(),
        )
    }
}

/// One step on the character `c`, in every state but the markup
/// declaration state (which looks further ahead, see `spec_step`).
pub open spec fn step_char(s: TokState, c: char) -> (TokState, Seq<TokenV>) {
    match s.state {
        State::Data => if c == '<' {
            (in_state(flushed(s), State::TagOpen), flush_out(s))
        } else {
            (TokState { char_buf: s.char_buf.push(c), ..s }, no_tokens())
        },
        State::TagOpen => if c == '/' {
            (in_state(s, State::EndTagOpen), no_tokens())
        } else if c == '!' {
            (in_state(s, State::MarkupDeclarationOpen), no_tokens())
        } else if is_ascii_alpha(c) {
            (
                TokState {
                    state: State::TagName,
                    is_end: false,
                    tag_name: seq![ascii_lower(c)],
                    ..s
                },
                no_tokens(),
            )
        } else {
            (
                TokState { state: State::Data, char_buf: s.char_buf.push('<').push(c), ..s },
                no_tokens(),
            )
        },
        State::EndTagOpen => if is_ascii_alpha(c) {
            (
                TokState {
                    state: State::TagName,
                    is_end: true,
                    tag_name: seq![ascii_lower(c)],
                    ..s
                },
                no_tokens(),
            )
        } else {
            (in_state(s, State::Data), no_tokens())
        },
        State::TagName => if is_white_space(c) {
            (in_state(s, State::BeforeAttributeName), no_tokens())
        } else if c == '/' {
            (in_state(s, State::SelfClosingStartTag), no_tokens())
        } else if c == '>' {
            then_data(emit_tag(s))
        } else {
            (TokState { tag_name: s.tag_name.push(ascii_lower(c)), ..s }, no_tokens())
        },
        State::BeforeAttributeName => before_attr_name(s, c),
        State::AttributeName => if is_white_space(c) {
            (in_state(committed(s), State::BeforeAttributeName), no_tokens())
        } else if c == '=' {
            (in_state(s, State::BeforeAttributeValue), no_tokens())
        } else if c == '/' {
            (in_state(committed(s), State::SelfClosingStartTag), no_tokens())
        } else if c == '>' {
            then_data(emit_tag(committed(s)))
        } else {
            (TokState { attr_name: s.attr_name.push(ascii_lower(c)), ..s }, no_tokens())
        },
        State::BeforeAttributeValue => if is_white_space(c) {
            (s, no_tokens())
        } else if c == '"' {
            (in_state(s, State::AttributeValueDoubleQuoted), no_tokens())
        } else if c == '\'' {
            (in_state(s, State::AttributeValueSingleQuoted), no_tokens())
        } else if c == '>' {
            then_data(emit_tag(committed(s)))
        } else {
            (
                TokState {
                    state: State::AttributeValueUnquoted,
                    attr_value: s.attr_value.push(c),
                    ..s
                },
                no_tokens(),
            )
        },
        State::AttributeValueDoubleQuoted => if c == '"' {
            (in_state(committed(s), State::AfterAttributeValueQuoted), no_tokens())
        } else {
            (TokState { attr_value: s.attr_value.push(c), ..s }, no_tokens())
        },
        State::AttributeValueSingleQuoted => if c == '\'' {
            (in_state(committed(s), State::AfterAttributeValueQuoted), no_tokens())
        } else {
            (TokState { attr_value: s.attr_value.push(c), ..s }, no_tokens())
        },
        State::AttributeValueUnquoted => if is_white_space(c) {
            (in_state(committed(s), State::BeforeAttributeName), no_tokens())
        } else if c == '>' {
            then_data(emit_tag(committed(s)))
        } else {
            (TokState { attr_value: s.attr_value.push(c), ..s }, no_tokens())
        },
        State::AfterAttributeValueQuoted => if is_white_space(c) {
            (in_state(s, State::BeforeAttributeName), no_tokens())
        } else if c == '/' {
            (in_state(s, State::SelfClosingStartTag), no_tokens())
        } else if c == '>' {
            then_data(emit_tag(s))
        } else {
            before_attr_name(in_state(s, State::BeforeAttributeName), c)
        },
        State::SelfClosingStartTag => if c == '>' {
            then_data(emit_tag(TokState { self_closing: true, ..s }))
        } else {
            before_attr_name(in_state(s, State::BeforeAttributeName), c)
        },
        State::MarkupDeclarationOpen => (s, no_tokens()),
        State::CommentStart => (comment_char(in_state(s, State::Comment), c), no_tokens()),
        State::Comment => (comment_char(s, c), no_tokens()),
        State::CommentEndDash => if c == '-' {
            (in_state(s, State::CommentEnd), no_tokens())
        } else {
            (
                comment_char(
                    TokState { state: State::Comment, comment: s.comment.push('-'), ..s },
                    c,
                ),
                no_tokens(),
            )
        },
        State::CommentEnd => if c == '>' {
            (
                TokState { state: State::Data, comment: seq![], ..s },
                seq![TokenV::Comment(s.comment)],
            )
        } else if c == '-' {
            (TokState { comment: s.comment.push('-'), ..s }, no_tokens())
        } else {
            (
                comment_char(
                    TokState {
                        state: State::Comment,
                        comment: s.comment.push('-').push('-'),
                        ..s
                    },
                    c,
                ),
                no_tokens(),
            )
        },
        State::Doctype => if is_white_space(c) {
            (in_state(s, State::BeforeDoctypeName), no_tokens())
        } else if c == '>' {
            then_data(emit_doctype(s))
        } else {
            (s, no_tokens())
        },
        State::BeforeDoctypeName => if is_white_space(c) {
            (s, no_tokens())
        } else if c == '>' {
            then_data(emit_doctype(s))
        } else {
            (
                TokState {
                    state: State::DoctypeName,
                    doctype_name: s.doctype_name.push(ascii_lower(c)),
                    ..s
                },
                no_tokens(),
            )
        },
        State::DoctypeName => if c == '>' {
            then_data(emit_doctype(s))
        } else {
            (TokState { doctype_name: s.doctype_name.push(ascii_lower(c)), ..s }, no_tokens())
        },
    }
}

pub open spec fn doctype_word() -> Seq<char> {
    seq!['D', 'O', 'C', 'T', 'Y', 'P', 'E']
}

/// `rest` begins with `--`.
pub open spec fn starts_with_dashes(rest: Seq<char>) -> bool {
    rest.len() >= 2 && rest[0] == '-' && rest[1] == '-'
}

/// `rest` begins with `DOCTYPE`, ASCII case ignored.
pub open spec fn starts_with_doctype(rest: Seq<char>) -> bool {
    rest.len() >= 7 && forall|i: int| 0 <= i < 7 ==> ascii_upper(#[trigger] rest[i]) == doctype_word()[i]
}

/// One step of the tokenizer on the non-empty input `rest`, whose first
/// character is the one being read.
pub open spec fn spec_step(s: TokState, rest: Seq<char>) -> StepOutcome {
    if s.state == State::MarkupDeclarationOpen {
        if starts_with_dashes(rest) {
            StepOutcome {
                next: TokState { state: State::CommentStart, comment: seq![], ..s },
                consumed: 2,
                emitted: no_tokens(),
            }
        } else if starts_with_doctype(rest) {
            StepOutcome {
                next: TokState { state: State::Doctype, doctype_name: seq![], ..s },
                consumed: 7,
                emitted: no_tokens(),
            }
        } else {
            StepOutcome {
                next: TokState { state: State::Comment, comment: seq![], ..s },
                consumed: 1,
                emitted: no_tokens(),
            }
        }
    } else {
        let (next, emitted) = step_char(s, rest[0]);
        StepOutcome { next, consumed: 1, emitted }
    }
}

/// The tokens emitted at the end of the input: the pending text, then `Eof`.
pub open spec fn end_tokens(s: TokState) -> Seq<TokenV> {
    flush_out(s).push(TokenV::Eof)
}

/// The tokens emitted while running from state `s` over `rest` to its end.
pub open spec fn spec_run(s: TokState, rest: Seq<char>) -> Seq<TokenV>
    decreases rest.len(),
{
    if rest.len() == 0 {
        end_tokens(s)
    } else {
        let o = spec_step(s, rest);
        if 1 <= o.consumed <= rest.len() {
            o.emitted + spec_run(o.next, rest.skip(o.consumed as int))
        } else {
            seq![]
        }
    }
}

/// The tokens that the tokenizer hands to its sink for `input`.
pub open spec fn tokens_of(input: Seq<char>) -> Seq<TokenV> {
    spec_run(initial_state(), input)
}

proof fn lemma_step_consumes(s: TokState, rest: Seq<char>)
    requires
        rest.len() > 0,
    ensures
        1 <= spec_step(s, rest).consumed <= rest.len(),
{
}

/// The state of a tokenizer: the automaton state, the input and the position
/// in it, and the token being assembled.
pub struct Machine {
    state: State,
    chars: Vec<char>,
    pos: usize,
    char_buf: String,
    current_tag_name: String,
    current_tag_self_closing: bool,
    current_tag_is_end: bool,
    current_attrs: Vec<Attribute>,
    current_attr_name: String,
    current_attr_value: String,
    comment_buf: String,
    doctype_name_buf: String,
}

impl View for Machine {
    type V = TokState;

    closed spec fn view(&self) -> TokState {
        TokState {
            state: self.state,
            char_buf: self.char_buf@,
            tag_name: self.current_tag_name@,
            self_closing: self.current_tag_self_closing,
            is_end: self.current_tag_is_end,
            attrs: attrs_view(self.current_attrs@),
            attr_name: self.current_attr_name@,
            attr_value: self.current_attr_value@,
            comment: self.comment_buf@,
            doctype_name: self.doctype_name_buf@,
        }
    }
}

impl Machine {
    closed spec fn rest(&self) -> Seq<char> {
        self.chars@.skip(self.pos as int)
    }
}

/// A tokenizer that hands each token to `sink` as soon as it is complete.
///
/// Both fields are public so that the contracts of `new` and `run` can speak
/// of the sink before and after the run; the automaton's own state is kept
/// private inside `Machine`.
pub struct Tokenizer<'sink, S: TokenSink> {
    pub sink: &'sink mut S,
    pub machine: Machine,
}

impl<'sink, S: TokenSink> Tokenizer<'sink, S> {
    pub fn new(sink: &'sink mut S) -> (t: Self)
        ensures
            *t.sink == *old(sink),
            *final(t.sink) == *final(sink),
            t.machine@ == initial_state(),
    {
        let t = Tokenizer {
            sink,
            machine: Machine {
                state: State::Data,
                chars: Vec::new(),
                pos: 0,
                char_buf: String::new(),
                current_tag_name: String::new(),
                current_tag_self_closing: false,
                current_tag_is_end: false,
                current_attrs: Vec::new(),
                current_attr_name: String::new(),
                current_attr_value: String::new(),
                comment_buf: String::new(),
                doctype_name_buf: String::new(),
            },
        };
        assert(attrs_view(t.machine.current_attrs@) =~= seq![]);
        t
    }

    /// Tokenizes the whole of `input`, handing each token to the sink as it
    /// is made, and `Eof` once at the end.
    pub fn run(self, input: &str)
        ensures
            final(self.sink).received() == old(self.sink).received() + spec_run(
                self.machine@,
                input@,
            ),
    {
        let mut this = self;
        this.machine.chars = chars_of(input);
        this.machine.pos = 0;
        assert(this.machine.chars@.skip(0) =~= input@);
        while this.machine.pos < this.machine.chars.len()
            invariant
                this.machine.pos <= this.machine.chars@.len(),
                this.machine.chars@ == input@,
                this.sink.received() + spec_run(this.machine@, this.machine.rest())
                    == old(self.sink).received() + spec_run(self.machine@, input@),
                *final(this.sink) == *final(self.sink),
            decreases this.machine.chars.len() - this.machine.pos,
        {
            let c = this.machine.chars[this.machine.pos];
            let ghost m0 = this.machine@;
            let ghost rest0 = this.machine.rest();
            let ghost recv0 = this.sink.received();
            proof {
                lemma_step_consumes(m0, rest0);
            }
            this.step(c);
            this.machine.pos = this.machine.pos + 1;
            proof {
                let o = spec_step(m0, rest0);
                assert(this.machine.rest() =~= rest0.skip(o.consumed as int));
                assert(spec_run(m0, rest0) == o.emitted + spec_run(o.next, rest0.skip(o.consumed as int)));
                assert(recv0 + spec_run(m0, rest0) =~= this.sink.received() + spec_run(this.machine@, this.machine.rest()));
            }
        }
        assert(this.machine.rest() =~= seq![]);
        let ghost before = this.sink.received();
        let ghost last = this.machine@;
        this.flush_characters();
        this.sink.process_token(Token::Eof);
        assert(this.sink.received() =~= before + end_tokens(last));
    }

    fn flush_characters(&mut self)
        ensures
            final(self).machine@ == flushed(old(self).machine@),
            *final(final(self).sink) == *final(old(self).sink),
            final(self).sink.received() == old(self).sink.received() + flush_out(
                old(self).machine@,
            ),
            final(self).machine.chars == old(self).machine.chars,
            final(self).machine.pos == old(self).machine.pos,
    {
        if !self.machine.char_buf.as_str().is_empty() {
            let mut text = String::new();
            std::mem::swap(&mut text, &mut self.machine.char_buf);
            self.sink.process_token(Token::Characters(text));
        } else {
            assert(self.machine.char_buf@ =~= seq![]);
        }
    }
}


impl<'sink, S: TokenSink> Tokenizer<'sink, S> {
    fn emit_start_or_end_tag(&mut self)
        ensures
            final(self).machine@ == emit_tag(old(self).machine@).0,
            *final(final(self).sink) == *final(old(self).sink),
            final(self).sink.received() == old(self).sink.received() + emit_tag(
                old(self).machine@,
            ).1,
            final(self).machine.chars == old(self).machine.chars,
            final(self).machine.pos == old(self).machine.pos,
    {
        let mut name = String::new();
        std::mem::swap(&mut name, &mut self.machine.current_tag_name);
        let mut attrs: Vec<Attribute> = Vec::new();
        std::mem::swap(&mut attrs, &mut self.machine.current_attrs);
        if self.machine.current_tag_is_end {
            self.sink.process_token(Token::EndTag { name });
        } else {
            self.sink.process_token(
                Token::StartTag { name, attrs, self_closing: self.machine.current_tag_self_closing },
            );
        }
        assert(attrs_view(self.machine.current_attrs@) =~= seq![]);
        self.machine.current_tag_self_closing = false;
        self.machine.current_tag_is_end = false;
    }

    fn commit_current_attr(&mut self)
        ensures
            final(self).machine@ == committed(old(self).machine@),
            final(self).sink == old(self).sink,
            final(self).machine.chars == old(self).machine.chars,
            final(self).machine.pos == old(self).machine.pos,
    {
        if !self.machine.current_attr_name.as_str().is_empty() {
            let mut name = String::new();
            std::mem::swap(&mut name, &mut self.machine.current_attr_name);
            let mut value = String::new();
            std::mem::swap(&mut value, &mut self.machine.current_attr_value);
            let ghost before = self.machine.current_attrs@;
            self.machine.current_attrs.push(Attribute { name, value });
            assert(attrs_view(self.machine.current_attrs@) =~= attrs_view(before).push(
                AttributeV { name: name@, value: value@ },
            ));
        } else {
            self.machine.current_attr_name = String::new();
            self.machine.current_attr_value = String::new();
        }
    }

    fn step_comment(&mut self, c: char)
        ensures
            final(self).machine@ == comment_char(old(self).machine@, c),
            final(self).sink == old(self).sink,
            final(self).machine.chars == old(self).machine.chars,
            final(self).machine.pos == old(self).machine.pos,
    {
        if c == '-' {
            self.machine.state = State::CommentEndDash;
        } else {
            push_char(&mut self.machine.comment_buf, c);
        }
    }

    fn emit_doctype(&mut self)
        ensures
            final(self).machine@ == emit_doctype(old(self).machine@).0,
            *final(final(self).sink) == *final(old(self).sink),
            final(self).sink.received() == old(self).sink.received() + emit_doctype(
                old(self).machine@,
            ).1,
            final(self).machine.chars == old(self).machine.chars,
            final(self).machine.pos == old(self).machine.pos,
    {
        let mut name = String::new();
        std::mem::swap(&mut name, &mut self.machine.doctype_name_buf);
        self.sink.process_token(Token::Doctype { name });
    }
}


impl<'sink, S: TokenSink> Tokenizer<'sink, S> {
    fn before_attribute_name(&mut self, c: char)
        requires
            old(self).machine.state == State::BeforeAttributeName,
        ensures
            final(self).machine@ == before_attr_name(old(self).machine@, c).0,
            final(self).sink.received() == old(self).sink.received() + before_attr_name(
                old(self).machine@,
                c,
            ).1,
            *final(final(self).sink) == *final(old(self).sink),
            final(self).machine.chars == old(self).machine.chars,
            final(self).machine.pos == old(self).machine.pos,
    {
        if is_whitespace(c) {
            assert(old(self).sink.received() + no_tokens() =~= old(self).sink.received());
        } else if c == '/' {
            self.machine.state = State::SelfClosingStartTag;
            assert(old(self).sink.received() + no_tokens() =~= old(self).sink.received());
        } else if c == '>' {
            self.emit_start_or_end_tag();
            self.machine.state = State::Data;
        } else {
            self.machine.current_attr_name = String::new();
            self.machine.current_attr_value = String::new();
            push_char(&mut self.machine.current_attr_name, to_ascii_lowercase(c));
            self.machine.state = State::AttributeName;
            assert(old(self).sink.received() + no_tokens() =~= old(self).sink.received());
        }
    }

    /// Whether the input at the current position begins with `--`.
    fn at_dashes(&self) -> (r: bool)
        requires
            self.machine.pos < self.machine.chars@.len(),
        ensures
            r == starts_with_dashes(self.machine.rest()),
    {
        let p: usize = self.machine.pos;
        self.machine.chars.len() - p >= 2 && self.machine.chars[p] == '-' && self.machine.chars[p
            + 1] == '-'
    }

    /// Whether the input at the current position begins with `DOCTYPE`, ASCII
    /// case ignored.
    fn at_doctype(&self) -> (r: bool)
        requires
            self.machine.pos < self.machine.chars@.len(),
        ensures
            r == starts_with_doctype(self.machine.rest()),
    {
        let p: usize = self.machine.pos;
        let n: usize = self.machine.chars.len();
        if n - p < 7 {
            return false;
        }
        let word: [char; 7] = ['D', 'O', 'C', 'T', 'Y', 'P', 'E'];
        assert(word@ =~= doctype_word());
        let mut i: usize = 0;
        while i < 7
            invariant
                i <= 7,
                p + 7 <= n,
                n == self.machine.chars@.len(),
                p == self.machine.pos,
                word@ == doctype_word(),
                forall|j: int| 0 <= j < i ==> ascii_upper(#[trigger] self.machine.rest()[j]) == doctype_word()[j],
            decreases 7 - i,
        {
            if to_ascii_uppercase(self.machine.chars[p + i]) != word[i] {
                assert(self.machine.rest()[i as int] == self.machine.chars@[p + i]);
                return false;
            }
            assert(self.machine.rest()[i as int] == self.machine.chars@[p + i]);
            i = i + 1;
        }
        true
    }

    /// One step of the automaton on `c`, the character at the current
    /// position. A step in the markup declaration state may consume more
    /// than one character: it then leaves the position on the last of them.
    fn step(&mut self, c: char)
        requires
            old(self).machine.pos < old(self).machine.chars@.len(),
            old(self).machine.chars@[old(self).machine.pos as int] == c,
        ensures
            final(self).machine@ == spec_step(old(self).machine@, old(self).machine.rest()).next,
            final(self).sink.received() == old(self).sink.received() + spec_step(
                old(self).machine@,
                old(self).machine.rest(),
            ).emitted,
            *final(final(self).sink) == *final(old(self).sink),
            final(self).machine.chars == old(self).machine.chars,
            final(self).machine.pos + 1 == old(self).machine.pos + spec_step(
                old(self).machine@,
                old(self).machine.rest(),
            ).consumed,
    {
        let ghost s0 = self.machine@;
        let ghost r0 = self.sink.received();
        assert(old(self).machine.rest().len() == old(self).machine.chars@.len() - old(self).machine.pos);
        assert(r0 + no_tokens() =~= r0);
        assert(old(self).machine.rest()[0] == c);
        match self.machine.state {
            State::Data => {
                if c == '<' {
                    self.flush_characters();
                    self.machine.state = State::TagOpen;
                } else {
                    push_char(&mut self.machine.char_buf, c);
                }
            },
            State::TagOpen => {
                if c == '/' {
                    self.machine.state = State::EndTagOpen;
                } else if c == '!' {
                    self.machine.state = State::MarkupDeclarationOpen;
                } else if is_ascii_alphabetic(c) {
                    self.machine.current_tag_is_end = false;
                    self.machine.current_tag_name = String::new();
                    push_char(&mut self.machine.current_tag_name, to_ascii_lowercase(c));
                    self.machine.state = State::TagName;
                } else {
                    push_char(&mut self.machine.char_buf, '<');
                    push_char(&mut self.machine.char_buf, c);
                    self.machine.state = State::Data;
                }
            },
            State::EndTagOpen => {
                if is_ascii_alphabetic(c) {
                    self.machine.current_tag_is_end = true;
                    self.machine.current_tag_name = String::new();
                    push_char(&mut self.machine.current_tag_name, to_ascii_lowercase(c));
                    self.machine.state = State::TagName;
                } else {
                    self.machine.state = State::Data;
                }
            },
            State::TagName => {
                if is_whitespace(c) {
                    self.machine.state = State::BeforeAttributeName;
                } else if c == '/' {
                    self.machine.state = State::SelfClosingStartTag;
                } else if c == '>' {
                    self.emit_start_or_end_tag();
                    self.machine.state = State::Data;
                } else {
                    push_char(&mut self.machine.current_tag_name, to_ascii_lowercase(c));
                }
            },
            State::BeforeAttributeName => {
                self.before_attribute_name(c);
            },
            State::AttributeName => {
                if is_whitespace(c) {
                    self.machine.state = State::BeforeAttributeName;
                    self.commit_current_attr();
                } else if c == '=' {
                    self.machine.state = State::BeforeAttributeValue;
                } else if c == '/' {
                    self.commit_current_attr();
                    self.machine.state = State::SelfClosingStartTag;
                } else if c == '>' {
                    self.commit_current_attr();
                    self.emit_start_or_end_tag();
                    self.machine.state = State::Data;
                } else {
                    push_char(&mut self.machine.current_attr_name, to_ascii_lowercase(c));
                }
            },
            State::BeforeAttributeValue => {
                if is_whitespace(c) {
                } else if c == '"' {
                    self.machine.state = State::AttributeValueDoubleQuoted;
                } else if c == '\'' {
                    self.machine.state = State::AttributeValueSingleQuoted;
                } else if c == '>' {
                    self.commit_current_attr();
                    self.emit_start_or_end_tag();
                    self.machine.state = State::Data;
                } else {
                    push_char(&mut self.machine.current_attr_value, c);
                    self.machine.state = State::AttributeValueUnquoted;
                }
            },
            State::AttributeValueDoubleQuoted => {
                if c == '"' {
                    self.commit_current_attr();
                    self.machine.state = State::AfterAttributeValueQuoted;
                } else {
                    push_char(&mut self.machine.current_attr_value, c);
                }
            },
            State::AttributeValueSingleQuoted => {
                if c == '\'' {
                    self.commit_current_attr();
                    self.machine.state = State::AfterAttributeValueQuoted;
                } else {
                    push_char(&mut self.machine.current_attr_value, c);
                }
            },
            State::AttributeValueUnquoted => {
                if is_whitespace(c) {
                    self.commit_current_attr();
                    self.machine.state = State::BeforeAttributeName;
                } else if c == '>' {
                    self.commit_current_attr();
                    self.emit_start_or_end_tag();
                    self.machine.state = State::Data;
                } else {
                    push_char(&mut self.machine.current_attr_value, c);
                }
            },
            State::AfterAttributeValueQuoted => {
                if is_whitespace(c) {
                    self.machine.state = State::BeforeAttributeName;
                } else if c == '/' {
                    self.machine.state = State::SelfClosingStartTag;
                } else if c == '>' {
                    self.emit_start_or_end_tag();
                    self.machine.state = State::Data;
                } else {
                    // Missing whitespace between attributes: the character is
                    // read again in the state before an attribute name.
                    self.machine.state = State::BeforeAttributeName;
                    self.before_attribute_name(c);
                }
            },
            State::SelfClosingStartTag => {
                if c == '>' {
                    self.machine.current_tag_self_closing = true;
                    self.emit_start_or_end_tag();
                    self.machine.state = State::Data;
                } else {
                    self.machine.state = State::BeforeAttributeName;
                    self.before_attribute_name(c);
                }
            },
            State::MarkupDeclarationOpen => {
                // `<!--` opens a comment and `<!DOCTYPE` (any ASCII case) a
                // document type declaration; any other declaration is read as
                // a comment.
                if self.at_dashes() {
                    let n: usize = self.machine.chars.len();
                    assert(self.machine.rest().len() == n - self.machine.pos);
                    self.machine.pos = self.machine.pos + 1;
                    self.machine.comment_buf = String::new();
                    self.machine.state = State::CommentStart;
                } else if self.at_doctype() {
                    let n: usize = self.machine.chars.len();
                    assert(self.machine.rest().len() == n - self.machine.pos);
                    self.machine.pos = self.machine.pos + 6;
                    self.machine.doctype_name_buf = String::new();
                    self.machine.state = State::Doctype;
                } else {
                    self.machine.comment_buf = String::new();
                    self.machine.state = State::Comment;
                }
            },
            State::CommentStart => {
                self.machine.state = State::Comment;
                self.step_comment(c);
            },
            State::Comment => {
                self.step_comment(c);
            },
            State::CommentEndDash => {
                if c == '-' {
                    self.machine.state = State::CommentEnd;
                } else {
                    push_char(&mut self.machine.comment_buf, '-');
                    self.machine.state = State::Comment;
                    self.step_comment(c);
                }
            },
            State::CommentEnd => {
                if c == '>' {
                    let mut text = String::new();
                    std::mem::swap(&mut text, &mut self.machine.comment_buf);
                    self.sink.process_token(Token::Comment(text));
                    self.machine.state = State::Data;
                } else if c == '-' {
                    push_char(&mut self.machine.comment_buf, '-');
                } else {
                    push_char(&mut self.machine.comment_buf, '-');
                    push_char(&mut self.machine.comment_buf, '-');
                    self.machine.state = State::Comment;
                    self.step_comment(c);
                }
            },
            State::Doctype => {
                if is_whitespace(c) {
                    self.machine.state = State::BeforeDoctypeName;
                } else if c == '>' {
                    self.emit_doctype();
                    self.machine.state = State::Data;
                }
            },
            State::BeforeDoctypeName => {
                if is_whitespace(c) {
                } else if c == '>' {
                    self.emit_doctype();
                    self.machine.state = State::Data;
                } else {
                    push_char(&mut self.machine.doctype_name_buf, to_ascii_lowercase(c));
                    self.machine.state = State::DoctypeName;
                }
            },
            State::DoctypeName => {
                if c == '>' {
                    self.emit_doctype();
                    self.machine.state = State::Data;
                } else {
                    push_char(&mut self.machine.doctype_name_buf, to_ascii_lowercase(c));
                }
            },
        }
    }
}


/// Tokenizes `input`, handing every token to `sink`.
pub fn tokenize<S: TokenSink>(input: &str, sink: &mut S)
    ensures
        final(sink).received() == old(sink).received() + tokens_of(input@),
{
    Tokenizer::new(sink).run(input);
}

} // verus!
