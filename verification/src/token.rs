//! HTML tokens and the `TokenSink` trait through which a tokenizer hands its
//! tokens to whatever consumes them (a tree builder, a test collector, ...).

use vstd::prelude::*;

verus! {

/// A tag attribute `name="value"`. An attribute written without a value
/// (a boolean attribute such as `<input disabled>`) holds the empty string.
#[derive(Debug, Clone, PartialEq, Eq)]
pub struct Attribute {
    pub name: String,
    pub value: String,
}

/// The mathematical value of an [`Attribute`].
#[verifier::ext_equal]
pub struct AttributeV {
    pub name: Seq<char>,
    pub value: Seq<char>,
}

impl View for Attribute {
    type V = AttributeV;

    open spec fn view(&self) -> AttributeV {
        AttributeV { name: self.name@, value: self.value@ }
    }
}

/// The values of a sequence of attributes.
pub open spec fn attrs_view(attrs: Seq<Attribute>) -> Seq<AttributeV> {
    attrs.map_values(|a: Attribute| a@)
}

#[derive(Debug, Clone, PartialEq, Eq)]
pub enum Token {
    Doctype { name: String },
    StartTag { name: String, attrs: Vec<Attribute>, self_closing: bool },
    EndTag { name: String },
    Comment(String),
    /// A run of character data.
    Characters(String),
    Eof,
}

/// The mathematical value of a [`Token`].
#[verifier::ext_equal]
pub enum TokenV {
    Doctype { name: Seq<char> },
    StartTag { name: Seq<char>, attrs: Seq<AttributeV>, self_closing: bool },
    EndTag { name: Seq<char> },
    Comment(Seq<char>),
    Characters(Seq<char>),
    Eof,
}

impl View for Token {
    type V = TokenV;

    open spec fn view(&self) -> TokenV {
        match self {
            Token::Doctype { name } => TokenV::Doctype { name: name@ },
            Token::StartTag { name, attrs, self_closing } => TokenV::StartTag {
                name: name@,
                attrs: attrs_view(attrs@),
                self_closing: *self_closing,
            },
            Token::EndTag { name } => TokenV::EndTag { name: name@ },
            Token::Comment(text) => TokenV::Comment(text@),
            Token::Characters(text) => TokenV::Characters(text@),
            Token::Eof => TokenV::Eof,
        }
    }
}

/// The values of a sequence of tokens.
pub open spec fn tokens_view(tokens: Seq<Token>) -> Seq<TokenV> {
    tokens.map_values(|t: Token| t@)
}

/// The receiving end of a tokenizer. A sink is described by the sequence of
/// tokens it has been handed so far; handing it one more token appends that
/// token to the sequence.
pub trait TokenSink {
    spec fn received(&self) -> Seq<TokenV>;

    fn process_token(&mut self, token: Token)
        ensures
            final(self).received() == old(self).received().push(token@),
    ;
}

/// A sink that keeps every token it receives, in order.
pub struct CollectingSink {
    pub tokens: Vec<Token>,
}

impl Default for CollectingSink {
    fn default() -> (sink: Self)
        ensures
            sink.tokens@ == Seq::<Token>::empty(),
    {
        CollectingSink { tokens: Vec::new() }
    }
}

impl TokenSink for CollectingSink {
    open spec fn received(&self) -> Seq<TokenV> {
        tokens_view(self.tokens@)
    }

    fn process_token(&mut self, token: Token)
        ensures
            final(self).tokens@ == old(self).tokens@.push(token),
    {
        self.tokens.push(token);
        assert(tokens_view(self.tokens@) =~= tokens_view(old(self).tokens@).push(token@));
    }
}

} // verus!
