# rhtml5

An HTML tokenizer and tree builder written in Verus, with their behaviour
stated as contracts and proved.

- `src/chars.rs`: character classes (ASCII letters and case, Unicode white
  space), string equality, and the one string primitive taken on trust
  (`String::push`).
- `src/token.rs`: `Token`, `Attribute`, their mathematical values, and the
  `TokenSink` trait: a sink is described by the sequence of tokens it has
  received.
- `src/tokenizer.rs`: the tokenizer. `spec_step`/`spec_run`/`tokens_of` define
  the automaton on mathematical values; `Tokenizer::run` and `tokenize` hand
  the sink exactly `tokens_of(input)`.
- `src/dom.rs`: `Node`, `Element`, `Document`, the serializer (`node_html`,
  `document_html`) and the tree builder (`process`, `build`, `parse`);
  `parse_document` returns `parse(input)`.
- `src/tokenizer_laws.rs`, `src/dom_laws.rs`, `src/round_trip.rs`,
  `src/reparse.rs`: properties proved for every input, among them that `Eof`
  comes exactly once and last, that void elements never hold children, that
  the tree builder keeps every node in order, and that parsing the HTML text
  of a well-formed document (a parsed one among them, when no attribute value
  holds `"` and no two texts are adjacent) gives the same document back.
