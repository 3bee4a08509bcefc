# d3l

A reader for 3DL, a small language in which a software design is written as a
package of entities with attributes and methods, and the conversation state of
an assistant that writes such designs with a language model.

- `src/parser/rules.rs` states the 3DL grammar as functions over the characters
  of the text; `src/parser/grammar.rs` holds the design types and the readers
  that build them, each proved to read what its rule says;
  `src/parser/mod.rs` holds `parse`.
- `src/parser/tracking.rs` states which rules each rule records as failed,
  and where; `src/parser/attempts.rs` keeps that record while reading and
  renders a failed parse as pest's error at the furthest failure, with the
  rules expected there.
- `src/parser/laws.rs` and `src/parser/whitespace.rs` prove what holds of every
  text: every name read is an identifier, and whitespace before or after a
  text changes nothing. `src/parser/readings.rs` proves what texts of a given
  shape read as: a package's name and last version, an entity's name and
  scope, a method's name, parameters and return type.
- `src/design_prompter.rs` keeps the messages of a design conversation.
- `app/` is the program around the library: the interactive session, the
  model client and the HTTP client.
