# gpui-highlight-input

Highlighting for a single-line gpui input: the application supplies UTF-8
byte ranges of the input's text with a payload each; the input decorates
them and reports hover and click events with the payload.

The library (`src/`, verified with Verus) holds everything that decides:

- `highlight`: `HighlightSpan`, `HighlightSpanError` and `validate_spans`,
  which sorts spans by range and checks them against the text (non-empty,
  in bounds, on character boundaries, no overlap), with its laws: the
  result is a sorted permutation of the input, validation is idempotent
  and does not depend on the order of its input.
- `variables`: the `{{name}}` scanner `spans` and `highlight_spans`, with
  its laws: what it finds is exactly the variables of the text (soundness
  and completeness), always passes validation, and only moves when
  brace-free text is put around it.
- `model`: `HighlightModel`, the spans of an input and the span under the
  pointer, deciding which spans to hit-test for a text offset, when hover
  events are due, what clicks report and what replacing the spans does to
  the hover. What runs on pointer moves allocates nothing but the reported
  payload's clone.
- `text`: UTF-8 byte offsets of characters and Unicode white space.

`app/` is the gpui side: the entity and element that lay text out, test
pixel bounds, draw decorations and emit the events the model decides, and
the playground window.
