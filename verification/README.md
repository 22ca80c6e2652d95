# pawliki

ELIZA-style conversation engines and two course advisers built on them, in
Verus. The library under `src/` is verified; `app/` is the terminal program
around it.

- `text`: character-level text processing (words, phrases, replacement,
  splitting, number parsing), each operation specified by a spec function.
- `script`: the conversation script and its views.
- `rewrite`, `keystack`, `pattern`, `usage`, `engine`: the steps of an
  answer: transforming and splitting the input, the key stack, the patterns a
  decomposition rule expands to, the choice of reassembly rule, and the search
  for a response with its memory.
- `eliza`: the plain ELIZA engine.
- `chatbot`: the first adviser and its catalogue.
- `pawliki`: the second adviser, whose rules look courses up in its catalogue
  (`pawliki::database`, and the earlier `pawliki::db`).

`app/` reads scripts and catalogues from JSON, runs the conversation loop, and
chooses the second adviser's fallback statements by word-vector similarity.
