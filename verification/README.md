# ydcli

A command-line client for the Youdao dictionary (dict.youdao.com), with its
page reader verified in Verus.

- `src/text.rs` — character-sequence primitives (search, whitespace words,
  joining, slicing) and their mathematical definitions.
- `src/html.rs` — the HTML engine: `find_tags` (same-name nesting),
  `attr_matches`, `strip_html`, with laws on nesting, found pieces and
  whitespace collapsing.
- `src/color.rs` — ANSI colours and `styled`.
- `src/http.rs` — URL encoding, the GET request text and the response body;
  the socket work is done by the command.
- `src/model.rs` — paraphrases, pronunciations, word forms and examples read
  from English and Chinese result pages.
- `src/english.rs` — the English-page readers exported at the crate root, and
  the full text printed for a word.
- `src/render.rs` — what each part prints.
- `app/main.rs` — the command: arguments, the TCP request, printing.
