# markdown_it: verified inline links and code spans

A Verus library for the inline part of a Markdown parser: link-like
structures `P[label](destination "title")` with an optional prefix
character (links, images, custom structures), reference links resolved
through link reference definitions, spans delimited by runs of a marker
character (code spans), and the core rule that turns unparsed inline
content of a document tree into inline nodes.

Every function is verified against its `requires`/`ensures` contract.

## Layout

- `src/node.rs`: the syntax tree (`Node`, `NodeValue`) and the predicates
  `node_is_parsed` and `same_tree`.
- `src/parser.rs`: parser configuration (`MarkdownIt`, the inline rules and
  core rules) and link validation.
- `src/parser/inline.rs`: the state of inline parsing, the tokenizer that
  runs the inline rules, and `parse_inline`.
- `src/parser/inline/scan.rs`: the tokenizer as recursive spec functions of
  its control state (position, limit, label-scan and span caches, pending
  text): `rules_from`, `tokenize_ctl`, `link_ctl`, `parse_link_ctl`,
  `label_ctl`, `label_loop`, `code_pair_step`, and the nodes produced,
  `tokens`, `rules_tok`, `link_tok` and `inline_tokens`. The executable
  rules are proved to follow them exactly.
- `src/parser/inline/builtin/inline_parser.rs`: `InlineRoot` and the core
  rule `InlineParserRule` that replaces it.
- `src/generics/inline/full_link.rs`: the link rule, label scanning with a
  cache, and the helpers `parse_link_destination` and `parse_link_title`,
  specified by `link_destination_spec` and `link_title_spec`.
- `src/parser/internals/syntax_base/generics/inline/code_pair.rs`: spans
  between runs of a marker, specified by `span_at`.
- `src/references.rs`: link reference definitions keyed by normalized label.
- `src/common/utils.rs`, `src/common/html_entities.rs`: character and byte
  positions, and unescaping of backslash escapes, numeric character
  references and named character references.

## Positions

Inline parsing works on the characters of the content: `InlineState::pos`
and `pos_max` are character positions. Source positions of nodes
(`Node::srcmap`) are byte offsets in the document. `parse_link_destination`
and `parse_link_title` take and return byte offsets into their `&str`.

## Outside code

- `stacker::maybe_grow` runs the link rule with stack room reserved, since
  link labels are tokenized recursively.
- The table `entities::ENTITIES` gives the characters of named character
  references.
- `mdurl::urlencode::encode` percent-encodes link destinations
  (`normalize_link`) before they are validated and stored.

Their contracts, and those given to a few functions of the standard
library, are stated next to the items that use them and are trusted.
