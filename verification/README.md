# search_preview

Which slice of a text to show for a search query at a given display width, and
where the query matches inside that slice; with the provider of Pi coding agent
sessions. The library is verified with Verus.

- `truncate`, `sanitize`: cutting a text to a width, and cleaning it for one line.
- `normalize`, `literal`, `ranges`: where words and literals match in a text.
- `query`, `highlight`: a query in its parts, and the ranges that it highlights.
- `segments`: one line of a text with context around each match.
- `context_spec`, `evidence`, `context`: a line of context for the matches that a
  preview does not show.
- `text`, `words`, `sorting`: byte offsets, whitespace and sorting.
- `pi`: what the Pi provider is called, which logs are its own, and in which order
  a deletion proceeds.

`app/` holds the file operations around the `pi` module.

Display widths come from the `unicode-width` crate; lower case and the classes of
characters come from the standard library. The functions that call them, and what
is relied on of each, are marked `#[verifier::external_body]` in `truncate` and
`normalize`, and one `assume_specification` in `text` is for `String::push`.
