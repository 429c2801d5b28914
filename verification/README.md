# rendering

Rendering of Markdown pages to HTML, verified with Verus.

- `src/` is the library.
  - `markdown` renders a page: from its Markdown to its HTML, its summary, its table of contents and
    its links.
  - `cmark` holds the events of a document and the calls into `pulldown_cmark`.
  - `transform` is the pass over the events in which code, links and shortcodes get their final form.
  - `headings` finds the headings, gives them ids and anchor links.
  - `links` tells links apart and gives them their destinations.
  - `code_block` reads the info strings of code blocks and writes the tables that show code.
  - `syntaxes` chooses syntaxes and highlights code with `syntect`.
  - `context`, `error` and `text` are what the others share.
- `tests/` runs the library with the crates that it calls.
- `app/` puts a site around the renderer: its syntaxes and themes from dumps, and its templates.

What the library takes on trust is said where it is declared: the functions marked
`#[verifier::external_body]` each make one call into another crate, and their comments say what is
claimed of it.
