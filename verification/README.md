# fink_site

The site builder of [fink-lang.org](https://fink-lang.org): Markdown pages
with YAML front matter go through Tera templates, Fink code blocks are
syntax-highlighted and get a playground link, and the result is plain
HTML/CSS under `build/`.

The logic of the builder is a library whose functions carry Verus contracts
and are proved against them:

- `src/highlight.rs` — annotations from Fink lexer tokens and syntax trees,
  their resolution into sorted, disjoint spans, and the highlighted HTML.
- `src/markdown.rs` — slugs, the table of contents and the rendering of
  Markdown events (pulldown-cmark) with heading ids and Fink blocks.
- `src/playground.rs` — playground links: deflated source in base 62.
- `src/svg.rs` — SVG renderings of snippets, coloured from the syntax
  stylesheet.
- `src/site.rs` — front matter, output paths, asset and git dependency
  declarations, release checks.
- `src/serve.rs` — URL to file mapping and content types of the dev server.
- `src/text.rs` — character and UTF-8 helpers shared by the modules.

`app/` is the command-line program around the library (file system, HTTP,
templates, image scaling, the Fink lexer and parser); `tests/` holds the
tests.

```sh
cargo run                 # build the site
cargo run -- serve 3000   # build and serve locally
cargo run -- stop         # stop the dev server
cargo run -- svg x.fnk    # SVG rendering of a snippet on stdout
```
