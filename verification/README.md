# mirzam

The decisions behind `mirzam`, a Markdown slide renderer, as a library
whose every function is proved against its contract with Verus.

- `src/` is the library. Each module states what it decides with spec
  functions over sequences and maps, and proves its code against them:
  BibTeX and citations (`cite`), the animation and annotation mini-languages
  (`anim`, `annot`), charts' tables (`chart`), the language server's framing,
  session and positions (`lsp`), the DevTools WebSocket and base64 (`cdp`),
  PNG writing, reading a PDF image's colour space and packing its samples
  into a PNG (`image`), which page a quote check settles on (`quotes`), SVG
  culling (`svg`), PDF `/ToUnicode` CMaps (`cmap`), the agent skill's stamp
  (`skill`), and the command line's flags (`cli`).
- Calls into `flate2` and into the standard library where Verus gives no
  specification go through small trusted wrappers; each says in its doc
  comment what it claims of the call.
- `tests/` runs the library on concrete inputs.
- `app/` is the `mirzam` program: arguments, files, standard input and
  output, and the reading of a PDF's image objects with `lopdf`. Rendering
  a deck needs the renderer crates, which this build does not carry.
