# miru_dt

Device tree models, parsers and renderers, verified with Verus.

The library reads a device tree from three kinds of input and turns it into
one model (`model::DtNode` inside a `model::LoadResult`):

- `dts_lex` and `dts`: `.dts`/`.dtsi` source. The lexer runs the
  preprocessor subset (`#include`, `/include/`, `#define` with object and
  function macros, `#if`/`#ifdef`/`#elif`/`#else`/`#endif`, `#undef`) and
  records the include graph; the parser merges root blocks, `&label { ... }`
  overrides and deletions into one tree, with the definition and every later
  modification site of each node and property. `pp_expr` evaluates `#if`
  conditions. `dts_prov` proves that every property and every node below
  the root of a parsed source records where it was defined; `cond_chain`
  holds the laws of `#if`/`#elif`/`#else`/`#endif` chains (at most one
  branch active, stray and inactive directives).
- `dtb`: flattened device tree blobs, read into a raw tree.
- `live`: a tree read from `/proc/device-tree`.
- `phandle`: turns a raw tree (from a blob or the live tree) into the
  model, with numeric phandles in reference properties resolved back to
  `&label` or `&{/path}`.
- `render`: the display text of a raw property value.

Files are never read by the library. `dts::parse_dts_file` takes a table of
answers (what a path names, its canonical path and contents) and either
finishes or names the next path the table must answer; the caller fills the
table and calls again. Each public function states its result exactly in its
`ensures` clause, over spec functions that say what the input means
(`dts_lex::lex_spec`, `dts::top_parse`, `dtb::dtb_spec`,
`phandle::collect_spec`, `render::render_spec`, ...).

Layout:

- `src/`: the verified library.
- `tests/`: tests run against the compiled library.
- `app/`: the desktop shell around it (commands, file access, JSON copies of
  the model types).
