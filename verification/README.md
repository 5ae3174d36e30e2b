# mcfc

Parts of the toolchain of MCFC, a small language that compiles to
Minecraft data packs, and `mcfd`, the helper service that answers a pack's
requests. The library under `src/` is written in Verus: each function
states what it does in its contract, and Verus proves the code meets it.

The library holds the lexer, diagnostics, declaration lowering, editor
offset maps, the command line's parsing and project templates, the mcdoc
schema builder and the `mcfd` protocol and handlers. The language's
parser, type checker, optimiser and code generator are not part of it:
only the code generator's text-level helpers are.

Layout:

- `src/lexer.rs`, `src/ast.rs`, `src/diagnostics.rs`: tokens, syntax tree,
  source positions and rendered diagnostics.
- `src/analysis.rs`: the byte-offset map between shown and normalised text,
  and editor lookups.
- `src/compiler.rs`: declaration lowering, project source merging, output
  paths.
- `src/backend.rs`, `src/ir.rs`: the text-level helpers of the code
  generator (slots, storage paths, guards, selectors, macro templates).
- `src/cli.rs`: command-line parsing and project templates.
- `src/mcdoc/`: the mcdoc lexer, parser and schema reducer that build the
  NBT schema snapshot from the vanilla mcdoc tarball.
- `src/mcfd/`: SNBT reading and writing, request routing and the host
  handlers of the helper service.
- `app/`: the `mcfd` program: configuration files, the network service,
  process discovery, and `new`, which writes a new project's files.
- `tests/`: the tests, run against the compiled library.
