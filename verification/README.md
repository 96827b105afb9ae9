# flyover

Turns a source tree into a tiled, zoomable map: an indexer records every file (language, lines,
content hash, symbols, imports, token spans), a layout stage builds the directory tree, gives
each node the zoom at which it appears, and writes a quadtree tile set.

The library in `src/` is verified with Verus. It holds:

- the tile set formats, each with an encoder, a decoder and a round-trip law: geometry tiles
  (`tile`), layer tiles (`layer`), text tiles and packed token spans (`text`), the path index
  (`paths`), the tile address list (`keys`), and the names of the files of a tile set (`manifest`);
- the indexer's rules: language detection (`language`), the built-in exclusion list for
  vendored and generated code (`exclude`), binary sniffing and line counting
  (`scan`), token classification and span extraction (`tokens`), import cleaning and grammar
  choice (`grammars`), symbols and imports from the parser's query matches (`symbols`), and the
  per-file record (`index`);
- the layout stage's logic: the directory tree with its totals and dominant languages, the zoom
  rules and the visible cut at each zoom (`tree`), the proof that every cut covers each file
  exactly once (`cut`), statistics, categories and colors (`layout`, `palette`);
- the viewer's bookkeeping: tile addresses (`tileset`), the load queue (`loader`), the GPU cache
  ledger with its eviction rule (`cache`), the font atlas header (`font`) and the text grid and
  glyph plan of a file's roof (`textgrid`).

`app/` is the `flyover` command with its `scan`, `index` and `layout` subcommands: argument
handling, the file walk, reading files, SQLite, JSON and the floating-point treemap geometry.
The indexer's per-file decisions (`index::name_verdict`, `is_oversize`, `header_verdict`,
`index_file`), the tree-sitter parse with its queries and leaf walk (`grammars::parse`,
`tokens::leaves_of`), the streamed digest of oversize files (`index::ContentHasher`), the
text tiles of stored files (`text::text_tile_file`) and the tree's size limits
(`tree::check_tree_limits`) are in the library.

Not here: the `view` command and the native viewer it opens (wgpu window, cameras, meshing,
picking, headless screenshots and benchmarks), the font-atlas generator and the web app. The
viewer's bookkeeping that does not touch the GPU or floating point (tile addresses, load queue,
cache ledger, font atlas header, text grid) is in the library; the window and rendering are not.

Outside crates reached from the library go through trusted wrappers, each documented where it
stands: zstd compression and whole-stream decompression (`zstd`), frame decompression
(`ruzstd`), BLAKE3 hashing, one-shot and streamed (`blake3`), tree-sitter and its grammar
crates (`tree-sitter`, `tree-sitter-*`: languages, query compilation, parsing with an optional
time budget, query matches and the nodes of a tree), and `std::path::Path`, `String` and
`char` helpers.
