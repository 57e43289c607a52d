# aerial

The core of the Aerial whiteboard, verified with Verus: the `.aras` diagram
language, the layered layout of diagrams, and the bookkeeping of the board.

`src/` is the verified library:

- `ast`, `parser`, `printer`, `roundtrip`: the diagram syntax tree, a parser
  and a printer whose contracts are stated over the same line grammar, and the
  proof that printing a well-formed diagram and parsing the text gives it back.
- `diagram`: giving a node a new display label in diagram source text.
- `graph`: the layout graph (a petgraph `DiGraph`) built from a diagram.
- `sugiyama`, `rows`: longest-path layering with the fallback for cycles, and
  the order of the nodes inside each layer, clustered by group.
- `svg`: XML escaping and the node icons.
- `board`, `tools`: the packets that peers exchange to synchronise boards, the
  element ids, the drawing tools and the dark-mode colours.

`app/` is ordinary Rust around it: the WebAssembly canvas engine, the
floating-point placement and SVG drawing of diagrams, the desktop backend
(board store and asset files) and serializable copies of the syntax tree.
