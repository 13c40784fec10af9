# directedtype

DirectedType is a layout language: a document of components and element
nodes compiles into a directed acyclic graph of layout variables (the
`x`, `y`, `z`, `width`, `height` and other ports of every node), which is
scheduled in topological order and evaluated into rectangles.

The library in `src/` is written in Verus and verified:

- `lexer`, `token`, `chars`, `span`: the tokens of the language and a lexer
  whose result is stated exactly over the source characters.
- `parser`: a recursive-descent parser; `parser::grammar` states how a
  syntax tree reads the token stream and how a content slot is scanned,
  every parse function promises that its result does, and every parse
  error describes the text at the place it points to. Each parse function
  also states a class of input it succeeds on: expressions as in
  `owed_expr` (literals, names, member accesses, calls, prefix and binary
  operators by precedence, conditionals, parentheses), port, parameter and
  rule lists of such bindings, typed and untyped bindings, element nodes
  whose content slots hold text and inline nodes (`slot_close`), and
  component definitions built from these. It also states which error comes
  for an unclosed slot, an unescaped `{` in text, a token that starts no
  top-level item, and plain text in a component body.
- `compiler::expand`: component expansion into a flat list of nodes,
  proved against a recursive model of the expansion; `compiler::required`
  rejects instances that leave a required parameter unplugged.
- `compiler::tree`: the parent and children links of the expansion.
- `compiler::graph`: the variable graph, with edges recorded at both ends
  and the ambient defaults of the spatial ports (the window's for top
  nodes, the parent's otherwise).
- `compiler::topo`: the scheduler (smallest ready variable first) and
  cycle reports.
- `render::color`: color names and hex colors; `render::clip`: the chain
  of clipping nodes above a node and the shared prefix of two clip stacks.

`app/` holds what works on floating point or talks to the GPU and the
window system: evaluation of the scheduled graph, layout resolution, text
measurement with parley, scene building and rendering with vello, the
interactive viewer (winit) and a standalone rendering testbed.
