# sputnik, verified

The core of a small web browser engine, written in Verus: every function of
the library carries a contract that Verus proves.

## Layout

- `src/arena_tree.rs`: a tree whose nodes live in one vector.
- `src/dom/`: the document object model. Nodes sit in an arena and refer to
  each other by handle; `node.rs` holds the tree links and the mutation
  algorithms (pre-insertion validity, insert, append, adopt), `tree_order.rs`
  the relations between two nodes (ancestor, child, tree order), `ranges/`
  boundary points and ranges, `dom_exception.rs` the DOM exceptions.
- `src/html_tokenizer.rs`: the HTML tokenizer, a state machine whose steps are
  specified by a model of the tokenizer state.
- `src/css_tokenizer.rs`: the CSS tokenizer.
- `src/tree_construction.rs`: the stack of open elements and the list of
  active formatting elements.
- `src/parser.rs`: the HTML parser. Each insertion mode has a spec function
  that says what it does with a token; `parse` is specified as a run of rounds
  in which the tokenizer emits a token and the parser handles it.
- `src/render_tree.rs`: the render tree built from a DOM.
- `app/main.rs`: a command-line driver that reads an HTML file, parses it and
  prints the DOM tree, or reads a CSS file and prints its tokens.
- `tests/`: tests of the library on concrete inputs.

## The node arena

The DOM keeps its nodes in a vector of its own (`src/dom/arena.rs`) and links
them by index handles, where an arena allocator with shared references and
interior mutability (`Cell`, `RefCell`) would be usual in Rust. Verus does not
reason about interior mutability or about references stored in the nodes
themselves, so the links are plain indices into one vector, whose tree
invariant (`tree_wf`) the proofs maintain.
