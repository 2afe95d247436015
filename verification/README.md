# cargo_refactor_lib

Renames or moves a Rust item across the `.rs` files of a directory: every
`use` declaration and every path in the code that names the item by its
fully qualified path is rewritten, and, once a rename has bound the short
name through a `use`, paths that start with the old short name follow too.

The library in `src/` is written in Verus and carries its proofs:

- `path.rs`: the path model (`RustPath`), parsing and printing, with the
  laws that `parse` and `to_string` undo each other.
- `rename.rs`: the rename or move request.
- `use_tree.rs`: the model of a `use` tree and its flattening into entries.
- `rebuild.rs`: rebuilding a `use` tree from entries, grouping shared
  segments; the shape of the tree, the entries it imports and their order
  are proved.
- `rewriter.rs`: the decisions for `use` trees and for paths in the code,
  and their order within a file (every `use` tree before any path),
  with the laws that relate them.
- `text.rs`: the line summary of a rewritten file.
- `file.rs`, `report.rs`: the outcome of one file and the counts of a run.

`app/` holds the command line, the walk over the directory, the reading and
writing of files, and the traversal of the `syn` syntax tree.
