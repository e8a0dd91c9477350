# json_joy

Building blocks of JSON CRDTs and operational transformation, with arena
trees and ordered maps, written in Verus: each public function states its
behaviour in `requires` / `ensures` and Verus proves the code meets it.

Layout of `src/`:

- `clock` — logical timestamps and their order.
- `rga` — the replicated growable array (chunks of items, optional id
  index), with its insert and delete stated over a sequence model.
- `nodes` — CRDT nodes: last-write-wins registers and tuples, and the string,
  binary and array nodes built on `rga`.
- `operations` — the operations of a JSON CRDT patch: id, span and name.
- `crdt` — any node of a document as one type, the index from ids to nodes,
  and each node's id, type name and children.
- `equal` — deep comparison of nodes by schema and content, following
  references through the index (for reference chains that end), and shallow
  comparison by metadata.
- `view` — the JSON view of each node, references resolved through the
  index.
- `ot_model`, `ot_laws`, `ot_binary`, `ot_string` — irreversible operational
  transformation on byte and string documents: apply, normalize, compose and
  transform, with the laws relating them.
- `tree` — arena-backed binary trees: the shape that ties links to an
  in-order sequence, traversals, and a debug dump.
- `llrb` — a left-leaning red-black tree over an arena, with its map view and
  invariants (search order, red links leaning left, equal black heights).
- `sorted_map` — an ordered map with positional iterators.
- `str_utils`, `diff_bin` — text diff patches: the cleanups (with their exact
  results and the fact that both texts are kept) and byte strings as text.
- `json_equal`, `json_pretty`, `json_patch`, `verbose`, `print`, `text` —
  JSON deep equality with binary data, single-line pretty printing, JSON
  Patch core types, codec errors, tree dump printers, string helpers.
- `json_walk` — the values of a JSON value in visiting order.
- `patch_json` — JSON Patch operations and their JSON form: paths as JSON
  Pointers (read back exactly), writing and reading every operation, and the
  fact that what is written reads back.

`tests/` runs the library on concrete values.  `app/` holds what Verus does
not take: error types with `std::error::Error`, the callback form of the
walk over `serde_json` values, helpers that use floating point, and the conversion of the
library's JSON values to and from `serde_json` values (also for the JSON
Patch codec).
