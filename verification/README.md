# rgbuilder

The verified core of a code knowledge-graph builder, written in Verus.

- `src/` is the library; every function in it is verified against its
  contract. Modules: graph model (`graph`, `symbols`), graph construction
  and name resolution (`graph_builder`), Markdown extraction (`markdown`),
  configuration-usage detection (`usage_detector`), queries (`query`),
  control flow, dominance and alias analysis (`cfg`, `dominance`, `alias`),
  incremental compaction (`graph_compactor`), string interning (`intern`),
  exports (`export`, `obsidian`, `source_catalog`, `dataflow_export`,
  `function_meta`, `fingerprint`, `dashboard`, `universe_layout`), the
  universe actions and their run protocol (`universe_actions`), CLI
  argument models (`cli`) and tokenizers (`semantic_onnx_tokenizer`).
- Calls into outside crates (`regex`, `uuid`, `blake3`, `pulldown-cmark`,
  `serde_json`) sit behind small trusted wrappers whose contracts are stated
  next to them.
- `tests/` exercises the library on concrete values.
- `app/` is the command-line front end: file and process I/O, JSON
  (de)serialization, and the loop that drives a running action.
