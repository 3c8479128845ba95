# npurag

On-device semantic search and retrieval-augmented answering over a local
directory, with the logic verified by Verus.

- `src/` is the library. Its functions carry contracts that Verus proves:
  how documents are cut into chunks, what an incremental indexing run does
  with each file it walks, how a question becomes a full-text query, how
  configuration layers are applied, how HTTP requests are routed, authorised
  and have their arguments gathered, how MCP lines are framed and judged, how
  retrieval sizes its candidate pools and fuses rankings, how prompts are laid
  out, and the debouncing that keeps an index fresh. The few calls into other
  crates and into std that have no specification of their own (JSON parsing
  and escaping, BLAKE3, glob matching, Unicode case and classes, lossy UTF-8
  decoding, the data directory, the HTTP client) sit behind small
  `external_body` wrappers whose contracts are trusted, not proved; each
  says in its doc comment what it claims.
- `app/` is the command-line program around it: the SQLite index, the
  filesystem walk and watcher, the HTTP and MCP servers, the inference
  backends, and the floating-point scoring of embeddings and rankings.
- `tests/` runs the library on concrete inputs.
