# filesystem

A verified library for indexing and searching a filesystem tree, with the
workspace state of an assistant application beside it.

- `src/` is the library, written in Verus: the query language (tokenizer,
  parser, optimizer, filters for size, date, type, tags and content), the
  in-memory index (slab of nodes, name index, path lookups, incremental
  updates from watcher events), the search engine that turns a compiled
  query into result sets, the decision loop of the index thread, the cache
  format's keys and freshness rules, and the workspace model (application
  instances, follow-up windows, patches with rollback). Every function
  carries a contract that Verus proves; calls into outside crates go
  through small trusted wrappers whose contracts are stated in their doc
  comments.
- `app/` is ordinary Rust around it: walking the disk, watching it,
  reading and writing cache files, running the index threads, reading
  configuration and extended attributes.
- `tests/` exercises the library from outside.
