# NeuralFS

A learned file finder and a copy-on-write, content-addressed filesystem, with its
logic verified by Verus.

- `src/` is the verified library: the block store and its data log, the
  copy-on-write tree with snapshots and garbage collection, the RAM cache, the
  file index and the search, the sampling and the features of the classifier, the
  answers of the daemon, and the bookkeeping of the two mounts.
- `app/` is ordinary Rust around it: disks, sockets, the FUSE and WinFsp
  bindings, the floating-point part of the classifier. Run as `nfs` it is the
  client, under any other name the daemon.
- `tests/` runs the library, with the data log held in memory.

What the library takes from other crates (BLAKE3 digests, base64, the linked hash
map and the LRU cache of `hashlink`) stands behind small wrappers, each with a
comment that says what it relies on.

The laws that span several operations are public proof functions whose names
begin with `law_`: that a read gives back what was written, that a rollback
restores a snapshot, that garbage collection keeps every reachable block, and so
on.
