# fastring

A consistent hash ring with weighted nodes, top-K replica lookup, batch
lookup and per-node metadata, written in Verus and proved against its
specification.

Each node gets `virtual_nodes * weight` pseudo-random positions on a 64-bit
ring (XXH3 of the node name, `#`, and the position's index in little-endian
order); a key is owned by the first position clockwise from the XXH3 hash
of the key.

## Layout

- `src/hashing.rs` — the XXH3 calls (`xxhash_rust`), behind small trusted
  wrappers, and the spec of key and position hashes.
- `src/ring.rs` — `Ring`: the ordered positions, lookup, replicas, adding
  and removing a node's positions.
- `src/ring_laws.rs` — properties of `Ring` across operations: adding a
  node moves keys only to it, removing a node keeps every other key's
  owner, adding places positions as a stable sort would, adding then
  removing a node restores the ring, replicas start with the owner, are
  distinct, and number `min(count, nodes on the ring)`; no sequence of
  calls changes the number of virtual positions per unit of weight.
- `src/hash_ring.rs` — `HashRing<I>`: registered nodes with weight,
  hostname, port and an attached object of type `I`, on top of a `Ring`.
- `src/hash_ring_laws.rs` — the same properties for `HashRing`, plus: the
  owner of a key is a registered node, adding then removing a node restores
  the ring, membership and size follow the history of adds and removes,
  restoring a ring from its nodes gives back the same nodes, and two rings
  with the same nodes (and no coinciding positions) give the same owners
  and replicas.
- `app/lib.rs` — the Python extension module (PyO3) around `HashRing`.
- `tests/` — scenario tests.
