# aptosdb

A Verus-verified library with two parts:

- `peer_monitoring_config`: the peer monitoring service configuration and
  its defaults.
- The state Merkle node database of the Jellyfish Merkle tree:
  - `node_type`: hashes, nibble paths, node keys and nodes, and the key order
    of the node schema.
  - `node_store`: the node column family as an ordered store with point reads,
    writes and forward and backward seeks.
  - `node_cache`: the cache of nodes written by recent versions and the
    least-recently-used cache of nodes read from the store.
  - `schema_db`: the column families and the schema batches committed to them.
  - `state_merkle_db`: the database with its caches. It covers reads through
    the caches, leaf counts, snapshot versions, rightmost leaves, node batch
    writes and turning a tree update into a schema batch.
  - `tree_laws`: the snapshot version and rightmost-leaf laws for well-formed
    trees.

`app/` holds the serde forms of the configuration types, which convert to and
from the library's types.

Not held here: the state Merkle database's forwards into the Jellyfish
Merkle tree crate (`get_with_proof_ext`, `get_range_proof`, `get_root_hash`,
`batch_put_value_set`). That crate, and the Aptos crypto, types and schema
database crates the node database builds on, belong to the Aptos workspace
and are not available as dependencies. `merklize_value_set` therefore takes
the tree update and its new root hash as arguments. The schema database
itself is modelled in `schema_db` and `node_store`.
