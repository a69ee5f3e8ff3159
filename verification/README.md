# mini_lsm

Verified pieces of a log-structured merge tree, in Verus.

- `src/key.rs`: keys and their order.
- `src/block.rs`, `src/block/iterator.rs`: the block format and the iterator over a block.
- `src/mem_table.rs`: the sorted table that takes the writes.
- `src/vlog.rs`, `src/vlog/reader.rs`, `src/vlog/laws.rs`: the value log format, the reading of
  entries, the walk over their headers, and what holds of a whole file.
- `src/vlog/checksum.rs`: the checksum of entries.
- `src/codec.rs`: integers as bytes, and the cursor operations of the `bytes` crate.
- `src/error.rs`: what can be wrong with stored bytes.
- `app/lib.rs`: value log files on disk.

The library never touches a file. A read in progress says which bytes it needs; `app/` fetches
them.
