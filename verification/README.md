# weevil

A small double-entry ledger server in the style of TigerBeetle: clients send
fixed 64-byte messages (account registrations and transfers), the server keeps
account balances in a fixed-size open-addressing table, batches transfers, makes
each batch durable in a write-ahead log before applying it, and rebuilds its
table on start-up from a checkpoint file and the log. Every record carries a
CRC-32 checksum.

The library under `src/` is verified with Verus:

- `crc.rs`: table-driven CRC-32, proved equal to bit-by-bit polynomial division,
  chaining of several slices proved equal to the checksum of their
  concatenation, and every single-bit error proved to change the checksum.
- `layout.rs`, `account.rs`, `transfer.rs`, `transaction.rs`: the little-endian
  layout of every record, encoding and decoding (a record is determined by its
  bytes), and checksum creation and checking.
- `account_cache.rs`: the account table (linear probing over the whole table)
  and the pending batch, both in fixed arrays, committing a batch, checkpoint
  images, and replay of the checkpoint and of the log; committing and replaying
  keep total debits less total credits unchanged.
- `durability.rs`: what survives a restart, stated over any history of
  registrations and commits, with and without a checkpoint: every account named
  by a committed transfer comes back with its balances, and the rebuilt ledger
  is balanced.
- `server.rs`: how a request is read and answered, and the state of a client
  session as reads, answers, commits and writes move it.

`app/` holds the programs: the `mio` event loop with its files and sockets, and
a load-generating client.
