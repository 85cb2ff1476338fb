# dzong

An embedded key-value storage engine built on a log-structured merge tree,
with its logic verified by Verus.

- `src/` — the verified library:
  - `common/` keys and values, byte order, text rendering, the error type;
  - `wal/` write-ahead log frames, their reader, the CRC-32 checksum, and the
    laws of the format (records replay in order; damaged checksums, changed
    record bytes and torn frames are caught);
  - `sstable/` records, blocks, index, footer, the table writer and reader,
    and the laws of the format (a lookup finds what was written; a scan
    yields exactly the records written);
  - `db/` the memtable (kept sorted by a type invariant), the engine's
    recovery and LSN assignment, and what reads give back of writes;
  - `manifest/` versions, edits, the version set, and the line framing of
    the manifest's text (a manifest written line by line reads back its lines);
  - `compaction/` the N-way merge, the picker and the worker, with the laws
    that merging sorted runs keeps each key once with its newest record, that
    an input's error is never dropped, that a compacted table holds no delete
    and a lookup in it finds the newest record of its key, that applying a
    compaction's edits removes its inputs and adds its table, and that a
    level-0 compaction keeps the key ranges of level 1 apart.
- `app/` — the file-backed side: log and table files, the JSON manifest,
  the engine over a data directory, and a workload harness.
- `tests/` — tests of the library on concrete values.
