# blockstore

A store for a ledger of slots. A slot arrives as shreds, in any order and from several sources;
the store keeps them, tells how far each slot is complete and how the slots chain to each other,
and gives the entries, blocks and transactions of a slot back.

The library under `src/` is written in Verus. Every function states what it returns or changes,
over mathematical models of the columns, and is proved to do so.

- `column`, `types`, `meta`, `records`, `ledger`, `blockstore`: the columns, what they hold, the
  writes that change them, and the store on top.
- `shred`, `shredder`, `entries`: the wire format of shreds, cutting entries into shreds, and
  reading them back.
- `slot_update`, `insertion`, `coding`, `chaining`, `batch`, `insert`: inserting a batch of shreds.
- `slot_entries`, `blocks`, `transactions`, `addresses`, `slots`, `roots`, `repair`: reading.
- `purge`, `opening`, `metrics`, `writing`, `forks`, `fixtures`: everything else.
- `integrity`, `consistency`, `links`: what an insertion leaves in the ledger, and keeps true of it.
- `slot_runs`, `reading_laws`: that a slot gives back the entries of the runs whose shreds were
  inserted, in however many calls and in whatever order they came.
- `laws`, `shred_laws`, `run_laws`, `record_laws`, `address_laws`, `paging_laws`: what else holds
  across operations, such as that an accepted shred is kept as it was sent, that a run is reported
  once, and that the pages of a listing give the whole listing.
- `checks`: tests of the conditions under which a function can be called.

The store works on columns in memory and keeps a journal of what it wrote. The crate under `app/`
puts that journal into RocksDB, loads the columns when a ledger is opened, and adds the clock, the
signals and the files.

Trusted are two calls into `bincode` (in `entries`) and the tree walk of `trees` (in `forks`).
