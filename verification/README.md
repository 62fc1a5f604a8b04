# bustubx (verified core)

The verified core of BustubX, a small relational database for teaching.
`src/` is checked by Verus; `app/` is ordinary Rust around it.

- `src/transaction/`: database-level strict two-phase locking
  (`lock_manager`), transaction id allocation, commit versions and
  first-committer-wins publication (`transaction_manager`, `transaction`),
  and the checksummed full-image commit journal with its recovery scan
  (`recovery`): a commit with a journal hands back its record, which is
  written and synced before the new version is published, and recovery
  of the journal's bytes returns the latest published version.
- `src/execution/`: partitioning of batches for parallel evaluation
  (`parallel`) and the state machines of the Volcano operators
  (`physical_plan`): filter, projection, limit, nested loop join (inner,
  cross and outer), sequential scan over a page chain, and aggregation,
  whose grouping of rows by group id, per chunk and across chunks, is in
  `grouping` (with its laws in `grouping_laws`).
- `src/function/aggregate/`: aggregate kinds and the COUNT and AVG
  accumulators.
- `app/`: worker threads, the journal file, the shared transaction manager,
  the loops that drive the operators, numbering of group keys, the
  floating-point number type of AVG sums, and the SQL line runner.
