# fs-transaction

Multi-file filesystem transactions that survive a crash, with their protocols verified in Verus.

A `ChangeSet` stages writes, moves, removals, copies, execute bits and symbolic links, together with
what it expects to find. Applying it lands everything or nothing: a failure reverses every operation
that was applied, and a write-ahead journal covers every half-applied state. An `OrderedBatch` is for
trees in which every prefix of a batch is legal: tiers of writes with barriers between them, and no
journal.

The library touches no storage. Applying a set or a batch hands out one `Request` at a time and is
carried on with the `Reply`:

```rust
let mut apply = changes.apply(&root, atomic);
while let Some(request) = apply.request() {
    let reply = storage.perform(request);
    apply = apply.resume(reply);
}
let outcome = apply.outcome();
```

## Layout

- `src/path.rs`, `src/path_set.rs`: paths below a root, and ordered sets of them.
- `src/port.rs`: what is asked of a storage, and what it answers.
- `src/staging.rs`, `src/change.rs`, `src/ordered.rs`: change sets and batches, and how a batch is
  applied.
- `src/exec.rs`, `src/flush.rs`, `src/undo.rs`, `src/unwind.rs`, `src/journal.rs`, `src/script.rs`,
  `src/apply.rs`: how a change set is applied and undone.
- `src/tree.rs`, `src/atomicity.rs`: what a storage holds, and that a set lands as a whole.
- `src/debts.rs`, `src/durability.rs`: what a storage owes a flush, and that both answers last.
- `src/tiers.rs`: that a batch lands in order, and what of it lasts.
- `src/progress.rs`: that every application comes to an end.
- `app/`: the loops that perform the requests against an asynchronous storage.

## Limits

- One writer at a time. Nothing here locks.
- A set is held in memory, and so is what reverses it.
- A root lives on one filesystem.
- Links are not resolved. Whether a path stays inside the root is judged by its names.
- Where the storage fails to say whether a file is runnable that is removed, moved over or replaced by
  a link, the set goes on. Undone, the file comes back without its execute bit.
- A directory that a set has changed is flushed before the set moves it. It is known by its names: a
  change made through a link to the directory is not seen to be in it, and may not outlive a power
  cut.
- What is said of power cuts is said of paths that name the directory they are in. A single name below
  an empty root does not.
