# crdt-lib

State-based conflict-free replicated data types, written in Verus: every
operation carries a contract, and the merge of each type is proved to be a
commutative, associative and idempotent join of its abstract state. The
proofs name their conditions: lawful equality, order and clone on the
register's and the set's element types, and valid texts whose shared ids
name the same characters.

- `src/clock.rs`: Lamport timestamps and clocks.
- `src/counter.rs`: grow-only and positive-negative counters.
- `src/register.rs`: last-writer-wins register.
- `src/set.rs`: observed-remove set with add-wins semantics.
- `src/text.rs`, `src/arrangement.rs`: replicated growable array for text, and
  the tree layout (parent first, later siblings first) that orders it.
- `src/node.rs`, `src/command.rs`, `src/protocol.rs`: the state of a demo
  peer, the commands of its prompt, and the framing of its messages.
- `src/entries.rs`: facts about walking the entries of an ordered map.
- `app/`: the demo peer itself (TCP gossip with `tokio`, `bincode` payloads,
  `clap` arguments), built on the library.
- `tests/`: tests of the library on concrete values.
