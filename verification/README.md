# events_ledger

A ledger of photon event chains. Events are recorded in a tree (`tree::LedgerTree`) while a
simulation runs; the tree can be made into a ledger (`ledger::Ledger`), in which chains are
followed forwards and backwards, and back into a tree.

- `src/` is the library. Every function states what it does and is verified with Verus, except two
  whose contracts are trusted: `par_matching` in `filter` hands its work to rayon, and
  `separate_with_commas` in `text` calls thousands.
  - `uid`, `source`, `sources`: identifiers of events, identifiers and names of sources
  - `maps`, `model`, `node`, `walk`, `reach`, `resolve`: the nodes of trees
  - `tree`, `filter`, `text`, `dot`: trees, and drawings of their chains
  - `ledger`, `convert`, `rebuild`, `ends`, `hexmap`: ledgers, and the way from trees to
    ledgers and back
  - `laws`, `numbering`, `prune`, `roundtrip`: what the operations promise of each other
- `tests/` runs the library.
- `app/` writes ledgers to files and shares trees between threads.

Codes of events are 32-bit numbers; what they stand for is up to the caller.

```text
let mut tree = LedgerTree::new();
let root = tree.root();
let start = root.insert(&mut tree.arena, emission);
let next = start.insert(&mut tree.arena, scattering);
tree.resolve();
let chain = next.get_chain(&tree.arena);
```
