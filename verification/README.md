# stateless

A verified library for stateless block validation in subblocks. A block is split into ranges of
block access list (BAL, EIP-7928) indices; a worker executes each range, and an aggregator combines
what the workers committed to and checks the final state root.

- `subblock::worker`: the stages of a worker, from the check of its range to its output.
- `subblock::aggregator`: the checks on ranges and gas, the combination of outputs, and the stages of
  the aggregator up to the block hash, the comparison of the BAL's hash among them.
- `subblock::bal_validation`: whether an execution did what the block access list records.
- `subblock::host`: what a host is asked between the stages, and its answers.
- `subblock::bal_state`: the post state of a block, from its access list and the pre-state.
- `subblock::laws`: what holds of workers and aggregator together, such as that splitting a block
  and combining it again gives the block back.
- `bal`, `header`, `receipt`: block access lists and their hash, ancestor headers, receipts and their
  bloom.
- `flat_witness`, `witness`, `bytecode`: the flat execution witness and what is recorded for it.
- `runner`: what the command-line test runner does with its arguments.
- `map`, `primitives`, `hash`, `error`: what the others rest on.

Signer recovery, the sparse trie, the executor and consensus validation are not part of the library.
A host does that work, through the traits of `subblock::host`; the contracts say what it is asked and
what follows from each answer. `app/` holds the command line, the wire formats and the conversions to
the types of `alloy` and `revm`.
