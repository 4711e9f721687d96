# Execution receipts

A feed of execution receipts for clients that follow a chain block by block, while blocks are still
being built.

A subscription starts at a canonical anchor block. From there on it delivers the receipts of every
block above the anchor, in execution order, each exactly once: those of pending blocks as soon as
they are executed, those of canonical blocks as far as they are still missing. A block is sealed when
it is canonical and all of it was delivered. Whatever cannot be reconciled with what was delivered
ends the subscription, and the client starts over.

## Layout

- `src/` is the library, verified with Verus. It does no input or output.
  - `ledger` states the ordering rules over mathematical maps; `sequence` runs them.
  - `client` and `laws` prove what the rules promise: a client that takes every event in order is
    never out of step.
  - `recovery` reads back canonical blocks whose notification was missed.
  - `session` states the course of a subscription from signal to action; `subscription` runs it.
  - `snapshot` and `receipt` hold blocks and receipts as plain values, compare and measure them.
  - `convert`, `wire`, `params` and `identity` are about what is received from and sent to clients.
- `app/` registers the subscription with a JSON-RPC server and carries out what the library asks
  for, in a node that implements the trait in `app/node.rs`.
- `tests/` runs the library.

## What is trusted

The contracts of the functions marked `external_body` are not proved: the memory size of a receipt
without its logs, which `alloy-consensus` measures, and the parsing of request parameters, which
`jsonrpsee-types` does. Each of them says what it claims.
