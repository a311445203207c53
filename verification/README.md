# consensus

The core of a two-layer Byzantine fault tolerant consensus protocol: every
authority runs its own HotStuff-style chain, and when the leader chain stalls
the authorities agree, with an asynchronous binary agreement (ABA) driven by a
threshold common coin, on the height where the leader chain is cut before the
next epoch starts.

The library in `src/` is verified with Verus; its functions carry contracts
over mathematical models of the protocol state.

- `config.rs`: the committee, its stakes and thresholds.
- `crypto.rs`: digests, keys, ed25519 signatures, threshold coin shares, and
  keys as base64 text. The calls into `ed25519-dalek`, `threshold_crypto`,
  `base64`, `bincode` and `rand` stand behind trusted items.
- `messages.rs`: blocks, votes, QCs, timeouts, TCs, ABA values and proofs, coin
  shares; their digests and checks.
- `aggregator.rs`: gathers votes, timeouts, ABA values and coin shares into
  certificates and coins.
- `protocol.rs`: the chains and the node state: voting, QCs, time-outs and the
  view change, the phases and rounds of the agreement, epochs.
- `commit.rs`: the walk that commits a chain and the blocks it refers to.
- `synchronizer.rs`: indices of authorities, who receives a message, and the
  bookkeeping of blocks asked from other nodes.
- `util.rs`: a small verified map and helpers.

`tests/` exercises the library. `app/` is the node around it: the event loop
on `tokio` channels, the block store, and the network plumbing. The library
decides each step (whether to vote, echo, toss the coin, commit, move on);
`app/` builds the messages that a step calls for with the library's
constructors and sends them.
