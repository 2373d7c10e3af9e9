# homa_lite

A verified model of liquid staking: accounts mint a liquid currency (LKSM)
against a staking currency (KSM) at the exchange rate of the total staking
currency over the liquid issuance, and ask to redeem liquid currency through
queued redeem requests. Minters and staking currency freed by unbonding are
matched with the requests in the order of their storage keys
(`Twox64Concat` of the account), resuming after the key matched last and
wrapping around once.

Layout of `src/`:

- `arith.rs`: fixed-point rates and per-million fees, computed by `sp-arithmetic`.
- `account.rs`: account ids, storage keys (hashed by `sp-crypto-hashing`), byte order.
- `events.rs`: the events the runtime records.
- `ledger.rs`: the two-currency token ledger, with issuance equal to the sum of balances.
- `queue.rs`: the redeem requests in key order, and the walk from a key.
- `model.rs`: the runtime as spec functions: the rate, the matching plans, each operation.
- `runtime.rs`: the executable runtime, proved to follow `model.rs`.
- `laws.rs`: laws of the exchange rate (restaking, redeeming one request, matching a
  whole plan of requests), of the walk, and of cancelling a request.

`tests/no_fees.rs` runs the economics with no fees; `tests/model.rs` checks
rounding, errors, storage keys and the laws on concrete values.
