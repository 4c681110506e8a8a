# kv_centric

A KV cache-centric scheduling policy for an LLM gateway: it sends a request to the prefill worker
with the least estimated time to first token,

    TTFT = T_compute(c, n_uncached) + T_l3_read(n_pulled)
    T_compute(c, n) = max( compute_overhead + slope*n + quad*n^2,  load_overhead + slope*c*n )
    T_l3_read(n)    = read_overhead + read_per_token*n

and reserves a prefill slot there, so that the next selection sees it. Where nothing is known of
the caches it takes the least loaded worker. The library is verified with Verus.

- `src/rounding.rs`, `src/binary64.rs`, `src/order.rs`: IEEE 754 binary64 numbers by their bit
  pattern, rounded as the standard says, with comparison, sum, product and conversion. The cost
  model is stated and computed in them, bit for bit.
- `src/defaults.rs`, `src/config.rs`: the coefficients, and the overrides that retune them.
- `src/cost.rs`: the estimate for one worker.
- `src/overlap.rs`: what the KV-event index (crate `kv-index`) says of each worker.
- `src/workers.rs`, `src/policy.rs`: the workers, the choice among them, the reservation.
- `src/laws.rs`: what holds of the policy as a whole.
- `src/concurrent.rs`: selections from several threads at once, step by step under the lock.
- `app/`: files, environment, locks and logging around the library.

Trusted are the calls into `kv-index`, in `src/overlap.rs`, and the one of `str::trim`, in
`src/config.rs`: what each claims stands above it.
