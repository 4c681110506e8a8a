//! The estimate of a request's time to first token on one worker.
use crate::binary64::Binary64;
use crate::config::KvCentricConfig;
use crate::policy::KvCentricPolicy;
use vstd::prelude::*;

verus! {

/// The estimated cost of a request on one worker, and what it is made of.
#[derive(Clone, Copy, Debug)]
pub struct TtftEstimate {
    pub ttft_ms: Binary64,
    pub compute_ms: Binary64,
    pub transfer_ms: Binary64,
    /// Requests in the worker's batch, this one counted in.
    pub concurrency: usize,
    pub local_cached_blocks: u32,
    /// Tokens whose cache entries are pulled from the store.
    pub pulled_tokens: usize,
    /// Tokens that are computed anew.
    pub new_tokens: usize,
}

/// `a - b`, or 0 where `b` is the larger.
pub open spec fn excess(a: int, b: int) -> nat {
    if a > b {
        (a - b) as nat
    } else {
        0
    }
}

impl KvCentricConfig {
    /// The compute time of `n` tokens where the request runs alone.
    pub open spec fn isolated_ms(self, n: nat) -> Binary64 {
        let tokens = Binary64::of_natural(n);
        self.compute_overhead_ms.sum(self.compute_slope_ms.product(tokens)).sum(
            self.compute_quad_ms.product(tokens).product(tokens),
        )
    }

    /// The compute time of `n` tokens in a serialized batch of `c` requests.
    pub open spec fn serialized_ms(self, c: nat, n: nat) -> Binary64 {
        self.load_overhead_ms.sum(
            self.compute_slope_ms.product(Binary64::of_natural(c)).product(Binary64::of_natural(n)),
        )
    }

    /// The compute time of `n` tokens at concurrency `c`.
    pub open spec fn compute_ms(self, c: nat, n: nat) -> Binary64 {
        self.isolated_ms(n).larger(self.serialized_ms(if c < 1 { 1 } else { c }, n))
    }

    /// The time that pulling `n` tokens from the store takes.
    pub open spec fn l3_read_ms(self, n: nat) -> Binary64 {
        if n == 0 {
            Binary64 { bits: 0 }
        } else {
            self.l3_read_overhead_ms.sum(
                self.l3_read_per_token_ms.product(Binary64::of_natural(n)),
            )
        }
    }

    /// The estimate where the local prefix alone is used.
    pub open spec fn local_estimate(
        self,
        prompt_tokens: nat,
        local_cached_blocks: u32,
        queue_depth: nat,
        block_size: nat,
    ) -> TtftEstimate {
        let c = queue_depth + 1;
        let fresh = excess(prompt_tokens as int, local_cached_blocks * block_size);
        TtftEstimate {
            ttft_ms: self.compute_ms(c, fresh),
            compute_ms: self.compute_ms(c, fresh),
            transfer_ms: Binary64 { bits: 0 },
            concurrency: c as usize,
            local_cached_blocks,
            pulled_tokens: 0,
            new_tokens: fresh as usize,
        }
    }

    /// The estimate where the rest of the best prefix in the cluster is pulled from the store.
    pub open spec fn pull_estimate(
        self,
        prompt_tokens: nat,
        local_cached_blocks: u32,
        best_cached_blocks: u32,
        queue_depth: nat,
        block_size: nat,
    ) -> TtftEstimate {
        let c = queue_depth + 1;
        let pulled = excess(
            best_cached_blocks * block_size,
            local_cached_blocks * block_size,
        );
        let fresh = excess(prompt_tokens as int, best_cached_blocks * block_size);
        TtftEstimate {
            ttft_ms: self.compute_ms(c, fresh).sum(self.l3_read_ms(pulled)),
            compute_ms: self.compute_ms(c, fresh),
            transfer_ms: self.l3_read_ms(pulled),
            concurrency: c as usize,
            local_cached_blocks,
            pulled_tokens: pulled as usize,
            new_tokens: fresh as usize,
        }
    }

    /// The best prefix in the cluster is far enough ahead of the local one to be looked at.
    pub open spec fn worth_a_pull(self, local_cached_blocks: u32, best_cached_blocks: u32) -> bool {
        best_cached_blocks > local_cached_blocks + self.balancing_threshold
    }

    /// The estimate of a request: with a pull where that is looked at and cheaper.
    pub open spec fn estimate(
        self,
        prompt_tokens: nat,
        local_cached_blocks: u32,
        best_cached_blocks: u32,
        queue_depth: nat,
        block_size: nat,
    ) -> TtftEstimate {
        let local = self.local_estimate(prompt_tokens, local_cached_blocks, queue_depth, block_size);
        let pull = self.pull_estimate(
            prompt_tokens,
            local_cached_blocks,
            best_cached_blocks,
            queue_depth,
            block_size,
        );
        if self.worth_a_pull(local_cached_blocks, best_cached_blocks) && pull.ttft_ms.lt(
            local.ttft_ms,
        ) {
            pull
        } else {
            local
        }
    }
}

impl KvCentricPolicy {
    /// Load-aware compute time: the larger of the cost of a request that runs alone, which
    /// attention bounds, and of the cost in a serialized batch, which concurrency multiplies. The
    /// wait in the queue is absorbed here.
    pub fn t_compute(&self, concurrency: usize, new_tokens: usize) -> (r: Binary64)
        ensures
            r == self.config.compute_ms(concurrency as nat, new_tokens as nat),
    {
        let n: Binary64 = Binary64::from_usize(new_tokens);
        let c: Binary64 = Binary64::from_usize(if concurrency < 1 { 1 } else { concurrency });
        let isolated: Binary64 = self.config.compute_overhead_ms.plus(
            self.config.compute_slope_ms.times(n),
        ).plus(self.config.compute_quad_ms.times(n).times(n));
        let serialized: Binary64 = self.config.load_overhead_ms.plus(
            self.config.compute_slope_ms.times(c).times(n),
        );
        isolated.max(serialized)
    }

    /// The time that pulling `cached_tokens` from the store takes.
    pub fn t_l3_read(&self, cached_tokens: usize) -> (r: Binary64)
        ensures
            r == self.config.l3_read_ms(cached_tokens as nat),
    {
        if cached_tokens == 0 {
            return Binary64 { bits: 0 };
        }
        self.config.l3_read_overhead_ms.plus(
            self.config.l3_read_per_token_ms.times(Binary64::from_usize(cached_tokens)),
        )
    }

    /// Estimates the time to first token of a prompt on a worker that holds
    /// `local_cached_blocks` of its prefix and has `queue_depth` requests in flight, where the
    /// best match in the cluster is `best_cached_blocks`, which the store makes available to all.
    pub fn estimate_ttft(
        &self,
        prompt_tokens: usize,
        local_cached_blocks: u32,
        best_cached_blocks: u32,
        queue_depth: usize,
        block_size: usize,
    ) -> (r: TtftEstimate)
        requires
            queue_depth < usize::MAX,
            local_cached_blocks * block_size <= usize::MAX,
            self.config.worth_a_pull(local_cached_blocks, best_cached_blocks) ==> best_cached_blocks
                * block_size <= usize::MAX,
        ensures
            r == self.config.estimate(
                prompt_tokens as nat,
                local_cached_blocks,
                best_cached_blocks,
                queue_depth as nat,
                block_size as nat,
            ),
    {
        // This request joins the running batch.
        let concurrency: usize = queue_depth + 1;
        assert(u32::MAX <= usize::MAX);
        let local_cached_tokens: usize = (local_cached_blocks as usize) * block_size;

        // Use the local prefix only, and compute the rest.
        let new_local: usize = prompt_tokens.saturating_sub(local_cached_tokens);
        let compute_local: Binary64 = self.t_compute(concurrency, new_local);
        let local: TtftEstimate = TtftEstimate {
            ttft_ms: compute_local,
            compute_ms: compute_local,
            transfer_ms: Binary64 { bits: 0 },
            concurrency,
            local_cached_blocks,
            pulled_tokens: 0,
            new_tokens: new_local,
        };

        // Pull what the cluster has beyond it, and compute the remainder.
        let reach: u64 = local_cached_blocks as u64 + self.config.balancing_threshold as u64;
        if best_cached_blocks as u64 > reach {
            let best_cached_tokens: usize = (best_cached_blocks as usize) * block_size;
            let pull_tokens: usize = best_cached_tokens.saturating_sub(local_cached_tokens);
            let new_pull: usize = prompt_tokens.saturating_sub(best_cached_tokens);
            let compute_pull: Binary64 = self.t_compute(concurrency, new_pull);
            let transfer_pull: Binary64 = self.t_l3_read(pull_tokens);
            let ttft_pull: Binary64 = compute_pull.plus(transfer_pull);
            if ttft_pull.less_than(local.ttft_ms) {
                return TtftEstimate {
                    ttft_ms: ttft_pull,
                    compute_ms: compute_pull,
                    transfer_ms: transfer_pull,
                    concurrency,
                    local_cached_blocks,
                    pulled_tokens: pull_tokens,
                    new_tokens: new_pull,
                };
            }
        }
        local
    }
}

} // verus!
