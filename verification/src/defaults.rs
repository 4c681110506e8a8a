//! The calibrated coefficients (Qwen2.5-7B, GB300): the one place that they are written in.
//!
//! The times are binary64 bit patterns; the decimal that each stands for is given beside it.
use vstd::prelude::*;

verus! {

pub const KV_BYTES_PER_TOKEN: usize = 57344;

/// The block size in use until one is learned for a model.
pub const BLOCK_SIZE: usize = 64;

/// 14.8 ms.
pub const COMPUTE_OVERHEAD_MS: u64 = 0x402d_9999_9999_999a;

/// 0.00464 ms per token.
pub const COMPUTE_SLOPE_MS: u64 = 0x3f73_0164_840e_171a;

/// 4.75e-7 ms per token squared.
pub const COMPUTE_QUAD_MS: u64 = 0x3e9f_e070_17c0_1026;

/// 14.9 ms.
pub const LOAD_OVERHEAD_MS: u64 = 0x402d_cccc_cccc_cccd;

/// 0.215 ms.
pub const L3_READ_OVERHEAD_MS: u64 = 0x3fcb_851e_b851_eb85;

/// 0.000937 ms per token.
pub const L3_READ_PER_TOKEN_MS: u64 = 0x3f4e_b420_2d9c_f13d;

/// In blocks.
pub const BALANCING_THRESHOLD: u32 = 4;

} // verus!
