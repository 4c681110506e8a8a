//! The coefficients of the cost model, and the overrides that retune them at start-up.
use crate::binary64::Binary64;
use crate::defaults;
use vstd::prelude::*;

verus! {

/// The environment variable that names the file of coefficient overrides. The values in that
/// file replace the compiled or command-line ones at start-up, so that the cost model can be
/// retuned without a build.
pub const OVERRIDE_ENV: &'static str = "SMG_KV_CENTRIC_CONFIG";

/// The coefficients of the cost model
///
/// ```text
/// TTFT = T_compute(c, n_uncached) + T_l3_read(n_pulled)
/// T_compute(c, n) = max( compute_overhead_ms + compute_slope_ms*n + compute_quad_ms*n^2,
///                        load_overhead_ms + compute_slope_ms*c*n )
/// T_l3_read(n)    = l3_read_overhead_ms + l3_read_per_token_ms*n
/// ```
///
/// where `c` is the worker's concurrency, this request counted in. The wait in its queue is a
/// part of `T_compute`: under continuous batching contention shows in the forward pass.
#[derive(Clone, Debug)]
pub struct KvCentricConfig {
    /// KV cache bytes per token.
    pub kv_bytes_per_token: usize,
    /// The block size in use for a model of which none has been learned yet.
    pub block_size: usize,
    /// Overhead of a request that runs alone (ms).
    pub compute_overhead_ms: Binary64,
    /// Compute cost per token (ms), which concurrency multiplies.
    pub compute_slope_ms: Binary64,
    /// Attention cost per token squared (ms), of a request that runs alone.
    pub compute_quad_ms: Binary64,
    /// Overhead of a serialized batch (ms).
    pub load_overhead_ms: Binary64,
    /// Fixed cost of one pull from the store (ms).
    pub l3_read_overhead_ms: Binary64,
    /// Cost per token pulled from the store (ms).
    pub l3_read_per_token_ms: Binary64,
    /// A remote prefix is worth a look only where it exceeds the local one by more than this
    /// many blocks.
    pub balancing_threshold: u32,
}

/// Replacements for some of the coefficients; what is `None` stays as it is.
#[derive(Clone, Debug)]
pub struct KvCentricOverrides {
    pub kv_bytes_per_token: Option<usize>,
    pub block_size: Option<usize>,
    pub compute_overhead_ms: Option<Binary64>,
    pub compute_slope_ms: Option<Binary64>,
    pub compute_quad_ms: Option<Binary64>,
    pub load_overhead_ms: Option<Binary64>,
    pub l3_read_overhead_ms: Option<Binary64>,
    pub l3_read_per_token_ms: Option<Binary64>,
    pub balancing_threshold: Option<u32>,
}

/// What came of reading an override file.
#[derive(Debug)]
pub enum OverrideFile {
    /// The file could not be read.
    Unreadable,
    /// The file was read and does not hold overrides.
    Malformed,
    /// The overrides that the file holds.
    Overrides(KvCentricOverrides),
}

/// The value in force: the override where there is one.
pub open spec fn in_force<T>(replacement: Option<T>, present: T) -> T {
    match replacement {
        Some(v) => v,
        None => present,
    }
}

/// The later of two replacements, where it is one.
pub open spec fn later_or<T>(earlier: Option<T>, later: Option<T>) -> Option<T> {
    match later {
        Some(v) => Some(v),
        None => earlier,
    }
}

/// The characters with the Unicode property White_Space.
pub open spec fn white_space(c: char) -> bool {
    let n = c as u32;
    ||| 0x09 <= n <= 0x0d
    ||| n == 0x20
    ||| n == 0x85
    ||| n == 0xa0
    ||| n == 0x1680
    ||| 0x2000 <= n <= 0x200a
    ||| n == 0x2028
    ||| n == 0x2029
    ||| n == 0x202f
    ||| n == 0x205f
    ||| n == 0x3000
}

/// A text without the white space at its two ends.
pub open spec fn trimmed(s: Seq<char>) -> Seq<char>
    decreases s.len(),
{
    if s.len() > 0 && white_space(s.first()) {
        trimmed(s.drop_first())
    } else if s.len() > 0 && white_space(s.last()) {
        trimmed(s.drop_last())
    } else {
        s
    }
}

/// The file that the value of `OVERRIDE_ENV` names: none where the variable is unset or blank.
pub open spec fn named_file(var: Option<Seq<char>>) -> Option<Seq<char>> {
    match var {
        Some(s) => if trimmed(s).len() == 0 {
            None
        } else {
            Some(trimmed(s))
        },
        None => None,
    }
}

/// The view of an optional text.
pub open spec fn optional_text(var: Option<&str>) -> Option<Seq<char>> {
    match var {
        Some(s) => Some(s@),
        None => None,
    }
}

/// Calls `str::trim`, which leaves off the leading and the trailing characters that have the
/// Unicode property White_Space.
#[verifier::external_body]
fn trim(s: &str) -> (r: &str)
    ensures
        r@ == trimmed(s@),
{
    s.trim()
}

/// The path of the override file, given the value of `OVERRIDE_ENV`: the value without the white
/// space round it, where anything is left of it.
pub fn override_path(var: Option<&str>) -> (r: Option<&str>)
    ensures
        optional_text(r) == named_file(optional_text(var)),
{
    match var {
        Some(s) => {
            let path: &str = trim(s);
            if path.is_empty() {
                None
            } else {
                Some(path)
            }
        },
        None => None,
    }
}

impl Default for KvCentricConfig {
    fn default() -> (r: Self)
        ensures
            r.kv_bytes_per_token == defaults::KV_BYTES_PER_TOKEN,
            r.block_size == defaults::BLOCK_SIZE,
            r.compute_overhead_ms.bits == defaults::COMPUTE_OVERHEAD_MS,
            r.compute_slope_ms.bits == defaults::COMPUTE_SLOPE_MS,
            r.compute_quad_ms.bits == defaults::COMPUTE_QUAD_MS,
            r.load_overhead_ms.bits == defaults::LOAD_OVERHEAD_MS,
            r.l3_read_overhead_ms.bits == defaults::L3_READ_OVERHEAD_MS,
            r.l3_read_per_token_ms.bits == defaults::L3_READ_PER_TOKEN_MS,
            r.balancing_threshold == defaults::BALANCING_THRESHOLD,
    {
        KvCentricConfig {
            kv_bytes_per_token: defaults::KV_BYTES_PER_TOKEN,
            block_size: defaults::BLOCK_SIZE,
            compute_overhead_ms: Binary64 { bits: defaults::COMPUTE_OVERHEAD_MS },
            compute_slope_ms: Binary64 { bits: defaults::COMPUTE_SLOPE_MS },
            compute_quad_ms: Binary64 { bits: defaults::COMPUTE_QUAD_MS },
            load_overhead_ms: Binary64 { bits: defaults::LOAD_OVERHEAD_MS },
            l3_read_overhead_ms: Binary64 { bits: defaults::L3_READ_OVERHEAD_MS },
            l3_read_per_token_ms: Binary64 { bits: defaults::L3_READ_PER_TOKEN_MS },
            balancing_threshold: defaults::BALANCING_THRESHOLD,
        }
    }
}

impl KvCentricOverrides {
    /// No override at all.
    pub open spec fn none() -> Self {
        KvCentricOverrides {
            kv_bytes_per_token: None,
            block_size: None,
            compute_overhead_ms: None,
            compute_slope_ms: None,
            compute_quad_ms: None,
            load_overhead_ms: None,
            l3_read_overhead_ms: None,
            l3_read_per_token_ms: None,
            balancing_threshold: None,
        }
    }

    /// These overrides and then `later`, as one.
    pub open spec fn followed_by(self, later: Self) -> Self {
        KvCentricOverrides {
            kv_bytes_per_token: later_or(self.kv_bytes_per_token, later.kv_bytes_per_token),
            block_size: later_or(self.block_size, later.block_size),
            compute_overhead_ms: later_or(self.compute_overhead_ms, later.compute_overhead_ms),
            compute_slope_ms: later_or(self.compute_slope_ms, later.compute_slope_ms),
            compute_quad_ms: later_or(self.compute_quad_ms, later.compute_quad_ms),
            load_overhead_ms: later_or(self.load_overhead_ms, later.load_overhead_ms),
            l3_read_overhead_ms: later_or(self.l3_read_overhead_ms, later.l3_read_overhead_ms),
            l3_read_per_token_ms: later_or(self.l3_read_per_token_ms, later.l3_read_per_token_ms),
            balancing_threshold: later_or(self.balancing_threshold, later.balancing_threshold),
        }
    }
}

impl Default for KvCentricOverrides {
    fn default() -> (r: Self)
        ensures
            r == KvCentricOverrides::none(),
    {
        KvCentricOverrides {
            kv_bytes_per_token: None,
            block_size: None,
            compute_overhead_ms: None,
            compute_slope_ms: None,
            compute_quad_ms: None,
            load_overhead_ms: None,
            l3_read_overhead_ms: None,
            l3_read_per_token_ms: None,
            balancing_threshold: None,
        }
    }
}

impl KvCentricConfig {
    /// This configuration with the overrides in force.
    pub open spec fn overridden(self, o: KvCentricOverrides) -> Self {
        KvCentricConfig {
            kv_bytes_per_token: in_force(o.kv_bytes_per_token, self.kv_bytes_per_token),
            block_size: in_force(o.block_size, self.block_size),
            compute_overhead_ms: in_force(o.compute_overhead_ms, self.compute_overhead_ms),
            compute_slope_ms: in_force(o.compute_slope_ms, self.compute_slope_ms),
            compute_quad_ms: in_force(o.compute_quad_ms, self.compute_quad_ms),
            load_overhead_ms: in_force(o.load_overhead_ms, self.load_overhead_ms),
            l3_read_overhead_ms: in_force(o.l3_read_overhead_ms, self.l3_read_overhead_ms),
            l3_read_per_token_ms: in_force(o.l3_read_per_token_ms, self.l3_read_per_token_ms),
            balancing_threshold: in_force(o.balancing_threshold, self.balancing_threshold),
        }
    }

    /// This configuration with the overrides of a file in force. A file that cannot be read or
    /// understood changes nothing.
    pub open spec fn overridden_by_file(self, file: OverrideFile) -> Self {
        match file {
            OverrideFile::Overrides(o) => self.overridden(o),
            _ => self,
        }
    }

    /// This configuration with the overrides in force of the file that the value of
    /// `OVERRIDE_ENV` names, where it names one.
    pub open spec fn overridden_by_env(self, var: Option<Seq<char>>, file: OverrideFile) -> Self {
        if named_file(var) is Some {
            self.overridden_by_file(file)
        } else {
            self
        }
    }

    /// Applies the overrides that are there.
    pub fn apply_overrides(&mut self, o: &KvCentricOverrides)
        ensures
            *final(self) == old(self).overridden(*o),
    {
        if let Some(v) = o.kv_bytes_per_token {
            self.kv_bytes_per_token = v;
        }
        if let Some(v) = o.block_size {
            self.block_size = v;
        }
        if let Some(v) = o.compute_overhead_ms {
            self.compute_overhead_ms = v;
        }
        if let Some(v) = o.compute_slope_ms {
            self.compute_slope_ms = v;
        }
        if let Some(v) = o.compute_quad_ms {
            self.compute_quad_ms = v;
        }
        if let Some(v) = o.load_overhead_ms {
            self.load_overhead_ms = v;
        }
        if let Some(v) = o.l3_read_overhead_ms {
            self.l3_read_overhead_ms = v;
        }
        if let Some(v) = o.l3_read_per_token_ms {
            self.l3_read_per_token_ms = v;
        }
        if let Some(v) = o.balancing_threshold {
            self.balancing_threshold = v;
        }
    }

    /// Applies the overrides of a file, given what came of reading it; says whether there were
    /// any to apply.
    pub fn apply_overrides_from_file(&mut self, file: &OverrideFile) -> (applied: bool)
        ensures
            applied == (file is Overrides),
            *final(self) == old(self).overridden_by_file(*file),
    {
        match file {
            OverrideFile::Overrides(o) => {
                self.apply_overrides(o);
                true
            },
            OverrideFile::Unreadable => false,
            OverrideFile::Malformed => false,
        }
    }

    /// Applies the overrides of the file that `OVERRIDE_ENV` names, given the variable's value
    /// and what came of reading that file. Where the variable is unset or blank there is no such
    /// file, and `file` is not looked at.
    pub fn apply_env_overrides(&mut self, var: Option<&str>, file: &OverrideFile) -> (applied: bool)
        ensures
            applied == (named_file(optional_text(var)) is Some && file is Overrides),
            *final(self) == if named_file(optional_text(var)) is Some {
                old(self).overridden_by_file(*file)
            } else {
                *old(self)
            },
            *final(self) == old(self).overridden_by_env(optional_text(var), *file),
    {
        match override_path(var) {
            Some(_) => self.apply_overrides_from_file(file),
            None => false,
        }
    }
}

} // verus!
