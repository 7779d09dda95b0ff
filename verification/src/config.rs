//! Programmer-owned limits: the bytecode budget and the nesting depth.
use vstd::prelude::*;

verus! {

/// Bytecode output limit used by [`Config::new`] and by `parse_into`.
pub const DEFAULT_OUTPUT_LIMIT: usize = 10240;

/// Nesting depth used by [`Config::new`] and by `parse_into`.
pub const DEFAULT_MAX_DEPTH: u32 = 128;

/// Operator-stack entries a nesting level holds in the worst case: a
/// function frame (two entries) with an additive and a multiplicative
/// operator pending before it, as in `1+2*sin(`. The compiler keeps each
/// entry in one byte of scratch, so a level costs this many bytes.
pub const ENTRIES_PER_LEVEL: usize = 4;

/// Scratch bytes beyond those of the levels.
pub const ENTRY_SLACK: usize = 32;

/// The two limits every compilation is held to.
#[derive(Clone, Copy, Debug, PartialEq, Eq, Structural)]
pub struct Config {
    pub(crate) output_limit: usize,
    pub(crate) max_depth: u32,
}

/// Scratch bytes needed for the operator stack at nesting depth `depth`:
/// four bytes per level plus a fixed slack.
pub open spec fn scratch_len_for(depth: u32) -> int {
    depth as int * ENTRIES_PER_LEVEL as int + ENTRY_SLACK as int
}

/// What [`Config::scratch_len`] returns for `depth`.
pub open spec fn spec_scratch_len(depth: u32) -> usize {
    if scratch_len_for(depth) <= usize::MAX {
        scratch_len_for(depth) as usize
    } else {
        usize::MAX
    }
}

impl Config {
    /// The bytecode budget compilations are held to.
    pub closed spec fn spec_output_limit(&self) -> usize {
        self.output_limit
    }

    /// The nesting depth compilations are held to.
    pub closed spec fn spec_max_depth(&self) -> u32 {
        self.max_depth
    }

    /// The default posture.
    pub closed spec fn spec_default() -> Config {
        Config { output_limit: DEFAULT_OUTPUT_LIMIT, max_depth: DEFAULT_MAX_DEPTH }
    }

    /// The default posture's limits.
    pub proof fn lemma_default()
        ensures
            Config::spec_default().spec_output_limit() == DEFAULT_OUTPUT_LIMIT,
            Config::spec_default().spec_max_depth() == DEFAULT_MAX_DEPTH,
    {
    }

    /// The default posture: 10 KiB of bytecode, nesting depth 128.
    pub fn new() -> (c: Self)
        ensures
            c == Config::spec_default(),
            c.spec_output_limit() == DEFAULT_OUTPUT_LIMIT,
            c.spec_max_depth() == DEFAULT_MAX_DEPTH,
    {
        Config { output_limit: DEFAULT_OUTPUT_LIMIT, max_depth: DEFAULT_MAX_DEPTH }
    }

    /// Set the bytecode output budget.
    pub fn output_limit(self, bytes: usize) -> (c: Self)
        ensures
            c.spec_output_limit() == bytes,
            c.spec_max_depth() == self.spec_max_depth(),
    {
        Config { output_limit: bytes, max_depth: self.max_depth }
    }

    /// Set the maximum nesting depth.
    pub fn max_depth(self, depth: u32) -> (c: Self)
        ensures
            c.spec_max_depth() == depth,
            c.spec_output_limit() == self.spec_output_limit(),
    {
        Config { output_limit: self.output_limit, max_depth: depth }
    }

    pub fn get_output_limit(&self) -> (r: usize)
        ensures
            r == self.spec_output_limit(),
    {
        self.output_limit
    }

    pub fn get_max_depth(&self) -> (r: u32)
        ensures
            r == self.spec_max_depth(),
    {
        self.max_depth
    }

    /// Scratch bytes the compiler needs for its operator stack at this
    /// configuration's depth (saturating at `usize::MAX`, which only a
    /// 32-bit target with an enormous depth can reach).
    pub fn scratch_len(&self) -> (r: usize)
        ensures
            r == spec_scratch_len(self.spec_max_depth()),
    {
        let d: u64 = self.max_depth as u64;
        let bytes: u64 = d * 4 + 32;
        if bytes <= usize::MAX as u64 {
            bytes as usize
        } else {
            usize::MAX
        }
    }
}

impl Default for Config {
    fn default() -> (c: Self)
        ensures
            c == Config::spec_default(),
            c.spec_output_limit() == DEFAULT_OUTPUT_LIMIT,
            c.spec_max_depth() == DEFAULT_MAX_DEPTH,
    {
        Config::new()
    }
}

} // verus!
