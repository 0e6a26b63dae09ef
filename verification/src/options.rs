//! How a database is opened and maintained.
use vstd::prelude::*;

use crate::error::{self, Error, Result};
use crate::limits::{
    self, Limit, DEFAULT_DIRECTORY_CACHE_BYTES, DEFAULT_L1_WINDOW_SECS, DEFAULT_L2_WINDOW_SECS,
    DEFAULT_SEAL_BYTES, DEFAULT_SEAL_INTERVAL_SECS, DEFAULT_SEAL_MEMORY_BYTES,
    MAX_SEAL_MEMORY_BYTES, MIN_COMPACTION_WINDOW_SECS,
};

verus! {

pub const NANOS_PER_MILLI: u32 = 1_000_000;

pub const NANOS_PER_SEC: u32 = 1_000_000_000;

/// A span of time in seconds and nanoseconds.
#[derive(Clone, Copy, Debug, PartialEq, Eq, Structural)]
pub struct Duration {
    pub secs: u64,
    pub nanos: u32,
}

impl Duration {
    pub open spec fn wf(self) -> bool {
        self.nanos < NANOS_PER_SEC
    }

    /// The whole span in nanoseconds.
    pub open spec fn total_nanos(self) -> int {
        self.secs * NANOS_PER_SEC + self.nanos
    }

    pub fn from_secs(secs: u64) -> (span: Self)
        ensures
            span == (Duration { secs, nanos: 0 }),
            span.wf(),
    {
        Duration { secs, nanos: 0 }
    }

    pub fn from_millis(millis: u64) -> (span: Self)
        ensures
            span.wf(),
            span.total_nanos() == millis * NANOS_PER_MILLI,
    {
        Duration { secs: millis / 1_000, nanos: (millis % 1_000) as u32 * NANOS_PER_MILLI }
    }

    pub fn as_secs(self) -> (secs: u64)
        ensures
            secs == self.secs,
    {
        self.secs
    }

    pub fn subsec_nanos(self) -> (nanos: u32)
        ensures
            nanos == self.nanos,
    {
        self.nanos
    }

    pub fn is_zero(self) -> (zero: bool)
        ensures
            zero == (self.total_nanos() == 0),
    {
        self.secs == 0 && self.nanos == 0
    }

    /// Whether this span is longer than the other.
    pub fn exceeds(self, other: Duration) -> (longer: bool)
        requires
            self.wf(),
            other.wf(),
        ensures
            longer == (self.total_nanos() > other.total_nanos()),
    {
        self.secs > other.secs || (self.secs == other.secs && self.nanos > other.nanos)
    }
}

/// When the log is made durable without being asked.
#[derive(Clone, Copy, Debug, PartialEq, Eq, Structural)]
#[non_exhaustive]
pub enum SyncPolicy {
    Manual,
    Interval { every: Duration, bytes: u32 },
}

/// When the tail is sealed into a unit.
#[derive(Clone, Copy, Debug, PartialEq, Eq, Structural)]
pub struct SealPolicy {
    pub bytes: u32,
    pub interval: Duration,
    pub memory_bytes: u32,
}

impl Default for SealPolicy {
    fn default() -> (policy: Self)
        ensures
            policy == (SealPolicy {
                bytes: DEFAULT_SEAL_BYTES,
                interval: Duration { secs: DEFAULT_SEAL_INTERVAL_SECS as u64, nanos: 0 },
                memory_bytes: DEFAULT_SEAL_MEMORY_BYTES,
            }),
    {
        SealPolicy {
            bytes: DEFAULT_SEAL_BYTES,
            interval: Duration::from_secs(DEFAULT_SEAL_INTERVAL_SECS as u64),
            memory_bytes: DEFAULT_SEAL_MEMORY_BYTES,
        }
    }
}

/// How much time a compacted unit covers.
#[derive(Clone, Copy, Debug, PartialEq, Eq, Structural)]
pub struct CompactionPolicy {
    pub l1_window: Duration,
    pub l2_window: Duration,
}

impl Default for CompactionPolicy {
    fn default() -> (policy: Self)
        ensures
            policy == (CompactionPolicy {
                l1_window: Duration { secs: DEFAULT_L1_WINDOW_SECS, nanos: 0 },
                l2_window: Duration { secs: DEFAULT_L2_WINDOW_SECS, nanos: 0 },
            }),
    {
        CompactionPolicy {
            l1_window: Duration::from_secs(DEFAULT_L1_WINDOW_SECS),
            l2_window: Duration::from_secs(DEFAULT_L2_WINDOW_SECS),
        }
    }
}

/// How a database is opened.
#[derive(Clone, Copy, Debug, PartialEq, Eq, Structural)]
pub struct OpenOptions {
    pub sync_policy: SyncPolicy,
    pub seal_policy: SealPolicy,
    pub compaction: CompactionPolicy,
    pub directory_cache_bytes: u32,
    pub takeover: bool,
}

impl Default for OpenOptions {
    fn default() -> (options: Self)
        ensures
            options.sync_policy == (SyncPolicy::Interval {
                every: Duration { secs: 1, nanos: 0 },
                bytes: 262_144,
            }),
            options.seal_policy == (SealPolicy {
                bytes: DEFAULT_SEAL_BYTES,
                interval: Duration { secs: DEFAULT_SEAL_INTERVAL_SECS as u64, nanos: 0 },
                memory_bytes: DEFAULT_SEAL_MEMORY_BYTES,
            }),
            options.compaction == (CompactionPolicy {
                l1_window: Duration { secs: DEFAULT_L1_WINDOW_SECS, nanos: 0 },
                l2_window: Duration { secs: DEFAULT_L2_WINDOW_SECS, nanos: 0 },
            }),
            options.directory_cache_bytes == DEFAULT_DIRECTORY_CACHE_BYTES,
            !options.takeover,
            refusal(options) is None,
    {
        OpenOptions {
            sync_policy: SyncPolicy::Interval { every: Duration::from_secs(1), bytes: 262_144 },
            seal_policy: SealPolicy::default(),
            compaction: CompactionPolicy::default(),
            directory_cache_bytes: DEFAULT_DIRECTORY_CACHE_BYTES,
            takeover: false,
        }
    }
}

/// Why windows cannot be compacted by.
pub open spec fn compaction_refusal(policy: CompactionPolicy) -> Option<Error> {
    let l1 = policy.l1_window;
    let l2 = policy.l2_window;
    if l1.nanos != 0 || l2.nanos != 0 || l1.secs > i64::MAX || l2.secs > i64::MAX || l1.secs
        < MIN_COMPACTION_WINDOW_SECS || l1.secs > l2.secs {
        Some(
            error::invalid(
                "compaction policy",
                "windows must be whole seconds with 1s <= l1_window <= l2_window",
            ),
        )
    } else {
        None
    }
}

/// Why a database cannot be opened like this.
pub open spec fn refusal(options: OpenOptions) -> Option<Error> {
    match limits::at_most(Limit::DirectoryCacheBytes, options.directory_cache_bytes as u64) {
        Err(e) => Some(e),
        Ok(_) => if options.sync_policy matches SyncPolicy::Interval { every, bytes } && (
        every.total_nanos() == 0 || bytes == 0) {
            Some(error::invalid("sync policy", "interval and byte threshold must be positive"))
        } else if options.seal_policy.bytes == 0 || options.seal_policy.interval.total_nanos() == 0
            || options.seal_policy.memory_bytes == 0 || options.seal_policy.memory_bytes
            > MAX_SEAL_MEMORY_BYTES {
            Some(error::invalid("seal policy", "interval or memory threshold is invalid"))
        } else {
            compaction_refusal(options.compaction)
        },
    }
}

/// Accepts options that a database can be opened with.
pub fn validate(options: OpenOptions) -> (r: Result<()>)
    ensures
        error::refuses(r, refusal(options)),
{
    if let Err(e) = limits::ensure_at_most(
        Limit::DirectoryCacheBytes,
        options.directory_cache_bytes as u64,
    ) {
        return Err(e);
    }
    if let SyncPolicy::Interval { every, bytes } = options.sync_policy {
        if every.is_zero() || bytes == 0 {
            return Err(
                Error::invalid("sync policy", "interval and byte threshold must be positive"),
            );
        }
    }
    if options.seal_policy.bytes == 0 || options.seal_policy.interval.is_zero()
        || options.seal_policy.memory_bytes == 0 || options.seal_policy.memory_bytes
        > MAX_SEAL_MEMORY_BYTES {
        return Err(Error::invalid("seal policy", "interval or memory threshold is invalid"));
    }
    validate_compaction(options.compaction)
}

fn validate_compaction(policy: CompactionPolicy) -> (r: Result<()>)
    ensures
        error::refuses(r, compaction_refusal(policy)),
{
    let l1 = policy.l1_window;
    let l2 = policy.l2_window;
    let whole_seconds = l1.nanos == 0 && l2.nanos == 0;
    let fit_timestamps = l1.secs <= i64::MAX as u64 && l2.secs <= i64::MAX as u64;
    if !whole_seconds || !fit_timestamps || l1.secs < MIN_COMPACTION_WINDOW_SECS || l1.exceeds(l2) {
        return Err(
            Error::invalid(
                "compaction policy",
                "windows must be whole seconds with 1s <= l1_window <= l2_window",
            ),
        );
    }
    Ok(())
}

/// A database is opened with options exactly if the directory cache keeps its bound, an interval of
/// syncing is positive in time and bytes, the seal policy is positive and keeps its memory bound,
/// and the windows of compaction are whole positive seconds that a timestamp can hold, the first
/// not wider than the second. Nothing else of the options is refused.
pub proof fn sensible_options_are_accepted(options: OpenOptions, r: Result<()>)
    requires
        error::refuses(r, refusal(options)),
    ensures
        r is Ok <==> {
            let seal = options.seal_policy;
            let l1 = options.compaction.l1_window;
            let l2 = options.compaction.l2_window;
            &&& options.directory_cache_bytes <= 16_777_216
            &&& options.sync_policy matches SyncPolicy::Interval { every, bytes } ==> bytes > 0 && (
            every.secs > 0 || every.nanos > 0)
            &&& seal.bytes > 0
            &&& seal.interval.secs > 0 || seal.interval.nanos > 0
            &&& 0 < seal.memory_bytes <= 67_108_864
            &&& l1.nanos == 0 && l2.nanos == 0
            &&& 1 <= l1.secs <= l2.secs <= 0x7fff_ffff_ffff_ffff
        },
{
}

/// A span is its seconds and its nanoseconds together, so spans are ordered by their seconds first.
pub proof fn spans_are_ordered(a: Duration, b: Duration)
    requires
        a.wf(),
        b.wf(),
    ensures
        a.total_nanos() == a.secs * 1_000_000_000 + a.nanos,
        a.nanos < 1_000_000_000,
        a.total_nanos() > b.total_nanos() <==> a.secs > b.secs || (a.secs == b.secs && a.nanos
            > b.nanos),
        a.total_nanos() == 0 <==> a.secs == 0 && a.nanos == 0,
{
}

} // verus!
