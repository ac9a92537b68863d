use vstd::prelude::*;

verus! {

/// Default cap on one segment's size before rotation: 1 GiB.
pub const DEFAULT_SEGMENT_MAX_BYTES: u64 = 1073741824;

/// Default retention age: seven days, in milliseconds.
pub const DEFAULT_RETENTION_MS: u64 = 604800000;

/// Default cleanup interval: one minute, in milliseconds.
pub const DEFAULT_CLEANUP_INTERVAL_MS: u64 = 60000;

/// Broker-wide tunables every partition inherits. Durations are in
/// milliseconds; the surrounding program parses them from its configuration
/// file and passes them in as plain values.
#[derive(Debug, Clone, Copy, PartialEq, Eq, Structural)]
pub struct BrokerConfig {
    /// Upper bound for a single segment's size before rotation.
    pub segment_max_bytes: u64,
    /// Keep data newer than this age.
    pub retention_ms: u64,
    /// Soft cap on total on-disk bytes per partition; `None` disables it.
    pub retention_bytes: Option<u64>,
    /// How often the background cleaner wakes up.
    pub cleanup_interval_ms: u64,
}

impl Default for BrokerConfig {
    /// The stock configuration: 1 GiB segments, seven days of retention, no
    /// byte cap, cleanup every minute.
    fn default() -> (r: BrokerConfig)
        ensures
            r.segment_max_bytes == DEFAULT_SEGMENT_MAX_BYTES,
            r.retention_ms == DEFAULT_RETENTION_MS,
            r.retention_bytes is None,
            r.cleanup_interval_ms == DEFAULT_CLEANUP_INTERVAL_MS,
    {
        BrokerConfig {
            segment_max_bytes: DEFAULT_SEGMENT_MAX_BYTES,
            retention_ms: DEFAULT_RETENTION_MS,
            retention_bytes: None,
            cleanup_interval_ms: DEFAULT_CLEANUP_INTERVAL_MS,
        }
    }
}

impl BrokerConfig {
    /// The configuration read from a file, when one was given and parsed by
    /// the surrounding program, or the defaults.
    pub fn load_or_default(loaded: Option<BrokerConfig>) -> (r: BrokerConfig)
        ensures
            loaded matches Some(c) ==> r == c,
            loaded is None ==> r.segment_max_bytes == DEFAULT_SEGMENT_MAX_BYTES && r.retention_ms
                == DEFAULT_RETENTION_MS && r.retention_bytes is None && r.cleanup_interval_ms
                == DEFAULT_CLEANUP_INTERVAL_MS,
    {
        match loaded {
            Some(c) => c,
            None => BrokerConfig::default(),
        }
    }
}

} // verus!
