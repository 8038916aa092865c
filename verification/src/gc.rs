//! Garbage-collection policy for loaded assets.
use vstd::prelude::*;

verus! {

/// What the collector knows about one entry.
#[derive(Clone, Copy, Debug, PartialEq, Eq, Structural)]
pub struct GcInfo {
    /// Value of the use clock at the last access.
    pub last_used: u64,
    /// Number of outstanding pins.
    pub pins: u32,
}

/// Which entries a collection keeps.
#[derive(Clone, Copy, Debug, PartialEq, Eq, Structural)]
pub struct GcPolicy {
    /// Entries used within this many clock ticks are kept.
    pub stale_window: u64,
    /// Whether pinned entries may be evicted as well.
    pub evict_pinned: bool,
    /// Whether recency is ignored, so that only pins protect an entry.
    pub ignore_stale_window: bool,
}

impl GcInfo {
    /// A pin protects the entry unless the policy evicts pinned entries.
    pub open spec fn pin_protected(self, policy: GcPolicy) -> bool {
        self.pins > 0 && !policy.evict_pinned
    }

    /// The last use lies at most `window` ticks before `now`.
    pub open spec fn recent(self, window: u64, now: u64) -> bool {
        self.last_used as int >= now as int - window as int
    }
}

impl Default for GcPolicy {
    /// Nothing but what was used now or is pinned stays.
    fn default() -> (p: GcPolicy)
        ensures
            p.stale_window == 0,
            !p.evict_pinned,
            !p.ignore_stale_window,
    {
        GcPolicy { stale_window: 0, evict_pinned: false, ignore_stale_window: false }
    }
}

impl GcPolicy {
    /// The rule of the policy: pins protect, and so does recency unless it is ignored.
    pub open spec fn keeps(self, info: GcInfo, now: u64) -> bool {
        info.pin_protected(self) || (!self.ignore_stale_window && info.recent(
            self.stale_window,
            now,
        ))
    }

    /// Whether the entry stays in memory at clock value `now`.
    pub fn should_keep(&self, info: GcInfo, now: u64) -> (keep: bool)
        ensures
            keep == self.keeps(info, now),
    {
        let pinned_kept = info.pins > 0 && !self.evict_pinned;
        if self.ignore_stale_window {
            return pinned_kept;
        }
        pinned_kept || info.last_used >= now.saturating_sub(self.stale_window)
    }
}

/// An entry is kept where pins protect it and the policy honours them, or where it was used within
/// the window and the policy regards that; else it goes. The later the last use, the wider the
/// window and the more pins, the rather it is kept.
pub proof fn entries_stay_for_pins_or_recent_use(policy: GcPolicy, info: GcInfo, now: u64)
    ensures
        info.pins > 0 && !policy.evict_pinned ==> policy.keeps(info, now),
        !policy.ignore_stale_window && info.last_used + policy.stale_window >= now ==> policy.keeps(
            info,
            now,
        ),
        (info.pins == 0 || policy.evict_pinned) && (policy.ignore_stale_window || info.last_used
            + policy.stale_window < now) ==> !policy.keeps(info, now),
{
}

} // verus!
