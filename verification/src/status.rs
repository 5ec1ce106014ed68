//! The shared snapshot of what is known about each key.

use vstd::prelude::*;

use crate::double::Double;

verus! {

/// What is known about one key. Percentages are of quota used; `None` where they could not be had.
#[derive(Debug, Clone, Copy)]
pub struct KeyStatus {
    pub channel_id: i64,
    pub five_hour_pct: Option<Double>,
    pub weekly_pct: Option<Double>,
    /// When the weekly window resets, in milliseconds since the epoch.
    pub weekly_reset: Option<i64>,
    pub max_pct: Option<Double>,
}

impl Default for KeyStatus {
    fn default() -> (r: KeyStatus)
        ensures
            r == (KeyStatus {
                channel_id: 0,
                five_hour_pct: None,
                weekly_pct: None,
                weekly_reset: None,
                max_pct: None,
            }),
    {
        KeyStatus {
            channel_id: 0,
            five_hour_pct: None,
            weekly_pct: None,
            weekly_reset: None,
            max_pct: None,
        }
    }
}

/// What is known about all keys, and which of them may be used.
#[derive(Debug, Clone)]
pub struct StatusSnapshot {
    pub eligible: Vec<i64>,
    pub pinned_channel_id: Option<i64>,
    pub keys: Vec<KeyStatus>,
}

impl Default for StatusSnapshot {
    fn default() -> (r: StatusSnapshot)
        ensures
            r.eligible@.len() == 0,
            r.pinned_channel_id is None,
            r.keys@.len() == 0,
    {
        StatusSnapshot { eligible: Vec::new(), pinned_channel_id: None, keys: Vec::new() }
    }
}

} // verus!
