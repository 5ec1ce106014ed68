//! What one routing decision reads of the snapshot.

use std::collections::HashMap;
use vstd::prelude::*;

use crate::double::Double;
use crate::status::{KeyStatus, StatusSnapshot};

verus! {

/// The quota of one channel. Percentages are of quota used; `None` where they could not be had.
#[derive(Debug, Clone, Copy)]
pub struct KeyQuota {
    pub five_hour_pct: Option<Double>,
    pub weekly_pct: Option<Double>,
    /// When the weekly window resets, in milliseconds since the epoch.
    pub weekly_reset_ms: Option<i64>,
    pub max_pct: Option<Double>,
}

impl Default for KeyQuota {
    fn default() -> (r: KeyQuota)
        ensures
            r == (KeyQuota {
                five_hour_pct: None,
                weekly_pct: None,
                weekly_reset_ms: None,
                max_pct: None,
            }),
    {
        KeyQuota { five_hour_pct: None, weekly_pct: None, weekly_reset_ms: None, max_pct: None }
    }
}

/// What one routing decision reads.
#[derive(Debug, Clone)]
pub struct RouteView {
    /// The channels that may be used.
    pub eligible: Vec<i64>,
    /// The channel that was pinned by hand.
    pub pinned: Option<i64>,
    /// Quotas by channel.
    pub keys: HashMap<i64, KeyQuota>,
    /// Whether the snapshot knows of any key at all.
    pub has_data: bool,
}

impl Default for RouteView {
    fn default() -> (r: RouteView)
        ensures
            r.eligible@.len() == 0,
            r.pinned is None,
            r.keys@ == Map::<i64, KeyQuota>::empty(),
            !r.has_data,
    {
        RouteView { eligible: Vec::new(), pinned: None, keys: HashMap::new(), has_data: false }
    }
}

/// The quota that a key's status speaks of.
pub open spec fn quota_of(k: KeyStatus) -> KeyQuota {
    KeyQuota {
        five_hour_pct: k.five_hour_pct,
        weekly_pct: k.weekly_pct,
        weekly_reset_ms: k.weekly_reset,
        max_pct: k.max_pct,
    }
}

/// The quotas by channel; of two keys with one channel, the later one counts.
pub open spec fn quotas_of(keys: Seq<KeyStatus>) -> Map<i64, KeyQuota>
    decreases keys.len(),
{
    if keys.len() == 0 {
        Map::empty()
    } else {
        quotas_of(keys.drop_last()).insert(keys.last().channel_id, quota_of(keys.last()))
    }
}

impl RouteView {
    /// Takes from the snapshot what a decision reads, and nothing else: the snapshot is locked
    /// meanwhile.
    pub fn from_snap(snap: &StatusSnapshot) -> (r: RouteView)
        ensures
            r.eligible@ == snap.eligible@,
            r.pinned == snap.pinned_channel_id,
            r.keys@ == quotas_of(snap.keys@),
            r.has_data == (snap.keys@.len() > 0),
    {
        let mut keys: HashMap<i64, KeyQuota> = HashMap::new();
        let mut i: usize = 0;
        assert(snap.keys@.take(0) =~= Seq::empty());
        while i < snap.keys.len()
            invariant
                i <= snap.keys@.len(),
                keys@ == quotas_of(snap.keys@.take(i as int)),
            decreases snap.keys.len() - i,
        {
            let k = snap.keys[i];
            assert(snap.keys@.take(i + 1).drop_last() =~= snap.keys@.take(i as int));
            keys.insert(
                k.channel_id,
                KeyQuota {
                    five_hour_pct: k.five_hour_pct,
                    weekly_pct: k.weekly_pct,
                    weekly_reset_ms: k.weekly_reset,
                    max_pct: k.max_pct,
                },
            );
            i += 1;
        }
        assert(snap.keys@.take(i as int) =~= snap.keys@);
        let eligible = snap.eligible.clone();
        assert(eligible@ =~= snap.eligible@);
        RouteView {
            eligible,
            pinned: snap.pinned_channel_id,
            keys,
            has_data: snap.keys.len() > 0,
        }
    }
}

/// A view knows of exactly the channels that the snapshot has keys for; it has data where it knows
/// of any.
pub proof fn law_view_knows_the_keys(keys: Seq<KeyStatus>, id: i64)
    ensures
        quotas_of(keys).contains_key(id) <==> exists|i: int|
            0 <= i < keys.len() && (#[trigger] keys[i]).channel_id == id,
        (exists|i: i64| #[trigger] quotas_of(keys).contains_key(i)) <==> keys.len() > 0,
    decreases keys.len(),
{
    if keys.len() > 0 {
        let rest = keys.drop_last();
        law_view_knows_the_keys(rest, id);
        if quotas_of(rest).contains_key(id) {
            let i = choose|i: int| 0 <= i < rest.len() && (#[trigger] rest[i]).channel_id == id;
            assert(keys[i].channel_id == id);
        }
        if id == keys.last().channel_id {
            assert(keys[keys.len() - 1].channel_id == id);
        }
        if exists|i: int| 0 <= i < keys.len() && (#[trigger] keys[i]).channel_id == id {
            let i = choose|i: int| 0 <= i < keys.len() && (#[trigger] keys[i]).channel_id == id;
            if i < rest.len() {
                assert(rest[i].channel_id == id);
            }
        }
        assert(quotas_of(keys).contains_key(keys.last().channel_id));
    }
}

/// What a view says of a channel is what the last key of that channel says, field by field.
pub proof fn law_last_key_of_a_channel_counts(keys: Seq<KeyStatus>, i: int)
    requires
        0 <= i < keys.len(),
        forall|j: int| i < j < keys.len() ==> (#[trigger] keys[j]).channel_id != keys[i].channel_id,
    ensures
        quotas_of(keys).contains_key(keys[i].channel_id),
        quotas_of(keys)[keys[i].channel_id].five_hour_pct == keys[i].five_hour_pct,
        quotas_of(keys)[keys[i].channel_id].weekly_pct == keys[i].weekly_pct,
        quotas_of(keys)[keys[i].channel_id].weekly_reset_ms == keys[i].weekly_reset,
        quotas_of(keys)[keys[i].channel_id].max_pct == keys[i].max_pct,
    decreases keys.len(),
{
    if i < keys.len() - 1 {
        let rest = keys.drop_last();
        assert(keys[keys.len() - 1].channel_id != keys[i].channel_id);
        assert forall|j: int| i < j < rest.len() implies (#[trigger] rest[j]).channel_id
            != rest[i].channel_id by {
            assert(rest[j] == keys[j]);
        }
        law_last_key_of_a_channel_counts(rest, i);
    }
}

/// A view of a snapshot lists the same eligible channels, has the same pin, and has data exactly
/// where the snapshot has a key.
pub proof fn law_view_is_of_the_snapshot(snap: &StatusSnapshot, view: RouteView, k: KeyStatus)
    requires
        call_ensures(RouteView::from_snap, (snap,), view),
    ensures
        view.eligible@ == snap.eligible@,
        view.pinned == snap.pinned_channel_id,
        snap.keys@.contains(k) ==> view.has_data && view.keys@.contains_key(k.channel_id),
        snap.keys@.len() == 0 ==> !view.has_data && view.keys@.dom() =~= Set::empty(),
{
    if snap.keys@.contains(k) {
        law_view_knows_the_keys(snap.keys@, k.channel_id);
        let i = choose|i: int| 0 <= i < snap.keys@.len() && snap.keys@[i] == k;
        assert(snap.keys@[i].channel_id == k.channel_id);
    }
}

} // verus!
