//! What holds of a router across calls.

use vstd::prelude::*;

use crate::clock::MAX_NANOS;
use crate::state;
use crate::state::{PoolEntry, RouterModel, COOLDOWN, LOAD_WINDOW};

verus! {

/// A conversation stays on its channel: what a request recorded, a lookup finds, as long as the
/// channel is eligible. Where it is not, the lookup misses.
pub proof fn law_recorded_conversation_is_found(
    m: RouterModel,
    key: u64,
    channel_id: i64,
    now: u128,
    pool: Map<u64, PoolEntry>,
    eligible: Seq<i64>,
)
    requires
        m.pool_after_record(Some(key), (PoolEntry { channel_id, last_seen: now }), pool),
    ensures
        m.after_record(channel_id, now, pool).hit(key, eligible) == if eligible.contains(
            channel_id,
        ) {
            Some(channel_id)
        } else {
            None
        },
{
}

/// A lookup never answers with a channel that is not eligible.
pub proof fn law_hits_are_eligible(m: RouterModel, key: u64, eligible: Seq<i64>)
    ensures
        m.hit(key, eligible) matches Some(id) ==> eligible.contains(id),
{
}

/// A lookup moves no conversation: whatever was found before is found after it.
pub proof fn law_lookups_move_nothing(
    m: RouterModel,
    asked: u64,
    asked_eligible: Seq<i64>,
    now: u128,
    key: u64,
    eligible: Seq<i64>,
)
    ensures
        m.after_lookup(asked, asked_eligible, now).hit(key, eligible) == m.hit(key, eligible),
        m.after_lookup(asked, asked_eligible, now).pool.dom() == m.pool.dom(),
{
    assert(m.after_lookup(asked, asked_eligible, now).pool.dom() =~= m.pool.dom());
}

/// Each lookup is counted once, as a hit or as a miss.
pub proof fn law_each_lookup_counts_once(
    m: RouterModel,
    key: u64,
    eligible: Seq<i64>,
    now: u128,
)
    requires
        m.can_count(key, eligible),
    ensures
        ({
            let after = m.after_lookup(key, eligible, now);
            &&& after.hits + after.misses == m.hits + m.misses + 1
            &&& after.hits == m.hits + 1 <==> m.hit(key, eligible) is Some
        }),
{
}

/// A request without a fingerprint leaves the pool alone.
pub proof fn law_no_fingerprint_no_entry(
    m: RouterModel,
    entry: PoolEntry,
    pool: Map<u64, PoolEntry>,
)
    requires
        m.pool_after_record(None, entry, pool),
    ensures
        pool == m.pool,
{
}

/// The pool never outgrows its capacity (and holds at least the newest conversation); where it is
/// already larger, it does not grow.
pub proof fn law_pool_is_bounded(
    m: RouterModel,
    key: Option<u64>,
    entry: PoolEntry,
    pool: Map<u64, PoolEntry>,
)
    requires
        m.wf(),
        m.pool_after_record(key, entry, pool),
    ensures
        ({
            let room = if m.pool_cap == 0 {
                1
            } else {
                m.pool_cap as nat
            };
            &&& m.pool.len() <= room ==> pool.len() <= room
            &&& m.pool.len() >= room ==> pool.len() <= m.pool.len()
        }),
{
    if let Some(k) = key {
        if m.must_evict(k) {
            let oldest = choose|oldest: u64| #[trigger]
                state::is_oldest(m.pool, oldest) && pool == m.pool.remove(oldest).insert(k, entry);
            assert(m.pool.remove(oldest).len() == m.pool.len() - 1);
            assert(pool.len() == m.pool.len());
        } else if m.pool.contains_key(k) {
            assert(m.pool.insert(k, entry).dom() =~= m.pool.dom());
        }
    }
}

/// The pool forgets least recent first, and no more than it must: a request moves at most one
/// other conversation out, only from a full pool, and none that remains was asked for earlier.
pub proof fn law_least_recent_leaves(
    m: RouterModel,
    key: u64,
    entry: PoolEntry,
    pool: Map<u64, PoolEntry>,
)
    requires
        m.pool_after_record(Some(key), entry, pool),
    ensures
        forall|k: u64| k != key && #[trigger] pool.contains_key(k) ==> m.pool.contains_key(k)
            && pool[k] == m.pool[k],
        forall|k: u64|
            m.pool.contains_key(k) && !#[trigger] pool.contains_key(k) ==> m.must_evict(key)
                && state::is_oldest(m.pool, k),
        forall|j: u64, k: u64|
            m.pool.contains_key(j) && m.pool.contains_key(k) && !#[trigger] pool.contains_key(j)
                && !#[trigger] pool.contains_key(k) ==> j == k,
{
}

/// A channel that refused is passed over for [`COOLDOWN`], and no other channel is.
pub proof fn law_cooldown_lasts(m: RouterModel, refused: i64, now: u128, id: i64, later: u128)
    requires
        now <= MAX_NANOS,
    ensures
        m.after_cool(refused, now).cooled(refused, later) <==> later < now + COOLDOWN,
        id != refused ==> m.after_cool(refused, now).cooled(id, later) == m.cooled(id, later),
{
}

/// Neither lookups nor requests nor counting change which channels are cooling down.
pub proof fn law_only_refusals_cool(
    m: RouterModel,
    key: u64,
    eligible: Seq<i64>,
    channel_id: i64,
    pool: Map<u64, PoolEntry>,
    now: u128,
    id: i64,
    later: u128,
)
    ensures
        m.after_lookup(key, eligible, now).cooled(id, later) == m.cooled(id, later),
        m.after_record(channel_id, now, pool).cooled(id, later) == m.cooled(id, later),
        m.after_count(now).cooled(id, later) == m.cooled(id, later),
{
}

/// A request adds one to the load of its channel, and nothing to that of others.
pub proof fn law_request_adds_load(
    m: RouterModel,
    channel_id: i64,
    now: u128,
    pool: Map<u64, PoolEntry>,
    id: i64,
)
    ensures
        m.after_record(channel_id, now, pool).load(channel_id, now) == m.load(channel_id, now) + 1,
        id != channel_id ==> m.after_record(channel_id, now, pool).load(id, now) == m.load(id, now),
{
    reveal(Seq::filter);
    let times = m.sent(channel_id);
    assert(times.push(now).drop_last() =~= times);
}

/// Forgetting what is too old loses nothing: every later count is the same with and without it.
pub proof fn law_forgetting_is_unseen(m: RouterModel, now: u128, id: i64, later: u128)
    requires
        now <= later,
    ensures
        m.after_count(now).load(id, later) == m.load(id, later),
{
    lemma_window_of_window(m.sent(id), now, later);
    assert(m.after_count(now).sent(id) =~= if m.loads.contains_key(id) {
        state::in_window(m.sent(id), now)
    } else {
        Seq::empty()
    });
}

/// What is too old now is too old later.
pub(crate) proof fn lemma_window_of_window(times: Seq<u128>, now: u128, later: u128)
    requires
        now <= later,
    ensures
        state::in_window(state::in_window(times, now), later) == state::in_window(times, later),
    decreases times.len(),
{
    reveal(Seq::filter);
    if times.len() > 0 {
        let rest = times.drop_last();
        lemma_window_of_window(rest, now, later);
        let kept = state::in_window(rest, now);
        assert(kept.push(times.last()).drop_last() =~= kept);
    }
}

/// A channel that nothing was sent to for longer than [`LOAD_WINDOW`] carries no load.
pub proof fn law_load_expires(m: RouterModel, id: i64, now: u128)
    requires
        forall|i: int|
            0 <= i < m.sent(id).len() ==> now - #[trigger] m.sent(id)[i] > LOAD_WINDOW,
    ensures
        m.load(id, now) == 0,
{
    lemma_none_in_window(m.sent(id), now);
}

proof fn lemma_none_in_window(times: Seq<u128>, now: u128)
    requires
        forall|i: int| 0 <= i < times.len() ==> now - #[trigger] times[i] > LOAD_WINDOW,
    ensures
        state::in_window(times, now).len() == 0,
    decreases times.len(),
{
    reveal(Seq::filter);
    if times.len() > 0 {
        let rest = times.drop_last();
        assert forall|i: int| 0 <= i < rest.len() implies now - #[trigger] rest[i]
            > LOAD_WINDOW by {
            assert(rest[i] == times[i]);
        }
        lemma_none_in_window(rest, now);
    }
}

/// A channel that is not kept is forgotten: no conversation is on it, it carries no load, is not
/// cooling down, and was sent nothing.
pub proof fn law_dropped_channel_is_forgotten<F: Fn(i64) -> bool>(
    keep: F,
    before: RouterModel,
    after: RouterModel,
    id: i64,
    now: u128,
)
    requires
        state::retained_pool(keep, before.pool, after.pool),
        state::retained(keep, before.loads, after.loads),
        state::retained(keep, before.cooldown_until, after.cooldown_until),
        state::retained(keep, before.routed, after.routed),
        !keep.ensures((id,), true),
    ensures
        forall|k: u64, eligible: Seq<i64>| #[trigger] after.hit(k, eligible) != Some(id),
        after.load(id, now) == 0,
        !after.cooled(id, now),
        after.routed_to(id) == 0,
{
    reveal(Seq::filter);
}

/// A channel that is kept is left as it was.
pub proof fn law_kept_channel_is_untouched<F: Fn(i64) -> bool>(
    keep: F,
    before: RouterModel,
    after: RouterModel,
    id: i64,
    now: u128,
)
    requires
        state::retained_pool(keep, before.pool, after.pool),
        state::retained(keep, before.loads, after.loads),
        state::retained(keep, before.cooldown_until, after.cooldown_until),
        state::retained(keep, before.routed, after.routed),
        !keep.ensures((id,), false),
    ensures
        forall|k: u64, eligible: Seq<i64>|
            before.hit(k, eligible) == Some(id) ==> #[trigger] after.hit(k, eligible) == Some(id),
        after.load(id, now) == before.load(id, now),
        after.cooled(id, now) == before.cooled(id, now),
        after.routed_to(id) == before.routed_to(id),
{
    assert(before.loads.contains_key(id) == after.loads.contains_key(id));
    assert(before.cooldown_until.contains_key(id) == after.cooldown_until.contains_key(id));
    assert(before.routed.contains_key(id) == after.routed.contains_key(id));
}

/// A pool with room forgets nothing: while it holds fewer conversations than its capacity, every
/// one but the newest stays as it was.
pub proof fn law_pool_with_room_forgets_nothing(
    m: RouterModel,
    key: u64,
    entry: PoolEntry,
    pool: Map<u64, PoolEntry>,
    k: u64,
)
    requires
        m.pool.len() < m.pool_cap,
        m.pool_after_record(Some(key), entry, pool),
        m.pool.contains_key(k),
        k != key,
    ensures
        pool.contains_key(k),
        pool[k] == m.pool[k],
{
}

/// A pool that already knows the conversation forgets nothing either, full or not.
pub proof fn law_known_conversation_moves_nothing_out(
    m: RouterModel,
    key: u64,
    entry: PoolEntry,
    pool: Map<u64, PoolEntry>,
    k: u64,
)
    requires
        m.pool.contains_key(key),
        m.pool_after_record(Some(key), entry, pool),
        m.pool.contains_key(k),
        k != key,
    ensures
        pool.contains_key(k),
        pool[k] == m.pool[k],
{
}

/// The conversation that was recorded is in the pool, on its channel, as of now; and nothing comes
/// into the pool beside it.
pub proof fn law_recorded_conversation_comes_in(
    m: RouterModel,
    key: u64,
    entry: PoolEntry,
    pool: Map<u64, PoolEntry>,
    k: u64,
)
    requires
        m.pool_after_record(Some(key), entry, pool),
    ensures
        pool.contains_key(key),
        pool[key] == entry,
        k != key && pool.contains_key(k) ==> m.pool.contains_key(k) && pool[k] == m.pool[k],
{
}

/// A full pool gives up exactly one conversation for a new one, and none that it keeps was asked
/// for before that one.
pub proof fn law_full_pool_gives_up_one(
    m: RouterModel,
    key: u64,
    entry: PoolEntry,
    pool: Map<u64, PoolEntry>,
)
    requires
        m.wf(),
        m.pool.len() >= m.pool_cap,
        m.pool.len() > 0,
        !m.pool.contains_key(key),
        m.pool_after_record(Some(key), entry, pool),
    ensures
        pool.len() == m.pool.len(),
        exists|gone: u64|
            m.pool.contains_key(gone) && !#[trigger] pool.contains_key(gone) && (forall|k: u64|
                m.pool.contains_key(k) ==> m.pool[gone].last_seen <= (
                #[trigger] m.pool[k]).last_seen)
                && (forall|k: u64|
                m.pool.contains_key(k) && k != gone ==> #[trigger] pool.contains_key(k)),
{
    let oldest = choose|oldest: u64| #[trigger]
        state::is_oldest(m.pool, oldest) && pool == m.pool.remove(oldest).insert(key, entry);
    assert(m.pool.remove(oldest).len() == m.pool.len() - 1);
    assert(!pool.contains_key(oldest));
}

/// A lookup finds a conversation exactly where the pool has it on an eligible channel.
pub proof fn law_hit_is_the_pooled_channel(m: RouterModel, key: u64, eligible: Seq<i64>, id: i64)
    ensures
        m.hit(key, eligible) == Some(id) <==> m.pool.contains_key(key) && m.pool[key].channel_id
            == id && eligible.contains(id),
        m.hit(key, eligible) is None <==> !(m.pool.contains_key(key) && eligible.contains(
            m.pool[key].channel_id,
        )),
{
}

/// A lookup marks the conversation as asked for now, found or not, and counts itself; all else
/// stays.
pub proof fn law_what_a_lookup_changes(
    m: RouterModel,
    key: u64,
    eligible: Seq<i64>,
    now: u128,
    k: u64,
)
    requires
        m.hits < u64::MAX,
        m.misses < u64::MAX,
    ensures
        m.can_count(key, eligible),
        ({
            let after = m.after_lookup(key, eligible, now);
            let found = m.pool.contains_key(key) && eligible.contains(m.pool[key].channel_id);
            &&& after.pool.contains_key(k) <==> m.pool.contains_key(k)
            &&& m.pool.contains_key(k) ==> after.pool[k].channel_id == m.pool[k].channel_id
            &&& m.pool.contains_key(k) && k == key ==> after.pool[k].last_seen == now
            &&& m.pool.contains_key(k) && k != key ==> after.pool[k].last_seen
                == m.pool[k].last_seen
            &&& found ==> after.hits == m.hits + 1 && after.misses == m.misses
            &&& !found ==> after.hits == m.hits && after.misses == m.misses + 1
            &&& after.loads == m.loads
            &&& after.cooldown_until == m.cooldown_until
            &&& after.routed == m.routed
            &&& after.pool_cap == m.pool_cap
            &&& after.now == now
        }),
{
}

/// A request is noted at the end of its channel's list and adds one to its channel's count; other
/// channels, the cooldowns and the lookup counters stay.
pub proof fn law_what_a_request_changes(
    m: RouterModel,
    channel_id: i64,
    now: u128,
    pool: Map<u64, PoolEntry>,
    id: i64,
)
    ensures
        (m.routed.contains_key(channel_id) ==> m.routed[channel_id] < u64::MAX) ==> m.can_route(
            channel_id,
        ),
        ({
            let after = m.after_record(channel_id, now, pool);
            &&& after.loads.contains_key(channel_id)
            &&& m.loads.contains_key(channel_id) ==> after.loads[channel_id]
                == m.loads[channel_id].push(now)
            &&& !m.loads.contains_key(channel_id) ==> after.loads[channel_id] == seq![now]
            &&& after.routed.contains_key(channel_id)
            &&& m.routed.contains_key(channel_id) && m.routed[channel_id] < u64::MAX
                ==> after.routed[channel_id] == m.routed[channel_id] + 1
            &&& !m.routed.contains_key(channel_id) ==> after.routed[channel_id] == 1
            &&& id != channel_id ==> {
                &&& after.loads.contains_key(id) == m.loads.contains_key(id)
                &&& after.loads[id] == m.loads[id]
                &&& after.routed.contains_key(id) == m.routed.contains_key(id)
                &&& after.routed[id] == m.routed[id]
            }
            &&& after.pool == pool
            &&& after.cooldown_until == m.cooldown_until
            &&& after.hits == m.hits
            &&& after.misses == m.misses
            &&& after.pool_cap == m.pool_cap
            &&& after.now == now
        }),
{
    assert(Seq::<u128>::empty().push(now) =~= seq![now]);
}

/// A refusal has its channel passed over for the next 15 s, not a moment longer, and changes
/// nothing else.
pub proof fn law_what_a_refusal_changes(
    m: RouterModel,
    refused: i64,
    now: u128,
    id: i64,
    later: u128,
)
    requires
        now <= MAX_NANOS,
    ensures
        ({
            let after = m.after_cool(refused, now);
            &&& after.cooled(refused, later) <==> later < now + 15_000_000_000
            &&& id != refused ==> after.cooldown_until.contains_key(id)
                == m.cooldown_until.contains_key(id) && after.cooldown_until[id]
                == m.cooldown_until[id]
            &&& after.pool == m.pool
            &&& after.loads == m.loads
            &&& after.hits == m.hits
            &&& after.misses == m.misses
            &&& after.routed == m.routed
            &&& after.pool_cap == m.pool_cap
            &&& after.now == now
        }),
{
}

/// A channel is cooling down exactly until the time that is noted for it.
pub proof fn law_cooling_is_until_a_time(m: RouterModel, id: i64, now: u128, until: u128)
    ensures
        m.cooldown_until.contains_key(id) && m.cooldown_until[id] == until ==> (m.cooled(id, now)
            <==> now < until),
        !m.cooldown_until.contains_key(id) ==> !m.cooled(id, now),
{
}

/// The window holds, of the times noted, exactly those at most 60 s back, each as often as noted.
pub proof fn law_window_is_a_minute(times: Seq<u128>, now: u128, t: u128)
    ensures
        state::in_window(times, now).to_multiset().count(t) == if now - t <= 60_000_000_000 {
            times.to_multiset().count(t)
        } else {
            0
        },
    decreases times.len(),
{
    broadcast use vstd::seq_lib::group_to_multiset_ensures;

    reveal(Seq::filter);
    if times.len() > 0 {
        let rest = times.drop_last();
        law_window_is_a_minute(rest, now, t);
        assert(rest.push(times.last()) =~= times);
        let kept = state::in_window(rest, now);
        if now - times.last() <= 60_000_000_000 {
            assert(state::in_window(times, now) =~= kept.push(times.last()));
        } else {
            assert(state::in_window(times, now) =~= kept);
        }
    } else {
        assert(state::in_window(times, now) =~= Seq::empty());
        assert(times =~= Seq::empty());
    }
}

/// A channel's load is the number of times noted for it that are at most 60 s back: one more time
/// adds one where it is, and nothing where it is older; and nothing noted is no load.
pub proof fn law_load_is_a_count(
    m: RouterModel,
    more: RouterModel,
    id: i64,
    t: u128,
    now: u128,
)
    requires
        m.loads.contains_key(id),
        more.loads.contains_key(id),
        more.loads[id] == m.loads[id].push(t),
    ensures
        now - t <= 60_000_000_000 ==> more.load(id, now) == m.load(id, now) + 1,
        now - t > 60_000_000_000 ==> more.load(id, now) == m.load(id, now),
        m.loads[id].len() == 0 ==> m.load(id, now) == 0,
{
    reveal(Seq::filter);
    assert(m.loads[id].push(t).drop_last() =~= m.loads[id]);
}

/// A channel that nothing is noted for carries no load.
pub proof fn law_nothing_noted_is_no_load(m: RouterModel, id: i64, now: u128)
    requires
        !m.loads.contains_key(id),
    ensures
        m.load(id, now) == 0,
{
    reveal(Seq::filter);
}

/// Counting forgets times older than 60 s and no others, and changes nothing but the lists of
/// times.
pub proof fn law_what_a_count_changes(m: RouterModel, now: u128, id: i64, t: u128)
    ensures
        ({
            let after = m.after_count(now);
            &&& after.loads.contains_key(id) == m.loads.contains_key(id)
            &&& m.loads.contains_key(id) ==> after.loads[id].to_multiset().count(t) == if now - t
                <= 60_000_000_000 {
                m.loads[id].to_multiset().count(t)
            } else {
                0
            }
            &&& after.pool == m.pool
            &&& after.cooldown_until == m.cooldown_until
            &&& after.hits == m.hits
            &&& after.misses == m.misses
            &&& after.routed == m.routed
            &&& after.pool_cap == m.pool_cap
            &&& after.now == now
        }),
{
    if m.loads.contains_key(id) {
        law_window_is_a_minute(m.loads[id], now, t);
    }
}

/// The counts that are handed out are the loads: each channel with a load has its number, and no
/// other channel is named.
pub proof fn law_counts_are_the_loads(
    counts: Map<i64, usize>,
    m: RouterModel,
    now: u128,
    id: i64,
)
    requires
        state::are_loads(counts, m, now),
    ensures
        counts.contains_key(id) ==> counts[id] == m.load(id, now) && counts[id] > 0,
        !counts.contains_key(id) ==> m.load(id, now) == 0,
{
}

/// A new router remembers nothing and has the room that it was made with.
pub proof fn law_new_router_is_empty(
    pool_cap: usize,
    key: u64,
    eligible: Seq<i64>,
    id: i64,
    now: u128,
)
    ensures
        ({
            let m = RouterModel::empty(pool_cap);
            &&& m.hit(key, eligible) is None
            &&& m.pool.len() == 0
            &&& m.load(id, now) == 0
            &&& !m.cooled(id, now)
            &&& m.routed_to(id) == 0
            &&& !m.routed.contains_key(id)
            &&& m.hits == 0
            &&& m.misses == 0
            &&& m.pool_cap == pool_cap
            &&& m.now == 0
        }),
{
    reveal(Seq::filter);
}

/// Where `keep` answers each channel alike every time, exactly the conversations, times, cooldowns
/// and counts of the channels that it keeps remain, each as it was.
pub proof fn law_what_remains_is_the_kept<F: Fn(i64) -> bool>(
    keep: F,
    kept: Set<i64>,
    before: RouterModel,
    after: RouterModel,
    key: u64,
    id: i64,
)
    requires
        state::retained_pool(keep, before.pool, after.pool),
        state::retained(keep, before.loads, after.loads),
        state::retained(keep, before.cooldown_until, after.cooldown_until),
        state::retained(keep, before.routed, after.routed),
        forall|i: i64, b: bool| #[trigger] keep.ensures((i,), b) ==> b == kept.contains(i),
    ensures
        after.pool.contains_key(key) <==> before.pool.contains_key(key) && kept.contains(
            before.pool[key].channel_id,
        ),
        after.pool.contains_key(key) ==> after.pool[key] == before.pool[key],
        after.loads.contains_key(id) <==> before.loads.contains_key(id) && kept.contains(id),
        after.loads.contains_key(id) ==> after.loads[id] == before.loads[id],
        after.cooldown_until.contains_key(id) <==> before.cooldown_until.contains_key(id)
            && kept.contains(id),
        after.cooldown_until.contains_key(id) ==> after.cooldown_until[id]
            == before.cooldown_until[id],
        after.routed.contains_key(id) <==> before.routed.contains_key(id) && kept.contains(id),
        after.routed.contains_key(id) ==> after.routed[id] == before.routed[id],
{
}

/// The list of counts holds each channel's pair and nothing else, by ascending channel.
pub proof fn law_list_holds_the_counts(
    pairs: Seq<(i64, u64)>,
    routed: Map<i64, u64>,
    id: i64,
    n: u64,
)
    requires
        state::lists(pairs, routed),
    ensures
        pairs.contains((id, n)) <==> routed.contains_key(id) && routed[id] == n,
        forall|i: int, j: int|
            0 <= i < j < pairs.len() ==> (#[trigger] pairs[i]).0 < (#[trigger] pairs[j]).0,
{
    if pairs.contains((id, n)) {
        let i = choose|i: int| 0 <= i < pairs.len() && pairs[i] == (id, n);
        assert(routed[pairs[i].0] == pairs[i].1);
    }
    if routed.contains_key(id) && routed[id] == n {
        let i = choose|i: int| 0 <= i < pairs.len() && (#[trigger] pairs[i]).0 == id;
        assert(pairs[i] == (id, n));
        assert(pairs.contains(pairs[i]));
    }
}

} // verus!
