//! What holds of a router after any calls, in any order.

use std::collections::HashMap;
use vstd::prelude::*;

use crate::choice;
use crate::choice::{Choice, ScoreInput};
use crate::clock::MAX_NANOS;
use crate::double::Double;
use crate::state;
use crate::state::{PoolEntry, RouterModel, RouterState, RouterStats};
use crate::state_laws;
use crate::view::RouteView;

verus! {

/// A call that changes a router, with its arguments and the time that it read.
pub enum Call {
    Lookup { key: u64, eligible: Seq<i64>, now: u128 },
    Record { key: Option<u64>, channel_id: i64, now: u128 },
    Cool { channel_id: i64, now: u128 },
    /// Requests that no longer count as load are forgotten, as a count or a choice by score does.
    Count { now: u128 },
    /// Channels are dropped; given are the conversations and the channels that each part keeps.
    Retain { entries: Set<u64>, loads: Set<i64>, cooldowns: Set<i64>, routed: Set<i64> },
}

/// The clock can have read `now`.
pub open spec fn can_read(model: RouterModel, now: u128) -> bool {
    model.now <= now <= MAX_NANOS
}

/// The call leads from one state to the other.
pub open spec fn is_step(before: RouterModel, call: Call, after: RouterModel) -> bool {
    match call {
        Call::Lookup { key, eligible, now } => {
            &&& can_read(before, now)
            &&& before.can_count(key, eligible)
            &&& after == before.after_lookup(key, eligible, now)
        },
        Call::Record { key, channel_id, now } => {
            &&& can_read(before, now)
            &&& before.can_route(channel_id)
            &&& before.pool_after_record(
                key,
                (PoolEntry { channel_id, last_seen: now }),
                after.pool,
            )
            &&& after == before.after_record(channel_id, now, after.pool)
        },
        Call::Cool { channel_id, now } => {
            &&& can_read(before, now)
            &&& after == before.after_cool(channel_id, now)
        },
        Call::Count { now } => {
            &&& can_read(before, now)
            &&& after == before.after_count(now)
        },
        Call::Retain { entries, loads, cooldowns, routed } => {
            after == (RouterModel {
                pool: before.pool.restrict(entries),
                loads: before.loads.restrict(loads),
                cooldown_until: before.cooldown_until.restrict(cooldowns),
                routed: before.routed.restrict(routed),
                ..before
            })
        },
    }
}

/// A router that was made with this capacity is in this state after these calls.
pub open spec fn reached(pool_cap: usize, calls: Seq<Call>, model: RouterModel) -> bool
    decreases calls.len(),
{
    if calls.len() == 0 {
        model == RouterModel::empty(pool_cap)
    } else {
        exists|before: RouterModel|
            reached(pool_cap, calls.drop_last(), before) && #[trigger] is_step(
                before,
                calls.last(),
                model,
            )
    }
}

/// A history goes on with each call.
pub proof fn law_history_goes_on(
    pool_cap: usize,
    calls: Seq<Call>,
    before: RouterModel,
    call: Call,
    after: RouterModel,
)
    requires
        reached(pool_cap, calls, before),
        is_step(before, call, after),
    ensures
        reached(pool_cap, calls.push(call), after),
{
    let all = calls.push(call);
    assert(all.drop_last() =~= calls);
    assert(is_step(before, all.last(), after));
}

/// How many conversations a pool may hold: its capacity, and the newest in any case.
pub open spec fn room(pool_cap: usize) -> nat {
    if pool_cap == 0 {
        1
    } else {
        pool_cap as nat
    }
}

/// How many of the calls were lookups.
pub open spec fn lookups(calls: Seq<Call>) -> nat
    decreases calls.len(),
{
    if calls.len() == 0 {
        0
    } else {
        lookups(calls.drop_last()) + if calls.last() is Lookup {
            1nat
        } else {
            0
        }
    }
}

/// How many requests to a channel were recorded since it was last dropped.
pub open spec fn recorded(calls: Seq<Call>, id: i64) -> nat
    decreases calls.len(),
{
    if calls.len() == 0 {
        0
    } else {
        match calls.last() {
            Call::Record { channel_id, .. } if channel_id == id => recorded(calls.drop_last(), id)
                + 1,
            Call::Retain { routed, .. } if !routed.contains(id) => 0,
            _ => recorded(calls.drop_last(), id),
        }
    }
}

/// Dropping channels is a call, whatever `keep` answers.
pub proof fn law_retain_is_a_call<F: Fn(i64) -> bool>(
    keep: F,
    before: RouterModel,
    after: RouterModel,
)
    requires
        state::retained_pool(keep, before.pool, after.pool),
        state::retained(keep, before.loads, after.loads),
        state::retained(keep, before.cooldown_until, after.cooldown_until),
        state::retained(keep, before.routed, after.routed),
        after.hits == before.hits,
        after.misses == before.misses,
        after.now == before.now,
        after.pool_cap == before.pool_cap,
    ensures
        is_step(
            before,
            (Call::Retain {
                entries: after.pool.dom(),
                loads: after.loads.dom(),
                cooldowns: after.cooldown_until.dom(),
                routed: after.routed.dom(),
            }),
            after,
        ),
{
    assert(after.pool =~= before.pool.restrict(after.pool.dom()));
    assert(after.loads =~= before.loads.restrict(after.loads.dom()));
    assert(after.cooldown_until =~= before.cooldown_until.restrict(after.cooldown_until.dom()));
    assert(after.routed =~= before.routed.restrict(after.routed.dom()));
}

/// Where `keep` says of each channel whether it is kept, dropping channels keeps exactly those, in
/// every part.
pub proof fn law_retain_keeps_the_kept<F: Fn(i64) -> bool>(
    keep: F,
    kept: Set<i64>,
    before: RouterModel,
    after: RouterModel,
)
    requires
        state::retained_pool(keep, before.pool, after.pool),
        state::retained(keep, before.loads, after.loads),
        state::retained(keep, before.cooldown_until, after.cooldown_until),
        state::retained(keep, before.routed, after.routed),
        after.hits == before.hits,
        after.misses == before.misses,
        after.now == before.now,
        after.pool_cap == before.pool_cap,
        forall|id: i64, b: bool| #[trigger] keep.ensures((id,), b) ==> b == kept.contains(id),
    ensures
        is_step(
            before,
            (Call::Retain {
                entries: Set::new(
                    |k: u64|
                        before.pool.contains_key(k) && kept.contains(before.pool[k].channel_id),
                ),
                loads: kept,
                cooldowns: kept,
                routed: kept,
            }),
            after,
        ),
{
    let entries = Set::new(
        |k: u64| before.pool.contains_key(k) && kept.contains(before.pool[k].channel_id),
    );
    assert(after.pool =~= before.pool.restrict(entries));
    assert(after.loads =~= before.loads.restrict(kept));
    assert(after.cooldown_until =~= before.cooldown_until.restrict(kept));
    assert(after.routed =~= before.routed.restrict(kept));
}

/// A router begins with no history, and with the room that it was made with: 4096 where nothing was
/// said.
pub proof fn law_history_begins(pool_cap: usize, made: RouterState, fresh: RouterState)
    requires
        call_ensures(RouterState::with_pool_cap, (pool_cap,), made),
        call_ensures(RouterState::new, (), fresh),
    ensures
        reached(pool_cap, Seq::empty(), made@),
        reached(4096, Seq::empty(), fresh@),
{
}

/// A lookup is a call, and answers with the channel that the pool has, where it is eligible.
pub proof fn law_lookup_is_a_call(
    router: &mut RouterState,
    key: u64,
    eligible: &[i64],
    now: u128,
    r: Option<i64>,
    id: i64,
)
    requires
        can_read(old(router)@, now),
        old(router)@.can_count(key, eligible@),
        call_ensures(RouterState::lookup_at, (router, key, eligible, now), r),
    ensures
        is_step(
            old(router)@,
            (Call::Lookup { key, eligible: eligible@, now }),
            final(router)@,
        ),
        r == Some(id) <==> old(router)@.pool.contains_key(key) && old(
            router,
        )@.pool[key].channel_id == id && eligible@.contains(id),
{
}

/// A lookup by the clock is one at the time that was read.
pub proof fn law_lookup_reads_the_clock(
    router: &mut RouterState,
    key: u64,
    eligible: &[i64],
    r: Option<i64>,
    id: i64,
)
    requires
        old(router)@.can_count(key, eligible@),
        call_ensures(RouterState::lookup, (router, key, eligible), r),
    ensures
        is_step(
            old(router)@,
            (Call::Lookup { key, eligible: eligible@, now: final(router)@.now }),
            final(router)@,
        ),
        r == Some(id) <==> old(router)@.pool.contains_key(key) && old(
            router,
        )@.pool[key].channel_id == id && eligible@.contains(id),
{
}

/// Recording a request is a call.
pub proof fn law_record_is_a_call(
    router: &mut RouterState,
    key: Option<u64>,
    channel_id: i64,
    now: u128,
)
    requires
        can_read(old(router)@, now),
        old(router)@.can_route(channel_id),
        call_ensures(RouterState::record_at, (router, key, channel_id, now), ()),
    ensures
        is_step(old(router)@, (Call::Record { key, channel_id, now }), final(router)@),
{
}

/// Recording by the clock is recording at the time that was read.
pub proof fn law_record_reads_the_clock(router: &mut RouterState, key: Option<u64>, channel_id: i64)
    requires
        old(router)@.can_route(channel_id),
        call_ensures(RouterState::record, (router, key, channel_id), ()),
    ensures
        is_step(
            old(router)@,
            (Call::Record { key, channel_id, now: final(router)@.now }),
            final(router)@,
        ),
{
}

/// A refusal is a call.
pub proof fn law_cool_is_a_call(router: &mut RouterState, channel_id: i64, now: u128)
    requires
        can_read(old(router)@, now),
        call_ensures(RouterState::cool_at, (router, channel_id, now), ()),
    ensures
        is_step(old(router)@, (Call::Cool { channel_id, now }), final(router)@),
{
}

/// A refusal by the clock is one at the time that was read.
pub proof fn law_cool_reads_the_clock(router: &mut RouterState, channel_id: i64)
    requires
        call_ensures(RouterState::cool, (router, channel_id), ()),
    ensures
        is_step(
            old(router)@,
            (Call::Cool { channel_id, now: final(router)@.now }),
            final(router)@,
        ),
{
}

/// Counting loads is a call, and gives each channel's load.
pub proof fn law_count_is_a_call(
    router: &mut RouterState,
    now: u128,
    counts: HashMap<i64, usize>,
    id: i64,
)
    requires
        can_read(old(router)@, now),
        call_ensures(RouterState::load_counts_at, (router, now), counts),
    ensures
        is_step(old(router)@, (Call::Count { now }), final(router)@),
        counts@.contains_key(id) ==> counts@[id] > 0 && counts@[id] == old(router)@.load(id, now),
        !counts@.contains_key(id) ==> old(router)@.load(id, now) == 0,
{
}

/// Counting loads by the clock is counting at the time that was read.
pub proof fn law_count_reads_the_clock(
    router: &mut RouterState,
    counts: HashMap<i64, usize>,
    id: i64,
)
    requires
        call_ensures(RouterState::load_counts, (router,), counts),
    ensures
        is_step(old(router)@, (Call::Count { now: final(router)@.now }), final(router)@),
        counts@.contains_key(id) ==> counts@[id] > 0 && counts@[id] == old(router)@.load(
            id,
            final(router)@.now,
        ),
        !counts@.contains_key(id) ==> old(router)@.load(id, final(router)@.now) == 0,
{
}

/// A channel is reported as cooling down at a time exactly where its noted time is still to come.
pub proof fn law_cooling_is_reported(router: &RouterState, id: i64, now: u128, r: bool)
    requires
        call_ensures(RouterState::is_cooled_at, (router, id, now), r),
    ensures
        r <==> router@.cooldown_until.contains_key(id) && now < router@.cooldown_until[id],
{
}

/// Dropping channels by a test that answers each alike keeps exactly the channels that pass it, in
/// every part, and is a call.
pub proof fn law_drop_is_a_call<F: Fn(i64) -> bool>(
    router: &mut RouterState,
    keep: F,
    kept: Set<i64>,
)
    requires
        call_ensures(RouterState::retain_channel::<F>, (router, keep), ()),
        forall|id: i64, b: bool| #[trigger] keep.ensures((id,), b) ==> b == kept.contains(id),
    ensures
        ({
            let before = old(router)@;
            is_step(
                before,
                (Call::Retain {
                    entries: Set::new(
                        |k: u64|
                            before.pool.contains_key(k) && kept.contains(
                                before.pool[k].channel_id,
                            ),
                    ),
                    loads: kept,
                    cooldowns: kept,
                    routed: kept,
                }),
                final(router)@,
            )
        }),
{
    law_retain_keeps_the_kept(keep, kept, old(router)@, final(router)@);
}

/// A channel is chosen at a time from the router as it was, by the arguments as they were given.
pub proof fn law_choice_is_by_its_arguments<F: Fn(ScoreInput) -> Double>(
    view: &RouteView,
    router: &mut RouterState,
    tried: &[i64],
    cache_hint: Option<i64>,
    now_ms: i64,
    now: u128,
    score: &F,
    r: Choice,
)
    requires
        call_ensures(
            choice::choose_channel_at::<F>,
            (view, router, tried, cache_hint, now_ms, now, score),
            r,
        ),
    ensures
        choice::chosen(
            view,
            old(router)@,
            final(router)@,
            tried@,
            cache_hint,
            now_ms,
            now,
            *score,
            r,
        ),
{
}

/// A channel is chosen by the clock as it is at some time no earlier than any noted before.
pub proof fn law_choice_reads_the_clock<F: Fn(ScoreInput) -> Double>(
    view: &RouteView,
    router: &mut RouterState,
    tried: &[i64],
    cache_hint: Option<i64>,
    now_ms: i64,
    score: &F,
    r: Choice,
)
    requires
        call_ensures(
            choice::choose_channel::<F>,
            (view, router, tried, cache_hint, now_ms, score),
            r,
        ),
    ensures
        exists|now: u128|
            can_read(old(router)@, now) && #[trigger] choice::chosen(
                view,
                old(router)@,
                final(router)@,
                tried@,
                cache_hint,
                now_ms,
                now,
                *score,
                r,
            ),
{
}

/// A choice changes the router by no more than a count.
pub proof fn law_choice_is_a_call<F: Fn(ScoreInput) -> Double>(
    view: &RouteView,
    before: RouterModel,
    after: RouterModel,
    tried: Seq<i64>,
    cache_hint: Option<i64>,
    now_ms: i64,
    now: u128,
    score: F,
    r: Choice,
)
    requires
        can_read(before, now),
        choice::chosen(view, before, after, tried, cache_hint, now_ms, now, score, r),
    ensures
        after == before || is_step(before, (Call::Count { now }), after),
{
}

/// A filter of times in order is in order.
proof fn lemma_window_in_order(times: Seq<u128>, now: u128, later: u128)
    requires
        state::in_order(times, now),
        now <= later,
    ensures
        state::in_order(state::in_window(times, later), later),
        forall|i: int|
            0 <= i < state::in_window(times, later).len() ==> times.len() > 0
                && #[trigger] state::in_window(times, later)[i] <= times.last(),
    decreases times.len(),
{
    reveal(Seq::filter);
    if times.len() > 0 {
        let rest = times.drop_last();
        assert(state::in_order(rest, now)) by {
            assert forall|i: int| 0 <= i < rest.len() implies #[trigger] rest[i] <= now by {
                assert(rest[i] == times[i]);
            }
        }
        lemma_window_in_order(rest, now, later);
        let kept = state::in_window(rest, later);
        let all = state::in_window(times, later);
        assert forall|i: int| 0 <= i < all.len() implies #[trigger] all[i] <= times.last() by {
            if i < kept.len() {
                assert(all[i] == kept[i]);
                assert(kept[i] <= rest.last());
                assert(times[rest.len() - 1] <= times[times.len() - 1]);
            }
        }
        assert(times[times.len() - 1] <= now);
    }
}

/// Each call keeps what holds of every router, its capacity, and the bound on its pool.
pub proof fn law_each_call_keeps_the_bound(before: RouterModel, call: Call, after: RouterModel)
    requires
        before.wf(),
        before.pool.len() <= room(before.pool_cap),
        is_step(before, call, after),
    ensures
        after.wf(),
        after.pool_cap == before.pool_cap,
        after.pool.len() <= room(after.pool_cap),
{
    match call {
        Call::Lookup { key, eligible, now } => {
            state_laws::law_lookups_move_nothing(before, key, eligible, now, key, eligible);
            assert forall|id: i64| after.loads.contains_key(id) implies state::in_order(
                #[trigger] after.loads[id],
                after.now,
            ) by {
                assert(state::in_order(before.loads[id], before.now));
            }
        },
        Call::Record { key, channel_id, now } => {
            let entry = PoolEntry { channel_id, last_seen: now };
            state_laws::law_pool_is_bounded(before, key, entry, after.pool);
            if let Some(k) = key {
                state_laws::law_least_recent_leaves(before, k, entry, after.pool);
            }
            assert forall|id: i64| after.loads.contains_key(id) implies state::in_order(
                #[trigger] after.loads[id],
                after.now,
            ) by {
                if before.loads.contains_key(id) {
                    assert(state::in_order(before.loads[id], before.now));
                }
            }
        },
        Call::Cool { channel_id, now } => {
            assert forall|id: i64| after.loads.contains_key(id) implies state::in_order(
                #[trigger] after.loads[id],
                after.now,
            ) by {
                assert(state::in_order(before.loads[id], before.now));
            }
        },
        Call::Count { now } => {
            assert forall|id: i64| after.loads.contains_key(id) implies state::in_order(
                #[trigger] after.loads[id],
                after.now,
            ) by {
                assert(state::in_order(before.loads[id], before.now));
                lemma_window_in_order(before.loads[id], before.now, now);
            }
        },
        Call::Retain { entries, loads, cooldowns, routed } => {
            assert(after.pool.dom() =~= before.pool.dom().intersect(entries));
            vstd::set_lib::lemma_len_intersect(before.pool.dom(), entries);
            assert forall|k: u64| after.pool.contains_key(k) implies (
            #[trigger] after.pool[k]).last_seen <= after.now by {
                assert(before.pool.contains_key(k) && before.pool[k].last_seen <= before.now);
            }
            assert forall|id: i64| after.loads.contains_key(id) implies state::in_order(
                #[trigger] after.loads[id],
                after.now,
            ) by {
                assert(state::in_order(before.loads[id], before.now));
            }
        },
    }
}

/// After any calls, the pool holds no more conversations than its capacity, and no more than one
/// where that is zero.
pub proof fn law_pool_stays_bounded(pool_cap: usize, calls: Seq<Call>, model: RouterModel)
    requires
        reached(pool_cap, calls, model),
    ensures
        model.wf(),
        model.pool_cap == pool_cap,
        model.pool.len() <= room(pool_cap),
    decreases calls.len(),
{
    if calls.len() > 0 {
        let before = choose|before: RouterModel|
            reached(pool_cap, calls.drop_last(), before) && #[trigger] is_step(
                before,
                calls.last(),
                model,
            );
        law_pool_stays_bounded(pool_cap, calls.drop_last(), before);
        law_each_call_keeps_the_bound(before, calls.last(), model);
    }
}

/// After any calls, the counters tell what went before: hits and misses together are the lookups,
/// and each channel's count is that of the requests recorded since it was last dropped.
pub proof fn law_counters_tell_the_history(
    pool_cap: usize,
    calls: Seq<Call>,
    model: RouterModel,
    id: i64,
)
    requires
        reached(pool_cap, calls, model),
    ensures
        model.hits + model.misses == lookups(calls),
        model.routed_to(id) == recorded(calls, id),
        model.routed.contains_key(id) <==> recorded(calls, id) > 0,
    decreases calls.len(),
{
    if calls.len() > 0 {
        let before = choose|before: RouterModel|
            reached(pool_cap, calls.drop_last(), before) && #[trigger] is_step(
                before,
                calls.last(),
                model,
            );
        law_counters_tell_the_history(pool_cap, calls.drop_last(), before, id);
    }
}

/// After any calls, the statistics list exactly the channels that requests were recorded for since
/// they were last dropped, by ascending number, each with the number of those requests.
pub proof fn law_stats_tell_the_history(
    pool_cap: usize,
    calls: Seq<Call>,
    model: RouterModel,
    pairs: Seq<(i64, u64)>,
    id: i64,
    n: u64,
)
    requires
        reached(pool_cap, calls, model),
        state::lists(pairs, model.routed),
    ensures
        forall|i: int, j: int|
            0 <= i < j < pairs.len() ==> (#[trigger] pairs[i]).0 < (#[trigger] pairs[j]).0,
        pairs.contains((id, n)) <==> n == recorded(calls, id) && n > 0,
{
    law_counters_tell_the_history(pool_cap, calls, model, id);
    if pairs.contains((id, n)) {
        let i = choose|i: int| 0 <= i < pairs.len() && pairs[i] == (id, n);
        assert(model.routed[pairs[i].0] == pairs[i].1);
    }
    if model.routed.contains_key(id) {
        let i = choose|i: int| 0 <= i < pairs.len() && (#[trigger] pairs[i]).0 == id;
        assert(pairs[i] == (id, model.routed[id]));
        assert(pairs.contains(pairs[i]));
    }
}

/// After any calls, what the statistics show is the history: no more conversations than there is
/// room for, the lookups as hits and misses, and the requests of each channel since it was dropped.
pub proof fn law_stats_show_the_history(
    pool_cap: usize,
    calls: Seq<Call>,
    router: &RouterState,
    stats: RouterStats,
    id: i64,
    n: u64,
)
    requires
        reached(pool_cap, calls, router@),
        call_ensures(RouterState::stats, (router,), stats),
    ensures
        stats.entries == router@.pool.len(),
        stats.entries <= room(pool_cap),
        stats.hits == router@.hits,
        stats.misses == router@.misses,
        stats.hits + stats.misses == lookups(calls),
        stats.routed_per_channel@.contains((id, n)) <==> n == recorded(calls, id) && n > 0,
{
    law_pool_stays_bounded(pool_cap, calls, router@);
    law_counters_tell_the_history(pool_cap, calls, router@, id);
    law_stats_tell_the_history(
        pool_cap,
        calls,
        router@,
        stats.routed_per_channel@,
        id,
        n,
    );
}

/// Counts by channel have one list: statistics taken twice from one state agree.
pub proof fn law_one_state_has_one_list(
    a: Seq<(i64, u64)>,
    b: Seq<(i64, u64)>,
    routed: Map<i64, u64>,
)
    requires
        state::lists(a, routed),
        state::lists(b, routed),
    ensures
        a == b,
    decreases a.len(),
{
    if a.len() == 0 {
        if b.len() > 0 {
            assert(routed.contains_key(b[0].0));
            let i = choose|i: int| 0 <= i < a.len() && (#[trigger] a[i]).0 == b[0].0;
            assert(false);
        }
    } else {
        let last = a.len() - 1;
        assert(routed.contains_key(a[last].0));
        let k = choose|k: int| 0 <= k < b.len() && (#[trigger] b[k]).0 == a[last].0;
        let end = b.len() - 1;
        assert(routed.contains_key(b[end].0));
        let l = choose|l: int| 0 <= l < a.len() && (#[trigger] a[l]).0 == b[end].0;
        assert(l < last ==> a[l].0 < a[last].0);
        assert(k < end ==> b[k].0 < b[end].0);
        assert(a[last] == b[end]);
        let rest = routed.remove(a[last].0);
        lemma_list_without_last(a, routed);
        lemma_list_without_last(b, routed);
        law_one_state_has_one_list(a.drop_last(), b.drop_last(), rest);
        assert(a.drop_last().push(a.last()) =~= a);
        assert(b.drop_last().push(b.last()) =~= b);
    }
}

/// All but the last of a list are the list of all but that channel.
proof fn lemma_list_without_last(pairs: Seq<(i64, u64)>, routed: Map<i64, u64>)
    requires
        pairs.len() > 0,
        state::lists(pairs, routed),
    ensures
        state::lists(pairs.drop_last(), routed.remove(pairs.last().0)),
{
    let rest = pairs.drop_last();
    let m = routed.remove(pairs.last().0);
    assert forall|i: int| 0 <= i < rest.len() implies m.contains_key((#[trigger] rest[i]).0)
        && m[rest[i].0] == rest[i].1 by {
        assert(rest[i] == pairs[i]);
        assert(pairs[i].0 < pairs[pairs.len() - 1].0);
    }
    assert forall|id: i64| #[trigger] m.contains_key(id) implies exists|i: int|
        0 <= i < rest.len() && (#[trigger] rest[i]).0 == id by {
        assert(routed.contains_key(id));
        let i = choose|i: int| 0 <= i < pairs.len() && (#[trigger] pairs[i]).0 == id;
        assert(rest[i].0 == id);
    }
}

} // verus!
