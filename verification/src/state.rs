//! What the router remembers: which conversation went where, how busy each channel is, and which
//! channels are cooling down.

use std::collections::HashMap;
use std::collections::VecDeque;
use vstd::prelude::*;

use crate::clock::{Clock, MAX_NANOS};

verus! {

/// How many conversations the pool holds unless told otherwise.
pub const POOL_CAP: usize = 4096;

/// How long a channel that answered 429 is passed over, in nanoseconds (15 s). The quota snapshot
/// is only refreshed once a minute; until then this keeps cache hits off a channel that just
/// refused.
pub const COOLDOWN: u128 = 15_000_000_000;

/// How far back requests count as load, in nanoseconds (60 s).
pub const LOAD_WINDOW: u128 = 60_000_000_000;

/// Where a conversation went, and when it was last asked for.
#[derive(Clone, Copy)]
pub struct PoolEntry {
    pub channel_id: i64,
    pub last_seen: u128,
}

/// What the router remembers.
pub struct RouterState {
    pool: HashMap<u64, PoolEntry>,
    loads: HashMap<i64, VecDeque<u128>>,
    cooldown_until: HashMap<i64, u128>,
    hits: u64,
    misses: u64,
    routed: HashMap<i64, u64>,
    clock: Clock,
    pub pool_cap: usize,
}

/// What the dashboard shows of a router.
#[derive(Debug, Clone)]
pub struct RouterStats {
    pub entries: usize,
    pub hits: u64,
    pub misses: u64,
    pub routed_per_channel: Vec<(i64, u64)>,
}

impl Default for RouterStats {
    fn default() -> (r: RouterStats)
        ensures
            r.entries == 0,
            r.hits == 0,
            r.misses == 0,
            r.routed_per_channel@.len() == 0,
    {
        RouterStats { entries: 0, hits: 0, misses: 0, routed_per_channel: Vec::new() }
    }
}

/// A [`RouterState`] as mathematical values. Times are nanoseconds on the state's own clock.
#[verifier::ext_equal]
pub struct RouterModel {
    /// Fingerprint to channel.
    pub pool: Map<u64, PoolEntry>,
    /// When requests were sent to each channel, oldest first.
    pub loads: Map<i64, Seq<u128>>,
    /// Until when a channel is cooling down.
    pub cooldown_until: Map<i64, u128>,
    pub hits: u64,
    pub misses: u64,
    /// How many requests each channel was sent.
    pub routed: Map<i64, u64>,
    /// The latest time that anything here speaks of as past.
    pub now: u128,
    pub pool_cap: usize,
}

/// Times in order, none after `now`.
pub open spec fn in_order(times: Seq<u128>, now: u128) -> bool {
    &&& forall|i: int| 0 <= i < times.len() ==> #[trigger] times[i] <= now
    &&& forall|i: int, j: int| 0 <= i <= j < times.len() ==> times[i] <= times[j]
}

/// The times that are at most [`LOAD_WINDOW`] back.
pub open spec fn in_window(times: Seq<u128>, now: u128) -> Seq<u128> {
    times.filter(|t: u128| now - t <= LOAD_WINDOW)
}

/// `k` was asked for least recently.
pub open spec fn is_oldest(pool: Map<u64, PoolEntry>, k: u64) -> bool {
    &&& pool.contains_key(k)
    &&& forall|j: u64|
        pool.contains_key(j) ==> pool[k].last_seen <= (#[trigger] pool[j]).last_seen
}

impl RouterModel {
    /// What holds of every router: nothing lies in the future, and each channel's requests are in
    /// order.
    pub open spec fn wf(self) -> bool {
        &&& self.now <= MAX_NANOS
        &&& self.pool.dom().finite()
        &&& forall|k: u64|
            self.pool.contains_key(k) ==> (#[trigger] self.pool[k]).last_seen <= self.now
        &&& forall|id: i64|
            self.loads.contains_key(id) ==> in_order(#[trigger] self.loads[id], self.now)
    }

    /// A router that remembers nothing.
    pub open spec fn empty(pool_cap: usize) -> RouterModel {
        RouterModel {
            pool: Map::empty(),
            loads: Map::empty(),
            cooldown_until: Map::empty(),
            hits: 0,
            misses: 0,
            routed: Map::empty(),
            now: 0,
            pool_cap,
        }
    }

    /// The channel that a conversation is known to be on, where that channel is eligible.
    pub open spec fn hit(self, key: u64, eligible: Seq<i64>) -> Option<i64> {
        if self.pool.contains_key(key) && eligible.contains(self.pool[key].channel_id) {
            Some(self.pool[key].channel_id)
        } else {
            None
        }
    }

    /// The counters have room for one more lookup.
    pub open spec fn can_count(self, key: u64, eligible: Seq<i64>) -> bool {
        if self.hit(key, eligible) is Some {
            self.hits < u64::MAX
        } else {
            self.misses < u64::MAX
        }
    }

    /// After a lookup: the entry, eligible or not, was asked for now, and the lookup is counted.
    pub open spec fn after_lookup(self, key: u64, eligible: Seq<i64>, now: u128) -> RouterModel {
        RouterModel {
            pool: if self.pool.contains_key(key) {
                self.pool.insert(key, PoolEntry { last_seen: now, ..self.pool[key] })
            } else {
                self.pool
            },
            hits: if self.hit(key, eligible) is Some {
                (self.hits + 1) as u64
            } else {
                self.hits
            },
            misses: if self.hit(key, eligible) is Some {
                self.misses
            } else {
                (self.misses + 1) as u64
            },
            now,
            ..self
        }
    }

    /// A channel's count has room for one more request.
    pub open spec fn can_route(self, channel_id: i64) -> bool {
        self.routed.contains_key(channel_id) ==> self.routed[channel_id] < u64::MAX
    }

    /// A full pool makes room for a conversation that it does not know.
    pub open spec fn must_evict(self, key: u64) -> bool {
        self.pool.len() >= self.pool_cap && !self.pool.contains_key(key) && self.pool.len() > 0
    }

    /// What the pool is after a request: the conversation, if it has a fingerprint, is on that
    /// channel; where the pool was full, one of those asked for least recently has left.
    pub open spec fn pool_after_record(
        self,
        key: Option<u64>,
        entry: PoolEntry,
        pool: Map<u64, PoolEntry>,
    ) -> bool {
        match key {
            None => pool == self.pool,
            Some(k) => if self.must_evict(k) {
                exists|oldest: u64| #[trigger]
                    is_oldest(self.pool, oldest) && pool == self.pool.remove(oldest).insert(
                        k,
                        entry,
                    )
            } else {
                pool == self.pool.insert(k, entry)
            },
        }
    }

    /// The requests that were sent to a channel, oldest first.
    pub open spec fn sent(self, channel_id: i64) -> Seq<u128> {
        if self.loads.contains_key(channel_id) {
            self.loads[channel_id]
        } else {
            Seq::empty()
        }
    }

    /// How many requests a channel was sent.
    pub open spec fn routed_to(self, channel_id: i64) -> u64 {
        if self.routed.contains_key(channel_id) {
            self.routed[channel_id]
        } else {
            0
        }
    }

    /// After a request was sent to a channel now, apart from the pool.
    pub open spec fn after_record(
        self,
        channel_id: i64,
        now: u128,
        pool: Map<u64, PoolEntry>,
    ) -> RouterModel {
        RouterModel {
            pool,
            loads: self.loads.insert(channel_id, self.sent(channel_id).push(now)),
            routed: self.routed.insert(channel_id, (self.routed_to(channel_id) + 1) as u64),
            now,
            ..self
        }
    }

    /// How many requests a channel was sent within [`LOAD_WINDOW`].
    pub open spec fn load(self, channel_id: i64, now: u128) -> nat {
        in_window(self.sent(channel_id), now).len()
    }

    /// After requests that are too old to count were forgotten.
    pub open spec fn after_count(self, now: u128) -> RouterModel {
        RouterModel {
            loads: self.loads.map_values(|times: Seq<u128>| in_window(times, now)),
            now,
            ..self
        }
    }

    /// After a channel refused now.
    pub open spec fn after_cool(self, channel_id: i64, now: u128) -> RouterModel {
        RouterModel {
            cooldown_until: self.cooldown_until.insert(channel_id, (now + COOLDOWN) as u128),
            now,
            ..self
        }
    }

    /// A channel is cooling down at that time.
    pub open spec fn cooled(self, channel_id: i64, now: u128) -> bool {
        self.cooldown_until.contains_key(channel_id) && self.cooldown_until[channel_id] > now
    }
}

impl View for RouterState {
    type V = RouterModel;

    closed spec fn view(&self) -> RouterModel {
        RouterModel {
            pool: self.pool@,
            loads: self.loads@.map_values(|q: VecDeque<u128>| q@),
            cooldown_until: self.cooldown_until@,
            hits: self.hits,
            misses: self.misses,
            routed: self.routed@,
            now: self.clock.latest(),
            pool_cap: self.pool_cap,
        }
    }
}

impl Default for RouterState {
    fn default() -> (r: RouterState)
        ensures
            r@ == RouterModel::empty(POOL_CAP),
            r@.wf(),
    {
        RouterState::new()
    }
}

/// Whether the list holds the channel.
pub fn contains_id(ids: &[i64], id: i64) -> (r: bool)
    ensures
        r == ids@.contains(id),
{
    let mut i: usize = 0;
    while i < ids.len()
        invariant
            i <= ids@.len(),
            forall|j: int| 0 <= j < i ==> ids@[j] != id,
        decreases ids.len() - i,
    {
        if ids[i] == id {
            assert(ids@.contains(ids@[i as int]));
            return true;
        }
        i += 1;
    }
    false
}

/// The loads by channel: those that are not zero.
pub open spec fn are_loads(counts: Map<i64, usize>, model: RouterModel, now: u128) -> bool {
    &&& forall|id: i64| #[trigger] counts.contains_key(id) <==> model.load(id, now) > 0
    &&& forall|id: i64| counts.contains_key(id) ==> #[trigger] counts[id] == model.load(id, now)
}

/// Where the oldest time is within the window, all are.
proof fn lemma_window_keeps_all(times: Seq<u128>, now: u128)
    requires
        in_order(times, now),
        times.len() > 0 ==> now - times[0] <= LOAD_WINDOW,
    ensures
        in_window(times, now) == times,
    decreases times.len(),
{
    reveal(Seq::filter);
    if times.len() > 0 {
        assert(times[0] <= times[times.len() - 1]);
        lemma_window_keeps_all(times.drop_last(), now);
        assert(times.drop_last().push(times.last()) =~= times);
    }
}

/// A time outside of the window does not count.
proof fn lemma_window_drops_first(times: Seq<u128>, now: u128)
    requires
        times.len() > 0,
        now - times[0] > LOAD_WINDOW,
    ensures
        in_window(times, now) == in_window(times.drop_first(), now),
{
    let pred = |t: u128| now - t <= LOAD_WINDOW;
    let one = seq![times[0]];
    assert(one + times.drop_first() =~= times);
    Seq::filter_distributes_over_add(one, times.drop_first(), pred);
    reveal_with_fuel(Seq::filter, 2);
    assert(one.drop_last() =~= Seq::empty());
    assert(!pred(one.last()));
    assert(one.filter(pred) =~= Seq::empty());
    assert(one.filter(pred) + times.drop_first().filter(pred) =~= times.drop_first().filter(pred));
}

/// Times that remain are still in order.
proof fn lemma_drop_first_in_order(times: Seq<u128>, now: u128)
    requires
        times.len() > 0,
        in_order(times, now),
    ensures
        in_order(times.drop_first(), now),
{
    let rest = times.drop_first();
    assert forall|i: int| 0 <= i < rest.len() implies #[trigger] rest[i] <= now by {
        assert(rest[i] == times[i + 1]);
    }
    assert forall|i: int, j: int| 0 <= i <= j < rest.len() implies rest[i] <= rest[j] by {
        assert(rest[i] == times[i + 1]);
        assert(rest[j] == times[j + 1]);
    }
}

/// Forgets the times that are outside of the window.
fn forget_old(times: &mut VecDeque<u128>, now: u128)
    requires
        in_order(old(times)@, now),
    ensures
        final(times)@ == in_window(old(times)@, now),
        in_order(final(times)@, now),
{
    while times.len() > 0 && now - times[0] > LOAD_WINDOW
        invariant
            in_order(times@, now),
            in_window(times@, now) == in_window(old(times)@, now),
        decreases times.len(),
    {
        proof {
            lemma_window_drops_first(times@, now);
            lemma_drop_first_in_order(times@, now);
            assert(times@.subrange(1, times@.len() as int) =~= times@.drop_first());
        }
        times.pop_front();
    }
    proof {
        lemma_window_keeps_all(times@, now);
    }
}

/// The channels that a map has.
fn ids_of<V>(m: &HashMap<i64, V>) -> (r: Vec<i64>)
    ensures
        r@.no_duplicates(),
        forall|id: i64| #[trigger] r@.contains(id) <==> m@.contains_key(id),
{
    let mut out: Vec<i64> = Vec::new();
    let ghost all = vstd::std_specs::iter::IteratorSpec::remaining(&m.keys());
    for id in it: m.keys()
        invariant
            it.seq() == all,
            out@ == all.take(it.index() as int).unref(),
    {
        out.push(*id);
        assert(all.take(it.index() as int).push(id) =~= all.take(it.index() + 1));
        assert(out@ =~= all.take(it.index() + 1).unref());
    }
    proof {
        assert(all.take(all.len() as int) =~= all);
        assert(out@ == all.unref());
        assert(all.unref().to_set() == m@.dom());
        assert forall|id: i64| #[trigger] out@.contains(id) <==> m@.contains_key(id) by {
            assert(out@.to_set().contains(id) == m@.dom().contains(id));
        }
        assert forall|i: int, j: int| 0 <= i < j < out@.len() implies out@[i] != out@[j] by {
            assert(all[i] != all[j]);
        }
    }
    out
}

/// One more item.
proof fn lemma_take_contains(ids: Seq<i64>, i: int)
    requires
        0 <= i < ids.len(),
    ensures
        forall|id: i64| #[trigger]
            ids.take(i + 1).contains(id) <==> ids.take(i).contains(id) || id == ids[i],
        ids.no_duplicates() ==> !ids.take(i).contains(ids[i]),
{
    let more = ids.take(i + 1);
    let some = ids.take(i);
    assert forall|id: i64| #[trigger] more.contains(id) <==> some.contains(id) || id == ids[i] by {
        if some.contains(id) {
            let k = choose|k: int| 0 <= k < some.len() && some[k] == id;
            assert(more[k] == id);
        }
        if id == ids[i] {
            assert(more[i] == id);
        }
        if more.contains(id) && id != ids[i] {
            let k = choose|k: int| 0 <= k < more.len() && more[k] == id;
            assert(some[k] == id);
        }
    }
}

/// Forgets what is too old in each queue, and counts what remains.
fn count_loads(loads: &mut HashMap<i64, VecDeque<u128>>, now: u128) -> (r: HashMap<i64, usize>)
    requires
        forall|id: i64| old(loads)@.contains_key(id) ==> in_order(#[trigger] old(loads)@[id]@, now),
    ensures
        final(loads)@.dom() == old(loads)@.dom(),
        forall|id: i64|
            old(loads)@.contains_key(id) ==> #[trigger] final(loads)@[id]@ == in_window(
                old(loads)@[id]@,
                now,
            ),
        forall|id: i64|
            old(loads)@.contains_key(id) ==> in_order(#[trigger] final(loads)@[id]@, now),
        forall|id: i64| #[trigger]
            r@.contains_key(id) <==> old(loads)@.contains_key(id) && in_window(
                old(loads)@[id]@,
                now,
            ).len() > 0,
        forall|id: i64|
            r@.contains_key(id) ==> #[trigger] r@[id] == in_window(old(loads)@[id]@, now).len(),
{
    let ids = ids_of(loads);
    let mut out: HashMap<i64, usize> = HashMap::new();
    let mut i: usize = 0;
    let ghost before = loads@;
    while i < ids.len()
        invariant
            i <= ids@.len(),
            ids@.no_duplicates(),
            before == old(loads)@,
            forall|id: i64| #[trigger] ids@.contains(id) <==> before.contains_key(id),
            forall|id: i64|
                before.contains_key(id) ==> in_order(#[trigger] before[id]@, now),
            loads@.dom() == before.dom(),
            forall|id: i64|
                before.contains_key(id) ==> #[trigger] loads@[id]@ == if ids@.take(
                    i as int,
                ).contains(id) {
                    in_window(before[id]@, now)
                } else {
                    before[id]@
                },
            forall|id: i64|
                before.contains_key(id) ==> in_order(#[trigger] loads@[id]@, now),
            forall|id: i64| #[trigger]
                out@.contains_key(id) <==> ids@.take(i as int).contains(id) && in_window(
                    before[id]@,
                    now,
                ).len() > 0,
            forall|id: i64|
                out@.contains_key(id) ==> #[trigger] out@[id] == in_window(before[id]@, now).len(),
        decreases ids.len() - i,
    {
        let id = ids[i];
        proof {
            lemma_take_contains(ids@, i as int);
            assert(ids@.contains(ids@[i as int]));
        }
        if let Some(q) = loads.remove(&id) {
            let mut q = q;
            assert(q@ == before[id]@);
            forget_old(&mut q, now);
            if q.len() > 0 {
                out.insert(id, q.len());
            }
            loads.insert(id, q);
            assert(loads@.dom() =~= before.dom());
        }
        i += 1;
    }
    assert(ids@.take(i as int) =~= ids@);
    out
}

/// What `keep` leaves of a map by channel: of each channel either everything or nothing.
pub open spec fn retained<F: Fn(i64) -> bool, V>(
    keep: F,
    before: Map<i64, V>,
    after: Map<i64, V>,
) -> bool {
    &&& forall|id: i64| #[trigger]
        after.contains_key(id) ==> before.contains_key(id) && after[id] == before[id]
            && keep.ensures((id,), true)
    &&& forall|id: i64| #[trigger]
        before.contains_key(id) && !after.contains_key(id) ==> keep.ensures((id,), false)
}

/// What `keep` leaves of the pool: the conversations on channels that it keeps.
pub open spec fn retained_pool<F: Fn(i64) -> bool>(
    keep: F,
    before: Map<u64, PoolEntry>,
    after: Map<u64, PoolEntry>,
) -> bool {
    &&& forall|k: u64| #[trigger]
        after.contains_key(k) ==> before.contains_key(k) && after[k] == before[k] && keep.ensures(
            (before[k].channel_id,),
            true,
        )
    &&& forall|k: u64| #[trigger]
        before.contains_key(k) && !after.contains_key(k) ==> keep.ensures(
            (before[k].channel_id,),
            false,
        )
}

/// Drops the channels that `keep` does not keep.
fn retain_ids<F: Fn(i64) -> bool, V>(m: &mut HashMap<i64, V>, keep: &F)
    requires
        forall|id: i64| #[trigger] keep.requires((id,)),
    ensures
        retained(*keep, old(m)@, final(m)@),
{
    let ids = ids_of(m);
    let mut i: usize = 0;
    let ghost before = m@;
    while i < ids.len()
        invariant
            i <= ids@.len(),
            before == old(m)@,
            ids@.no_duplicates(),
            forall|id: i64| #[trigger] keep.requires((id,)),
            forall|id: i64| #[trigger] ids@.contains(id) <==> before.contains_key(id),
            forall|id: i64| #[trigger]
                m@.contains_key(id) ==> before.contains_key(id) && m@[id] == before[id],
            forall|id: i64| #[trigger]
                m@.contains_key(id) && ids@.take(i as int).contains(id) ==> keep.ensures(
                    (id,),
                    true,
                ),
            forall|id: i64| #[trigger]
                before.contains_key(id) && !m@.contains_key(id) ==> keep.ensures((id,), false),
        decreases ids.len() - i,
    {
        proof {
            lemma_take_contains(ids@, i as int);
        }
        let id = ids[i];
        if !keep(id) {
            m.remove(&id);
        }
        i += 1;
    }
    assert(ids@.take(i as int) =~= ids@);
}

/// Drops the conversations on channels that `keep` does not keep.
fn retain_pool<F: Fn(i64) -> bool>(m: &mut HashMap<u64, PoolEntry>, keep: &F)
    requires
        forall|id: i64| #[trigger] keep.requires((id,)),
    ensures
        retained_pool(*keep, old(m)@, final(m)@),
{
    let mut doomed: Vec<u64> = Vec::new();
    let ghost before = m@;
    let ghost all = vstd::std_specs::iter::IteratorSpec::remaining(&m.iter());
    for (k, e) in it: m.iter()
        invariant
            it.seq() == all,
            before == m@,
            forall|id: i64| #[trigger] keep.requires((id,)),
            forall|i: int|
                0 <= i < all.len() ==> before.contains_key(*(#[trigger] all[i]).0)
                    && before[*all[i].0] == *all[i].1,
            forall|i: int|
                0 <= i < it.index() ==> doomed@.contains(*(#[trigger] all[i]).0) || keep.ensures(
                    (all[i].1.channel_id,),
                    true,
                ),
            forall|j: int|
                0 <= j < doomed@.len() ==> before.contains_key(#[trigger] doomed@[j])
                    && keep.ensures((before[doomed@[j]].channel_id,), false),
    {
        let ghost sofar = doomed@;
        if !keep(e.channel_id) {
            doomed.push(*k);
            assert(doomed@[sofar.len() as int] == *k);
        }
        assert forall|x: u64| sofar.contains(x) implies doomed@.contains(x) by {
            let j = choose|j: int| 0 <= j < sofar.len() && sofar[j] == x;
            assert(doomed@[j] == x);
        }
    }
    assert forall|k: u64| #[trigger] before.contains_key(k) implies doomed@.contains(k)
        || keep.ensures((before[k].channel_id,), true) by {
        assert(all.contains((&k, &before[k])));
        let i = choose|i: int| 0 <= i < all.len() && all[i] == (&k, &before[k]);
        assert(all[i].1.channel_id == before[k].channel_id);
    }
    let mut i: usize = 0;
    while i < doomed.len()
        invariant
            i <= doomed@.len(),
            before == old(m)@,
            forall|j: int|
                0 <= j < doomed@.len() ==> before.contains_key(#[trigger] doomed@[j])
                    && keep.ensures((before[doomed@[j]].channel_id,), false),
            forall|k: u64| #[trigger]
                m@.contains_key(k) ==> before.contains_key(k) && m@[k] == before[k],
            forall|j: int| 0 <= j < i ==> !m@.contains_key(#[trigger] doomed@[j]),
            forall|k: u64| #[trigger]
                before.contains_key(k) && !m@.contains_key(k) ==> keep.ensures(
                    (before[k].channel_id,),
                    false,
                ),
        decreases doomed.len() - i,
    {
        let k = doomed[i];
        m.remove(&k);
        i += 1;
    }
}

/// The pairs of a map, by ascending channel.
pub open spec fn lists(pairs: Seq<(i64, u64)>, m: Map<i64, u64>) -> bool {
    &&& forall|i: int, j: int|
        0 <= i < j < pairs.len() ==> (#[trigger] pairs[i]).0 < (#[trigger] pairs[j]).0
    &&& forall|i: int|
        0 <= i < pairs.len() ==> m.contains_key((#[trigger] pairs[i]).0) && m[pairs[i].0]
            == pairs[i].1
    &&& forall|id: i64| #[trigger]
        m.contains_key(id) ==> exists|i: int| 0 <= i < pairs.len() && (#[trigger] pairs[i]).0 == id
}

/// The pairs of a map, by ascending channel.
fn sorted_pairs(m: &HashMap<i64, u64>) -> (r: Vec<(i64, u64)>)
    ensures
        lists(r@, m@),
{
    let ids = ids_of(m);
    let mut out: Vec<(i64, u64)> = Vec::new();
    let ghost mut done: Map<i64, u64> = Map::empty();
    let mut i: usize = 0;
    while i < ids.len()
        invariant
            i <= ids@.len(),
            ids@.no_duplicates(),
            forall|id: i64| #[trigger] ids@.contains(id) <==> m@.contains_key(id),
            forall|id: i64| #[trigger]
                done.contains_key(id) <==> ids@.take(i as int).contains(id),
            forall|id: i64| #[trigger] done.contains_key(id) ==> done[id] == m@[id],
            lists(out@, done),
        decreases ids.len() - i,
    {
        let id = ids[i];
        proof {
            lemma_take_contains(ids@, i as int);
            assert(ids@.contains(ids@[i as int]));
        }
        if let Some(n) = m.get(&id) {
            let mut at: usize = 0;
            while at < out.len() && out[at].0 < id
                invariant
                    at <= out@.len(),
                    forall|j: int| 0 <= j < at ==> (#[trigger] out@[j]).0 < id,
                decreases out.len() - at,
            {
                at += 1;
            }
            proof {
                lemma_lists_insert(out@, done, at as int, id, *n);
                done = done.insert(id, *n);
            }
            out.insert(at, (id, *n));
        }
        i += 1;
    }
    proof {
        assert(ids@.take(i as int) =~= ids@);
        assert(done =~= m@);
    }
    out
}

/// A pair that is put in its place.
proof fn lemma_lists_insert(pairs: Seq<(i64, u64)>, m: Map<i64, u64>, at: int, id: i64, n: u64)
    requires
        lists(pairs, m),
        !m.contains_key(id),
        0 <= at <= pairs.len(),
        forall|j: int| 0 <= j < at ==> (#[trigger] pairs[j]).0 < id,
        at < pairs.len() ==> pairs[at].0 >= id,
    ensures
        lists(pairs.insert(at, (id, n)), m.insert(id, n)),
{
    let new = pairs.insert(at, (id, n));
    assert forall|i: int| 0 <= i < pairs.len() implies (#[trigger] pairs[i]).0 != id by {
        assert(m.contains_key(pairs[i].0));
    }
    assert forall|i: int, j: int| 0 <= i < j < new.len() implies (#[trigger] new[i]).0 < (
    #[trigger] new[j]).0 by {
        let a = if i < at { i } else { i - 1 };
        let b = if j < at { j } else { j - 1 };
        if i == at {
            assert(pairs[at].0 > id);
            assert(pairs[at].0 <= pairs[b].0);
        } else if j == at {
            assert(pairs[a].0 < id);
        } else {
            assert(pairs[a].0 < pairs[b].0);
        }
    }
    assert forall|i: int| 0 <= i < new.len() implies m.insert(id, n).contains_key(
        (#[trigger] new[i]).0,
    ) && m.insert(id, n)[new[i].0] == new[i].1 by {
        let a = if i < at { i } else { i - 1 };
        if i != at {
            assert(new[i] == pairs[a]);
        }
    }
    assert forall|k: i64| #[trigger] m.insert(id, n).contains_key(k) implies exists|i: int|
        0 <= i < new.len() && (#[trigger] new[i]).0 == k by {
        if k == id {
            assert(new[at].0 == k);
        } else {
            assert(m.contains_key(k));
            let i = choose|i: int| 0 <= i < pairs.len() && (#[trigger] pairs[i]).0 == k;
            if i < at {
                assert(new[i].0 == k);
            } else {
                assert(new[i + 1].0 == k);
            }
        }
    }
}

/// One of the conversations that were asked for least recently.
fn oldest_entry(pool: &HashMap<u64, PoolEntry>) -> (r: Option<u64>)
    ensures
        match r {
            Some(k) => is_oldest(pool@, k),
            None => pool@.dom().len() == 0,
        },
{
    let mut best: Option<(u64, u128)> = None;
    let ghost all = vstd::std_specs::iter::IteratorSpec::remaining(&pool.iter());
    for (k, e) in it: pool.iter()
        invariant
            it.seq() == all,
            all.len() == pool@.dom().len(),
            forall|i: int|
                0 <= i < all.len() ==> pool@.contains_key(*(#[trigger] all[i]).0)
                    && pool@[*all[i].0] == *all[i].1,
            match best {
                Some((k, seen)) => {
                    &&& pool@.contains_key(k)
                    &&& pool@[k].last_seen == seen
                    &&& forall|i: int|
                        0 <= i < it.index() ==> seen <= (#[trigger] all[i]).1.last_seen
                },
                None => it.index() == 0,
            },
    {
        let newer: bool = match best {
            Some((_, seen)) => seen <= e.last_seen,
            None => false,
        };
        if !newer {
            best = Some((*k, e.last_seen));
        }
    }
    match best {
        Some((k, _)) => {
            assert forall|j: u64| pool@.contains_key(j) implies pool@[k].last_seen <= (
            #[trigger] pool@[j]).last_seen by {
                assert(all.contains((&j, &pool@[j])));
                let i = choose|i: int| 0 <= i < all.len() && all[i] == (&j, &pool@[j]);
                assert(all[i].1.last_seen == pool@[j].last_seen);
            }
            Some(k)
        },
        None => None,
    }
}

impl RouterState {
    /// A router that remembers nothing.
    pub fn new() -> (r: RouterState)
        ensures
            r@ == RouterModel::empty(POOL_CAP),
            r@.wf(),
    {
        RouterState::with_pool_cap(POOL_CAP)
    }

    /// A router that remembers nothing, with room for that many conversations.
    pub fn with_pool_cap(pool_cap: usize) -> (r: RouterState)
        ensures
            r@ == RouterModel::empty(pool_cap),
            r@.wf(),
    {
        let r = RouterState {
            pool: HashMap::new(),
            loads: HashMap::new(),
            cooldown_until: HashMap::new(),
            hits: 0,
            misses: 0,
            routed: HashMap::new(),
            clock: Clock::start(),
            pool_cap,
        };
        assert(r@ =~= RouterModel::empty(pool_cap));
        r
    }

    /// The channel that a conversation is known to be on, where that channel is eligible at `now`.
    /// Whether it is cooling down is for the choice to weigh.
    pub fn lookup_at(&mut self, key: u64, eligible: &[i64], now: u128) -> (r: Option<i64>)
        requires
            old(self)@.wf(),
            old(self)@.now <= now <= MAX_NANOS,
            old(self)@.can_count(key, eligible@),
        ensures
            final(self)@.wf(),
            r == old(self)@.hit(key, eligible@),
            final(self)@ == old(self)@.after_lookup(key, eligible@, now),
    {
        self.clock.note(now);
        let known: Option<i64> = match self.pool.get(&key) {
            Some(e) => Some(e.channel_id),
            None => None,
        };
        let mut hit: Option<i64> = None;
        if let Some(id) = known {
            self.pool.insert(key, PoolEntry { channel_id: id, last_seen: now });
            if contains_id(eligible, id) {
                hit = Some(id);
            }
        }
        if hit.is_some() {
            self.hits += 1;
        } else {
            self.misses += 1;
        }
        assert(self@ =~= old(self)@.after_lookup(key, eligible@, now));
        hit
    }

    /// The channel that a conversation is known to be on, where that channel is eligible now.
    pub fn lookup(&mut self, key: u64, eligible: &[i64]) -> (r: Option<i64>)
        requires
            old(self)@.wf(),
            old(self)@.can_count(key, eligible@),
        ensures
            final(self)@.wf(),
            r == old(self)@.hit(key, eligible@),
            old(self)@.now <= final(self)@.now,
            final(self)@ == old(self)@.after_lookup(key, eligible@, final(self)@.now),
    {
        let now = self.clock.read();
        self.lookup_at(key, eligible, now)
    }

    /// Notes that a request was sent to a channel at `now`, and where the conversation has a
    /// fingerprint, that it is on that channel. Retries count too: they are load.
    pub fn record_at(&mut self, key: Option<u64>, channel_id: i64, now: u128)
        requires
            old(self)@.wf(),
            old(self)@.now <= now <= MAX_NANOS,
            old(self)@.can_route(channel_id),
        ensures
            final(self)@.wf(),
            old(self)@.pool_after_record(
                key,
                (PoolEntry { channel_id, last_seen: now }),
                final(self)@.pool,
            ),
            final(self)@ == old(self)@.after_record(channel_id, now, final(self)@.pool),
    {
        self.clock.note(now);
        if let Some(key) = key {
            if self.pool.len() >= self.pool_cap && !self.pool.contains_key(&key) {
                if let Some(oldest) = oldest_entry(&self.pool) {
                    self.pool.remove(&oldest);
                }
            }
            self.pool.insert(key, PoolEntry { channel_id, last_seen: now });
        }
        let mut sent: VecDeque<u128> = match self.loads.remove(&channel_id) {
            Some(q) => q,
            None => VecDeque::new(),
        };
        sent.push_back(now);
        self.loads.insert(channel_id, sent);
        let count: u64 = match self.routed.get(&channel_id) {
            Some(n) => *n,
            None => 0,
        };
        self.routed.insert(channel_id, count + 1);
        assert(self@ =~= old(self)@.after_record(channel_id, now, self@.pool));
    }

    /// Notes that a request is sent to a channel now, and where the conversation has a
    /// fingerprint, that it is on that channel.
    pub fn record(&mut self, key: Option<u64>, channel_id: i64)
        requires
            old(self)@.wf(),
            old(self)@.can_route(channel_id),
        ensures
            final(self)@.wf(),
            old(self)@.now <= final(self)@.now,
            old(self)@.pool_after_record(
                key,
                (PoolEntry { channel_id, last_seen: final(self)@.now }),
                final(self)@.pool,
            ),
            final(self)@ == old(self)@.after_record(
                channel_id,
                final(self)@.now,
                final(self)@.pool,
            ),
    {
        let now = self.clock.read();
        self.record_at(key, channel_id, now)
    }

    /// Notes that a channel refused at `now`.
    pub fn cool_at(&mut self, channel_id: i64, now: u128)
        requires
            old(self)@.wf(),
            old(self)@.now <= now <= MAX_NANOS,
        ensures
            final(self)@.wf(),
            final(self)@ == old(self)@.after_cool(channel_id, now),
    {
        self.clock.note(now);
        self.cooldown_until.insert(channel_id, now + COOLDOWN);
        assert(self@ =~= old(self)@.after_cool(channel_id, now));
    }

    /// Notes that a channel refuses now.
    pub fn cool(&mut self, channel_id: i64)
        requires
            old(self)@.wf(),
        ensures
            final(self)@.wf(),
            old(self)@.now <= final(self)@.now,
            final(self)@ == old(self)@.after_cool(channel_id, final(self)@.now),
    {
        let now = self.clock.read();
        self.cool_at(channel_id, now)
    }

    /// Whether a channel is cooling down at `now`.
    pub fn is_cooled_at(&self, id: i64, now: u128) -> (r: bool)
        ensures
            r == self@.cooled(id, now),
    {
        match self.cooldown_until.get(&id) {
            Some(t) => *t > now,
            None => false,
        }
    }

    /// Reads the router's clock.
    pub fn time(&self) -> (now: u128)
        requires
            self@.wf(),
        ensures
            self@.now <= now <= MAX_NANOS,
    {
        self.clock.read()
    }

    /// Whether a channel is cooling down now.
    pub fn is_cooled(&self, id: i64) -> (r: bool)
        requires
            self@.wf(),
        ensures
            exists|now: u128| self@.now <= now <= MAX_NANOS && r == #[trigger] self@.cooled(id, now),
            r ==> self@.cooled(id, self@.now),
    {
        let now = self.clock.read();
        let r = self.is_cooled_at(id, now);
        assert(r == self@.cooled(id, now));
        r
    }

    /// How many requests each channel was sent within [`LOAD_WINDOW`] before `now`; channels with
    /// none are left out. Older requests are forgotten.
    pub fn load_counts_at(&mut self, now: u128) -> (r: HashMap<i64, usize>)
        requires
            old(self)@.wf(),
            old(self)@.now <= now <= MAX_NANOS,
        ensures
            final(self)@.wf(),
            final(self)@ == old(self)@.after_count(now),
            are_loads(r@, old(self)@, now),
    {
        self.clock.note(now);
        let ghost before = self.loads@;
        assert forall|id: i64| before.contains_key(id) implies in_order(
            #[trigger] before[id]@,
            now,
        ) by {
            assert(old(self)@.loads[id] == before[id]@);
        }
        let out = count_loads(&mut self.loads, now);
        proof {
            assert(self@.loads =~= old(self)@.after_count(now).loads);
            assert forall|id: i64| #[trigger] out@.contains_key(id) <==> old(self)@.load(id, now)
                > 0 by {
                reveal(Seq::filter);
                assert(before.contains_key(id) ==> old(self)@.sent(id) == before[id]@);
            }
        }
        out
    }

    /// How many requests each channel was sent within [`LOAD_WINDOW`]; channels with none are left
    /// out. Older requests are forgotten.
    pub fn load_counts(&mut self) -> (r: HashMap<i64, usize>)
        requires
            old(self)@.wf(),
        ensures
            final(self)@.wf(),
            old(self)@.now <= final(self)@.now,
            final(self)@ == old(self)@.after_count(final(self)@.now),
            are_loads(r@, old(self)@, final(self)@.now),
    {
        let now = self.clock.read();
        self.load_counts_at(now)
    }

    /// Forgets everything about the channels that `keep` does not keep.
    pub fn retain_channel<F: Fn(i64) -> bool>(&mut self, keep: F)
        requires
            old(self)@.wf(),
            forall|id: i64| #[trigger] keep.requires((id,)),
        ensures
            final(self)@.wf(),
            retained_pool(keep, old(self)@.pool, final(self)@.pool),
            retained(keep, old(self)@.loads, final(self)@.loads),
            retained(keep, old(self)@.cooldown_until, final(self)@.cooldown_until),
            retained(keep, old(self)@.routed, final(self)@.routed),
            final(self)@.hits == old(self)@.hits,
            final(self)@.misses == old(self)@.misses,
            final(self)@.now == old(self)@.now,
            final(self)@.pool_cap == old(self)@.pool_cap,
    {
        retain_pool(&mut self.pool, &keep);
        retain_ids(&mut self.loads, &keep);
        retain_ids(&mut self.cooldown_until, &keep);
        retain_ids(&mut self.routed, &keep);
        assert forall|k: u64| self@.pool.contains_key(k) implies (#[trigger] self@.pool[k]).last_seen
            <= self@.now by {
            assert(old(self)@.pool.contains_key(k));
        }
        assert forall|id: i64| self@.loads.contains_key(id) implies in_order(
            #[trigger] self@.loads[id],
            self@.now,
        ) by {
            assert(old(self)@.loads.contains_key(id));
            assert(self@.loads[id] == old(self)@.loads[id]);
        }
    }

    /// The counters, and how many requests each channel was sent, by ascending channel.
    pub fn stats(&self) -> (r: RouterStats)
        ensures
            r.entries == self@.pool.len(),
            r.hits == self@.hits,
            r.misses == self@.misses,
            lists(r.routed_per_channel@, self@.routed),
    {
        RouterStats {
            entries: self.pool.len(),
            hits: self.hits,
            misses: self.misses,
            routed_per_channel: sorted_pairs(&self.routed),
        }
    }
}

} // verus!
