//! Which channel a request goes to: the pinned one, else the one that holds the conversation's
//! cache, else the one with the best score.

use std::collections::HashMap;
use vstd::prelude::*;

use crate::clock::MAX_NANOS;
use crate::double::Double;
use crate::state::{contains_id, RouterModel, RouterState};
use crate::view::{KeyQuota, RouteView};

verus! {

/// The length of a weekly window, in milliseconds.
pub const MAX_WEEK_MS: u64 = 604_800_000;

/// Where a request goes.
#[derive(Debug, Clone, Copy, PartialEq, Eq, Structural)]
pub enum Choice {
    /// To this channel.
    Channel { id: i64, via: Via },
    /// The snapshot knows of no key: pass the request through.
    NoData,
    /// No eligible channel is left to try: pass the request through and let the upstream decide.
    NoEligible,
}

/// Why a channel was chosen.
#[derive(Debug, Clone, Copy, PartialEq, Eq, Structural)]
pub enum Via {
    Pin,
    CacheHit,
    Score,
}

/// What the score of one candidate is computed from.
#[derive(Debug, Clone, Copy)]
pub struct ScoreInput {
    /// Until the candidate's weekly window resets, in milliseconds.
    pub remaining_ms: u64,
    /// The same over all candidates.
    pub total_remaining_ms: u128,
    pub five_hour_pct: Option<Double>,
    pub weekly_pct: Option<Double>,
    /// The requests that the candidate was sent within the load window.
    pub load: usize,
    /// The same over all candidates.
    pub total_load: u128,
}

impl ScoreInput {
    /// A candidate's share is part of the whole: neither share exceeds one, and where a total is
    /// zero, so is the candidate's part of it.
    pub open spec fn sound(self) -> bool {
        &&& self.remaining_ms <= MAX_WEEK_MS
        &&& self.remaining_ms <= self.total_remaining_ms
        &&& self.load <= self.total_load
    }
}

/// Until a channel's weekly window resets: nothing where that time has passed, and the whole window
/// where the channel has none.
pub open spec fn remaining(keys: Map<i64, KeyQuota>, id: i64, now_ms: i64) -> int {
    if keys.contains_key(id) && keys[id].weekly_reset_ms is Some {
        let left = keys[id].weekly_reset_ms->0 - now_ms;
        if left < 0 {
            0
        } else if left > MAX_WEEK_MS {
            MAX_WEEK_MS as int
        } else {
            left
        }
    } else {
        MAX_WEEK_MS as int
    }
}

/// The same over all candidates.
pub open spec fn total_remaining(
    candidates: Seq<i64>,
    keys: Map<i64, KeyQuota>,
    now_ms: i64,
) -> int
    decreases candidates.len(),
{
    if candidates.len() == 0 {
        0
    } else {
        total_remaining(candidates.drop_last(), keys, now_ms) + remaining(
            keys,
            candidates.last(),
            now_ms,
        )
    }
}

/// The load over all candidates.
pub open spec fn total_load(candidates: Seq<i64>, load: spec_fn(i64) -> nat) -> nat
    decreases candidates.len(),
{
    if candidates.len() == 0 {
        0
    } else {
        total_load(candidates.drop_last(), load) + load(candidates.last())
    }
}

/// The quota of a channel, or one of which nothing is known.
pub open spec fn quota(keys: Map<i64, KeyQuota>, id: i64) -> KeyQuota {
    if keys.contains_key(id) {
        keys[id]
    } else {
        KeyQuota { five_hour_pct: None, weekly_pct: None, weekly_reset_ms: None, max_pct: None }
    }
}

/// What the score of the candidate at `i` is computed from.
pub open spec fn score_input(
    candidates: Seq<i64>,
    keys: Map<i64, KeyQuota>,
    load: spec_fn(i64) -> nat,
    now_ms: i64,
    i: int,
) -> ScoreInput {
    ScoreInput {
        remaining_ms: remaining(keys, candidates[i], now_ms) as u64,
        total_remaining_ms: total_remaining(candidates, keys, now_ms) as u128,
        five_hour_pct: quota(keys, candidates[i]).five_hour_pct,
        weekly_pct: quota(keys, candidates[i]).weekly_pct,
        load: load(candidates[i]) as usize,
        total_load: total_load(candidates, load) as u128,
    }
}

/// The candidates, each with a score that the formula gives for it.
pub open spec fn are_scores<F: Fn(ScoreInput) -> Double>(
    scored: Seq<(i64, Double)>,
    candidates: Seq<i64>,
    keys: Map<i64, KeyQuota>,
    load: spec_fn(i64) -> nat,
    now_ms: i64,
    score: F,
) -> bool {
    &&& scored.len() == candidates.len()
    &&& forall|i: int|
        0 <= i < scored.len() ==> (#[trigger] scored[i]).0 == candidates[i] && score.ensures(
            (score_input(candidates, keys, load, now_ms, i),),
            scored[i].1,
        )
}

/// The load by channel that a table of counts gives.
pub open spec fn counted(loads: Map<i64, usize>) -> spec_fn(i64) -> nat {
    |id: i64|
        if loads.contains_key(id) {
            loads[id] as nat
        } else {
            0
        }
}

/// Until a channel's weekly window resets, in milliseconds.
pub fn remaining_ms(view: &RouteView, id: i64, now_ms: i64) -> (r: u64)
    ensures
        r == remaining(view.keys@, id, now_ms),
{
    match view.keys.get(&id) {
        Some(q) => match q.weekly_reset_ms {
            Some(reset) => {
                let left: i128 = reset as i128 - now_ms as i128;
                if left < 0 {
                    0
                } else if left > MAX_WEEK_MS as i128 {
                    MAX_WEEK_MS
                } else {
                    left as u64
                }
            },
            None => MAX_WEEK_MS,
        },
        None => MAX_WEEK_MS,
    }
}

/// A candidate's part is no more than the whole.
pub proof fn law_parts_of_the_whole(
    candidates: Seq<i64>,
    keys: Map<i64, KeyQuota>,
    load: spec_fn(i64) -> nat,
    now_ms: i64,
    i: int,
)
    requires
        0 <= i < candidates.len(),
    ensures
        0 <= remaining(keys, candidates[i], now_ms) <= total_remaining(candidates, keys, now_ms),
        load(candidates[i]) <= total_load(candidates, load),
    decreases candidates.len(),
{
    let rest = candidates.drop_last();
    lemma_total_remaining_bound(rest, keys, now_ms);
    if i < rest.len() {
        law_parts_of_the_whole(rest, keys, load, now_ms, i);
    }
}

/// The time left over the candidates is at most a window for each.
pub(crate) proof fn lemma_total_remaining_bound(
    candidates: Seq<i64>,
    keys: Map<i64, KeyQuota>,
    now_ms: i64,
)
    ensures
        0 <= total_remaining(candidates, keys, now_ms) <= candidates.len() * MAX_WEEK_MS,
    decreases candidates.len(),
{
    if candidates.len() > 0 {
        lemma_total_remaining_bound(candidates.drop_last(), keys, now_ms);
    }
}

/// The time left over all candidates is zero only where every candidate's window is due: then no
/// share of it can be taken, and all candidates are equally urgent.
pub proof fn law_no_time_left_means_all_due(
    candidates: Seq<i64>,
    keys: Map<i64, KeyQuota>,
    now_ms: i64,
)
    ensures
        total_remaining(candidates, keys, now_ms) == 0 <==> forall|i: int|
            0 <= i < candidates.len() ==> remaining(keys, #[trigger] candidates[i], now_ms) == 0,
    decreases candidates.len(),
{
    if candidates.len() > 0 {
        let rest = candidates.drop_last();
        law_no_time_left_means_all_due(rest, keys, now_ms);
        lemma_total_remaining_bound(rest, keys, now_ms);
        if total_remaining(candidates, keys, now_ms) == 0 {
            assert forall|i: int| 0 <= i < candidates.len() implies remaining(
                keys,
                #[trigger] candidates[i],
                now_ms,
            ) == 0 by {
                if i < rest.len() {
                    assert(rest[i] == candidates[i]);
                }
            }
        } else {
            if forall|i: int|
                0 <= i < candidates.len() ==> remaining(keys, #[trigger] candidates[i], now_ms)
                    == 0 {
                assert forall|i: int| 0 <= i < rest.len() implies remaining(
                    keys,
                    #[trigger] rest[i],
                    now_ms,
                ) == 0 by {
                    assert(rest[i] == candidates[i]);
                }
                assert(remaining(keys, candidates[candidates.len() - 1], now_ms) == 0);
            }
        }
    }
}

/// Scores every candidate.
pub fn score_all<F: Fn(ScoreInput) -> Double>(
    candidates: &[i64],
    view: &RouteView,
    loads: &HashMap<i64, usize>,
    now_ms: i64,
    score: &F,
) -> (r: Vec<(i64, Double)>)
    requires
        forall|x: ScoreInput| x.sound() ==> #[trigger] score.requires((x,)),
    ensures
        are_scores(r@, candidates@, view.keys@, counted(loads@), now_ms, *score),
{
    let ghost load = counted(loads@);
    let mut total_ms: u128 = 0;
    let mut total: u128 = 0;
    let mut i: usize = 0;
    while i < candidates.len()
        invariant
            i <= candidates@.len(),
            load == counted(loads@),
            total_ms == total_remaining(candidates@.take(i as int), view.keys@, now_ms),
            total_ms <= i * MAX_WEEK_MS,
            total == total_load(candidates@.take(i as int), load),
            total <= i * 0xffff_ffff_ffff_ffff,
        decreases candidates.len() - i,
    {
        assert(candidates@.take(i + 1).drop_last() =~= candidates@.take(i as int));
        let id = candidates[i];
        total_ms = total_ms + remaining_ms(view, id, now_ms) as u128;
        let one: usize = match loads.get(&id) {
            Some(n) => *n,
            None => 0,
        };
        total = total + one as u128;
        i += 1;
    }
    assert(candidates@.take(i as int) =~= candidates@);
    let mut out: Vec<(i64, Double)> = Vec::new();
    i = 0;
    while i < candidates.len()
        invariant
            i <= candidates@.len(),
            out@.len() == i,
            load == counted(loads@),
            total_ms == total_remaining(candidates@, view.keys@, now_ms),
            total == total_load(candidates@, load),
            forall|x: ScoreInput| x.sound() ==> #[trigger] score.requires((x,)),
            forall|k: int|
                0 <= k < i ==> (#[trigger] out@[k]).0 == candidates@[k] && score.ensures(
                    (score_input(candidates@, view.keys@, load, now_ms, k),),
                    out@[k].1,
                ),
        decreases candidates.len() - i,
    {
        let id = candidates[i];
        let mut five_hour_pct: Option<Double> = None;
        let mut weekly_pct: Option<Double> = None;
        if let Some(q) = view.keys.get(&id) {
            five_hour_pct = q.five_hour_pct;
            weekly_pct = q.weekly_pct;
        }
        let one: usize = match loads.get(&id) {
            Some(n) => *n,
            None => 0,
        };
        let input = ScoreInput {
            remaining_ms: remaining_ms(view, id, now_ms),
            total_remaining_ms: total_ms,
            five_hour_pct,
            weekly_pct,
            load: one,
            total_load: total,
        };
        proof {
            law_parts_of_the_whole(candidates@, view.keys@, load, now_ms, i as int);
            assert(input == score_input(candidates@, view.keys@, load, now_ms, i as int));
        }
        out.push((id, score(input)));
        i += 1;
    }
    out
}

/// How much of its quota a channel has used, as a place in an order: the less, the lower. A channel
/// of which nothing is known comes last.
pub open spec fn used(keys: Map<i64, KeyQuota>, id: i64) -> int {
    match quota(keys, id).max_pct {
        Some(pct) => pct.rank(),
        None => 0x8000000000000000,
    }
}

/// One scored channel goes before another: the score is higher; of equal scores, less quota is
/// used; of equal use, the channel's number is smaller.
pub open spec fn better(a: (i64, Double), b: (i64, Double), keys: Map<i64, KeyQuota>) -> bool {
    ||| a.1.rank() > b.1.rank()
    ||| a.1.rank() == b.1.rank() && used(keys, a.0) < used(keys, b.0)
    ||| a.1.rank() == b.1.rank() && used(keys, a.0) == used(keys, b.0) && a.0 < b.0
}

/// The channel is among the scored ones, and none goes before it.
pub open spec fn is_best(scored: Seq<(i64, Double)>, keys: Map<i64, KeyQuota>, id: i64) -> bool {
    exists|i: int|
        0 <= i < scored.len() && (#[trigger] scored[i]).0 == id && forall|j: int|
            0 <= j < scored.len() ==> !better(#[trigger] scored[j], scored[i], keys)
}

/// How much of its quota a channel has used, as a place in an order.
fn used_key(view: &RouteView, id: i64) -> (r: i128)
    ensures
        r == used(view.keys@, id),
{
    match view.keys.get(&id) {
        Some(q) => match q.max_pct {
            Some(pct) => pct.order_key(),
            None => 0x8000000000000000,
        },
        None => 0x8000000000000000,
    }
}

/// Whether one scored channel goes before another.
fn goes_before(a: (i64, Double), b: (i64, Double), view: &RouteView) -> (r: bool)
    ensures
        r == better(a, b, view.keys@),
{
    let x = a.1.order_key();
    let y = b.1.order_key();
    if x != y {
        return x > y;
    }
    let p = used_key(view, a.0);
    let q = used_key(view, b.0);
    if p != q {
        return p < q;
    }
    a.0 < b.0
}

/// The best of the scored channels.
pub fn best_scored(scored: &[(i64, Double)], view: &RouteView) -> (r: i64)
    requires
        scored@.len() > 0,
    ensures
        is_best(scored@, view.keys@, r),
{
    let mut best: usize = 0;
    let mut i: usize = 1;
    while i < scored.len()
        invariant
            best < i <= scored@.len(),
            forall|j: int|
                0 <= j < i ==> !better(#[trigger] scored@[j], scored@[best as int], view.keys@),
        decreases scored.len() - i,
    {
        if goes_before(scored[i], scored[best], view) {
            best = i;
        }
        i += 1;
    }
    scored[best].0
}

/// The candidate with the best score.
pub fn argmax_score<F: Fn(ScoreInput) -> Double>(
    candidates: &[i64],
    view: &RouteView,
    loads: &HashMap<i64, usize>,
    now_ms: i64,
    score: &F,
) -> (r: i64)
    requires
        candidates@.len() > 0,
        forall|x: ScoreInput| x.sound() ==> #[trigger] score.requires((x,)),
    ensures
        has_best_score(candidates@, view.keys@, counted(loads@), now_ms, *score, r),
{
    let scored = score_all(candidates, view, loads, now_ms, score);
    let r = best_scored(scored.as_slice(), view);
    assert(are_scores(scored@, candidates@, view.keys@, counted(loads@), now_ms, *score)
        && is_best(scored@, view.keys@, r));
    r
}

/// The channel is best by scores that the formula gives for the candidates.
pub open spec fn has_best_score<F: Fn(ScoreInput) -> Double>(
    candidates: Seq<i64>,
    keys: Map<i64, KeyQuota>,
    load: spec_fn(i64) -> nat,
    now_ms: i64,
    score: F,
    id: i64,
) -> bool {
    exists|scored: Seq<(i64, Double)>| #[trigger]
        are_scores(scored, candidates, keys, load, now_ms, score) && is_best(scored, keys, id)
}

/// The eligible channels that were not tried yet.
pub open spec fn untried(eligible: Seq<i64>, tried: Seq<i64>) -> Seq<i64> {
    eligible.filter(|id: i64| !tried.contains(id))
}

/// Of those, the channels that are not cooling down, or all where none is left.
pub open spec fn candidates(base: Seq<i64>, model: RouterModel, now: u128) -> Seq<i64> {
    let open = base.filter(|id: i64| !model.cooled(id, now));
    if open.len() > 0 {
        open
    } else {
        base
    }
}

/// The channel that is asked for can be had: it is eligible, not tried yet and not cooling down.
pub open spec fn can_take(
    wish: Option<i64>,
    base: Seq<i64>,
    model: RouterModel,
    now: u128,
) -> bool {
    wish is Some && base.contains(wish->0) && !model.cooled(wish->0, now)
}

/// What is chosen without a score, if anything.
pub open spec fn settled(
    view: &RouteView,
    model: RouterModel,
    tried: Seq<i64>,
    cache_hint: Option<i64>,
    now: u128,
) -> Option<Choice> {
    let base = untried(view.eligible@, tried);
    if !view.has_data {
        Some(Choice::NoData)
    } else if base.len() == 0 {
        Some(Choice::NoEligible)
    } else if can_take(view.pinned, base, model, now) {
        Some(Choice::Channel { id: view.pinned->0, via: Via::Pin })
    } else if can_take(cache_hint, base, model, now) {
        Some(Choice::Channel { id: cache_hint->0, via: Via::CacheHit })
    } else {
        None
    }
}

/// The load of each channel.
pub open spec fn load_of(model: RouterModel, now: u128) -> spec_fn(i64) -> nat {
    |id: i64| model.load(id, now)
}

/// What is chosen, and what becomes of the router: where no score is needed it stays as it was,
/// else requests that no longer count as load are forgotten.
pub open spec fn chosen<F: Fn(ScoreInput) -> Double>(
    view: &RouteView,
    before: RouterModel,
    after: RouterModel,
    tried: Seq<i64>,
    cache_hint: Option<i64>,
    now_ms: i64,
    now: u128,
    score: F,
    choice: Choice,
) -> bool {
    match settled(view, before, tried, cache_hint, now) {
        Some(c) => choice == c && after == before,
        None => choice matches Choice::Channel { id, via } && via == Via::Score && after
            == before.after_count(now) && has_best_score(
            candidates(untried(view.eligible@, tried), before, now),
            view.keys@,
            load_of(before, now),
            now_ms,
            score,
            id,
        ),
    }
}

/// The eligible channels that were not tried yet.
fn untried_ids(eligible: &[i64], tried: &[i64]) -> (r: Vec<i64>)
    ensures
        r@ == untried(eligible@, tried@),
{
    let mut out: Vec<i64> = Vec::new();
    let ghost keep = |id: i64| !tried@.contains(id);
    let mut i: usize = 0;
    proof {
        reveal(Seq::filter);
    }
    while i < eligible.len()
        invariant
            i <= eligible@.len(),
            keep == (|id: i64| !tried@.contains(id)),
            out@ == eligible@.take(i as int).filter(keep),
        decreases eligible.len() - i,
    {
        proof {
            reveal(Seq::filter);
            assert(eligible@.take(i + 1).drop_last() =~= eligible@.take(i as int));
        }
        if !contains_id(tried, eligible[i]) {
            out.push(eligible[i]);
        }
        i += 1;
    }
    assert(eligible@.take(i as int) =~= eligible@);
    out
}

/// Of the channels, those that are not cooling down.
fn open_ids(base: &[i64], router: &RouterState, now: u128) -> (r: Vec<i64>)
    ensures
        r@ == base@.filter(|id: i64| !router@.cooled(id, now)),
{
    let mut out: Vec<i64> = Vec::new();
    let ghost keep = |id: i64| !router@.cooled(id, now);
    let mut i: usize = 0;
    proof {
        reveal(Seq::filter);
    }
    while i < base.len()
        invariant
            i <= base@.len(),
            keep == (|id: i64| !router@.cooled(id, now)),
            out@ == base@.take(i as int).filter(keep),
        decreases base.len() - i,
    {
        proof {
            reveal(Seq::filter);
            assert(base@.take(i + 1).drop_last() =~= base@.take(i as int));
        }
        if !router.is_cooled_at(base[i], now) {
            out.push(base[i]);
        }
        i += 1;
    }
    assert(base@.take(i as int) =~= base@);
    out
}

/// Chooses a channel as of `now` on the router's clock.
pub fn choose_channel_at<F: Fn(ScoreInput) -> Double>(
    view: &RouteView,
    router: &mut RouterState,
    tried: &[i64],
    cache_hint: Option<i64>,
    now_ms: i64,
    now: u128,
    score: &F,
) -> (r: Choice)
    requires
        old(router)@.wf(),
        old(router)@.now <= now <= MAX_NANOS,
        forall|x: ScoreInput| x.sound() ==> #[trigger] score.requires((x,)),
    ensures
        final(router)@.wf(),
        chosen(
            view,
            old(router)@,
            final(router)@,
            tried@,
            cache_hint,
            now_ms,
            now,
            *score,
            r,
        ),
{
    if !view.has_data {
        return Choice::NoData;
    }
    let base = untried_ids(view.eligible.as_slice(), tried);
    if base.len() == 0 {
        return Choice::NoEligible;
    }
    if let Some(id) = view.pinned {
        if contains_id(base.as_slice(), id) && !router.is_cooled_at(id, now) {
            return Choice::Channel { id, via: Via::Pin };
        }
    }
    if let Some(id) = cache_hint {
        if contains_id(base.as_slice(), id) && !router.is_cooled_at(id, now) {
            return Choice::Channel { id, via: Via::CacheHit };
        }
    }
    let open = open_ids(base.as_slice(), router, now);
    let pool = if open.len() > 0 {
        open
    } else {
        base
    };
    let loads = router.load_counts_at(now);
    proof {
        assert(counted(loads@) =~= load_of(old(router)@, now));
    }
    let id = argmax_score(pool.as_slice(), view, &loads, now_ms, score);
    Choice::Channel { id, via: Via::Score }
}

/// Chooses a channel for a request: the pinned one, else the one that holds the conversation's
/// cache, each where it is eligible, not tried yet and not cooling down; else the best by score.
/// Channels that are cooling down are scored only where nothing else is left.
pub fn choose_channel<F: Fn(ScoreInput) -> Double>(
    view: &RouteView,
    router: &mut RouterState,
    tried: &[i64],
    cache_hint: Option<i64>,
    now_ms: i64,
    score: &F,
) -> (r: Choice)
    requires
        old(router)@.wf(),
        forall|x: ScoreInput| x.sound() ==> #[trigger] score.requires((x,)),
    ensures
        final(router)@.wf(),
        exists|now: u128|
            old(router)@.now <= now <= MAX_NANOS && #[trigger] chosen(
                view,
                old(router)@,
                final(router)@,
                tried@,
                cache_hint,
                now_ms,
                now,
                *score,
                r,
            ),
{
    let now = router.time();
    choose_channel_at(view, router, tried, cache_hint, now_ms, now, score)
}

} // verus!
