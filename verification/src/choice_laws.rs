//! What holds of every choice of a channel.

use vstd::prelude::*;

use crate::choice;
use crate::choice::{Choice, ScoreInput, Via};
use crate::double::Double;
use crate::seqs;
use crate::state;
use crate::state::{RouterModel, COOLDOWN};
use crate::state_laws;
use crate::view::{KeyQuota, RouteView};

verus! {

/// The channel that is best by score is a candidate.
proof fn lemma_best_is_candidate<F: Fn(ScoreInput) -> Double>(
    candidates: Seq<i64>,
    keys: Map<i64, KeyQuota>,
    load: spec_fn(i64) -> nat,
    now_ms: i64,
    score: F,
    id: i64,
)
    requires
        choice::has_best_score(candidates, keys, load, now_ms, score, id),
    ensures
        candidates.contains(id),
{
    let scored = choose|scored: Seq<(i64, Double)>| #[trigger]
        choice::are_scores(scored, candidates, keys, load, now_ms, score) && choice::is_best(
            scored,
            keys,
            id,
        );
    let i = choose|i: int|
        0 <= i < scored.len() && (#[trigger] scored[i]).0 == id && forall|j: int|
            0 <= j < scored.len() ==> !choice::better(#[trigger] scored[j], scored[i], keys);
    assert(candidates[i] == id);
}

/// A request goes only to a channel that is eligible and was not tried yet.
pub proof fn law_choice_is_eligible_and_untried<F: Fn(ScoreInput) -> Double>(
    view: &RouteView,
    before: RouterModel,
    after: RouterModel,
    tried: Seq<i64>,
    cache_hint: Option<i64>,
    now_ms: i64,
    now: u128,
    score: F,
    r: Choice,
)
    requires
        choice::chosen(view, before, after, tried, cache_hint, now_ms, now, score, r),
    ensures
        r matches Choice::Channel { id, via } ==> view.eligible@.contains(id) && !tried.contains(
            id,
        ),
{
    if let Choice::Channel { id, via } = r {
        let base = choice::untried(view.eligible@, tried);
        seqs::lemma_filter_contains(view.eligible@, |i: i64| !tried.contains(i), id);
        if choice::settled(view, before, tried, cache_hint, now) is None {
            let pool = choice::candidates(base, before, now);
            lemma_best_is_candidate(
                pool,
                view.keys@,
                choice::load_of(before, now),
                now_ms,
                score,
                id,
            );
            seqs::lemma_filter_contains(base, |i: i64| !before.cooled(i, now), id);
        }
    }
}

/// Without data, and only then, a request is passed through for want of it; and for want of a
/// channel exactly where every eligible one was tried.
pub proof fn law_when_nothing_is_chosen<F: Fn(ScoreInput) -> Double>(
    view: &RouteView,
    before: RouterModel,
    after: RouterModel,
    tried: Seq<i64>,
    cache_hint: Option<i64>,
    now_ms: i64,
    now: u128,
    score: F,
    r: Choice,
)
    requires
        choice::chosen(view, before, after, tried, cache_hint, now_ms, now, score, r),
    ensures
        r == Choice::NoData <==> !view.has_data,
        r == Choice::NoEligible <==> view.has_data && forall|id: i64|
            view.eligible@.contains(id) ==> #[trigger] tried.contains(id),
{
    let base = choice::untried(view.eligible@, tried);
    let keep = |i: i64| !tried.contains(i);
    if base.len() == 0 {
        assert forall|id: i64| view.eligible@.contains(id) implies #[trigger] tried.contains(
            id,
        ) by {
            seqs::lemma_filter_contains(view.eligible@, keep, id);
        }
    } else {
        seqs::lemma_filter_contains(view.eligible@, keep, base[0]);
        assert(base.contains(base[0]));
        assert(view.eligible@.contains(base[0]) && !tried.contains(base[0]));
    }
}

/// A pinned channel that can be had is taken, whatever the cache and the scores say; a channel
/// that holds the cache is taken next.
pub proof fn law_pin_before_cache_before_score<F: Fn(ScoreInput) -> Double>(
    view: &RouteView,
    before: RouterModel,
    after: RouterModel,
    tried: Seq<i64>,
    cache_hint: Option<i64>,
    now_ms: i64,
    now: u128,
    score: F,
    r: Choice,
)
    requires
        choice::chosen(view, before, after, tried, cache_hint, now_ms, now, score, r),
        view.has_data,
    ensures
        ({
            let base = choice::untried(view.eligible@, tried);
            let pin = choice::can_take(view.pinned, base, before, now);
            let hit = choice::can_take(cache_hint, base, before, now);
            &&& pin ==> r == (Choice::Channel { id: view.pinned->0, via: Via::Pin })
            &&& !pin && hit ==> r == (Choice::Channel { id: cache_hint->0, via: Via::CacheHit })
            &&& !pin && !hit && base.len() > 0 ==> r is Channel && r->via == Via::Score
        }),
{
    let base = choice::untried(view.eligible@, tried);
    if choice::can_take(view.pinned, base, before, now) {
        assert(base.contains(view.pinned->0));
    }
    if choice::can_take(cache_hint, base, before, now) {
        assert(base.contains(cache_hint->0));
    }
}

/// A channel that is cooling down is chosen only as a last resort: when every channel that is
/// left is cooling down.
pub proof fn law_cooling_channel_is_last_resort<F: Fn(ScoreInput) -> Double>(
    view: &RouteView,
    before: RouterModel,
    after: RouterModel,
    tried: Seq<i64>,
    cache_hint: Option<i64>,
    now_ms: i64,
    now: u128,
    score: F,
    r: Choice,
    other: i64,
)
    requires
        choice::chosen(view, before, after, tried, cache_hint, now_ms, now, score, r),
        r is Channel,
        before.cooled(r->id, now),
        view.eligible@.contains(other),
        !tried.contains(other),
    ensures
        before.cooled(other, now),
        r->via == Via::Score,
{
    let base = choice::untried(view.eligible@, tried);
    let warm = |i: i64| !before.cooled(i, now);
    seqs::lemma_filter_contains(view.eligible@, |i: i64| !tried.contains(i), other);
    seqs::lemma_filter_contains(base, warm, other);
    lemma_best_is_candidate(
        choice::candidates(base, before, now),
        view.keys@,
        choice::load_of(before, now),
        now_ms,
        score,
        r->id,
    );
    seqs::lemma_filter_contains(base, warm, r->id);
}

/// A channel that refused is not chosen again until its cooldown has passed, where any other
/// channel can be had.
pub proof fn law_refused_channel_is_avoided<F: Fn(ScoreInput) -> Double>(
    view: &RouteView,
    model: RouterModel,
    refused: i64,
    refused_at: u128,
    after: RouterModel,
    tried: Seq<i64>,
    cache_hint: Option<i64>,
    now_ms: i64,
    now: u128,
    score: F,
    r: Choice,
    other: i64,
)
    requires
        refused_at <= crate::clock::MAX_NANOS,
        now < refused_at + COOLDOWN,
        choice::chosen(
            view,
            model.after_cool(refused, refused_at),
            after,
            tried,
            cache_hint,
            now_ms,
            now,
            score,
            r,
        ),
        view.eligible@.contains(other),
        !tried.contains(other),
        other != refused,
        !model.cooled(other, now),
    ensures
        r is Channel ==> r->id != refused,
{
    let before = model.after_cool(refused, refused_at);
    if r is Channel && r->id == refused {
        law_cooling_channel_is_last_resort(
            view,
            before,
            after,
            tried,
            cache_hint,
            now_ms,
            now,
            score,
            r,
            other,
        );
    }
}

/// A conversation stays where its cache is: while its channel is eligible, was not tried for this
/// request and is not cooling down, and no pin stands against it, that channel is chosen.
pub proof fn law_conversation_stays<F: Fn(ScoreInput) -> Double>(
    view: &RouteView,
    before: RouterModel,
    after: RouterModel,
    key: u64,
    tried: Seq<i64>,
    now_ms: i64,
    now: u128,
    score: F,
    r: Choice,
)
    requires
        view.has_data,
        !choice::can_take(view.pinned, choice::untried(view.eligible@, tried), before, now),
        before.pool.contains_key(key),
        view.eligible@.contains(before.pool[key].channel_id),
        !tried.contains(before.pool[key].channel_id),
        !before.cooled(before.pool[key].channel_id, now),
        choice::chosen(
            view,
            before,
            after,
            tried,
            before.hit(key, view.eligible@),
            now_ms,
            now,
            score,
            r,
        ),
    ensures
        r == (Choice::Channel { id: before.pool[key].channel_id, via: Via::CacheHit }),
{
    let id = before.pool[key].channel_id;
    seqs::lemma_filter_contains(view.eligible@, |i: i64| !tried.contains(i), id);
    assert(choice::untried(view.eligible@, tried).contains(id));
}

/// A choice leaves no trace: it counts nothing, moves no conversation, cools no channel, and every
/// later count of loads is as it would have been.
pub proof fn law_choice_leaves_no_trace<F: Fn(ScoreInput) -> Double>(
    view: &RouteView,
    before: RouterModel,
    after: RouterModel,
    tried: Seq<i64>,
    cache_hint: Option<i64>,
    now_ms: i64,
    now: u128,
    score: F,
    r: Choice,
    key: u64,
    eligible: Seq<i64>,
    id: i64,
    later: u128,
)
    requires
        choice::chosen(view, before, after, tried, cache_hint, now_ms, now, score, r),
        now <= later,
    ensures
        after.pool == before.pool,
        after.cooldown_until == before.cooldown_until,
        after.hits == before.hits,
        after.misses == before.misses,
        after.routed == before.routed,
        after.pool_cap == before.pool_cap,
        after.hit(key, eligible) == before.hit(key, eligible),
        after.cooled(id, later) == before.cooled(id, later),
        after.load(id, later) == before.load(id, later),
{
    state_laws::law_forgetting_is_unseen(before, now, id, later);
}

/// A second choice with the same arguments, at the same time, gives the same channel and changes
/// nothing more.
pub proof fn law_choosing_again_gives_the_same<F: Fn(ScoreInput) -> Double>(
    view: &RouteView,
    before: RouterModel,
    after: RouterModel,
    after_again: RouterModel,
    tried: Seq<i64>,
    cache_hint: Option<i64>,
    now_ms: i64,
    now: u128,
    score: F,
    r: Choice,
    again: Choice,
)
    requires
        is_function(score),
        choice::chosen(view, before, after, tried, cache_hint, now_ms, now, score, r),
        choice::chosen(view, after, after_again, tried, cache_hint, now_ms, now, score, again),
    ensures
        again == r,
        after_again == after,
{
    assert forall|id: i64| after.cooled(id, now) == #[trigger] before.cooled(id, now) by {}
    let base = choice::untried(view.eligible@, tried);
    let warm = |id: i64| !before.cooled(id, now);
    let warm_after = |id: i64| !after.cooled(id, now);
    assert(warm =~= warm_after);
    if choice::settled(view, before, tried, cache_hint, now) is None {
        assert forall|id: i64| #[trigger] after.load(id, now) == before.load(id, now) by {
            state_laws::law_forgetting_is_unseen(before, now, id, now);
        }
        assert(choice::load_of(after, now) =~= choice::load_of(before, now));
        assert forall|id: i64| after.loads.contains_key(id) implies #[trigger] state::in_window(
            after.loads[id],
            now,
        ) == after.loads[id] by {
            state_laws::lemma_window_of_window(before.loads[id], now, now);
        }
        assert(after.after_count(now).loads =~= after.loads);
        assert(after.after_count(now) =~= after);
        law_choice_is_determined(
            view,
            before,
            after,
            after,
            tried,
            cache_hint,
            now_ms,
            now,
            score,
            r,
            again,
        );
    }
}

/// Trying a channel narrows what is left, so retries come to an end.
pub proof fn law_retries_end(eligible: Seq<i64>, tried: Seq<i64>, id: i64)
    requires
        eligible.contains(id),
        !tried.contains(id),
    ensures
        choice::untried(eligible, tried.push(id)).len() < choice::untried(eligible, tried).len(),
{
    let i = choose|i: int| 0 <= i < eligible.len() && eligible[i] == id;
    seqs::lemma_push_contains(tried, id, id);
    lemma_narrower(eligible, tried, id);
    assert(eligible.take(i + 1).drop_last() =~= eligible.take(i));
    lemma_narrower(eligible.take(i), tried, id);
    let head = eligible.take(i + 1);
    let tail = eligible.skip(i + 1);
    assert(eligible =~= head + tail);
    let before = |k: i64| !tried.contains(k);
    let after = |k: i64| !tried.push(id).contains(k);
    Seq::filter_distributes_over_add(head, tail, before);
    Seq::filter_distributes_over_add(head, tail, after);
    lemma_narrower(tail, tried, id);
    reveal(Seq::filter);
    assert(head.last() == id);
}

proof fn lemma_narrower(eligible: Seq<i64>, tried: Seq<i64>, id: i64)
    ensures
        choice::untried(eligible, tried.push(id)).len() <= choice::untried(eligible, tried).len(),
    decreases eligible.len(),
{
    reveal(Seq::filter);
    if eligible.len() > 0 {
        lemma_narrower(eligible.drop_last(), tried, id);
        seqs::lemma_push_contains(tried, id, eligible.last());
    }
}

/// One channel is best: no two differ and go before all others.
pub proof fn law_best_is_unique(
    scored: Seq<(i64, Double)>,
    keys: Map<i64, KeyQuota>,
    a: i64,
    b: i64,
)
    requires
        choice::is_best(scored, keys, a),
        choice::is_best(scored, keys, b),
    ensures
        a == b,
{
    let i = choose|i: int|
        0 <= i < scored.len() && (#[trigger] scored[i]).0 == a && forall|j: int|
            0 <= j < scored.len() ==> !choice::better(#[trigger] scored[j], scored[i], keys);
    let k = choose|k: int|
        0 <= k < scored.len() && (#[trigger] scored[k]).0 == b && forall|j: int|
            0 <= j < scored.len() ==> !choice::better(#[trigger] scored[j], scored[k], keys);
    assert(!choice::better(scored[i], scored[k], keys));
    assert(!choice::better(scored[k], scored[i], keys));
}

/// The formula gives one score for one input.
pub open spec fn is_function<F: Fn(ScoreInput) -> Double>(score: F) -> bool {
    forall|x: ScoreInput, p: Double, q: Double|
        score.ensures((x,), p) && score.ensures((x,), q) ==> p == q
}

/// Two choices from the same state at the same time are one.
pub proof fn law_choice_is_determined<F: Fn(ScoreInput) -> Double>(
    view: &RouteView,
    before: RouterModel,
    after: RouterModel,
    after_again: RouterModel,
    tried: Seq<i64>,
    cache_hint: Option<i64>,
    now_ms: i64,
    now: u128,
    score: F,
    r: Choice,
    again: Choice,
)
    requires
        is_function(score),
        choice::chosen(view, before, after, tried, cache_hint, now_ms, now, score, r),
        choice::chosen(view, before, after_again, tried, cache_hint, now_ms, now, score, again),
    ensures
        r == again,
        after == after_again,
{
    if choice::settled(view, before, tried, cache_hint, now) is None {
        let pool = choice::candidates(choice::untried(view.eligible@, tried), before, now);
        let keys = view.keys@;
        let load = choice::load_of(before, now);
        let s = choose|s: Seq<(i64, Double)>| #[trigger]
            choice::are_scores(s, pool, keys, load, now_ms, score) && choice::is_best(
                s,
                keys,
                r->id,
            );
        let t = choose|t: Seq<(i64, Double)>| #[trigger]
            choice::are_scores(t, pool, keys, load, now_ms, score) && choice::is_best(
                t,
                keys,
                again->id,
            );
        assert forall|i: int| 0 <= i < s.len() implies s[i] == t[i] by {
            assert(s[i].0 == t[i].0);
            assert(s[i].1 == t[i].1);
        }
        assert(s =~= t);
        law_best_is_unique(s, keys, r->id, again->id);
    }
}

/// What a filter keeps does not depend on the order.
proof fn lemma_filter_multiset(ids: Seq<i64>, keep: spec_fn(i64) -> bool)
    ensures
        ids.filter(keep).to_multiset() == ids.to_multiset().filter(keep),
    decreases ids.len(),
{
    broadcast use vstd::seq_lib::group_to_multiset_ensures;

    reveal(Seq::filter);
    if ids.len() == 0 {
        assert(ids.filter(keep).to_multiset() =~= ids.to_multiset().filter(keep));
    } else {
        let rest = ids.drop_last();
        lemma_filter_multiset(rest, keep);
        assert(rest.push(ids.last()) =~= ids);
        assert(ids.filter(keep).to_multiset() =~= ids.to_multiset().filter(keep));
    }
}

/// Each candidate adds its part to the totals, wherever it stands.
proof fn lemma_totals_without(
    ids: Seq<i64>,
    keys: Map<i64, KeyQuota>,
    load: spec_fn(i64) -> nat,
    now_ms: i64,
    i: int,
)
    requires
        0 <= i < ids.len(),
    ensures
        choice::total_remaining(ids, keys, now_ms) == choice::total_remaining(
            ids.remove(i),
            keys,
            now_ms,
        ) + choice::remaining(keys, ids[i], now_ms),
        choice::total_load(ids, load) == choice::total_load(ids.remove(i), load) + load(ids[i]),
    decreases ids.len(),
{
    if i == ids.len() - 1 {
        assert(ids.remove(i) =~= ids.drop_last());
    } else {
        lemma_totals_without(ids.drop_last(), keys, load, now_ms, i);
        assert(ids.remove(i).drop_last() =~= ids.drop_last().remove(i));
        assert(ids.remove(i).last() == ids.last());
    }
}

/// The totals do not depend on the order.
proof fn lemma_totals_of_multiset(
    a: Seq<i64>,
    b: Seq<i64>,
    keys: Map<i64, KeyQuota>,
    load: spec_fn(i64) -> nat,
    now_ms: i64,
)
    requires
        a.to_multiset() == b.to_multiset(),
    ensures
        choice::total_remaining(a, keys, now_ms) == choice::total_remaining(b, keys, now_ms),
        choice::total_load(a, load) == choice::total_load(b, load),
    decreases a.len(),
{
    broadcast use vstd::seq_lib::group_to_multiset_ensures;

    assert(a.len() == a.to_multiset().len() && b.len() == b.to_multiset().len());
    if a.len() > 0 {
        let last = a.len() - 1;
        assert(a.contains(a[last]));
        assert(a.to_multiset().count(a[last]) > 0);
        assert(b.contains(a[last]));
        let k = choose|k: int| 0 <= k < b.len() && b[k] == a[last];
        lemma_totals_without(a, keys, load, now_ms, last);
        lemma_totals_without(b, keys, load, now_ms, k);
        lemma_totals_of_multiset(a.remove(last), b.remove(k), keys, load, now_ms);
    }
}

/// Which channel is best does not depend on the order of the candidates.
proof fn lemma_best_of_multiset<F: Fn(ScoreInput) -> Double>(
    a: Seq<i64>,
    b: Seq<i64>,
    keys: Map<i64, KeyQuota>,
    load: spec_fn(i64) -> nat,
    now_ms: i64,
    score: F,
    p: i64,
    q: i64,
)
    requires
        is_function(score),
        a.to_multiset() == b.to_multiset(),
        choice::has_best_score(a, keys, load, now_ms, score, p),
        choice::has_best_score(b, keys, load, now_ms, score, q),
    ensures
        p == q,
{
    broadcast use vstd::seq_lib::group_to_multiset_ensures;

    lemma_totals_of_multiset(a, b, keys, load, now_ms);
    let s = choose|s: Seq<(i64, Double)>| #[trigger]
        choice::are_scores(s, a, keys, load, now_ms, score) && choice::is_best(s, keys, p);
    let t = choose|t: Seq<(i64, Double)>| #[trigger]
        choice::are_scores(t, b, keys, load, now_ms, score) && choice::is_best(t, keys, q);
    let i = choose|i: int|
        0 <= i < s.len() && (#[trigger] s[i]).0 == p && forall|j: int|
            0 <= j < s.len() ==> !choice::better(#[trigger] s[j], s[i], keys);
    let k = choose|k: int|
        0 <= k < t.len() && (#[trigger] t[k]).0 == q && forall|j: int|
            0 <= j < t.len() ==> !choice::better(#[trigger] t[j], t[k], keys);
    assert(a[i] == p && b[k] == q);
    assert(a.contains(p) && b.contains(q));
    assert(a.to_multiset().count(p) > 0 && b.to_multiset().count(q) > 0);
    let j = choose|j: int| 0 <= j < a.len() && a[j] == q;
    let l = choose|l: int| 0 <= l < b.len() && b[l] == p;
    assert(s[j].0 == q && t[l].0 == p);
    assert(choice::score_input(a, keys, load, now_ms, i) == choice::score_input(
        b,
        keys,
        load,
        now_ms,
        l,
    ));
    assert(choice::score_input(a, keys, load, now_ms, j) == choice::score_input(
        b,
        keys,
        load,
        now_ms,
        k,
    ));
    assert(s[i] == t[l] && s[j] == t[k]);
    assert(!choice::better(s[j], s[i], keys) && !choice::better(t[l], t[k], keys));
}

/// The order in which the eligible channels are listed does not count.
pub proof fn law_order_does_not_count<F: Fn(ScoreInput) -> Double>(
    view: &RouteView,
    other: &RouteView,
    before: RouterModel,
    after: RouterModel,
    after_other: RouterModel,
    tried: Seq<i64>,
    cache_hint: Option<i64>,
    now_ms: i64,
    now: u128,
    score: F,
    r: Choice,
    r_other: Choice,
)
    requires
        is_function(score),
        view.eligible@.to_multiset() == other.eligible@.to_multiset(),
        view.pinned == other.pinned,
        view.keys@ == other.keys@,
        view.has_data == other.has_data,
        choice::chosen(view, before, after, tried, cache_hint, now_ms, now, score, r),
        choice::chosen(
            other,
            before,
            after_other,
            tried,
            cache_hint,
            now_ms,
            now,
            score,
            r_other,
        ),
    ensures
        r == r_other,
        after == after_other,
{
    broadcast use vstd::seq_lib::group_to_multiset_ensures;

    let keep = |id: i64| !tried.contains(id);
    let warm = |id: i64| !before.cooled(id, now);
    let base = choice::untried(view.eligible@, tried);
    let base_other = choice::untried(other.eligible@, tried);
    lemma_filter_multiset(view.eligible@, keep);
    lemma_filter_multiset(other.eligible@, keep);
    lemma_filter_multiset(base, warm);
    lemma_filter_multiset(base_other, warm);
    assert(base.to_multiset() == base_other.to_multiset());
    assert(base.len() == base.to_multiset().len());
    assert(base_other.len() == base_other.to_multiset().len());
    assert forall|id: i64| base.contains(id) == #[trigger] base_other.contains(id) by {
        assert(base.to_multiset().count(id) == base_other.to_multiset().count(id));
    }
    let open = base.filter(warm);
    let open_other = base_other.filter(warm);
    assert(open.len() == open.to_multiset().len());
    assert(open_other.len() == open_other.to_multiset().len());
    assert(choice::settled(view, before, tried, cache_hint, now) == choice::settled(
        other,
        before,
        tried,
        cache_hint,
        now,
    ));
    if choice::settled(view, before, tried, cache_hint, now) is None {
        lemma_best_of_multiset(
            choice::candidates(base, before, now),
            choice::candidates(base_other, before, now),
            view.keys@,
            choice::load_of(before, now),
            now_ms,
            score,
            r->id,
            r_other->id,
        );
    }
}

/// The load over the candidates is at most what each could carry.
proof fn lemma_total_load_bound(ids: Seq<i64>, loads: Map<i64, usize>)
    ensures
        choice::total_load(ids, choice::counted(loads)) <= ids.len() * 0xffff_ffff_ffff_ffff,
    decreases ids.len(),
{
    if ids.len() > 0 {
        lemma_total_load_bound(ids.drop_last(), loads);
    }
}

/// What the formula gets is sound, for every quota and load: no part exceeds its
/// whole, and nothing was cut to fit a machine number.
pub proof fn law_score_inputs_are_sound(
    ids: Seq<i64>,
    keys: Map<i64, KeyQuota>,
    loads: Map<i64, usize>,
    now_ms: i64,
    i: int,
)
    requires
        0 <= i < ids.len() <= usize::MAX,
    ensures
        ({
            let x = choice::score_input(ids, keys, choice::counted(loads), now_ms, i);
            &&& x.sound()
            &&& x.remaining_ms == choice::remaining(keys, ids[i], now_ms)
            &&& x.total_remaining_ms == choice::total_remaining(ids, keys, now_ms)
            &&& x.load == choice::counted(loads)(ids[i])
            &&& x.total_load == choice::total_load(ids, choice::counted(loads))
        }),
{
    choice::law_parts_of_the_whole(ids, keys, choice::counted(loads), now_ms, i);
    lemma_total_load_bound(ids, loads);
    choice::lemma_total_remaining_bound(ids, keys, now_ms);
}

/// Two channels' quotas give the formula the same: the same percentages and the same time left.
pub open spec fn same_to_the_formula(
    keys: Map<i64, KeyQuota>,
    now_ms: i64,
    other: Map<i64, KeyQuota>,
    other_now_ms: i64,
    id: i64,
) -> bool {
    &&& choice::quota(keys, id).five_hour_pct == choice::quota(other, id).five_hour_pct
    &&& choice::quota(keys, id).weekly_pct == choice::quota(other, id).weekly_pct
    &&& choice::remaining(keys, id, now_ms) == choice::remaining(other, id, other_now_ms)
}

/// The same time left for each is the same over all.
proof fn lemma_same_total(
    ids: Seq<i64>,
    keys: Map<i64, KeyQuota>,
    now_ms: i64,
    other: Map<i64, KeyQuota>,
    other_now_ms: i64,
)
    requires
        forall|i: int|
            0 <= i < ids.len() ==> same_to_the_formula(
                keys,
                now_ms,
                other,
                other_now_ms,
                #[trigger] ids[i],
            ),
    ensures
        choice::total_remaining(ids, keys, now_ms) == choice::total_remaining(
            ids,
            other,
            other_now_ms,
        ),
    decreases ids.len(),
{
    if ids.len() > 0 {
        let rest = ids.drop_last();
        assert forall|i: int| 0 <= i < rest.len() implies same_to_the_formula(
            keys,
            now_ms,
            other,
            other_now_ms,
            #[trigger] rest[i],
        ) by {
            assert(rest[i] == ids[i]);
        }
        lemma_same_total(rest, keys, now_ms, other, other_now_ms);
        assert(same_to_the_formula(keys, now_ms, other, other_now_ms, ids[ids.len() - 1]));
    }
}

/// Of a candidate's quota, the scores depend on the two percentages and the time left alone: where
/// those agree, the formula gets the same, the same lists of scores can come out, and only one can
/// where the formula is a function.
pub proof fn law_scores_depend_on_time_left<F: Fn(ScoreInput) -> Double>(
    ids: Seq<i64>,
    keys: Map<i64, KeyQuota>,
    now_ms: i64,
    other: Map<i64, KeyQuota>,
    other_now_ms: i64,
    load: spec_fn(i64) -> nat,
    score: F,
    a: Seq<(i64, Double)>,
    b: Seq<(i64, Double)>,
)
    requires
        forall|i: int|
            0 <= i < ids.len() ==> same_to_the_formula(
                keys,
                now_ms,
                other,
                other_now_ms,
                #[trigger] ids[i],
            ),
    ensures
        forall|i: int|
            0 <= i < ids.len() ==> #[trigger] choice::score_input(ids, keys, load, now_ms, i)
                == choice::score_input(ids, other, load, other_now_ms, i),
        choice::are_scores(a, ids, keys, load, now_ms, score) <==> choice::are_scores(
            a,
            ids,
            other,
            load,
            other_now_ms,
            score,
        ),
        is_function(score) && choice::are_scores(a, ids, keys, load, now_ms, score)
            && choice::are_scores(b, ids, other, load, other_now_ms, score) ==> a == b,
{
    lemma_same_total(ids, keys, now_ms, other, other_now_ms);
    assert forall|i: int| 0 <= i < ids.len() implies #[trigger] choice::score_input(
        ids,
        keys,
        load,
        now_ms,
        i,
    ) == choice::score_input(ids, other, load, other_now_ms, i) by {
        assert(same_to_the_formula(keys, now_ms, other, other_now_ms, ids[i]));
    }
    if choice::are_scores(a, ids, keys, load, now_ms, score) {
        assert forall|i: int| 0 <= i < a.len() implies (#[trigger] a[i]).0 == ids[i]
            && score.ensures((choice::score_input(ids, other, load, other_now_ms, i),), a[i].1) by {
            assert(choice::score_input(ids, keys, load, now_ms, i) == choice::score_input(
                ids,
                other,
                load,
                other_now_ms,
                i,
            ));
        }
    }
    if choice::are_scores(a, ids, other, load, other_now_ms, score) {
        assert forall|i: int| 0 <= i < a.len() implies (#[trigger] a[i]).0 == ids[i]
            && score.ensures((choice::score_input(ids, keys, load, now_ms, i),), a[i].1) by {
            assert(choice::score_input(ids, keys, load, now_ms, i) == choice::score_input(
                ids,
                other,
                load,
                other_now_ms,
                i,
            ));
        }
    }
    if is_function(score) && choice::are_scores(a, ids, keys, load, now_ms, score)
        && choice::are_scores(b, ids, other, load, other_now_ms, score) {
        assert forall|i: int| 0 <= i < a.len() implies a[i] == b[i] by {
            assert(choice::score_input(ids, keys, load, now_ms, i) == choice::score_input(
                ids,
                other,
                load,
                other_now_ms,
                i,
            ));
            assert(a[i].0 == b[i].0);
            assert(a[i].1 == b[i].1);
        }
        assert(a =~= b);
    }
}

/// No weekly window, or one that resets a week or more from now.
pub open spec fn is_far(reset_ms: Option<i64>, now_ms: i64) -> bool {
    reset_ms matches Some(t) ==> t - now_ms >= choice::MAX_WEEK_MS
}

/// A channel without a weekly window, one that is not known at all and one whose window resets a
/// week or more from now are scored alike: where quotas differ in that alone, the scores are the
/// same.
pub proof fn law_no_window_is_the_farthest<F: Fn(ScoreInput) -> Double>(
    ids: Seq<i64>,
    keys: Map<i64, KeyQuota>,
    other: Map<i64, KeyQuota>,
    now_ms: i64,
    load: spec_fn(i64) -> nat,
    score: F,
    a: Seq<(i64, Double)>,
    b: Seq<(i64, Double)>,
)
    requires
        forall|i: int|
            0 <= i < ids.len() ==> {
                let q = choice::quota(keys, #[trigger] ids[i]);
                let p = choice::quota(other, ids[i]);
                &&& q.five_hour_pct == p.five_hour_pct
                &&& q.weekly_pct == p.weekly_pct
                &&& q.weekly_reset_ms == p.weekly_reset_ms || is_far(q.weekly_reset_ms, now_ms)
                    && is_far(p.weekly_reset_ms, now_ms)
            },
    ensures
        forall|i: int|
            0 <= i < ids.len() ==> #[trigger] choice::score_input(ids, keys, load, now_ms, i)
                == choice::score_input(ids, other, load, now_ms, i),
        choice::are_scores(a, ids, keys, load, now_ms, score) <==> choice::are_scores(
            a,
            ids,
            other,
            load,
            now_ms,
            score,
        ),
        is_function(score) && choice::are_scores(a, ids, keys, load, now_ms, score)
            && choice::are_scores(b, ids, other, load, now_ms, score) ==> a == b,
{
    assert forall|i: int| 0 <= i < ids.len() implies same_to_the_formula(
        keys,
        now_ms,
        other,
        now_ms,
        #[trigger] ids[i],
    ) by {
        assert(choice::quota(keys, ids[i]).five_hour_pct == choice::quota(
            other,
            ids[i],
        ).five_hour_pct);
    }
    law_scores_depend_on_time_left(ids, keys, now_ms, other, now_ms, load, score, a, b);
}

/// Only the time between counts: where the present and every reset are moved alike, the scores are
/// the same.
pub proof fn law_moving_time_changes_nothing<F: Fn(ScoreInput) -> Double>(
    ids: Seq<i64>,
    keys: Map<i64, KeyQuota>,
    now_ms: i64,
    other: Map<i64, KeyQuota>,
    other_now_ms: i64,
    load: spec_fn(i64) -> nat,
    score: F,
    a: Seq<(i64, Double)>,
    b: Seq<(i64, Double)>,
)
    requires
        forall|i: int|
            0 <= i < ids.len() ==> {
                let q = choice::quota(keys, #[trigger] ids[i]);
                let p = choice::quota(other, ids[i]);
                &&& q.five_hour_pct == p.five_hour_pct
                &&& q.weekly_pct == p.weekly_pct
                &&& match (q.weekly_reset_ms, p.weekly_reset_ms) {
                    (Some(t), Some(u)) => u - t == other_now_ms - now_ms,
                    (None, None) => true,
                    _ => false,
                }
            },
    ensures
        forall|i: int|
            0 <= i < ids.len() ==> #[trigger] choice::score_input(ids, keys, load, now_ms, i)
                == choice::score_input(ids, other, load, other_now_ms, i),
        choice::are_scores(a, ids, keys, load, now_ms, score) <==> choice::are_scores(
            a,
            ids,
            other,
            load,
            other_now_ms,
            score,
        ),
        is_function(score) && choice::are_scores(a, ids, keys, load, now_ms, score)
            && choice::are_scores(b, ids, other, load, other_now_ms, score) ==> a == b,
{
    assert forall|i: int| 0 <= i < ids.len() implies same_to_the_formula(
        keys,
        now_ms,
        other,
        other_now_ms,
        #[trigger] ids[i],
    ) by {
        assert(choice::quota(keys, ids[i]).five_hour_pct == choice::quota(
            other,
            ids[i],
        ).five_hour_pct);
    }
    law_scores_depend_on_time_left(ids, keys, now_ms, other, other_now_ms, load, score, a, b);
}

/// The channel is listed as eligible and was not tried yet.
pub open spec fn is_left(view: &RouteView, tried: Seq<i64>, id: i64) -> bool {
    view.eligible@.contains(id) && !tried.contains(id)
}

/// The channel refused, and the time until which it is passed over is still to come.
pub open spec fn is_cooling(model: RouterModel, id: i64, now: u128) -> bool {
    model.cooldown_until.contains_key(id) && now < model.cooldown_until[id]
}

/// What is chosen, case by case. Without data, nothing. Where every eligible channel was tried,
/// nothing. Else the pinned channel, where it is left and not cooling down; else the channel of the
/// cache hit, where it is; else one by score.
pub proof fn law_choice_case_by_case<F: Fn(ScoreInput) -> Double>(
    view: &RouteView,
    before: RouterModel,
    after: RouterModel,
    tried: Seq<i64>,
    cache_hint: Option<i64>,
    now_ms: i64,
    now: u128,
    score: F,
    r: Choice,
    pin: i64,
    hit: i64,
)
    requires
        choice::chosen(view, before, after, tried, cache_hint, now_ms, now, score, r),
    ensures
        ({
            let pinned = view.pinned == Some(pin) && is_left(view, tried, pin) && !is_cooling(
                before,
                pin,
                now,
            );
            let cached = cache_hint == Some(hit) && is_left(view, tried, hit) && !is_cooling(
                before,
                hit,
                now,
            );
            let no_pin = forall|p: i64|
                view.pinned == Some(p) && is_left(view, tried, p) ==> #[trigger] is_cooling(
                    before,
                    p,
                    now,
                );
            let no_hit = forall|h: i64|
                cache_hint == Some(h) && is_left(view, tried, h) ==> #[trigger] is_cooling(
                    before,
                    h,
                    now,
                );
            let any_left = exists|id: i64| #[trigger] is_left(view, tried, id);
            &&& !view.has_data <==> r is NoData
            &&& view.has_data && !any_left <==> r is NoEligible
            &&& view.has_data && pinned ==> r == (Choice::Channel { id: pin, via: Via::Pin })
            &&& view.has_data && no_pin && cached ==> r == (Choice::Channel {
                id: hit,
                via: Via::CacheHit,
            })
            &&& view.has_data && any_left && no_pin && no_hit ==> r is Channel && r->via
                == Via::Score && is_left(view, tried, r->id)
        }),
{
    law_when_nothing_is_chosen(
        view,
        before,
        after,
        tried,
        cache_hint,
        now_ms,
        now,
        score,
        r,
    );
    law_choice_is_eligible_and_untried(
        view,
        before,
        after,
        tried,
        cache_hint,
        now_ms,
        now,
        score,
        r,
    );
    let keep = |i: i64| !tried.contains(i);
    let base = choice::untried(view.eligible@, tried);
    assert forall|id: i64| #[trigger] base.contains(id) <==> is_left(view, tried, id) by {
        seqs::lemma_filter_contains(view.eligible@, keep, id);
    }
    assert forall|id: i64| #[trigger] before.cooled(id, now) == is_cooling(before, id, now) by {}
    if base.len() > 0 {
        assert(base.contains(base[0]));
        assert(is_left(view, tried, base[0]));
    } else {
        assert forall|id: i64| !#[trigger] is_left(view, tried, id) by {
            assert(!base.contains(id));
        }
    }
    if let Some(p) = view.pinned {
        assert(base.contains(p) == is_left(view, tried, p));
        assert(before.cooled(p, now) == is_cooling(before, p, now));
    }
    if let Some(h) = cache_hint {
        assert(base.contains(h) == is_left(view, tried, h));
        assert(before.cooled(h, now) == is_cooling(before, h, now));
    }
}

/// Where a choice is made by score, it is made among the channels that are left, each as often as
/// it is listed: all of those that are not cooling down and none of the others, or simply all where
/// all are cooling down. They are scored by the quotas of the view, for the time that the caller
/// gave, and by the requests that each was sent within 60 s.
pub proof fn law_what_is_scored<F: Fn(ScoreInput) -> Double>(
    view: &RouteView,
    before: RouterModel,
    after: RouterModel,
    tried: Seq<i64>,
    cache_hint: Option<i64>,
    now_ms: i64,
    now: u128,
    score: F,
    r: Choice,
    load: spec_fn(i64) -> nat,
)
    requires
        choice::chosen(view, before, after, tried, cache_hint, now_ms, now, score, r),
        r is Channel,
        r->via == Via::Score,
        forall|id: i64| #[trigger]
            load(id) == if before.loads.contains_key(id) {
                before.loads[id].filter(|t: u128| now - t <= 60_000_000_000).len()
            } else {
                0
            },
    ensures
        ({
            let any_warm = exists|k: i64| #[trigger]
                is_left(view, tried, k) && !is_cooling(before, k, now);
            exists|ids: Seq<i64>| #[trigger]
                choice::has_best_score(ids, view.keys@, load, now_ms, score, r->id)
                    && forall|id: i64| #[trigger]
                    ids.to_multiset().count(id) == if tried.contains(id) || (any_warm
                        && is_cooling(before, id, now)) {
                        0
                    } else {
                        view.eligible@.to_multiset().count(id)
                    }
        }),
{
    broadcast use vstd::seq_lib::group_to_multiset_ensures;

    let keep = |i: i64| !tried.contains(i);
    let warm = |i: i64| !before.cooled(i, now);
    let base = choice::untried(view.eligible@, tried);
    let ids = choice::candidates(base, before, now);
    lemma_filter_multiset(view.eligible@, keep);
    lemma_filter_multiset(base, warm);
    reveal(Seq::filter);
    assert forall|id: i64| #[trigger] choice::load_of(before, now)(id) == load(id) by {
        assert(load(id) == before.load(id, now));
    }
    assert(choice::load_of(before, now) =~= load);
    let open = base.filter(warm);
    let any_warm = exists|k: i64| #[trigger]
        is_left(view, tried, k) && !is_cooling(before, k, now);
    if open.len() > 0 {
        let k = open[0];
        assert(open.contains(k));
        seqs::lemma_filter_contains(base, warm, k);
        seqs::lemma_filter_contains(view.eligible@, keep, k);
        assert(is_left(view, tried, k) && !is_cooling(before, k, now));
        assert(any_warm);
    } else if any_warm {
        let k = choose|k: i64| #[trigger]
            is_left(view, tried, k) && !is_cooling(before, k, now);
        seqs::lemma_filter_contains(view.eligible@, keep, k);
        seqs::lemma_filter_contains(base, warm, k);
        assert(open.contains(k));
    }
    assert forall|id: i64| #[trigger] ids.to_multiset().count(id) == if tried.contains(id) || (
    any_warm && is_cooling(before, id, now)) {
        0
    } else {
        view.eligible@.to_multiset().count(id)
    } by {
        assert(before.cooled(id, now) == is_cooling(before, id, now));
        assert(base.to_multiset().count(id) == view.eligible@.to_multiset().filter(keep).count(id));
        assert(open.to_multiset().count(id) == base.to_multiset().filter(warm).count(id));
    }
    assert(choice::has_best_score(ids, view.keys@, load, now_ms, score, r->id));
}

} // verus!
