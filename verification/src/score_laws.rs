//! What the formula is given, and which score wins.

use std::collections::HashMap;
use vstd::prelude::*;

use crate::choice;
use crate::choice::ScoreInput;
use crate::double::Double;
use crate::view::{KeyQuota, RouteView};

verus! {

/// The time left is that between now and the reset, at least nothing and at most a week of
/// 604 800 000 ms; a channel that is not known or has no window has the whole week left.
pub proof fn law_time_left_is_that_until_the_reset(
    keys: Map<i64, KeyQuota>,
    id: i64,
    now_ms: i64,
    reset_ms: i64,
)
    ensures
        ({
            let left = choice::remaining(keys, id, now_ms);
            let has_window = keys.contains_key(id) && keys[id].weekly_reset_ms == Some(reset_ms);
            &&& has_window && now_ms <= reset_ms <= now_ms + 604_800_000 ==> now_ms + left
                == reset_ms
            &&& has_window && reset_ms < now_ms ==> left == 0
            &&& has_window && reset_ms > now_ms + 604_800_000 ==> left == 604_800_000
            &&& !keys.contains_key(id) ==> left == 604_800_000
            &&& keys.contains_key(id) && keys[id].weekly_reset_ms is None ==> left == 604_800_000
        }),
{
}

/// A later reset leaves no less time, and a later present no more.
pub proof fn law_time_left_is_monotone(
    keys: Map<i64, KeyQuota>,
    later: Map<i64, KeyQuota>,
    id: i64,
    now_ms: i64,
    later_ms: i64,
)
    requires
        keys.contains_key(id),
        later.contains_key(id),
        keys[id].weekly_reset_ms is Some,
        later[id].weekly_reset_ms is Some,
        keys[id].weekly_reset_ms->0 <= later[id].weekly_reset_ms->0,
        now_ms <= later_ms,
    ensures
        choice::remaining(keys, id, now_ms) <= choice::remaining(later, id, now_ms),
        choice::remaining(keys, id, later_ms) <= choice::remaining(keys, id, now_ms),
{
}

/// The totals are sums: nothing over no candidates, a candidate's own part over it alone, and over
/// two groups together what they are over each.
pub proof fn law_totals_are_sums(
    a: Seq<i64>,
    b: Seq<i64>,
    keys: Map<i64, KeyQuota>,
    load: spec_fn(i64) -> nat,
    now_ms: i64,
    id: i64,
)
    ensures
        choice::total_remaining(Seq::empty(), keys, now_ms) == 0,
        choice::total_load(Seq::empty(), load) == 0,
        choice::total_remaining(seq![id], keys, now_ms) == choice::remaining(keys, id, now_ms),
        choice::total_load(seq![id], load) == load(id),
        choice::total_remaining(a + b, keys, now_ms) == choice::total_remaining(a, keys, now_ms)
            + choice::total_remaining(b, keys, now_ms),
        choice::total_load(a + b, load) == choice::total_load(a, load) + choice::total_load(
            b,
            load,
        ),
    decreases b.len(),
{
    reveal_with_fuel(choice::total_remaining, 2);
    reveal_with_fuel(choice::total_load, 2);
    assert(seq![id].drop_last() =~= Seq::empty());
    if b.len() > 0 {
        law_totals_are_sums(a, b.drop_last(), keys, load, now_ms, id);
        assert((a + b).drop_last() =~= a + b.drop_last());
        assert((a + b).last() == b.last());
    } else {
        assert(a + b =~= a);
    }
}

/// What the formula gets of a candidate is that candidate's own, field by field: its five-hour
/// percentage as such, its weekly percentage as such, nothing of either where it is not known, and
/// the number of its requests.
pub proof fn law_formula_gets_the_candidates_own(
    ids: Seq<i64>,
    keys: Map<i64, KeyQuota>,
    loads: Map<i64, usize>,
    load: spec_fn(i64) -> nat,
    now_ms: i64,
    i: int,
)
    requires
        0 <= i < ids.len(),
    ensures
        ({
            let x = choice::score_input(ids, keys, load, now_ms, i);
            let y = choice::score_input(ids, keys, choice::counted(loads), now_ms, i);
            let id = ids[i];
            &&& keys.contains_key(id) ==> x.five_hour_pct == keys[id].five_hour_pct
                && x.weekly_pct == keys[id].weekly_pct
            &&& !keys.contains_key(id) ==> x.five_hour_pct is None && x.weekly_pct is None
            &&& x.five_hour_pct == choice::quota(keys, id).five_hour_pct
            &&& x.weekly_pct == choice::quota(keys, id).weekly_pct
            &&& x.remaining_ms == choice::remaining(keys, id, now_ms)
            &&& loads.contains_key(id) ==> y.load == loads[id]
            &&& !loads.contains_key(id) ==> y.load == 0
            &&& load(id) <= usize::MAX ==> x.load == load(id)
        }),
{
    choice::law_parts_of_the_whole(ids, keys, load, now_ms, i);
}

/// Each candidate gets a score of its own, at its place: one that the formula gives for exactly
/// this candidate's time left, percentages and load, and the totals over all candidates.
pub proof fn law_each_score_is_the_candidates_own<F: Fn(ScoreInput) -> Double>(
    scored: Seq<(i64, Double)>,
    ids: Seq<i64>,
    keys: Map<i64, KeyQuota>,
    load: spec_fn(i64) -> nat,
    now_ms: i64,
    score: F,
    i: int,
    x: ScoreInput,
)
    requires
        choice::are_scores(scored, ids, keys, load, now_ms, score),
        0 <= i < ids.len(),
        x.remaining_ms == choice::remaining(keys, ids[i], now_ms),
        x.total_remaining_ms == choice::total_remaining(ids, keys, now_ms),
        x.five_hour_pct == (if keys.contains_key(ids[i]) {
            keys[ids[i]].five_hour_pct
        } else {
            None
        }),
        x.weekly_pct == (if keys.contains_key(ids[i]) {
            keys[ids[i]].weekly_pct
        } else {
            None
        }),
        x.load == load(ids[i]),
        x.total_load == choice::total_load(ids, load),
    ensures
        scored.len() == ids.len(),
        scored[i].0 == ids[i],
        score.ensures((x,), scored[i].1),
{
    assert(x == choice::score_input(ids, keys, load, now_ms, i));
    assert(scored[i].0 == ids[i]);
}

/// How much of its quota a channel is known to have used.
pub open spec fn known_use(keys: Map<i64, KeyQuota>, id: i64) -> Option<Double> {
    if keys.contains_key(id) {
        keys[id].max_pct
    } else {
        None
    }
}

/// Of two channels with one score, the first has the better claim, or is the other: less use is
/// better, any known use better than none known, and of the same use the smaller number is better.
pub open spec fn has_claim(keys: Map<i64, KeyQuota>, id: i64, other: i64) -> bool {
    match (known_use(keys, id), known_use(keys, other)) {
        (Some(p), Some(q)) => p.rank() < q.rank() || (p.rank() == q.rank() && id <= other),
        (Some(_), None) => true,
        (None, Some(_)) => false,
        (None, None) => id <= other,
    }
}

/// The score at `i` is the highest, and the channel there has the best claim among those with that
/// score.
pub open spec fn wins(scored: Seq<(i64, Double)>, keys: Map<i64, KeyQuota>, i: int) -> bool {
    &&& 0 <= i < scored.len()
    &&& forall|j: int|
        0 <= j < scored.len() ==> (#[trigger] scored[j]).1.rank() <= scored[i].1.rank()
    &&& forall|j: int|
        0 <= j < scored.len() && (#[trigger] scored[j]).1.rank() == scored[i].1.rank()
            ==> has_claim(keys, scored[i].0, scored[j].0)
}

/// The best channel has the highest score: no other score stands higher. Use and number decide
/// only where scores are equal.
pub proof fn law_best_has_the_highest_score(
    scored: Seq<(i64, Double)>,
    keys: Map<i64, KeyQuota>,
    id: i64,
)
    ensures
        choice::is_best(scored, keys, id) <==> exists|i: int| #[trigger]
            wins(scored, keys, i) && scored[i].0 == id,
{
    if choice::is_best(scored, keys, id) {
        let i = choose|i: int|
            0 <= i < scored.len() && (#[trigger] scored[i]).0 == id && forall|j: int|
                0 <= j < scored.len() ==> !choice::better(#[trigger] scored[j], scored[i], keys);
        assert forall|j: int| 0 <= j < scored.len() implies (#[trigger] scored[j]).1.rank()
            <= scored[i].1.rank() by {
            assert(!choice::better(scored[j], scored[i], keys));
        }
        assert forall|j: int|
            0 <= j < scored.len() && (#[trigger] scored[j]).1.rank()
                == scored[i].1.rank() implies has_claim(keys, scored[i].0, scored[j].0) by {
            assert(!choice::better(scored[j], scored[i], keys));
        }
        assert(wins(scored, keys, i));
    }
    if exists|i: int| #[trigger] wins(scored, keys, i) && scored[i].0 == id {
        let i = choose|i: int| #[trigger] wins(scored, keys, i) && scored[i].0 == id;
        assert(scored[i].0 == id);
        assert forall|j: int| 0 <= j < scored.len() implies !choice::better(
            #[trigger] scored[j],
            scored[i],
            keys,
        ) by {
            if scored[j].1.rank() == scored[i].1.rank() {
                assert(has_claim(keys, scored[i].0, scored[j].0));
            }
        }
    }
}

/// The candidate that is chosen by score has the highest of scores that the formula gives for the
/// candidates; use and number decide only where scores are equal.
pub proof fn law_chosen_candidate_has_the_highest_score<F: Fn(ScoreInput) -> Double>(
    ids: Seq<i64>,
    keys: Map<i64, KeyQuota>,
    load: spec_fn(i64) -> nat,
    now_ms: i64,
    score: F,
    id: i64,
)
    requires
        choice::has_best_score(ids, keys, load, now_ms, score, id),
    ensures
        exists|scored: Seq<(i64, Double)>, i: int|
            #![trigger wins(scored, keys, i)]
            choice::are_scores(scored, ids, keys, load, now_ms, score) && wins(scored, keys, i)
                && scored[i].0 == id,
{
    let scored = choose|scored: Seq<(i64, Double)>| #[trigger]
        choice::are_scores(scored, ids, keys, load, now_ms, score) && choice::is_best(
            scored,
            keys,
            id,
        );
    law_best_has_the_highest_score(scored, keys, id);
    let i = choose|i: int| #[trigger] wins(scored, keys, i) && scored[i].0 == id;
    assert(wins(scored, keys, i));
}

/// A score that stands higher than all others wins, whatever use and numbers say.
pub proof fn law_a_higher_score_wins(
    scored: Seq<(i64, Double)>,
    keys: Map<i64, KeyQuota>,
    id: i64,
    i: int,
)
    requires
        choice::is_best(scored, keys, id),
        0 <= i < scored.len(),
        forall|j: int|
            0 <= j < scored.len() && j != i ==> (#[trigger] scored[j]).1.rank()
                < scored[i].1.rank(),
    ensures
        id == scored[i].0,
{
    law_best_has_the_highest_score(scored, keys, id);
    let k = choose|k: int| #[trigger] wins(scored, keys, k) && scored[k].0 == id;
    assert(scored[i].1.rank() <= scored[k].1.rank());
}

/// The channel that is picked from scores has the highest of them.
pub proof fn law_picked_channel_has_the_highest_score(
    scored: &[(i64, Double)],
    view: &RouteView,
    id: i64,
)
    requires
        call_ensures(choice::best_scored, (scored, view), id),
    ensures
        exists|i: int| #[trigger] wins(scored@, view.keys@, i) && scored@[i].0 == id,
{
    law_best_has_the_highest_score(scored@, view.keys@, id);
}

/// Scores are given to the candidates that were handed in, one each, in their order, by the view's
/// own quotas.
pub proof fn law_candidates_are_scored<F: Fn(ScoreInput) -> Double>(
    ids: &[i64],
    view: &RouteView,
    loads: &HashMap<i64, usize>,
    now_ms: i64,
    score: &F,
    r: Vec<(i64, Double)>,
    i: int,
    x: ScoreInput,
)
    requires
        call_ensures(choice::score_all::<F>, (ids, view, loads, now_ms, score), r),
        0 <= i < ids@.len(),
        x.remaining_ms == choice::remaining(view.keys@, ids@[i], now_ms),
        x.total_remaining_ms == choice::total_remaining(ids@, view.keys@, now_ms),
        x.five_hour_pct == (if view.keys@.contains_key(ids@[i]) {
            view.keys@[ids@[i]].five_hour_pct
        } else {
            None
        }),
        x.weekly_pct == (if view.keys@.contains_key(ids@[i]) {
            view.keys@[ids@[i]].weekly_pct
        } else {
            None
        }),
        x.load == (if loads@.contains_key(ids@[i]) {
            loads@[ids@[i]]
        } else {
            0
        }),
        x.total_load == choice::total_load(
            ids@,
            |id: i64|
                if loads@.contains_key(id) {
                    loads@[id] as nat
                } else {
                    0
                },
        ),
    ensures
        r@.len() == ids@.len(),
        r@[i].0 == ids@[i],
        score.ensures((x,), r@[i].1),
{
    let load = |id: i64|
        if loads@.contains_key(id) {
            loads@[id] as nat
        } else {
            0
        };
    assert(choice::counted(loads@) =~= load);
    law_each_score_is_the_candidates_own(r@, ids@, view.keys@, load, now_ms, *score, i, x);
}

/// The candidate that is picked by score has the highest of scores that the formula gives for
/// exactly these candidates, by the view's quotas and the loads given.
pub proof fn law_picked_candidate_has_the_highest_score<F: Fn(ScoreInput) -> Double>(
    ids: &[i64],
    view: &RouteView,
    loads: &HashMap<i64, usize>,
    now_ms: i64,
    score: &F,
    id: i64,
)
    requires
        call_ensures(choice::argmax_score::<F>, (ids, view, loads, now_ms, score), id),
    ensures
        exists|scored: Seq<(i64, Double)>, i: int|
            #![trigger wins(scored, view.keys@, i)]
            choice::are_scores(
                scored,
                ids@,
                view.keys@,
                choice::counted(loads@),
                now_ms,
                *score,
            ) && wins(scored, view.keys@, i) && scored[i].0 == id,
{
    law_chosen_candidate_has_the_highest_score(
        ids@,
        view.keys@,
        choice::counted(loads@),
        now_ms,
        *score,
        id,
    );
}

/// The milliseconds left that are reported are those until the reset, within the week.
pub proof fn law_time_left_is_reported(
    view: &RouteView,
    id: i64,
    now_ms: i64,
    r: u64,
    reset_ms: i64,
)
    requires
        call_ensures(choice::remaining_ms, (view, id, now_ms), r),
        view.keys@.contains_key(id),
        view.keys@[id].weekly_reset_ms == Some(reset_ms),
    ensures
        now_ms <= reset_ms <= now_ms + 604_800_000 ==> now_ms + r == reset_ms,
        reset_ms < now_ms ==> r == 0,
        reset_ms > now_ms + 604_800_000 ==> r == 604_800_000,
{
    law_time_left_is_that_until_the_reset(view.keys@, id, now_ms, reset_ms);
}

} // verus!
