//! Which channel is chosen, at given times and with given scores.

use quota_throttle::choice::{
    argmax_score, best_scored, choose_channel_at, remaining_ms, score_all, Choice, ScoreInput, Via,
    MAX_WEEK_MS,
};
use quota_throttle::double::Double;
use quota_throttle::state::RouterState;
use quota_throttle::status::{KeyStatus, StatusSnapshot};
use quota_throttle::view::{KeyQuota, RouteView};
use std::collections::HashMap;

const SECOND: u128 = 1_000_000_000;

fn double(x: f64) -> Double {
    Double { bits: x.to_bits() }
}

fn number(d: Double) -> f64 {
    f64::from_bits(d.bits)
}

fn view(eligible: &[i64], keys: &[(i64, Option<i64>, Option<f64>)]) -> RouteView {
    RouteView {
        eligible: eligible.to_vec(),
        pinned: None,
        keys: keys
            .iter()
            .map(|(id, reset, max)| {
                (
                    *id,
                    KeyQuota {
                        five_hour_pct: None,
                        weekly_pct: None,
                        weekly_reset_ms: *reset,
                        max_pct: max.map(double),
                    },
                )
            })
            .collect(),
        has_data: true,
    }
}

/// Urgency alone.
fn urgency(x: ScoreInput) -> Double {
    double(if x.total_remaining_ms > 0 {
        1.0 - x.remaining_ms as f64 / x.total_remaining_ms as f64
    } else {
        1.0
    })
}

#[test]
fn time_left_is_cut_to_the_window() {
    let v = view(&[], &[(1, Some(5000), None), (2, Some(i64::MAX), None), (3, None, None)]);
    assert_eq!(remaining_ms(&v, 1, 2000), 3000);
    assert_eq!(remaining_ms(&v, 1, 5000), 0);
    assert_eq!(remaining_ms(&v, 1, 9000), 0);
    assert_eq!(remaining_ms(&v, 2, 0), MAX_WEEK_MS);
    assert_eq!(remaining_ms(&v, 2, i64::MIN), MAX_WEEK_MS);
    assert_eq!(remaining_ms(&v, 3, 0), MAX_WEEK_MS);
    assert_eq!(remaining_ms(&v, 4, 0), 604_800_000);
}

#[test]
fn a_candidate_is_scored_by_its_share() {
    let v = view(&[], &[(1, Some(3_600_000), None), (2, Some(86_400_000), None)]);
    let scored = score_all(&[1, 2], &v, &HashMap::new(), 0, &urgency);
    assert_eq!(scored.len(), 2);
    assert_eq!(scored[0].0, 1);
    assert!((number(scored[0].1) - 24.0 / 25.0).abs() < 1e-12);
    assert_eq!(scored[1].0, 2);
    assert!((number(scored[1].1) - 1.0 / 25.0).abs() < 1e-12);
}

#[test]
fn the_formula_gets_parts_and_totals() {
    let mut v = view(&[], &[(1, Some(100), None), (2, Some(300), None)]);
    v.keys.get_mut(&1).unwrap().five_hour_pct = Some(double(12.5));
    v.keys.get_mut(&2).unwrap().weekly_pct = Some(double(50.0));
    let loads = HashMap::from([(1i64, 2usize), (2, 5), (9, 100)]);
    let seen = std::cell::RefCell::new(Vec::new());
    score_all(&[1, 2], &v, &loads, 0, &|x: ScoreInput| {
        seen.borrow_mut().push(x);
        double(0.0)
    });
    let seen = seen.into_inner();
    assert_eq!(seen.len(), 2);
    assert_eq!((seen[0].remaining_ms, seen[1].remaining_ms), (100, 300));
    assert_eq!((seen[0].total_remaining_ms, seen[1].total_remaining_ms), (400, 400));
    assert_eq!((seen[0].load, seen[1].load), (2, 5));
    assert_eq!((seen[0].total_load, seen[1].total_load), (7, 7));
    assert_eq!(seen[0].five_hour_pct, Some(double(12.5)));
    assert_eq!(seen[0].weekly_pct, None);
    assert_eq!(seen[1].five_hour_pct, None);
    assert_eq!(seen[1].weekly_pct, Some(double(50.0)));
}

#[test]
fn no_time_left_only_where_all_are_due() {
    let v = view(&[], &[(1, Some(5), None), (2, Some(7), None)]);
    for (now, total) in [(4i64, 4u128), (6, 1), (7, 0), (8, 0)] {
        let totals = std::cell::RefCell::new(Vec::new());
        score_all(&[1, 2], &v, &HashMap::new(), now, &|x: ScoreInput| {
            totals.borrow_mut().push(x.total_remaining_ms);
            double(0.0)
        });
        assert_eq!(totals.into_inner(), vec![total, total]);
    }
}

#[test]
fn the_higher_score_wins() {
    let v = view(&[], &[(1, None, Some(1.0)), (2, None, Some(99.0))]);
    assert_eq!(best_scored(&[(1, double(0.3)), (2, double(0.4))], &v), 2);
    assert_eq!(best_scored(&[(2, double(0.4)), (1, double(0.3))], &v), 2);
    assert_eq!(best_scored(&[(1, double(-0.5)), (2, double(-1.5))], &v), 1);
    assert_eq!(best_scored(&[(7, double(0.0))], &v), 7);
}

#[test]
fn of_equal_scores_less_use_wins() {
    let v = view(&[], &[(1, None, Some(30.0)), (2, None, Some(20.0))]);
    assert_eq!(best_scored(&[(1, double(0.5)), (2, double(0.5))], &v), 2);
    assert_eq!(best_scored(&[(2, double(0.5)), (1, double(0.5))], &v), 2);
}

#[test]
fn of_equal_scores_unknown_use_gives_way() {
    let v = view(&[], &[(1, None, None), (2, None, Some(99.0))]);
    assert_eq!(best_scored(&[(1, double(0.5)), (2, double(0.5))], &v), 2);
    assert_eq!(best_scored(&[(2, double(0.5)), (1, double(0.5))], &v), 2);
    // A channel without a quota is unknown too.
    assert_eq!(best_scored(&[(0, double(0.5)), (2, double(0.5))], &v), 2);
}

#[test]
fn of_equal_use_the_smaller_number_wins() {
    let v = view(&[], &[(1, None, Some(30.0)), (2, None, Some(30.0))]);
    assert_eq!(best_scored(&[(1, double(0.5)), (2, double(0.5))], &v), 1);
    assert_eq!(best_scored(&[(2, double(0.5)), (1, double(0.5))], &v), 1);
    let none = RouteView::default();
    assert_eq!(best_scored(&[(5, double(0.5)), (-3, double(0.5)), (4, double(0.5))], &none), -3);
}

#[test]
fn scores_stand_in_the_total_order() {
    let in_order = [
        f64::NEG_INFINITY,
        -1.5,
        -0.5,
        -f64::MIN_POSITIVE,
        -0.0,
        0.0,
        f64::MIN_POSITIVE,
        0.5,
        1.5,
        f64::INFINITY,
        f64::NAN.abs(),
    ];
    for (i, a) in in_order.iter().enumerate() {
        for (j, b) in in_order.iter().enumerate() {
            let (x, y) = (double(*a).order_key(), double(*b).order_key());
            assert_eq!(x < y, i < j);
            assert_eq!(x == y, double(*a) == double(*b));
            assert_eq!(x < y, a.total_cmp(b) == std::cmp::Ordering::Less);
        }
    }
    assert!(double(-f64::NAN.abs()).order_key() < double(f64::NEG_INFINITY).order_key());
}

#[test]
fn argmax_takes_the_best_candidate() {
    let v = view(&[], &[(1, Some(900), None), (2, Some(100), None)]);
    assert_eq!(argmax_score(&[1, 2], &v, &HashMap::new(), 0, &urgency), 2);
    assert_eq!(argmax_score(&[1], &v, &HashMap::new(), 0, &urgency), 1);
}

#[test]
fn pin_before_cache_before_score() {
    let mut v = view(&[1, 2, 3], &[(1, Some(10), None), (2, None, None), (3, None, None)]);
    let mut r = RouterState::new();
    v.pinned = Some(2);
    let c = choose_channel_at(&v, &mut r, &[], Some(3), 0, 0, &urgency);
    assert_eq!(c, Choice::Channel { id: 2, via: Via::Pin });
    let c = choose_channel_at(&v, &mut r, &[2], Some(3), 0, 0, &urgency);
    assert_eq!(c, Choice::Channel { id: 3, via: Via::CacheHit });
    let c = choose_channel_at(&v, &mut r, &[2, 3], Some(3), 0, 0, &urgency);
    assert_eq!(c, Choice::Channel { id: 1, via: Via::Score });
    let c = choose_channel_at(&v, &mut r, &[2, 3, 1], Some(3), 0, 0, &urgency);
    assert_eq!(c, Choice::NoEligible);
}

#[test]
fn a_pin_that_cools_down_steps_back() {
    let mut v = view(&[1, 2], &[(1, Some(10), None), (2, None, None)]);
    v.pinned = Some(2);
    let mut r = RouterState::new();
    r.cool_at(2, 0);
    let c = choose_channel_at(&v, &mut r, &[], None, 0, 15 * SECOND - 1, &urgency);
    assert_eq!(c, Choice::Channel { id: 1, via: Via::Score });
    let c = choose_channel_at(&v, &mut r, &[], None, 0, 15 * SECOND, &urgency);
    assert_eq!(c, Choice::Channel { id: 2, via: Via::Pin });
}

#[test]
fn a_channel_that_refused_is_avoided() {
    let v = view(&[1, 2], &[(1, Some(10), None), (2, Some(20), None)]);
    let mut r = RouterState::new();
    let c = choose_channel_at(&v, &mut r, &[], None, 0, 0, &urgency);
    assert_eq!(c, Choice::Channel { id: 1, via: Via::Score });
    r.cool_at(1, 1);
    let c = choose_channel_at(&v, &mut r, &[], Some(1), 0, 2, &urgency);
    assert_eq!(c, Choice::Channel { id: 2, via: Via::Score });
    // The last resort: both are cooling down, and the score decides.
    r.cool_at(2, 3);
    let c = choose_channel_at(&v, &mut r, &[], Some(1), 0, 4, &urgency);
    assert_eq!(c, Choice::Channel { id: 1, via: Via::Score });
}

#[test]
fn a_conversation_stays_on_its_channel() {
    let v = view(&[1, 2], &[(1, Some(10), None), (2, None, None)]);
    let mut r = RouterState::new();
    r.record_at(Some(77), 2, 0);
    let hint = r.lookup_at(77, &v.eligible, 1);
    let c = choose_channel_at(&v, &mut r, &[], hint, 0, 2, &urgency);
    assert_eq!(c, Choice::Channel { id: 2, via: Via::CacheHit });
    let s = r.stats();
    assert_eq!((s.entries, s.hits, s.misses), (1, 1, 0));
}

#[test]
fn load_decides_between_equals() {
    let v = view(&[1, 2], &[(1, None, None), (2, None, None)]);
    let by_load = |x: ScoreInput| {
        double(if x.total_load == 0 { 1.0 } else { 1.0 - x.load as f64 / x.total_load as f64 })
    };
    let mut r = RouterState::new();
    r.record_at(None, 1, 0);
    let c = choose_channel_at(&v, &mut r, &[], None, 0, 60 * SECOND, &by_load);
    assert_eq!(c, Choice::Channel { id: 2, via: Via::Score });
    let c = choose_channel_at(&v, &mut r, &[], None, 0, 60 * SECOND + 1, &by_load);
    assert_eq!(c, Choice::Channel { id: 1, via: Via::Score });
}

#[test]
fn the_order_of_the_channels_does_not_count() {
    let keys = [(1, Some(50), Some(3.0)), (2, Some(50), Some(2.0)), (3, Some(50), Some(2.0))];
    for eligible in [[1i64, 2, 3], [3, 2, 1], [2, 3, 1], [3, 1, 2]] {
        let v = view(&eligible, &keys);
        let mut r = RouterState::new();
        let c = choose_channel_at(&v, &mut r, &[], None, 0, 0, &urgency);
        assert_eq!(c, Choice::Channel { id: 2, via: Via::Score });
    }
}

#[test]
fn two_choices_from_one_state_are_one() {
    let v = view(&[4, 5, 6], &[(4, Some(9), None), (5, Some(9), None), (6, Some(3), None)]);
    let mut r = RouterState::new();
    let a = choose_channel_at(&v, &mut r, &[], None, 1, 10, &urgency);
    let b = choose_channel_at(&v, &mut r, &[], None, 1, 10, &urgency);
    assert_eq!(a, b);
    assert_eq!(a, Choice::Channel { id: 6, via: Via::Score });
}

#[test]
fn retries_come_to_an_end() {
    let v = view(&[4, 5, 6], &[]);
    let mut r = RouterState::new();
    let mut tried = Vec::new();
    loop {
        match choose_channel_at(&v, &mut r, &tried, None, 0, 0, &urgency) {
            Choice::Channel { id, .. } => {
                assert!(v.eligible.contains(&id));
                assert!(!tried.contains(&id));
                tried.push(id);
            }
            c => {
                assert_eq!(c, Choice::NoEligible);
                break;
            }
        }
    }
    assert_eq!(tried, vec![4, 5, 6]);
}

#[test]
fn without_data_nothing_is_chosen() {
    let mut v = view(&[1], &[]);
    v.has_data = false;
    v.pinned = Some(1);
    let mut r = RouterState::new();
    assert_eq!(choose_channel_at(&v, &mut r, &[], Some(1), 0, 0, &urgency), Choice::NoData);
}

#[test]
fn the_later_of_two_keys_counts() {
    let key = |weekly_reset| KeyStatus { channel_id: 3, weekly_reset, ..Default::default() };
    let mut snap = StatusSnapshot::default();
    snap.keys = vec![key(Some(1)), key(Some(2))];
    let v = RouteView::from_snap(&snap);
    assert!(v.has_data);
    assert_eq!(v.keys.len(), 1);
    assert_eq!(v.keys[&3].weekly_reset_ms, Some(2));
    let empty = RouteView::from_snap(&StatusSnapshot::default());
    assert!(!empty.has_data);
    assert!(empty.keys.is_empty());
    assert_eq!(KeyQuota::default().max_pct, None);
}

#[test]
fn a_missing_window_is_the_farthest() {
    let week = MAX_WEEK_MS as i64;
    let expected = score_all(
        &[1, 2],
        &view(&[], &[(1, None, None), (2, Some(5000), None)]),
        &HashMap::new(),
        1000,
        &urgency,
    );
    for keys in [
        vec![(1, Some(1000 + week), None), (2, Some(5000), None)],
        vec![(1, Some(i64::MAX), None), (2, Some(5000), None)],
        vec![(2, Some(5000), None)],
    ] {
        let scored = score_all(&[1, 2], &view(&[], &keys), &HashMap::new(), 1000, &urgency);
        assert_eq!(scored, expected);
    }
    // A millisecond less is another input.
    let nearer = view(&[], &[(1, Some(1000 + week - 1), None), (2, Some(5000), None)]);
    assert_eq!(remaining_ms(&nearer, 1, 1000), MAX_WEEK_MS - 1);
}

#[test]
fn moving_time_changes_no_score() {
    let at = |d: i64| {
        let v = view(&[], &[(1, Some(9000 + d), None), (2, Some(500 + d), None), (3, None, None)]);
        score_all(&[1, 2, 3], &v, &HashMap::new(), 1000 + d, &urgency)
    };
    for d in [-2000i64, -1, 1, 1_700_000_000_000] {
        assert_eq!(at(d), at(0));
    }
}

#[test]
fn a_choice_leaves_no_trace() {
    let v = view(&[1, 2], &[(1, Some(10), None), (2, Some(20), None)]);
    let mut r = RouterState::new();
    let mut untouched = RouterState::new();
    for router in [&mut r, &mut untouched] {
        router.record_at(Some(5), 2, 0);
        router.record_at(None, 1, 30 * SECOND);
        router.cool_at(2, 55 * SECOND);
    }
    let now = 61 * SECOND;
    let a = choose_channel_at(&v, &mut r, &[], None, 0, now, &urgency);
    let b = choose_channel_at(&v, &mut r, &[], None, 0, now, &urgency);
    assert_eq!(a, Choice::Channel { id: 1, via: Via::Score });
    assert_eq!(a, b);
    let (s, t) = (r.stats(), untouched.stats());
    assert_eq!((s.entries, s.hits, s.misses), (t.entries, t.hits, t.misses));
    assert_eq!(s.routed_per_channel, t.routed_per_channel);
    assert!(r.is_cooled_at(2, now) && untouched.is_cooled_at(2, now));
    assert_eq!(r.load_counts_at(now), untouched.load_counts_at(now));
    assert_eq!(r.lookup_at(5, &[2], now), untouched.lookup_at(5, &[2], now));
}
