//! The router's memory, at given times.

use quota_throttle::clock::Clock;
use quota_throttle::state::{
    contains_id, RouterState, RouterStats, COOLDOWN, LOAD_WINDOW, POOL_CAP,
};

const SECOND: u128 = 1_000_000_000;

#[test]
fn constants_are_in_nanoseconds() {
    assert_eq!(POOL_CAP, 4096);
    assert_eq!(COOLDOWN, 15 * SECOND);
    assert_eq!(LOAD_WINDOW, 60 * SECOND);
}

#[test]
fn a_new_router_remembers_nothing() {
    for r in [RouterState::new(), RouterState::default()] {
        let s = r.stats();
        assert_eq!(s.entries, 0);
        assert_eq!((s.hits, s.misses), (0, 0));
        assert!(s.routed_per_channel.is_empty());
        assert_eq!(r.pool_cap, POOL_CAP);
        assert!(!r.is_cooled(1));
    }
}

#[test]
fn default_stats_are_empty() {
    let s = RouterStats::default();
    assert_eq!((s.entries, s.hits, s.misses), (0, 0, 0));
    assert!(s.routed_per_channel.is_empty());
}

#[test]
fn contains_id_finds_what_is_there() {
    assert!(contains_id(&[3, 1, 2], 2));
    assert!(!contains_id(&[3, 1, 2], 4));
    assert!(!contains_id(&[], 0));
}

#[test]
fn a_recorded_conversation_is_found_where_eligible() {
    let mut r = RouterState::new();
    r.record_at(Some(7), 3, 0);
    assert_eq!(r.lookup_at(7, &[1, 3], 1), Some(3));
    assert_eq!(r.lookup_at(7, &[1, 2], 2), None);
    assert_eq!(r.lookup_at(8, &[1, 3], 3), None);
    // Recording again moves it.
    r.record_at(Some(7), 1, 4);
    assert_eq!(r.lookup_at(7, &[1, 3], 5), Some(1));
}

#[test]
fn each_lookup_counts_once() {
    let mut r = RouterState::new();
    r.record_at(Some(7), 3, 0);
    r.lookup_at(7, &[3], 1);
    r.lookup_at(7, &[3], 1);
    r.lookup_at(7, &[], 1);
    r.lookup_at(9, &[3], 1);
    let s = r.stats();
    assert_eq!((s.hits, s.misses), (2, 2));
}

#[test]
fn no_fingerprint_no_entry() {
    let mut r = RouterState::new();
    r.record_at(None, 3, 0);
    let s = r.stats();
    assert_eq!(s.entries, 0);
    assert_eq!(s.routed_per_channel, vec![(3, 1)]);
}

#[test]
fn the_least_recent_conversation_leaves() {
    let mut r = RouterState::new();
    r.pool_cap = 2;
    r.record_at(Some(100), 1, 0);
    r.record_at(Some(200), 1, 1);
    // Asking for 100 makes 200 the oldest, even where the channel is not eligible.
    assert_eq!(r.lookup_at(100, &[2], 2), None);
    r.record_at(Some(300), 1, 3);
    assert_eq!(r.stats().entries, 2);
    assert_eq!(r.lookup_at(200, &[1], 4), None);
    assert_eq!(r.lookup_at(100, &[1], 5), Some(1));
    assert_eq!(r.lookup_at(300, &[1], 6), Some(1));
}

#[test]
fn a_known_conversation_moves_nothing_out() {
    let mut r = RouterState::new();
    r.pool_cap = 2;
    r.record_at(Some(100), 1, 0);
    r.record_at(Some(200), 1, 1);
    r.record_at(Some(200), 2, 2);
    assert_eq!(r.lookup_at(100, &[1], 3), Some(1));
    assert_eq!(r.lookup_at(200, &[2], 4), Some(2));
}

#[test]
fn a_pool_without_room_holds_the_newest() {
    let mut r = RouterState::new();
    r.pool_cap = 0;
    r.record_at(Some(100), 1, 0);
    assert_eq!(r.stats().entries, 1);
    r.record_at(Some(200), 1, 1);
    assert_eq!(r.stats().entries, 1);
    assert_eq!(r.lookup_at(200, &[1], 2), Some(1));
}

#[test]
fn a_cooldown_lasts_fifteen_seconds() {
    let mut r = RouterState::new();
    r.cool_at(1, 10 * SECOND);
    assert!(r.is_cooled_at(1, 10 * SECOND));
    assert!(r.is_cooled_at(1, 25 * SECOND - 1));
    assert!(!r.is_cooled_at(1, 25 * SECOND));
    assert!(!r.is_cooled_at(2, 10 * SECOND));
    // A second refusal starts it anew.
    r.cool_at(1, 20 * SECOND);
    assert!(r.is_cooled_at(1, 30 * SECOND));
}

#[test]
fn a_refusal_cools_now() {
    let mut r = RouterState::new();
    r.cool(5);
    assert!(r.is_cooled(5));
    assert!(!r.is_cooled(6));
    // Requests and lookups cool nothing and warm nothing.
    r.record(Some(1), 6);
    r.lookup(1, &[6]);
    assert!(r.is_cooled(5));
    assert!(!r.is_cooled(6));
}

#[test]
fn load_counts_a_minute_back() {
    let mut r = RouterState::new();
    r.record_at(None, 1, 0);
    r.record_at(None, 1, 30 * SECOND);
    r.record_at(Some(9), 2, 30 * SECOND);
    let counts = r.load_counts_at(60 * SECOND);
    assert_eq!(counts.get(&1), Some(&2));
    assert_eq!(counts.get(&2), Some(&1));
    let counts = r.load_counts_at(60 * SECOND + 1);
    assert_eq!(counts.get(&1), Some(&1));
    let counts = r.load_counts_at(90 * SECOND + 1);
    assert!(counts.is_empty());
    // What is too old for the load still counts as routed.
    assert_eq!(r.stats().routed_per_channel, vec![(1, 2), (2, 1)]);
}

#[test]
fn load_counts_by_the_clock() {
    let mut r = RouterState::new();
    r.record(None, 4);
    r.record(None, 4);
    let counts = r.load_counts();
    assert_eq!(counts.len(), 1);
    assert_eq!(counts.get(&4), Some(&2));
}

#[test]
fn forgetting_is_unseen_by_later_counts() {
    let mut counted = RouterState::new();
    let mut quiet = RouterState::new();
    for t in [0u128, 20, 50, 70] {
        counted.record_at(None, 1, t * SECOND);
        quiet.record_at(None, 1, t * SECOND);
        counted.load_counts_at(t * SECOND);
    }
    assert_eq!(counted.load_counts_at(100 * SECOND), quiet.load_counts_at(100 * SECOND));
}

#[test]
fn a_dropped_channel_is_forgotten_and_others_are_kept() {
    let mut r = RouterState::new();
    r.record_at(Some(100), 1, 0);
    r.record_at(Some(200), 2, 1);
    r.cool_at(1, 2);
    r.cool_at(2, 2);
    r.retain_channel(|id| id != 1);
    assert_eq!(r.lookup_at(100, &[1, 2], 3), None);
    assert_eq!(r.lookup_at(200, &[1, 2], 3), Some(2));
    assert!(!r.is_cooled_at(1, 3));
    assert!(r.is_cooled_at(2, 3));
    let counts = r.load_counts_at(3);
    assert_eq!(counts.get(&1), None);
    assert_eq!(counts.get(&2), Some(&1));
    assert_eq!(r.stats().routed_per_channel, vec![(2, 1)]);
}

#[test]
fn stats_list_channels_in_order() {
    let mut r = RouterState::new();
    for id in [5i64, -2, 9, 5, 0] {
        r.record_at(None, id, 0);
    }
    assert_eq!(r.stats().routed_per_channel, vec![(-2, 1), (0, 1), (5, 2), (9, 1)]);
}

#[test]
fn a_clock_never_runs_backwards() {
    let mut c = Clock::start();
    let a = c.read();
    c.note(a + 1_000_000 * SECOND);
    assert_eq!(c.read(), a + 1_000_000 * SECOND);
    let d = Clock::start();
    let first = d.read();
    let mut later = d.read();
    while later == first {
        later = d.read();
    }
    assert!(later > first);
}

#[test]
fn the_router_reads_a_clock() {
    let r = RouterState::new();
    let first = r.time();
    let mut later = r.time();
    while later == first {
        later = r.time();
    }
    assert!(later > first);
}

#[test]
fn a_router_is_made_with_its_capacity() {
    let mut r = RouterState::with_pool_cap(2);
    assert_eq!(r.pool_cap, 2);
    assert_eq!(r.stats().entries, 0);
    r.record_at(Some(1), 1, 0);
    r.record_at(Some(2), 1, 1);
    r.record_at(Some(3), 1, 2);
    assert_eq!(r.stats().entries, 2);
    assert_eq!(r.lookup_at(1, &[1], 3), None);
}

#[test]
fn the_pool_stays_bounded_and_the_counters_tell_the_history() {
    for cap in [0usize, 1, 3] {
        let mut r = RouterState::with_pool_cap(cap);
        let mut routed = std::collections::BTreeMap::new();
        let mut lookups = 0u64;
        for i in 0..200u64 {
            let now = u128::from(i) * SECOND;
            let id = (i % 5) as i64;
            match i % 7 {
                0 => {
                    r.lookup_at(i % 11, &[0, 1, 2], now);
                    lookups += 1;
                }
                1 => r.cool_at(id, now),
                2 => {
                    r.load_counts_at(now);
                }
                3 if i % 4 == 0 => {
                    r.retain_channel(|k| k != id);
                    routed.remove(&id);
                }
                _ => {
                    r.record_at(Some(i % 11), id, now);
                    *routed.entry(id).or_insert(0u64) += 1;
                }
            }
            let s = r.stats();
            assert!(s.entries <= cap.max(1));
            assert_eq!(s.hits + s.misses, lookups);
            let expected: Vec<(i64, u64)> = routed.iter().map(|(k, n)| (*k, *n)).collect();
            assert_eq!(s.routed_per_channel, expected);
            // Asked again, the same.
            assert_eq!(r.stats().routed_per_channel, expected);
        }
    }
}
