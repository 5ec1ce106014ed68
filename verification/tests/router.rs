//! Routing, end to end: pool, cooldown, load, score and fingerprint.

use quota_throttle::choice::{choose_channel, score_all, Choice, ScoreInput, Via};
use quota_throttle::double::Double;
use quota_throttle::fingerprint::cache_key;
use quota_throttle::state::RouterState;
use quota_throttle::status::{KeyStatus, StatusSnapshot};
use quota_throttle::view::{KeyQuota, RouteView};
use std::collections::HashMap;

fn double(x: f64) -> Double {
    Double { bits: x.to_bits() }
}

fn number(d: Double) -> f64 {
    f64::from_bits(d.bits)
}

fn quota(five: Option<f64>, weekly: Option<f64>, reset: Option<i64>, max: Option<f64>) -> KeyQuota {
    KeyQuota {
        five_hour_pct: five.map(double),
        weekly_pct: weekly.map(double),
        weekly_reset_ms: reset,
        max_pct: max.map(double),
    }
}

fn available(pct: Option<Double>) -> f64 {
    pct.map(|p| (1.0 - number(p) / 100.0).clamp(0.0, 1.0)).unwrap_or(1.0)
}

/// The score: 0.6 urgency + 0.2 capacity + 0.2 load.
fn score(x: &ScoreInput, ratio: f64) -> f64 {
    let week = if x.total_remaining_ms > 0 {
        1.0 - x.remaining_ms as f64 / x.total_remaining_ms as f64
    } else {
        1.0
    };
    let cap = available(x.five_hour_pct).min(available(x.weekly_pct) * ratio).clamp(0.0, 1.0);
    let load = if x.total_load == 0 { 1.0 } else { 1.0 - x.load as f64 / x.total_load as f64 };
    0.6 * week + 0.2 * cap + 0.2 * load
}

fn scores(
    candidates: &[i64],
    view: &RouteView,
    loads: &HashMap<i64, usize>,
    now_ms: i64,
    ratio: f64,
) -> Vec<(i64, f64)> {
    score_all(candidates, view, loads, now_ms, &|x: ScoreInput| double(score(&x, ratio)))
        .into_iter()
        .map(|(id, s)| (id, number(s)))
        .collect()
}

fn pick(
    view: &RouteView,
    router: &mut RouterState,
    tried: &[i64],
    cache_hint: Option<i64>,
    now_ms: i64,
) -> Choice {
    let formula = |x: ScoreInput| double(score(&x, 4.43));
    choose_channel(view, router, tried, cache_hint, now_ms, &formula)
}

/// (id, five_pct, weekly_pct, weekly_reset_ms, max_pct)
fn view(
    eligible: &[i64],
    keys: Vec<(i64, Option<f64>, Option<f64>, Option<i64>, Option<f64>)>,
) -> RouteView {
    RouteView {
        eligible: eligible.to_vec(),
        pinned: None,
        keys: keys.into_iter().map(|(id, f, w, r, m)| (id, quota(f, w, r, m))).collect(),
        has_data: true,
    }
}

#[test]
fn score_weekly_urgency_leads_one_hour_left_wins() {
    // A resets in 1 h, B in 24 h: the urgency of A is 1 - 1/25 = 0.96.
    let v = view(
        &[1, 2],
        vec![
            (1, Some(30.0), Some(30.0), Some(3_600_000), Some(30.0)),
            (2, Some(30.0), Some(30.0), Some(86_400_000), Some(30.0)),
        ],
    );
    let mut r = RouterState::new();
    match pick(&v, &mut r, &[], None, 0) {
        Choice::Channel { id, .. } => assert_eq!(id, 1, "the one that resets in an hour wins"),
        c => panic!("{c:?}"),
    }
}

#[test]
fn score_no_weekly_window_counts_as_farthest_reset() {
    let v = view(
        &[1, 2],
        vec![
            (1, None, None, None, None), // no weekly window: as far off as can be, 7 days
            (2, Some(50.0), Some(50.0), Some(3600_000), Some(50.0)),
        ],
    );
    let mut r = RouterState::new();
    match pick(&v, &mut r, &[], None, 0) {
        // The urgency of 2 is about 0.994. The capacity of 1 is higher (1.0 against 0.5), but
        // urgency weighs 0.6.
        Choice::Channel { id, .. } => assert_eq!(id, 2),
        c => panic!("{c:?}"),
    }
}

#[test]
fn score_burnt_five_hour_window_lowers_capacity() {
    // A has used 99% of its five-hour window, B 30%; all else is equal.
    let v = view(
        &[1, 2],
        vec![
            (1, Some(99.0), Some(30.0), Some(3_600_000), Some(99.0)),
            (2, Some(30.0), Some(30.0), Some(3_600_000), Some(30.0)),
        ],
    );
    let mut r = RouterState::new();
    match pick(&v, &mut r, &[], None, 0) {
        Choice::Channel { id, .. } => assert_eq!(id, 2, "the one with more capacity wins"),
        c => panic!("{c:?}"),
    }
}

#[test]
fn score_spreads_load() {
    let v = view(
        &[1, 2],
        vec![
            (1, Some(30.0), Some(30.0), Some(3_600_000), Some(30.0)),
            (2, Some(30.0), Some(30.0), Some(3_600_000), Some(30.0)),
        ],
    );
    let mut r = RouterState::new();
    r.record(None, 1);
    r.record(None, 1);
    r.record(None, 1); // three requests in a row to channel 1
    match pick(&v, &mut r, &[], None, 0) {
        Choice::Channel { id, .. } => assert_eq!(id, 2, "of equals, the one with less load wins"),
        c => panic!("{c:?}"),
    }
}

#[test]
fn choice_excludes_tried_then_no_eligible() {
    let v = view(&[1], vec![(1, Some(10.0), Some(10.0), Some(3600_000), Some(10.0))]);
    let mut r = RouterState::new();
    assert_eq!(
        pick(&v, &mut r, &[1], None, 0),
        Choice::NoEligible,
        "the only candidate was tried"
    );
}

#[test]
fn score_all_resets_passed_no_nan() {
    // One boundary for the whole team, and a snapshot from before it: no time is left for any.
    let v = view(
        &[1, 2],
        vec![
            (1, Some(80.0), Some(80.0), Some(1000), Some(80.0)), // already reset
            (2, Some(10.0), Some(10.0), Some(2000), Some(10.0)),
        ],
    );
    let mut r = RouterState::new();
    match pick(&v, &mut r, &[], None, 10_000) {
        // All are equally urgent; capacity and load decide as ever.
        Choice::Channel { id, .. } => assert_eq!(id, 2, "no NaN may bypass the score"),
        c => panic!("{c:?}"),
    }
}

#[test]
fn choice_without_data_degrades() {
    let v = RouteView::default();
    let mut r = RouterState::new();
    assert_eq!(pick(&v, &mut r, &[], None, 0), Choice::NoData);
}

#[test]
fn choice_pin_and_cache_hit_first() {
    let v = view(&[1, 2], vec![(1, None, None, None, None), (2, None, None, None, None)]);
    let mut r = RouterState::new();
    // The pinned channel is eligible.
    let mut vp = v.clone();
    vp.pinned = Some(2);
    assert_eq!(
        pick(&vp, &mut r, &[], None, 0),
        Choice::Channel { id: 2, via: Via::Pin }
    );
    // It is not: back to the score.
    let mut vp2 = v.clone();
    vp2.pinned = Some(9);
    assert!(matches!(pick(&vp2, &mut r, &[], None, 0), Choice::Channel { .. }));
}

#[test]
fn pool_hit_needs_eligibility_and_capacity_evicts() {
    let mut r = RouterState::new();
    r.record(Some(100), 1);
    assert_eq!(r.lookup(100, &[1]), Some(1), "eligible: a hit");
    assert_eq!(r.lookup(100, &[2]), None, "not eligible: a miss");

    let mut st = r.stats();
    assert_eq!(st.entries, 1);
    // Room for two: the third moves the oldest out.
    let mut r2 = RouterState::new();
    r2.pool_cap = 2;
    r2.record(Some(100), 1);
    r2.record(Some(200), 1);
    r2.record(Some(300), 1);
    st = r2.stats();
    assert_eq!(st.entries, 2);
}

#[test]
fn cache_key_claude_key_order_and_system_blocks() {
    let a = br#"{"model":"m","system":"hi","tools":[{"name":"t"}],"messages":[{"role":"user","content":"hello"}]}"#;
    let b = br#"{"tools":[{"name":"t"}],"messages":[{"role":"user","content":"hello"}],"system":"hi","model":"m"}"#;
    assert_eq!(cache_key("/v1/messages", a), cache_key("/v1/messages", b));

    // A system prompt in blocks: breakpoints do not count.
    let c = br#"{"model":"m","system":[{"type":"text","text":"s1","cache_control":{"type":"ephemeral"}}],"messages":[{"role":"user","content":"x"}]}"#;
    let d = br#"{"model":"m","system":[{"type":"text","text":"s1"}],"messages":[{"role":"user","content":"x"}]}"#;
    assert_eq!(cache_key("/v1/messages", c), cache_key("/v1/messages", d));
}

#[test]
fn cache_key_openai_system_joined_and_later_turns() {
    // The system prompt stands among the messages.
    let t1 = br#"{"model":"m","messages":[{"role":"system","content":"sys"},{"role":"user","content":"task"}]}"#;
    let t2 = br#"{"model":"m","messages":[{"role":"system","content":"sys"},{"role":"user","content":"task"},{"role":"assistant","content":"ok"},{"role":"user","content":"more"}]}"#;
    assert_eq!(
        cache_key("/v1/chat/completions", t1),
        cache_key("/v1/chat/completions", t2),
        "later turns keep the fingerprint"
    );
    // Another task, another fingerprint.
    let t3 = br#"{"model":"m","messages":[{"role":"system","content":"sys"},{"role":"user","content":"other"}]}"#;
    assert_ne!(cache_key("/v1/chat/completions", t1), cache_key("/v1/chat/completions", t3));
}

#[test]
fn cache_key_claude_moved_breakpoint() {
    // First turn: the breakpoint is on the first user message.
    let t1 = br#"{"model":"m","system":"s","messages":[
        {"role":"user","content":[{"type":"text","text":"task","cache_control":{"type":"ephemeral"}}]}]}"#;
    // Second turn: it has moved to the newest one.
    let t2 = br#"{"model":"m","system":"s","messages":[
        {"role":"user","content":[{"type":"text","text":"task"}]},
        {"role":"assistant","content":"ok"},
        {"role":"user","content":[{"type":"text","text":"more","cache_control":{"type":"ephemeral"}}]}]}"#;
    assert_eq!(
        cache_key("/v1/messages", t1),
        cache_key("/v1/messages", t2),
        "where the breakpoint stands is no part of the conversation"
    );
}

#[test]
fn cache_key_bad_input_is_none() {
    assert_eq!(cache_key("/v1/messages", b"not json"), None);
    assert_eq!(cache_key("/v1/messages", br#"{"model":"m"}"#), None);
    assert_eq!(
        cache_key("/v1/messages", br#"{"model":"m","messages":[]}"#),
        None,
        "no user message: no pool entry"
    );
}

#[test]
fn cooldown_blocks_cache_hit_and_yields_when_all_cool() {
    let v = view(&[1, 2], vec![(1, None, None, None, None), (2, None, None, None, None)]);
    let mut r = RouterState::new();
    r.record(Some(100), 1);
    r.cool(1);
    // The hit is cooling down: back to the score, which 1 is kept out of.
    let hint = r.lookup(100, &[1, 2]);
    match pick(&v, &mut r, &[], hint, 0) {
        Choice::Channel { id, .. } => assert_eq!(id, 2),
        c => panic!("{c:?}"),
    }
    // All are cooling down: one of them after all.
    r.cool(2);
    match pick(&v, &mut r, &[], None, 0) {
        Choice::Channel { .. } => {}
        c => panic!("one must be chosen: {c:?}"),
    }
}

// Simulations: three ways to turn scores into a channel.

/// A linear congruential generator.
struct Rng(u64);
impl Rng {
    fn next(&mut self) -> u64 {
        self.0 = self.0.wrapping_mul(6364136223846793005).wrapping_add(1442695040888963407);
        self.0 >> 33 // 31 bits
    }
    fn f(&mut self) -> f64 {
        self.next() as f64 / (1u64 << 31) as f64 // over 2^31
    }
}

/// The highest score.
fn policy_argmax(s: &[(i64, f64)]) -> i64 {
    s.iter().max_by(|a, b| a.1.total_cmp(&b.1)).unwrap().0
}
/// In proportion to the scores.
fn policy_linear(s: &[(i64, f64)], r: &mut Rng) -> i64 {
    let sum: f64 = s.iter().map(|x| x.1).sum();
    let mut pick = r.f() * sum;
    for (id, sc) in s {
        pick -= sc;
        if pick <= 0.0 {
            return *id;
        }
    }
    s[s.len() - 1].0
}
/// Softmax at a low temperature: mostly the highest score, with some chance.
fn policy_softmax(s: &[(i64, f64)], r: &mut Rng) -> i64 {
    const T: f64 = 0.08;
    let max = s.iter().map(|x| x.1).fold(f64::MIN, f64::max);
    let ws: Vec<f64> = s.iter().map(|x| ((x.1 - max) / T).exp()).collect();
    let sum: f64 = ws.iter().sum();
    let mut pick = r.f() * sum;
    for (i, w) in ws.iter().enumerate() {
        pick -= w;
        if pick <= 0.0 {
            return s[i].0;
        }
    }
    s[s.len() - 1].0
}

/// No channel that is out of quota is chosen while another is left. Also shown: how much an urgent
/// channel is fed before it is out, and how long new conversations then stay on one channel.
#[test]
fn simulation_three_policies() {
    let ratio = 15.5 / 3.5;
    let now = 0i64;
    // A is urgent (2 h), B far off (6 days), C a little farther and nearly burnt.
    let quotas = HashMap::from([
        (1i64, quota(Some(20.0), Some(30.0), Some(2 * 3600_000), Some(30.0))),
        (2i64, quota(Some(20.0), Some(30.0), Some(6 * 86400_000), Some(30.0))),
        (3i64, quota(Some(90.0), Some(30.0), Some(6 * 86400_000 + 3600_000), Some(90.0))),
    ]);

    for (name, policy) in [("argmax", 0u8), ("linear", 1), ("softmax", 2)] {
        let mut live = quotas.clone(); // each policy starts anew
        let mut rng = Rng(20260916);
        let mut loads: HashMap<i64, usize> = HashMap::new();
        let mut counts: HashMap<i64, u32> = HashMap::new();
        let (mut a_picks, mut a_alive_steps) = (0u32, 0u32);
        let mut violations = 0u32;
        let (mut streak, mut max_streak, mut last) = (0u32, 0u32, 0i64);
        for _step in 0..300 {
            let a_alive = number(live[&1].max_pct.unwrap()) < 95.0;
            let eligible: Vec<i64> = live
                .iter()
                .filter(|(_, q)| q.max_pct.map(number).unwrap_or(0.0) < 95.0)
                .map(|(id, _)| *id)
                .collect();
            let Some(_) = (if eligible.is_empty() { None } else { Some(()) }) else { continue };
            let scored = scores(
                &eligible,
                &RouteView { eligible: eligible.clone(), pinned: None, keys: live.clone(), has_data: true },
                &loads, now, ratio,
            );
            let id = match policy {
                0 => policy_argmax(&scored),
                1 => policy_linear(&scored, &mut rng),
                _ => policy_softmax(&scored, &mut rng),
            };
            // Eligible where anything is.
            if !eligible.contains(&id) {
                violations += 1;
            }
            *counts.entry(id).or_insert(0) += 1;
            // While A is in, is it fed?
            if a_alive {
                a_alive_steps += 1;
                if id == 1 {
                    a_picks += 1;
                }
            }
            // Once A is out, does one channel take the rest?
            if !a_alive {
                streak = if id == last { streak + 1 } else { 1 };
                max_streak = max_streak.max(streak);
                last = id;
            }
            // Each request burns 0.8% of the five-hour window, and one old request expires.
            let q = live.get_mut(&id).unwrap();
            let f = (number(q.five_hour_pct.unwrap()) + 0.8).min(100.0);
            let m = f.max(number(q.weekly_pct.unwrap()));
            q.five_hour_pct = Some(double(f));
            q.max_pct = Some(double(m));
            *loads.entry(id).or_insert(0) += 1;
            for v in loads.values_mut() {
                *v = v.saturating_sub(1);
            }
        }
        println!(
            "{name:8} violations={violations}  fed to A while in={:.0}% ({a_picks}/{a_alive_steps})  by channel={:?}  longest streak once A is out={max_streak}",
            a_picks as f64 / a_alive_steps.max(1) as f64 * 100.0,
            counts.iter().map(|(k, v)| (format!("ch{k}"), v)).collect::<Vec<_>>(),
        );
        assert_eq!(violations, 0, "{name}: chose a channel that is out while another is left");
    }
}

/// Two machines see the same quotas, but each only its own load. Shown: how uneven the channels are
/// used over both.
#[test]
fn simulation_two_machines_blind_to_each_other() {
    let ratio = 15.5 / 3.5;
    // Two channels whose urgency differs.
    let keys = HashMap::from([
        (1i64, quota(Some(30.0), Some(30.0), Some(3 * 3600_000), Some(30.0))),
        (2i64, quota(Some(30.0), Some(30.0), Some(5 * 86400_000), Some(30.0))),
    ]);
    let view = RouteView { eligible: vec![1, 2], pinned: None, keys, has_data: true };
    for (name, policy) in [("argmax", 0u8), ("linear", 1), ("softmax", 2)] {
        let mut rng = Rng(99);
        let mut m_loads: [HashMap<i64, usize>; 2] = [HashMap::new(), HashMap::new()];
        let mut global: HashMap<i64, u32> = HashMap::new();
        for step in 0..80 {
            let m = step % 2; // the machines take turns
            let scored = scores(&view.eligible, &view, &m_loads[m], 0, ratio);
            let id = match policy {
                0 => policy_argmax(&scored),
                1 => policy_linear(&scored, &mut rng),
                _ => policy_softmax(&scored, &mut rng),
            };
            *global.entry(id).or_insert(0) += 1;
            *m_loads[m].entry(id).or_insert(0) += 1;
        }
        let c1 = *global.get(&1).unwrap_or(&0);
        let c2 = *global.get(&2).unwrap_or(&0);
        println!(
            "{name:8} over both machines: ch1={c1} ch2={c2}  imbalance={:.0}%",
            (c1.max(c2) as f64 - c1.min(c2) as f64) / (c1 + c2) as f64 * 100.0
        );
    }
}

/// Two machines and close scores: each machine's own load turns its choice back and forth, and the
/// channels are used evenly over both.
#[test]
fn simulation_two_machines_close_scores_balance() {
    let keys = HashMap::from([
        (1i64, quota(Some(30.0), Some(30.0), Some(6 * 86400_000), Some(30.0))),
        (2i64, quota(Some(30.0), Some(30.0), Some(6 * 86400_000 + 600_000), Some(30.0))),
    ]);
    let view = RouteView { eligible: vec![1, 2], pinned: None, keys, has_data: true };
    let mut m_loads: [HashMap<i64, usize>; 2] = [HashMap::new(), HashMap::new()];
    let mut global: HashMap<i64, u32> = HashMap::new();
    for step in 0..80 {
        let m = step % 2;
        let scored = scores(&view.eligible, &view, &m_loads[m], 0, 15.5 / 3.5);
        let id = policy_argmax(&scored);
        *global.entry(id).or_insert(0) += 1;
        *m_loads[m].entry(id).or_insert(0) += 1;
    }
    let (c1, c2) = (*global.get(&1).unwrap_or(&0), *global.get(&2).unwrap_or(&0));
    println!("close scores over both machines: ch1={c1} ch2={c2}");
    assert!((c1.min(c2) as f64) / (c1 + c2) as f64 > 0.25, "close scores must balance: {c1}/{c2}");
}

/// 500 random scenarios: every score is finite, and the choice is eligible.
#[test]
fn simulation_fuzz_500_scenarios() {
    let mut rng = Rng(777);
    for case in 0..500 {
        let n = 2 + (rng.next() % 4) as usize; // 2 to 5 channels
        let mut keys = HashMap::new();
        for i in 1..=n {
            let five = rng.next() % 101;
            let weekly = rng.next() % 101;
            let reset = match rng.next() % 5 {
                0 => None,                      // no weekly window
                1 => Some(-3600_000),           // already reset
                _ => Some((rng.next() % (7 * 86400_000)) as i64),
            };
            keys.insert(
                i as i64,
                quota(
                    if rng.next() % 10 == 0 { None } else { Some(five as f64) },
                    if rng.next() % 10 == 0 { None } else { Some(weekly as f64) },
                    reset,
                    Some(five.max(weekly) as f64),
                ),
            );
        }
        let eligible: Vec<i64> = keys
            .iter()
            .filter(|(_, q)| number(q.max_pct.unwrap()) < 95.0)
            .map(|(id, _)| *id)
            .collect();
        let view = RouteView { eligible: eligible.clone(), pinned: None, keys, has_data: true };
        let loads = HashMap::from([(1i64, (rng.next() % 5) as usize)]);
        if eligible.is_empty() {
            continue;
        }
        let scored = scores(&eligible, &view, &loads, 0, 15.5 / 3.5);
        for (id, s) in &scored {
            assert!(s.is_finite(), "case {case}: the score of channel {id} is not finite");
        }
        let best = policy_argmax(&scored);
        assert!(eligible.contains(&best), "case {case}: chose a channel that is not eligible");
    }
}

#[test]
fn snapshot_fields_are_mapped() {
    let mut snap = StatusSnapshot::default();
    snap.eligible = vec![3];
    snap.pinned_channel_id = Some(3);
    snap.keys.push(KeyStatus {
        channel_id: 3,
        five_hour_pct: Some(double(11.0)),
        weekly_pct: Some(double(22.0)),
        weekly_reset: Some(123),
        max_pct: Some(double(22.0)),
        ..Default::default()
    });
    let lock = std::sync::RwLock::new(snap);
    let g = lock.read().unwrap();
    let v = RouteView::from_snap(&g);
    assert_eq!(v.eligible, vec![3]);
    assert_eq!(v.pinned, Some(3));
    assert_eq!(v.keys.get(&3).unwrap().weekly_reset_ms, Some(123));
    assert!(v.has_data);
}
