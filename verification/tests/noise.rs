use ocel_mine::log::{EventLog, LogEvent, LogObject, Timestamp};
use ocel_mine::noise::{decimal_text, inject_noise, noisy_log, Chance, NoiseSpec};
use ocel_mine::variants::variants;

/// One object per sequence; events every second unless `same_time`.
fn log_from_sequences(sequences: &[&[&str]], same_time: bool) -> EventLog {
    let mut objects = Vec::new();
    let mut events = Vec::new();
    for (index, sequence) in sequences.iter().enumerate() {
        objects.push(LogObject { id: format!("o{index}"), object_type: "case".to_string() });
        for (offset, activity) in sequence.iter().enumerate() {
            let secs = if same_time {
                i64::try_from(index * 1000).unwrap()
            } else {
                i64::try_from(index * 1000 + offset).unwrap()
            };
            events.push(LogEvent {
                id: format!("e{index}-{offset}"),
                activity: activity.to_string(),
                time: Timestamp { secs, nanos: 0 },
                objects: vec![index],
            });
        }
    }
    EventLog { object_types: vec!["case".to_string()], objects, events }
}

/// A probability as the chance of a 53-bit unit draw falling below it.
fn rate(p: f64) -> Chance {
    if p <= 0.0 {
        Chance::Never
    } else if p >= 1.0 {
        Chance::Always
    } else {
        Chance::Below((p * 9_007_199_254_740_992.0).ceil() as u64)
    }
}

fn spec(swap: f64, drop: f64, duplicate: f64, seed: u64) -> NoiseSpec {
    NoiseSpec { swap: rate(swap), drop: rate(drop), duplicate: rate(duplicate), seed }
}

fn noisy(log: &EventLog, spec: &NoiseSpec) -> EventLog {
    let out = inject_noise(log, "case", spec);
    noisy_log(log, &out)
}

fn first_variant(log: &EventLog) -> Vec<String> {
    let report = variants(log, "case");
    assert_eq!(report.variants.len(), 1, "expected a single variant");
    report.variants[0].activities.clone()
}

fn fingerprint(log: &EventLog) -> Vec<(String, i64, u32)> {
    log.events.iter().map(|e| (e.id.clone(), e.time.secs, e.time.nanos)).collect()
}

/// Unique event ids and relationships to existing objects.
fn valid(log: &EventLog) -> bool {
    let mut ids: Vec<&str> = log.events.iter().map(|e| e.id.as_str()).collect();
    ids.sort_unstable();
    let unique = ids.windows(2).all(|w| w[0] != w[1]);
    unique && log.events.iter().all(|e| e.objects.iter().all(|&o| o < log.objects.len()))
}

#[test]
fn zero_rates_are_identity() {
    let log = log_from_sequences(&[&["a", "b", "c"], &["a", "c"]], false);
    let out = noisy(&log, &spec(0.0, 0.0, 0.0, 42));
    let ids: Vec<&str> = out.events.iter().map(|e| e.id.as_str()).collect();
    assert_eq!(ids, vec!["e0-0", "e0-1", "e0-2", "e1-0", "e1-1"]);
    let times: Vec<_> = out.events.iter().map(|e| e.time).collect();
    let original: Vec<_> = log.events.iter().map(|e| e.time).collect();
    assert_eq!(times, original);
}

#[test]
fn same_seed_is_deterministic_and_seeds_differ() {
    let sequences: Vec<&[&str]> = vec![&["a", "b", "c", "d"]; 50];
    let log = log_from_sequences(&sequences, false);
    let once = noisy(&log, &spec(0.3, 0.3, 0.3, 7));
    let twice = noisy(&log, &spec(0.3, 0.3, 0.3, 7));
    assert_eq!(fingerprint(&once), fingerprint(&twice));
    let other = noisy(&log, &spec(0.3, 0.3, 0.3, 8));
    assert_ne!(fingerprint(&once), fingerprint(&other));
}

#[test]
fn swap_walks_boundaries_left_to_right() {
    // rate 1.0 cascades: a,b,c -> b,a,c -> b,c,a
    let log = log_from_sequences(&[&["a", "b", "c"]], false);
    let out = noisy(&log, &spec(1.0, 0.0, 0.0, 1));
    assert_eq!(first_variant(&out), vec!["b", "c", "a"]);
}

#[test]
fn swap_works_on_timestamp_ties() {
    // both events share one timestamp; order must still flip via vec order
    let log = log_from_sequences(&[&["a", "b"]], true);
    let out = noisy(&log, &spec(1.0, 0.0, 0.0, 1));
    assert_eq!(first_variant(&out), vec!["b", "a"]);
}

#[test]
fn drop_removes_target_events_only() {
    let mut log = log_from_sequences(&[&["a", "b", "c"]], false);
    // second type whose events must survive
    log.object_types.push("other".to_string());
    log.objects.push(LogObject { id: "x".to_string(), object_type: "other".to_string() });
    let time = log.events[0].time;
    log.events.push(LogEvent { id: "ex".to_string(), activity: "a".to_string(), time, objects: vec![1] });
    let out = noisy(&log, &spec(0.0, 1.0, 0.0, 3));
    let ids: Vec<&str> = out.events.iter().map(|e| e.id.as_str()).collect();
    assert_eq!(ids, vec!["ex"]);
}

#[test]
fn drop_rate_is_roughly_honored() {
    let sequences: Vec<&[&str]> = vec![&["a", "b", "c", "d"]; 250];
    let log = log_from_sequences(&sequences, false);
    let out = noisy(&log, &spec(0.0, 0.3, 0.0, 11));
    let kept = out.events.len();
    // 1000 events at drop 0.3 → ~700 kept; allow a generous band
    assert!((620..=780).contains(&kept), "kept {kept}");
}

#[test]
fn duplicate_doubles_each_trace_and_stays_valid() {
    let log = log_from_sequences(&[&["a", "b"]], false);
    let out = noisy(&log, &spec(0.0, 0.0, 1.0, 5));
    assert_eq!(first_variant(&out), vec!["a", "a", "b", "b"]);
    assert!(valid(&out));
}

#[test]
fn combined_noise_keeps_the_log_valid() {
    let sequences: Vec<&[&str]> = vec![&["a", "b", "c", "d", "e"]; 40];
    let log = log_from_sequences(&sequences, false);
    let out = noisy(&log, &spec(0.2, 0.2, 0.2, 13));
    assert!(valid(&out));
}

#[test]
fn duplicates_get_numbered_ids() {
    let log = log_from_sequences(&[&["a"]], false);
    let out = noisy(&log, &spec(0.0, 0.0, 1.0, 5));
    let ids: Vec<&str> = out.events.iter().map(|e| e.id.as_str()).collect();
    assert_eq!(ids, vec!["e0-0", "e0-0~dup1"]);
}

#[test]
fn generator_is_xorshift_star() {
    let mut rng = ocel_mine::noise::Rng::new(0);
    let x: u64 = 1;
    let mut s = x ^ (x << 13);
    s ^= s >> 7;
    s ^= s << 17;
    assert_eq!(rng.next_u64(), s.wrapping_mul(0x2545_F491_4F6C_DD1D));
}

#[test]
fn decimal_text_writes_digits() {
    assert_eq!(decimal_text(0), "0");
    assert_eq!(decimal_text(7), "7");
    assert_eq!(decimal_text(10), "10");
    assert_eq!(decimal_text(1234), "1234");
    assert_eq!(decimal_text(usize::MAX), usize::MAX.to_string());
}
