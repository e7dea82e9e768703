use ocel_mine::heuristics::{heuristics, Fraction, HeuristicEdge, HeuristicsNet, HeuristicsParams, Ratio};
use ocel_mine::log::{EventLog, LogEvent, LogObject, Timestamp};

/// 2026-01-01 09:00:00 UTC.
const NINE: i64 = 1_767_258_000;

/// One "case" object per sequence, events one minute apart.
fn log_from_sequences(sequences: &[&[&str]]) -> EventLog {
    let mut objects = Vec::new();
    let mut events = Vec::new();
    let mut event_id = 0usize;
    for (i, sequence) in sequences.iter().enumerate() {
        objects.push(LogObject { id: format!("o{i}"), object_type: "case".to_string() });
        for (j, activity) in sequence.iter().enumerate() {
            event_id += 1;
            let offset = i64::try_from(i * 1000 + j).unwrap();
            events.push(LogEvent {
                id: format!("e{event_id}"),
                activity: activity.to_string(),
                time: Timestamp { secs: NINE + 60 * offset, nanos: 0 },
                objects: vec![i],
            });
        }
    }
    EventLog { object_types: vec!["case".to_string()], objects, events }
}
fn edge<'a>(net: &'a HeuristicsNet, from: &str, to: &str) -> Option<&'a HeuristicEdge> {
    net.edges.iter().find(|e| e.from == from && e.to == to)
}

fn value(f: &Fraction) -> f64 {
    f.num as f64 / f.den as f64
}

#[test]
#[allow(clippy::float_cmp)]
fn threshold_drops_contradicted_edge() {
    let log = log_from_sequences(&[
        &["a", "b", "c"],
        &["a", "b", "c"],
        &["a", "b", "c"],
        &["a", "b", "c"],
        &["a", "c"],
    ]);
    let params = HeuristicsParams { dependency_threshold: Ratio { num: 3, den: 5 }, ..HeuristicsParams::default() };
    let net = heuristics(&log, "case", &params);

    let ab = edge(&net, "a", "b").expect("a -> b kept");
    assert_eq!(ab.frequency, 4);
    assert_eq!(value(&ab.dependency), 4.0 / 5.0);
    assert!(edge(&net, "b", "c").is_some());
    // a -> c has dependency 1/2 < 0.6
    assert!(edge(&net, "a", "c").is_none());
    assert_eq!(net.edges.len(), 2);
    // coverage counts against the raw successions: ab 4 + bc 4 of 9
    assert_eq!((net.covered_successions, net.total_successions), (8, 9));

    let a = net.activities.iter().find(|x| x.activity == "a").unwrap();
    assert_eq!((a.frequency, a.starts, a.ends), (5, 5, 0));
}

#[test]
#[allow(clippy::float_cmp)]
fn length_one_loop_uses_own_measure() {
    let log = log_from_sequences(&[&["a", "b", "b", "b", "c"]]);
    let net = heuristics(&log, "case", &HeuristicsParams::default());
    let bb = edge(&net, "b", "b").expect("self loop kept");
    assert_eq!(bb.frequency, 2);
    assert_eq!(value(&bb.dependency), 2.0 / 3.0);
}

#[test]
#[allow(clippy::float_cmp)]
fn length_two_loop_admits_both_directions() {
    let log = log_from_sequences(&[&["a", "b", "a", "b", "a"]]);
    let net = heuristics(&log, "case", &HeuristicsParams::default());
    // plain dependency is 0 in both directions; the l2 measure is
    // (2 + 1) / (2 + 1 + 1)
    let ab = edge(&net, "a", "b").expect("a -> b kept");
    let ba = edge(&net, "b", "a").expect("b -> a kept");
    assert_eq!(value(&ab.dependency), 3.0 / 4.0);
    assert_eq!(value(&ba.dependency), 3.0 / 4.0);
    assert_eq!((ab.frequency, ba.frequency), (2, 2));
}

#[test]
fn pre_cleaning_drops_rare_succession() {
    // a -> c once, against hundred-strong flows on both endpoints
    let mut sequences: Vec<&[&str]> = vec![&["a", "b", "c"]; 100];
    sequences.push(&["a", "c"]);
    let log = log_from_sequences(&sequences);

    // dependency alone would admit it (1/2 >= 0.5) ...
    let raw = HeuristicsParams { dfg_noise_threshold: Ratio { num: 0, den: 1 }, ..HeuristicsParams::default() };
    assert!(edge(&heuristics(&log, "case", &raw), "a", "c").is_some());
    // ... but pre-cleaning removes the succession before any measure
    let net = heuristics(&log, "case", &HeuristicsParams::default());
    assert!(edge(&net, "a", "c").is_none());
    assert_eq!(net.edges.len(), 2);
}

#[test]
fn min_activity_frequency_drops_rare_activity() {
    let log = log_from_sequences(&[
        &["a", "b"],
        &["a", "b"],
        &["a", "b"],
        &["a", "b"],
        &["a", "b"],
        &["a", "x", "b"],
    ]);
    let params = HeuristicsParams { min_activity_frequency: 2, ..HeuristicsParams::default() };
    let net = heuristics(&log, "case", &params);
    assert!(net.activities.iter().all(|a| a.activity != "x"));
    assert!(net.edges.iter().all(|e| e.from != "x" && e.to != "x"));
    assert_eq!(edge(&net, "a", "b").unwrap().frequency, 5);
}

#[test]
fn heuristics_empty_type_yields_empty_net() {
    let log = log_from_sequences(&[&["a"]]);
    let net = heuristics(&log, "missing", &HeuristicsParams::default());
    assert_eq!(net.objects, 0);
    assert!(net.activities.is_empty());
    assert!(net.edges.is_empty());
}

#[test]
fn edges_sort_by_frequency_then_names() {
    let log = log_from_sequences(&[&["a", "b"], &["a", "b"], &["c", "d"]]);
    let net = heuristics(&log, "case", &HeuristicsParams { dfg_noise_threshold: Ratio { num: 0, den: 1 }, ..HeuristicsParams::default() });
    let names: Vec<(&str, &str)> = net.edges.iter().map(|e| (e.from.as_str(), e.to.as_str())).collect();
    assert_eq!(names, vec![("a", "b"), ("c", "d")]);
    assert_eq!(net.activities[0].activity, "a");
    assert_eq!(net.activities[1].activity, "b");
    assert_eq!(net.with_events, 3);
    assert!(net.covered_successions <= net.total_successions);
}

#[test]
fn coverage_never_exceeds_the_observed_successions() {
    let log = log_from_sequences(&[&["a", "b", "a", "b"], &["b", "a"], &["a", "c", "b"]]);
    let net = heuristics(&log, "case", &HeuristicsParams::default());
    assert_eq!(net.total_successions, 6);
    assert!(net.covered_successions <= net.total_successions);
    let edge_sum: usize = net.edges.iter().map(|e| e.frequency).sum();
    assert_eq!(edge_sum, net.covered_successions);
}
