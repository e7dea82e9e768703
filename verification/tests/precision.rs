use ocel_mine::alpha::alpha;
use ocel_mine::inductive::ProcessTree;
use ocel_mine::log::{EventLog, LogEvent, LogObject, Timestamp};
use ocel_mine::net_replay::net_precision;
use ocel_mine::precision::{tree_precision, PrecisionReport};

/// 2026-01-01 09:00:00 UTC.
const NINE: i64 = 1_767_258_000;

/// One "case" object per sequence, events one minute apart.
fn log_from_sequences(sequences: &[&[&str]]) -> EventLog {
    let mut objects = Vec::new();
    let mut events = Vec::new();
    let mut event_id = 0usize;
    for (i, sequence) in sequences.iter().enumerate() {
        objects.push(LogObject { id: format!("o{i}"), object_type: "case".to_string() });
        for (j, activity) in sequence.iter().enumerate() {
            event_id += 1;
            let offset = i64::try_from(i * 1000 + j).unwrap();
            events.push(LogEvent {
                id: format!("e{event_id}"),
                activity: activity.to_string(),
                time: Timestamp { secs: NINE + 60 * offset, nanos: 0 },
                objects: vec![i],
            });
        }
    }
    EventLog { object_types: vec!["case".to_string()], objects, events }
}
fn approx(a: f64, b: f64) {
    assert!((a - b).abs() < 1e-9, "{a} != {b}");
}

fn precision(r: &PrecisionReport) -> f64 {
    if r.allowed == 0 {
        1.0
    } else {
        1.0 - r.escaping as f64 / r.allowed as f64
    }
}

fn activity(label: &str) -> ProcessTree {
    ProcessTree::Activity { label: label.to_string() }
}

#[test]
fn a_linear_model_of_a_linear_log_is_perfectly_precise() {
    let log = log_from_sequences(&[&["a", "b", "c"], &["a", "b", "c"]]);
    // the tree the basic miner discovers on a linear log
    let tree = ProcessTree::Sequence { children: vec![activity("a"), activity("b"), activity("c")] };
    let report = tree_precision(&log, "case", &tree).unwrap();
    approx(precision(&report), 1.0);
    assert_eq!(report.truncated_traces, 0);
}

#[test]
fn a_flower_is_much_less_precise_than_a_sequence() {
    let sequences: Vec<&[&str]> = vec![&["a", "b", "c"]; 5];
    let log = log_from_sequences(&sequences);
    let sequence = ProcessTree::Sequence { children: vec![activity("a"), activity("b"), activity("c")] };
    let flower = ProcessTree::Loop {
        children: vec![ProcessTree::Tau, activity("a"), activity("b"), activity("c")],
    };
    let strict = tree_precision(&log, "case", &sequence).unwrap();
    let loose = tree_precision(&log, "case", &flower).unwrap();
    approx(precision(&strict), 1.0);
    // flower: every state allows all 3 activities, the log follows 1
    approx(precision(&loose), 1.0 / 3.0);
}

#[test]
fn exclusive_choice_counts_the_unchosen_branch_as_escaping() {
    // model allows a|b after start; the log only ever takes a
    let log = log_from_sequences(&[&["s", "a"], &["s", "a"]]);
    let tree = ProcessTree::Sequence {
        children: vec![
            activity("s"),
            ProcessTree::Exclusive { children: vec![activity("a"), activity("b")] },
        ],
    };
    let report = tree_precision(&log, "case", &tree).unwrap();
    // states: ε (allows s, observed s) and [s] (allows a+b, observed a),
    // each visited twice: 2·1 + 2·2
    assert_eq!(report.allowed, 6);
    assert_eq!(report.escaping, 2);
    approx(precision(&report), 1.0 - 2.0 / 6.0);
    assert!(!log.events.iter().any(|e| e.activity == "b"));
}

#[test]
fn deviating_trace_stops_contributing_and_is_counted() {
    let log = log_from_sequences(&[&["a", "b"], &["b", "a"]]);
    let tree = ProcessTree::Sequence { children: vec![activity("a"), activity("b")] };
    let report = tree_precision(&log, "case", &tree).unwrap();
    assert_eq!(report.truncated_traces, 1);
    // the fit trace visits ε and [a]; each allows exactly the observed
    approx(precision(&report), 1.0);
}

#[test]
fn net_precision_matches_tree_semantics_on_a_structured_log() {
    let sequences: &[&[&str]] = &[&["a", "b", "c", "d"], &["a", "c", "b", "d"], &["a", "e", "d"]];
    let log = log_from_sequences(sequences);
    let net = alpha(&log, "case");
    let report = net_precision(&log, "case", &net).unwrap();
    assert_eq!(report.truncated_traces, 0);
    let p = precision(&report);
    assert!(p > 0.5 && p <= 1.0);
}

#[test]
fn escaping_never_exceeds_allowed() {
    let log = log_from_sequences(&[&["a", "b"], &["b", "a"], &["a"]]);
    let flower = ProcessTree::Loop { children: vec![ProcessTree::Tau, activity("a"), activity("b")] };
    let report = tree_precision(&log, "case", &flower).unwrap();
    assert!(report.escaping <= report.allowed);
    assert_eq!(report.truncated_traces, 0);
    assert_eq!(report.object_type, "case");
}

#[test]
fn empty_type_allows_nothing() {
    let log = log_from_sequences(&[]);
    let report = tree_precision(&log, "case", &activity("a")).unwrap();
    assert_eq!((report.allowed, report.escaping, report.truncated_traces), (0, 0, 0));
}
