use ocel_mine::log::{EventLog, LogEvent, LogObject, Timestamp};
use ocel_mine::spread::Spread;
use ocel_mine::stats::type_stats;

/// 2026-01-01 09:00:00 UTC.
const NINE: i64 = 1_767_258_000;

/// One "case" object per sequence, events one minute apart.
fn log_from_sequences(sequences: &[&[&str]]) -> EventLog {
    let mut objects = Vec::new();
    let mut events = Vec::new();
    let mut event_id = 0usize;
    for (i, sequence) in sequences.iter().enumerate() {
        objects.push(LogObject { id: format!("o{i}"), object_type: "case".to_string() });
        for (j, activity) in sequence.iter().enumerate() {
            event_id += 1;
            let offset = i64::try_from(i * 1000 + j).unwrap();
            events.push(LogEvent {
                id: format!("e{event_id}"),
                activity: activity.to_string(),
                time: Timestamp { secs: NINE + 60 * offset, nanos: 0 },
                objects: vec![i],
            });
        }
    }
    EventLog { object_types: vec!["case".to_string()], objects, events }
}

fn median(s: &Spread) -> f64 {
    if s.count == 0 {
        0.0
    } else {
        (s.low as f64 + s.high as f64) / 2.0
    }
}

#[test]
fn medians_and_coverage() {
    // traces of length 2, 3, 4 -> median 3; events are 1min apart, so
    // the active spans are 60, 120, 180 seconds -> median 120
    let log = log_from_sequences(&[&["a", "b"], &["a", "b", "c"], &["a", "b", "c", "d"]]);
    let stats = type_stats(&log);
    let case = stats.iter().find(|s| s.object_type == "case").unwrap();
    assert_eq!(case.objects, 3);
    assert_eq!(case.with_events, 3);
    assert!((median(&case.trace_len) - 3.0).abs() < f64::EPSILON);
    assert!((median(&case.active_span) - 120.0).abs() < f64::EPSILON);
}

#[test]
fn single_event_objects_do_not_drag_the_span_down() {
    // many one-event objects (span undefined) around one long-lived one
    let log = log_from_sequences(&[&["a"], &["a"], &["a"], &["a", "b", "c", "d", "e"]]);
    let stats = type_stats(&log);
    let case = stats.iter().find(|s| s.object_type == "case").unwrap();
    assert!((median(&case.active_span) - 240.0).abs() < f64::EPSILON);
}

#[test]
fn activity_alphabet_counts_distinct_activities_across_traces() {
    let log = log_from_sequences(&[&["a", "b"], &["c"], &["a"]]);
    let stats = type_stats(&log);
    let case = stats.iter().find(|s| s.object_type == "case").unwrap();
    assert_eq!(case.activity_types, 3);
}

#[test]
fn empty_log_yields_declared_types_with_zeros() {
    let log = log_from_sequences(&[]);
    let stats = type_stats(&log);
    assert_eq!(stats.len(), 1); // "case" is declared by the helper
    assert_eq!(stats[0].with_events, 0);
    assert!(median(&stats[0].trace_len).abs() < f64::EPSILON);
}

#[test]
fn one_row_per_declared_type_in_order() {
    let mut log = log_from_sequences(&[&["a", "b"]]);
    log.object_types.push("other".to_string());
    log.objects.push(LogObject { id: "x".to_string(), object_type: "other".to_string() });
    let stats = type_stats(&log);
    assert_eq!(stats.len(), 2);
    assert_eq!(stats[1].object_type, "other");
    assert_eq!(stats[1].objects, 1);
    assert_eq!(stats[1].with_events, 0);
    assert_eq!(stats[0].trace_len.sum, 2);
}
