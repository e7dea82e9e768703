use ocel_mine::log::{EventLog, LogEvent, LogObject, Timestamp};
use ocel_mine::metrics::lead_times;
use ocel_mine::spread::Spread;

/// 2026-01-01 09:00:00 UTC.
const NINE: i64 = 1_767_258_000;

/// One "case" object per sequence, events one minute apart.
fn log_from_sequences(sequences: &[&[&str]]) -> EventLog {
    let mut objects = Vec::new();
    let mut events = Vec::new();
    let mut event_id = 0usize;
    for (i, sequence) in sequences.iter().enumerate() {
        objects.push(LogObject { id: format!("o{i}"), object_type: "case".to_string() });
        for (j, activity) in sequence.iter().enumerate() {
            event_id += 1;
            let offset = i64::try_from(i * 1000 + j).unwrap();
            events.push(LogEvent {
                id: format!("e{event_id}"),
                activity: activity.to_string(),
                time: Timestamp { secs: NINE + 60 * offset, nanos: 0 },
                objects: vec![i],
            });
        }
    }
    EventLog { object_types: vec!["case".to_string()], objects, events }
}

fn median(s: &Spread) -> f64 {
    if s.count == 0 {
        0.0
    } else {
        (s.low as f64 + s.high as f64) / 2.0
    }
}

#[test]
// whole-minute leads are exactly representable in f64
#[allow(clippy::float_cmp)]
fn per_variant_distributions_and_rest() {
    let log = log_from_sequences(&[
        &["a", "b"],           // lead 60s
        &["a", "b"],           // lead 60s
        &["a", "b", "c", "d"], // lead 180s
    ]);
    let report = lead_times(&log, "case");
    assert_eq!(report.measured, 3);
    assert_eq!(median(&report.leads), 60.0);
    assert_eq!(report.variants[0].activities, ["a", "b"]);
    assert_eq!(report.variants[0].count, 2);
    assert_eq!(median(&report.variants[0].leads), 60.0);
    assert_eq!(report.rest.count, 1);
    assert_eq!(median(&report.rest), 180.0);
}

#[test]
fn rework_counts_repeats() {
    let log = log_from_sequences(&[&["a", "b", "b", "b", "c"], &["a", "c"]]);
    let report = lead_times(&log, "case");
    assert_eq!(report.rework.len(), 1);
    assert_eq!(report.rework[0].activity, "b");
    assert_eq!(report.rework[0].traces, 1);
    assert_eq!(report.rework[0].extra_occurrences, 2);
}

#[test]
fn empty_type_is_all_zero() {
    let log = log_from_sequences(&[]);
    let report = lead_times(&log, "case");
    assert_eq!(report.measured, 0);
    assert!(report.variants.is_empty());
    assert!(report.rework.is_empty());
}

#[test]
fn lead_sum_and_p90() {
    let log = log_from_sequences(&[&["a", "b"], &["a", "b", "c"], &["a"]]);
    let report = lead_times(&log, "case");
    assert_eq!(report.measured, 3);
    assert_eq!(report.leads.sum, 180);
    assert_eq!(report.leads.p90, 120);
    assert_eq!((report.leads.low, report.leads.high), (60, 60));
    assert_eq!(report.object_type, "case");
}
