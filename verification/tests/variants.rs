use ocel_mine::log::{EventLog, LogEvent, LogObject, Timestamp};
use ocel_mine::variants::variants;

/// 2026-01-01 09:00:00 UTC.
const NINE: i64 = 1_767_258_000;

fn event(id: &str, activity: &str, minute: i64, objects: &[usize]) -> LogEvent {
    LogEvent {
        id: id.to_string(),
        activity: activity.to_string(),
        time: Timestamp { secs: NINE + 60 * minute, nanos: 0 },
        objects: objects.to_vec(),
    }
}

fn log(events: Vec<LogEvent>, objects: &[&str]) -> EventLog {
    EventLog {
        object_types: vec!["task".to_string()],
        objects: objects
            .iter()
            .map(|id| LogObject { id: id.to_string(), object_type: "task".to_string() })
            .collect(),
        events,
    }
}

#[test]
fn groups_identical_sequences() {
    let log = log(
        vec![
            event("e1", "created", 0, &[0]),
            event("e2", "closed", 1, &[0]),
            event("e3", "created", 2, &[1]),
            event("e4", "closed", 3, &[1]),
            event("e5", "created", 4, &[2]),
        ],
        &["a", "b", "c"],
    );
    let report = variants(&log, "task");
    assert_eq!(report.objects, 3);
    assert_eq!(report.with_events, 3);
    assert_eq!(report.variants.len(), 2);
    assert_eq!(report.variants[0].activities, ["created", "closed"]);
    assert_eq!(report.variants[0].count, 2);
    assert_eq!(report.variants[1].activities, ["created"]);
    assert_eq!(report.variants[1].count, 1);
    assert_eq!(report.variants[1].example, "c");
}

#[test]
fn duplicate_links_from_one_event_count_once() {
    let log = log(vec![event("e1", "created", 0, &[0, 0])], &["a"]);
    let report = variants(&log, "task");
    assert_eq!(report.variants[0].activities, ["created"]);
}

#[test]
fn same_timestamp_orders_by_event_index() {
    let log = log(
        vec![event("e2", "closed", 5, &[0]), event("e1", "created", 5, &[0])],
        &["a"],
    );
    let report = variants(&log, "task");
    // e2 comes first in log.events, so index order puts "closed" first.
    assert_eq!(report.variants[0].activities, ["closed", "created"]);
}

#[test]
fn objects_without_events_form_no_variant() {
    let log = log(vec![event("e1", "created", 0, &[0])], &["a", "b"]);
    let report = variants(&log, "task");
    assert_eq!(report.objects, 2);
    assert_eq!(report.with_events, 1);
    assert_eq!(report.variants.len(), 1);
}

#[test]
fn variants_unknown_type_is_empty() {
    let log = log(vec![], &[]);
    let report = variants(&log, "nope");
    assert_eq!(report.objects, 0);
    assert!(report.variants.is_empty());
}

#[test]
fn later_time_wins_over_log_position() {
    let log = log(
        vec![event("e1", "closed", 9, &[0]), event("e2", "created", 1, &[0])],
        &["a"],
    );
    let report = variants(&log, "task");
    assert_eq!(report.variants[0].activities, ["created", "closed"]);
}

#[test]
fn equal_counts_order_by_activity_names() {
    // one "b" trace and one "a" trace: equal counts, names decide
    let log = log(
        vec![event("e1", "b", 0, &[0]), event("e2", "a", 1, &[1])],
        &["x", "y"],
    );
    let report = variants(&log, "task");
    assert_eq!(report.variants.len(), 2);
    assert_eq!(report.variants[0].activities, ["a"]);
    assert_eq!(report.variants[0].example, "y");
    assert_eq!(report.variants[1].activities, ["b"]);
}

#[test]
fn counts_sum_to_objects_with_events() {
    let log = log(
        vec![
            event("e1", "a", 0, &[0]),
            event("e2", "a", 1, &[1]),
            event("e3", "b", 2, &[2]),
            event("e4", "a", 3, &[2]),
        ],
        &["x", "y", "z", "w"],
    );
    let report = variants(&log, "task");
    let total: usize = report.variants.iter().map(|v| v.count).sum();
    assert_eq!(total, report.with_events);
    assert_eq!(report.with_events, 3);
    assert_eq!(report.objects, 4);
}
