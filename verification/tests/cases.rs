use ocel_mine::cases::cases;
use ocel_mine::log::{EventLog, LogEvent, LogObject, Timestamp};

/// 2026-01-01 09:00:00 UTC.
const NINE: i64 = 1_767_258_000;

/// One "case" object per sequence, events one minute apart.
fn log_from_sequences(sequences: &[&[&str]]) -> EventLog {
    let mut objects = Vec::new();
    let mut events = Vec::new();
    let mut event_id = 0usize;
    for (i, sequence) in sequences.iter().enumerate() {
        objects.push(LogObject { id: format!("o{i}"), object_type: "case".to_string() });
        for (j, activity) in sequence.iter().enumerate() {
            event_id += 1;
            let offset = i64::try_from(i * 1000 + j).unwrap();
            events.push(LogEvent {
                id: format!("e{event_id}"),
                activity: activity.to_string(),
                time: Timestamp { secs: NINE + 60 * offset, nanos: 0 },
                objects: vec![i],
            });
        }
    }
    EventLog { object_types: vec!["case".to_string()], objects, events }
}

#[test]
fn digests_only_objects_with_events() {
    let log = log_from_sequences(&[&["a", "b", "c"], &["a"]]);
    let all = cases(&log, "case");
    assert_eq!(all.len(), 2);
    assert_eq!(all[0].object_id, "o0");
    assert_eq!(all[0].activities, ["a", "b", "c"]);
    assert_eq!(all[0].events, 3);
    assert_eq!(all[0].lead_secs, 120);
    assert_eq!(all[1].lead_secs, 0);
}

#[test]
fn empty_type_is_empty() {
    let log = log_from_sequences(&[]);
    assert!(cases(&log, "case").is_empty());
}

#[test]
fn objects_without_events_are_skipped_and_start_times_order() {
    let mut log = log_from_sequences(&[&["a"], &[], &["b", "c"]]);
    // move o2 before o0 in time
    for e in &mut log.events {
        if e.objects == vec![2] {
            e.time.secs -= 10 * 60 * 1000;
        }
    }
    let all = cases(&log, "case");
    assert_eq!(all.len(), 2);
    assert_eq!(all[0].object_id, "o2");
    assert_eq!(all[0].start.secs, NINE + 60 * 2000 - 600_000);
    assert_eq!(all[0].end.secs, all[0].start.secs + 60);
    assert_eq!(all[1].object_id, "o0");
}

#[test]
fn equal_starts_order_by_object_id() {
    let log = EventLog {
        object_types: vec!["case".to_string()],
        objects: vec![
            LogObject { id: "zeta".to_string(), object_type: "case".to_string() },
            LogObject { id: "alpha".to_string(), object_type: "case".to_string() },
        ],
        events: vec![
            LogEvent { id: "e1".to_string(), activity: "x".to_string(), time: Timestamp { secs: NINE, nanos: 0 }, objects: vec![0] },
            LogEvent { id: "e2".to_string(), activity: "y".to_string(), time: Timestamp { secs: NINE, nanos: 0 }, objects: vec![1] },
        ],
    };
    let all = cases(&log, "case");
    assert_eq!(all[0].object_id, "alpha");
    assert_eq!(all[1].object_id, "zeta");
}
