use ocel_mine::dfg::dfg;
use ocel_mine::log::{EventLog, LogEvent, LogObject, Timestamp};
use ocel_mine::oc_dfg::oc_dfg;
use ocel_mine::spread::Spread;

/// 2026-01-01 09:00:00 UTC.
const NINE: i64 = 1_767_258_000;

fn event(id: &str, activity: &str, minute: i64, objects: &[usize]) -> LogEvent {
    LogEvent {
        id: id.to_string(),
        activity: activity.to_string(),
        time: Timestamp { secs: NINE + 60 * minute, nanos: 0 },
        objects: objects.to_vec(),
    }
}

fn log(events: Vec<LogEvent>, objects: &[(&str, &str)]) -> EventLog {
    EventLog {
        object_types: vec!["task".to_string(), "user".to_string()],
        objects: objects
            .iter()
            .map(|(id, ty)| LogObject { id: id.to_string(), object_type: ty.to_string() })
            .collect(),
        events,
    }
}

fn median(s: &Spread) -> f64 {
    (s.low as f64 + s.high as f64) / 2.0
}

fn mean(s: &Spread) -> f64 {
    s.sum as f64 / s.count as f64
}

#[test]
// whole-second gaps are exactly representable in f64
#[allow(clippy::float_cmp)]
fn aggregates_edges_with_durations() {
    let log = log(
        vec![
            event("e1", "created", 0, &[0]),
            event("e2", "changed", 1, &[0]),
            event("e3", "closed", 3, &[0]),
            event("e4", "created", 10, &[1]),
            event("e5", "changed", 13, &[1]),
            event("e6", "closed", 14, &[1]),
            event("e7", "created", 20, &[2]),
            event("e8", "closed", 21, &[2]),
        ],
        &[("a", "task"), ("b", "task"), ("c", "task")],
    );
    let graph = dfg(&log, "task");
    assert_eq!(graph.objects, 3);
    assert_eq!(graph.with_events, 3);

    let created = graph.nodes.iter().find(|n| n.activity == "created").unwrap();
    assert_eq!((created.events, created.objects), (3, 3));
    assert_eq!((created.starts, created.ends), (3, 0));
    let closed = graph.nodes.iter().find(|n| n.activity == "closed").unwrap();
    assert_eq!((closed.starts, closed.ends), (0, 3));

    let created_changed = graph
        .edges
        .iter()
        .find(|e| e.from == "created" && e.to == "changed")
        .unwrap();
    assert_eq!(created_changed.frequency, 2);
    assert_eq!(created_changed.objects, 2);
    // gaps: 60s and 180s
    assert_eq!(median(&created_changed.gaps), 120.0);
    assert_eq!(mean(&created_changed.gaps), 120.0);

    let created_closed = graph
        .edges
        .iter()
        .find(|e| e.from == "created" && e.to == "closed")
        .unwrap();
    assert_eq!(created_closed.frequency, 1);
    assert_eq!(median(&created_closed.gaps), 60.0);
}

#[test]
fn oc_dfg_counts_shared_events_once() {
    let log = log(
        vec![event("e1", "created", 0, &[0, 1]), event("e2", "closed", 1, &[0, 1])],
        &[("a", "task"), ("u", "user")],
    );
    let graph = oc_dfg(&log, &vec!["task".to_string(), "user".to_string()]);
    let created = graph.activities.iter().find(|a| a.activity == "created").unwrap();
    // one event touching both types counts once
    assert_eq!(created.events, 1);
    assert_eq!(created.per_type.len(), 2);
    // one created->closed edge per type
    assert_eq!(graph.edges.len(), 2);
    assert!(graph.edges.iter().all(|e| e.edge.from == "created" && e.edge.to == "closed"));
}

#[test]
fn empty_type_yields_empty_graph() {
    let log = log(vec![], &[]);
    let graph = dfg(&log, "task");
    assert_eq!(graph.objects, 0);
    assert!(graph.nodes.is_empty());
    assert!(graph.edges.is_empty());
}

#[test]
fn nodes_sort_by_descending_events() {
    let log = log(
        vec![
            event("e1", "b", 0, &[0]),
            event("e2", "a", 1, &[0]),
            event("e3", "b", 2, &[0]),
        ],
        &[("t", "task")],
    );
    let graph = dfg(&log, "task");
    assert_eq!(graph.nodes[0].activity, "b");
    assert_eq!(graph.nodes[0].events, 2);
    assert_eq!(graph.nodes[0].objects, 1);
    assert_eq!(graph.nodes[1].activity, "a");
    // b->a once, a->b once, each one minute
    assert_eq!(graph.edges.len(), 2);
    assert_eq!(graph.edges[0].gaps.p90, 60);
}

#[test]
fn p90_is_the_nearest_rank() {
    // ten objects, each created -> closed after k minutes, k = 1..=10
    let mut events = Vec::new();
    let mut objects = Vec::new();
    for k in 0..10usize {
        objects.push((format!("t{k}"), "task"));
        let base = 100 * k as i64;
        events.push(event(&format!("c{k}"), "created", base, &[k]));
        events.push(event(&format!("d{k}"), "closed", base + 1 + k as i64, &[k]));
    }
    let pairs: Vec<(&str, &str)> = objects.iter().map(|(a, b)| (a.as_str(), *b)).collect();
    let graph = dfg(&log(events, &pairs), "task");
    let edge = &graph.edges[0];
    assert_eq!(edge.frequency, 10);
    assert_eq!(edge.gaps.count, 10);
    assert_eq!(edge.gaps.sum, 60 * 55);
    assert_eq!(edge.gaps.p90, 540);
    assert_eq!((edge.gaps.low, edge.gaps.high), (300, 360));
}

#[test]
fn oc_dfg_totals_events_across_types() {
    let log = log(
        vec![
            event("e1", "created", 0, &[0]),
            event("e2", "assigned", 1, &[0, 1]),
            event("e3", "login", 2, &[1]),
        ],
        &[("a", "task"), ("u", "user")],
    );
    let graph = oc_dfg(&log, &vec!["task".to_string(), "user".to_string()]);
    assert_eq!(graph.object_types, ["task", "user"]);
    let assigned = graph.activities.iter().find(|a| a.activity == "assigned").unwrap();
    assert_eq!(assigned.events, 1);
    assert_eq!(assigned.per_type.len(), 2);
    assert_eq!(graph.activities.len(), 3);
    assert_eq!(graph.edges.len(), 2);
}
