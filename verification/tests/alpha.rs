use ocel_mine::alpha::{alpha, independent_subsets};
use ocel_mine::log::{EventLog, LogEvent, LogObject, Timestamp};

/// 2026-01-01 09:00:00 UTC.
const NINE: i64 = 1_767_258_000;

/// One "case" object per sequence, events one minute apart.
fn log_from_sequences(sequences: &[&[&str]]) -> EventLog {
    let mut objects = Vec::new();
    let mut events = Vec::new();
    let mut event_id = 0usize;
    for (i, sequence) in sequences.iter().enumerate() {
        objects.push(LogObject { id: format!("o{i}"), object_type: "case".to_string() });
        for (j, activity) in sequence.iter().enumerate() {
            event_id += 1;
            let offset = i64::try_from(i * 1000 + j).unwrap();
            events.push(LogEvent {
                id: format!("e{event_id}"),
                activity: activity.to_string(),
                time: Timestamp { secs: NINE + 60 * offset, nanos: 0 },
                objects: vec![i],
            });
        }
    }
    EventLog { object_types: vec!["case".to_string()], objects, events }
}

#[test]
fn textbook_l1_yields_the_known_net() {
    // van der Aalst L1: [<a,b,c,d>^3, <a,c,b,d>^2, <a,e,d>]
    let log = log_from_sequences(&[
        &["a", "b", "c", "d"],
        &["a", "b", "c", "d"],
        &["a", "b", "c", "d"],
        &["a", "c", "b", "d"],
        &["a", "c", "b", "d"],
        &["a", "e", "d"],
    ]);
    let net = alpha(&log, "case");
    assert!(net.warnings.is_empty());
    assert_eq!(net.transitions, ["a", "b", "c", "d", "e"]);

    let shapes: Vec<(Vec<&str>, Vec<&str>)> = net
        .places
        .iter()
        .map(|p| {
            (
                p.inputs.iter().map(String::as_str).collect(),
                p.outputs.iter().map(String::as_str).collect(),
            )
        })
        .collect();
    let expected: Vec<(Vec<&str>, Vec<&str>)> = vec![
        (vec![], vec!["a"]), // source
        (vec!["a"], vec!["b", "e"]),
        (vec!["a"], vec!["c", "e"]),
        (vec!["b", "e"], vec!["d"]),
        (vec!["c", "e"], vec!["d"]),
        (vec!["d"], vec![]), // sink
    ];
    assert_eq!(shapes, expected);
}

#[test]
fn self_loops_produce_warnings() {
    let log = log_from_sequences(&[&["a", "b", "b", "c"]]);
    let net = alpha(&log, "case");
    assert!(net.warnings.iter().any(|w| w.contains("'b'")));
}

#[test]
fn alpha_empty_type_yields_empty_net() {
    let log = log_from_sequences(&[]);
    let net = alpha(&log, "case");
    assert!(net.transitions.is_empty());
    // just source and sink, both empty
    assert_eq!(net.places.len(), 2);
}

#[test]
fn place_ids_name_source_middle_and_sink() {
    let log = log_from_sequences(&[&["a", "b"]]);
    let net = alpha(&log, "case");
    let ids: Vec<&str> = net.places.iter().map(|p| p.id.as_str()).collect();
    assert_eq!(ids, ["source", "p1", "sink"]);
    assert_eq!(net.places[0].outputs, ["a"]);
    assert_eq!(net.places[1].inputs, ["a"]);
    assert_eq!(net.places[1].outputs, ["b"]);
    assert_eq!(net.places[2].inputs, ["b"]);
    assert_eq!(net.object_type, "case");
}

#[test]
fn self_looping_activity_joins_no_middle_place() {
    let log = log_from_sequences(&[&["a", "b", "b", "c"]]);
    let net = alpha(&log, "case");
    for place in &net.places[1..net.places.len() - 1] {
        assert!(!place.inputs.iter().any(|x| x == "b"));
        assert!(!place.outputs.iter().any(|x| x == "b"));
    }
}

#[test]
fn too_many_activities_are_cut_off_with_a_warning() {
    let names: Vec<String> = (0..21).map(|k| format!("x{k:02}")).collect();
    let sequence: Vec<&str> = names.iter().map(String::as_str).collect();
    let log = log_from_sequences(&[&sequence]);
    let net = alpha(&log, "case");
    assert!(!net.warnings.is_empty());
    assert_eq!(net.transitions.len(), 21);
    assert!(net.places.is_empty());
}

#[test]
fn independent_sets_come_in_lexicographic_order() {
    // 0, 1 and 2 are pairwise independent; 3 loops on itself and joins none.
    let mut ind = vec![vec![true; 4]; 4];
    ind[3][3] = false;
    let sets = independent_subsets(4, &ind);
    let expected: Vec<Vec<usize>> = vec![
        vec![0],
        vec![0, 1],
        vec![0, 1, 2],
        vec![0, 2],
        vec![1],
        vec![1, 2],
        vec![2],
    ];
    assert_eq!(sets, expected);
}
