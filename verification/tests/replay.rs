use ocel_mine::alpha::alpha;
use ocel_mine::inductive::ProcessTree;
use ocel_mine::log::{EventLog, LogEvent, LogObject, Timestamp};
use ocel_mine::net_replay::net_replay;
use ocel_mine::replay::tree_replay;

/// 2026-01-01 09:00:00 UTC.
const NINE: i64 = 1_767_258_000;

/// One "case" object per sequence, events one minute apart.
fn log_from_sequences(sequences: &[&[&str]]) -> EventLog {
    let mut objects = Vec::new();
    let mut events = Vec::new();
    let mut event_id = 0usize;
    for (i, sequence) in sequences.iter().enumerate() {
        objects.push(LogObject { id: format!("o{i}"), object_type: "case".to_string() });
        for (j, activity) in sequence.iter().enumerate() {
            event_id += 1;
            let offset = i64::try_from(i * 1000 + j).unwrap();
            events.push(LogEvent {
                id: format!("e{event_id}"),
                activity: activity.to_string(),
                time: Timestamp { secs: NINE + 60 * offset, nanos: 0 },
                objects: vec![i],
            });
        }
    }
    EventLog { object_types: vec!["case".to_string()], objects, events }
}
fn activity(label: &str) -> ProcessTree {
    ProcessTree::Activity { label: label.to_string() }
}

#[test]
fn foreign_activity_never_fits() {
    let log = log_from_sequences(&[&["a", "b"], &["a", "x", "b"]]);
    let tree = ProcessTree::Sequence { children: vec![activity("a"), activity("b")] };
    let report = tree_replay(&log, "case", &tree);
    assert_eq!((report.traces, report.fitting), (2, 1));
    assert_eq!(report.misfits[0].activities, vec!["a", "x", "b"]);
}

#[test]
fn flower_fits_anything_over_its_alphabet() {
    let log = log_from_sequences(&[&["a", "b", "b", "a"], &["b"], &["a", "a", "a"]]);
    let flower = ProcessTree::Loop { children: vec![ProcessTree::Tau, activity("a"), activity("b")] };
    let report = tree_replay(&log, "case", &flower);
    assert_eq!(report.fitting, report.traces);
}

#[test]
fn alpha_net_replays_structured_log() {
    let sequences: &[&[&str]] = &[&["a", "b", "c", "d"], &["a", "c", "b", "d"], &["a", "e", "d"]];
    let log = log_from_sequences(sequences);
    let net = alpha(&log, "case");
    let report = net_replay(&log, "case", &net);
    assert_eq!(report.fitting, report.traces);
}

#[test]
fn alpha_net_cannot_replay_optional_steps() {
    // b is optional; alpha has no silent transitions, so the b-place
    // chain makes b mandatory and the short trace misfits
    let log = log_from_sequences(&[&["a", "b", "c"], &["a", "c"]]);
    let net = alpha(&log, "case");
    let report = net_replay(&log, "case", &net);
    assert_eq!((report.traces, report.fitting), (2, 1));
    assert_eq!(report.misfits[0].activities, vec!["a", "c"]);
}

#[test]
fn alpha_self_loop_transition_is_disconnected_and_free() {
    // the self-looping b joins no place (textbook: b # b fails), so it
    // fires freely — both traces replay, the warning carries the honesty
    let log = log_from_sequences(&[&["a", "b", "c"], &["a", "b", "b", "c"]]);
    let net = alpha(&log, "case");
    assert!(!net.warnings.is_empty());
    let report = net_replay(&log, "case", &net);
    assert_eq!(report.fitting, report.traces);
}

#[test]
fn parallel_and_loop_trees_fit_their_interleavings() {
    let log = log_from_sequences(&[&["a", "b"], &["b", "a"], &["a", "b", "a", "b", "a"], &["a"]]);
    let tree = ProcessTree::Loop {
        children: vec![
            activity("a"),
            activity("b"),
        ],
    };
    let report = tree_replay(&log, "case", &tree);
    // a(ba)*: "a b" and "b a" do not fit, the other two do
    assert_eq!((report.traces, report.fitting), (4, 2));
    let both = ProcessTree::Parallel { children: vec![activity("a"), activity("b")] };
    let report = tree_replay(&log, "case", &both);
    assert_eq!((report.traces, report.fitting), (4, 2));
    assert_eq!(report.variants, 4);
    assert_eq!(report.fitting_variants, 2);
}

#[test]
fn misfits_are_grouped_by_variant_with_an_example() {
    let log = log_from_sequences(&[&["a", "b", "c"], &["b", "a", "c"], &["b", "a", "c"]]);
    let tree = ProcessTree::Sequence { children: vec![activity("a"), activity("b"), activity("c")] };
    let report = tree_replay(&log, "case", &tree);
    assert_eq!((report.traces, report.fitting), (3, 1));
    assert_eq!(report.misfits.len(), 1);
    assert_eq!(report.misfits[0].count, 2);
    assert_eq!(report.misfits[0].example, "o1");
}

#[test]
fn optional_step_through_exclusive_tau() {
    let log = log_from_sequences(&[&["a", "b", "c"], &["a", "c"]]);
    let tree = ProcessTree::Sequence {
        children: vec![
            activity("a"),
            ProcessTree::Exclusive { children: vec![ProcessTree::Tau, activity("b")] },
            activity("c"),
        ],
    };
    let report = tree_replay(&log, "case", &tree);
    assert_eq!(report.fitting, 2);
}

#[test]
fn misfit_counts_add_up_to_unfit_traces() {
    let log = log_from_sequences(&[
        &["a", "b"],
        &["b", "a"],
        &["b", "a"],
        &["a", "a"],
        &["a", "b"],
        &[],
    ]);
    let tree = ProcessTree::Sequence { children: vec![activity("a"), activity("b")] };
    let report = tree_replay(&log, "case", &tree);
    assert_eq!(report.traces, 5);
    assert_eq!(report.fitting, 2);
    let unfit: usize = report.misfits.iter().map(|m| m.count).sum();
    assert_eq!(unfit, report.traces - report.fitting);
    assert_eq!(report.misfits[0].activities, ["b", "a"]);
    assert_eq!(report.misfits[0].count, 2);
    assert_eq!(report.variants, 3);
    assert_eq!(report.fitting_variants, 1);
}
