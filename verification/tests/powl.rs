use ocel_mine::heuristics::Ratio;
use ocel_mine::log::{EventLog, LogEvent, LogObject, Timestamp};
use ocel_mine::miner::inductive;
use ocel_mine::powl::Powl;
use ocel_mine::powl_miner::powl;
use ocel_mine::precision::{tree_precision, PrecisionReport};
use ocel_mine::replay::tree_replay;
use ocel_mine::powl_replay::powl_replay;
use ocel_mine::precision::powl_precision;

/// 2026-01-01 09:00:00 UTC.
const NINE: i64 = 1_767_258_000;

/// One "case" object per sequence, events one minute apart.
fn log_from_sequences(sequences: &[&[&str]]) -> EventLog {
    let mut objects = Vec::new();
    let mut events = Vec::new();
    let mut event_id = 0usize;
    for (i, sequence) in sequences.iter().enumerate() {
        objects.push(LogObject { id: format!("o{i}"), object_type: "case".to_string() });
        for (j, activity) in sequence.iter().enumerate() {
            event_id += 1;
            let offset = i64::try_from(i * 1000 + j).unwrap();
            events.push(LogEvent {
                id: format!("e{event_id}"),
                activity: activity.to_string(),
                time: Timestamp { secs: NINE + 60 * offset, nanos: 0 },
                objects: vec![i],
            });
        }
    }
    EventLog { object_types: vec!["case".to_string()], objects, events }
}
fn activity(label: &str) -> Powl {
    Powl::Activity { label: label.to_string() }
}

/// All five linear extensions of the N-shaped order a≺c, b≺c, b≺d.
const N_POSET: &[&[&str]] = &[
    &["a", "b", "c", "d"],
    &["a", "b", "d", "c"],
    &["b", "a", "c", "d"],
    &["b", "a", "d", "c"],
    &["b", "d", "a", "c"],
];

fn n_model() -> Powl {
    Powl::PartialOrder {
        children: vec![activity("a"), activity("b"), activity("c"), activity("d")],
        order: vec![(0, 2), (1, 2), (1, 3)],
    }
}

#[test]
fn n_poset_model_fits_and_is_precise() {
    let log = log_from_sequences(N_POSET);
    let replay = powl_replay(&log, "case", &n_model());
    assert_eq!(replay.fitting, replay.traces);
    let report = powl_precision(&log, "case", &n_model()).unwrap();
    assert_eq!(report.escaping, 0);
    assert_eq!(report.truncated_traces, 0);
}

#[test]
fn n_model_rejects_order_violations() {
    // c before a violates a≺c; d before b violates b≺d
    let bad = log_from_sequences(&[&["c", "a", "b", "d"], &["d", "b", "a", "c"]]);
    let replay = powl_replay(&bad, "case", &n_model());
    assert_eq!(replay.fitting, 0);
}

#[test]
fn total_order_model_replays_only_its_order() {
    let log = log_from_sequences(&[&["a", "b", "c"], &["a", "b", "c"]]);
    let model = Powl::PartialOrder {
        children: vec![activity("a"), activity("b"), activity("c")],
        order: vec![(0, 1), (1, 2)],
    };
    assert_eq!(powl_replay(&log, "case", &model).fitting, 2);
    let swapped = log_from_sequences(&[&["b", "a", "c"]]);
    assert_eq!(powl_replay(&swapped, "case", &model).fitting, 0);
}

#[test]
fn exclusive_and_loop_models_replay() {
    let log = log_from_sequences(&[&["a"], &["a", "b", "a"], &["a", "b", "a", "b", "a"]]);
    let model = Powl::Loop { children: vec![activity("a"), activity("b")] };
    let replay = powl_replay(&log, "case", &model);
    assert_eq!(replay.fitting, replay.traces);
}

#[test]
fn alternatives_inside_an_ordered_group() {
    let log = log_from_sequences(&[&["a", "c"], &["b", "c"]]);
    let model = Powl::PartialOrder {
        children: vec![Powl::Exclusive { children: vec![activity("a"), activity("b")] }, activity("c")],
        order: vec![(0, 1)],
    };
    let replay = powl_replay(&log, "case", &model);
    assert_eq!(replay.fitting, 2);
}

#[test]
fn optional_group_model_replays_with_and_without() {
    let log = log_from_sequences(&[&["a", "b", "c"], &["a", "c"]]);
    let model = Powl::PartialOrder {
        children: vec![activity("a"), Powl::Exclusive { children: vec![Powl::Tau, activity("b")] }, activity("c")],
        order: vec![(0, 1), (1, 2), (0, 2)],
    };
    let replay = powl_replay(&log, "case", &model);
    assert_eq!(replay.fitting, replay.traces);
}

const EXACT: Ratio = Ratio { num: 0, den: 1 };

fn precision(r: &PrecisionReport) -> f64 {
    if r.allowed == 0 {
        1.0
    } else {
        1.0 - r.escaping as f64 / r.allowed as f64
    }
}

fn same_all(a: &[Powl], b: &[Powl]) -> bool {
    a.len() == b.len() && a.iter().zip(b.iter()).all(|(x, y)| same(x, y))
}

fn same(a: &Powl, b: &Powl) -> bool {
    match (a, b) {
        (Powl::Activity { label: x }, Powl::Activity { label: y }) => x == y,
        (Powl::Tau, Powl::Tau) => true,
        (Powl::Exclusive { children: x }, Powl::Exclusive { children: y }) => same_all(x, y),
        (Powl::Loop { children: x }, Powl::Loop { children: y }) => same_all(x, y),
        (Powl::PartialOrder { children: x, order: o }, Powl::PartialOrder { children: y, order: p }) => {
            same_all(x, y) && o == p
        }
        _ => false,
    }
}

#[test]
fn n_poset_becomes_one_partial_order_node() {
    let log = log_from_sequences(N_POSET);
    let model = powl(&log, "case", EXACT);
    let Powl::PartialOrder { children, order } = &model else {
        panic!("expected a partial-order root, got {model:?}");
    };
    assert_eq!(children.len(), 4);
    assert!(same(&children[0], &activity("a")));
    let mut sorted = order.clone();
    sorted.sort_unstable();
    assert_eq!(sorted, vec![(0, 2), (1, 2), (1, 3)]);
}

#[test]
fn n_poset_powl_is_perfectly_fit_and_precise_where_the_tree_is_not() {
    let log = log_from_sequences(N_POSET);

    let model = powl(&log, "case", EXACT);
    let replay = powl_replay(&log, "case", &model);
    assert_eq!(replay.fitting, replay.traces);
    let report = powl_precision(&log, "case", &model).unwrap();
    assert!(
        (precision(&report) - 1.0).abs() < 1e-9,
        "POWL should capture exactly the 5 linear extensions, got {}",
        precision(&report)
    );

    let tree = inductive(&log, "case", EXACT);
    let tree_fit = tree_replay(&log, "case", &tree);
    assert_eq!(tree_fit.fitting, tree_fit.traces);
    let tree_prec = tree_precision(&log, "case", &tree).unwrap();
    assert!(precision(&tree_prec) < 0.95, "expected the tree to be less precise, got {}", precision(&tree_prec));
}

#[test]
fn order_violations_do_not_replay() {
    let log = log_from_sequences(N_POSET);
    let model = powl(&log, "case", EXACT);
    let bad = log_from_sequences(&[&["c", "a", "b", "d"], &["d", "b", "a", "c"]]);
    let replay = powl_replay(&bad, "case", &model);
    assert_eq!(replay.fitting, 0);
}

#[test]
fn sequence_is_a_total_order() {
    let log = log_from_sequences(&[&["a", "b", "c"], &["a", "b", "c"]]);
    let model = powl(&log, "case", EXACT);
    assert!(same(
        &model,
        &Powl::PartialOrder { children: vec![activity("a"), activity("b"), activity("c")], order: vec![(0, 1), (1, 2)] }
    ));
    assert_eq!(powl_replay(&log, "case", &model).fitting, 2);
}

#[test]
fn parallel_is_an_empty_order() {
    let log = log_from_sequences(&[&["a", "b"], &["b", "a"]]);
    let model = powl(&log, "case", EXACT);
    assert!(same(&model, &Powl::PartialOrder { children: vec![activity("a"), activity("b")], order: vec![] }));
}

#[test]
fn exclusive_and_loop_still_work() {
    let log = log_from_sequences(&[&["a", "b"], &["c", "d"]]);
    let Powl::Exclusive { children } = powl(&log, "case", EXACT) else {
        panic!("expected exclusive root");
    };
    assert_eq!(children.len(), 2);

    let log = log_from_sequences(&[&["a"], &["a", "b", "a"], &["a", "b", "a", "b", "a"]]);
    let model = powl(&log, "case", EXACT);
    assert!(same(&model, &Powl::Loop { children: vec![activity("a"), activity("b")] }));
    let replay = powl_replay(&log, "case", &model);
    assert_eq!(replay.fitting, replay.traces);
}

#[test]
fn alternatives_inside_an_ordered_group_become_exclusive() {
    let log = log_from_sequences(&[&["a", "c"], &["b", "c"]]);
    let model = powl(&log, "case", EXACT);
    let Powl::PartialOrder { children, order } = &model else {
        panic!("expected partial order, got {model:?}");
    };
    assert_eq!(order, &vec![(0, 1)]);
    let Powl::Exclusive { .. } = &children[0] else {
        panic!("expected exclusive first group, got {:?}", children[0]);
    };
    let replay = powl_replay(&log, "case", &model);
    assert_eq!(replay.fitting, 2);
}

#[test]
fn optional_group_stays_replayable() {
    let log = log_from_sequences(&[&["a", "b", "c"], &["a", "c"]]);
    let model = powl(&log, "case", EXACT);
    let replay = powl_replay(&log, "case", &model);
    assert_eq!(replay.fitting, replay.traces);
}

#[test]
fn powl_noise_threshold_ignores_rare_swap() {
    let mut sequences: Vec<&[&str]> = vec![&["a", "b", "c"]; 10];
    sequences.push(&["b", "a", "c"]);
    let log = log_from_sequences(&sequences);
    let filtered = powl(&log, "case", Ratio { num: 1, den: 5 });
    assert!(same(
        &filtered,
        &Powl::PartialOrder { children: vec![activity("a"), activity("b"), activity("c")], order: vec![(0, 1), (1, 2)] }
    ));
}

#[test]
fn no_events_give_the_silent_model() {
    let mut log = log_from_sequences(&[&["a"]]);
    log.events.clear();
    assert!(same(&powl(&log, "case", EXACT), &Powl::Tau));
}

fn leaf_labels(model: &Powl, out: &mut Vec<String>) {
    match model {
        Powl::Activity { label } => out.push(label.clone()),
        Powl::Tau => {}
        Powl::Exclusive { children } | Powl::Loop { children } | Powl::PartialOrder { children, .. } => {
            assert!(children.len() >= 2, "an operator with fewer than two children");
            for child in children {
                leaf_labels(child, out);
            }
        }
    }
}

#[test]
fn zero_noise_model_names_every_activity_once() {
    let log = log_from_sequences(&[&["a", "b", "c"], &["a", "c", "b"], &["a", "d"], &["e", "e", "f"]]);
    let model = powl(&log, "case", Ratio { num: 0, den: 1 });
    let mut labels = Vec::new();
    leaf_labels(&model, &mut labels);
    labels.sort();
    assert_eq!(labels, vec!["a", "b", "c", "d", "e", "f"]);
}
