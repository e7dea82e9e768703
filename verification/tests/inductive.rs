use ocel_mine::heuristics::Ratio;
use ocel_mine::inductive::ProcessTree;
use ocel_mine::log::{EventLog, LogEvent, LogObject, Timestamp};
use ocel_mine::miner::inductive;
use ocel_mine::precision::tree_precision;
use ocel_mine::replay::{tree_replay, ReplayReport};

/// 2026-01-01 09:00:00 UTC.
const NINE: i64 = 1_767_258_000;

/// One "case" object per sequence, events one minute apart.
fn log_from_sequences(sequences: &[&[&str]]) -> EventLog {
    let mut objects = Vec::new();
    let mut events = Vec::new();
    let mut event_id = 0usize;
    for (i, sequence) in sequences.iter().enumerate() {
        objects.push(LogObject { id: format!("o{i}"), object_type: "case".to_string() });
        for (j, activity) in sequence.iter().enumerate() {
            event_id += 1;
            let offset = i64::try_from(i * 1000 + j).unwrap();
            events.push(LogEvent {
                id: format!("e{event_id}"),
                activity: activity.to_string(),
                time: Timestamp { secs: NINE + 60 * offset, nanos: 0 },
                objects: vec![i],
            });
        }
    }
    EventLog { object_types: vec!["case".to_string()], objects, events }
}

fn activity(label: &str) -> ProcessTree {
    ProcessTree::Activity { label: label.to_string() }
}

const EXACT: Ratio = Ratio { num: 0, den: 1 };
const FIFTH: Ratio = Ratio { num: 1, den: 5 };

fn same_children(a: &[ProcessTree], b: &[ProcessTree]) -> bool {
    a.len() == b.len() && a.iter().zip(b.iter()).all(|(x, y)| same(x, y))
}

fn same(a: &ProcessTree, b: &ProcessTree) -> bool {
    match (a, b) {
        (ProcessTree::Activity { label: x }, ProcessTree::Activity { label: y }) => x == y,
        (ProcessTree::Tau, ProcessTree::Tau) => true,
        (ProcessTree::Sequence { children: x }, ProcessTree::Sequence { children: y }) => same_children(x, y),
        (ProcessTree::Exclusive { children: x }, ProcessTree::Exclusive { children: y }) => same_children(x, y),
        (ProcessTree::Parallel { children: x }, ProcessTree::Parallel { children: y }) => same_children(x, y),
        (ProcessTree::Loop { children: x }, ProcessTree::Loop { children: y }) => same_children(x, y),
        _ => false,
    }
}

fn assert_tree(got: &ProcessTree, want: &ProcessTree) {
    assert!(same(got, want), "{got:?} != {want:?}");
}

#[test]
fn sequence_of_three() {
    let log = log_from_sequences(&[&["a", "b", "c"], &["a", "b", "c"]]);
    let tree = inductive(&log, "case", EXACT);
    assert_tree(&tree, &ProcessTree::Sequence { children: vec![activity("a"), activity("b"), activity("c")] });
}

#[test]
fn exclusive_choice() {
    let log = log_from_sequences(&[&["a", "b"], &["c", "d"]]);
    let tree = inductive(&log, "case", EXACT);
    let ProcessTree::Exclusive { children } = tree else {
        panic!("expected exclusive root");
    };
    assert_eq!(children.len(), 2);
}

#[test]
fn parallel_pair() {
    let log = log_from_sequences(&[&["a", "b"], &["b", "a"]]);
    let tree = inductive(&log, "case", EXACT);
    assert_tree(&tree, &ProcessTree::Parallel { children: vec![activity("a"), activity("b")] });
}

#[test]
fn loop_with_redo() {
    let log = log_from_sequences(&[&["a"], &["a", "b", "a"], &["a", "b", "a", "b", "a"]]);
    let tree = inductive(&log, "case", EXACT);
    assert_tree(&tree, &ProcessTree::Loop { children: vec![activity("a"), activity("b")] });
}

#[test]
fn optional_tail_becomes_xor_tau() {
    let log = log_from_sequences(&[&["a", "b"], &["a"]]);
    let tree = inductive(&log, "case", EXACT);
    assert_tree(
        &tree,
        &ProcessTree::Sequence {
            children: vec![activity("a"), ProcessTree::Exclusive { children: vec![ProcessTree::Tau, activity("b")] }],
        },
    );
}

#[test]
fn once_per_trace_beats_the_flower() {
    // no cut applies, but b happens exactly once per trace
    let log = log_from_sequences(&[&["a", "b", "a"], &["a", "a", "b"]]);
    let tree = inductive(&log, "case", EXACT);
    assert_tree(
        &tree,
        &ProcessTree::Parallel {
            children: vec![activity("b"), ProcessTree::Loop { children: vec![activity("a"), ProcessTree::Tau] }],
        },
    );
}

#[test]
fn inductive_noise_threshold_ignores_rare_swap() {
    // ten a,b,c and one b,a,c: the swap makes a and b look concurrent
    let mut sequences: Vec<&[&str]> = vec![&["a", "b", "c"]; 10];
    sequences.push(&["b", "a", "c"]);
    let log = log_from_sequences(&sequences);

    let noisy = inductive(&log, "case", EXACT);
    assert_tree(
        &noisy,
        &ProcessTree::Sequence {
            children: vec![ProcessTree::Parallel { children: vec![activity("a"), activity("b")] }, activity("c")],
        },
    );
    // with filtering, the rare b->a edge and the rare start b are ignored
    let filtered = inductive(&log, "case", FIFTH);
    assert_tree(&filtered, &ProcessTree::Sequence { children: vec![activity("a"), activity("b"), activity("c")] });
}

#[test]
fn textbook_l1_structure() {
    let log = log_from_sequences(&[
        &["a", "b", "c", "d"],
        &["a", "b", "c", "d"],
        &["a", "b", "c", "d"],
        &["a", "c", "b", "d"],
        &["a", "c", "b", "d"],
        &["a", "e", "d"],
    ]);
    let tree = inductive(&log, "case", EXACT);
    assert_tree(
        &tree,
        &ProcessTree::Sequence {
            children: vec![
                activity("a"),
                ProcessTree::Exclusive {
                    children: vec![ProcessTree::Parallel { children: vec![activity("b"), activity("c")] }, activity("e")],
                },
                activity("d"),
            ],
        },
    );
}

fn replay_on_own_log(sequences: &[&[&str]]) -> ReplayReport {
    let log = log_from_sequences(sequences);
    let tree = inductive(&log, "case", EXACT);
    tree_replay(&log, "case", &tree)
}

#[test]
fn basic_miner_fits_its_own_log_exactly() {
    let report = replay_on_own_log(&[
        &["a", "b", "c", "d"],
        &["a", "c", "b", "d"],
        &["a", "e", "d"],
        &["a", "b", "c", "d"],
    ]);
    assert_eq!((report.traces, report.fitting), (4, 4));
    assert!(report.misfits.is_empty());
}

#[test]
fn parallel_interleavings_and_loops_fit() {
    let report = replay_on_own_log(&[&["a", "b"], &["b", "a"], &["a", "b", "a", "b", "a"], &["a"]]);
    assert_eq!(report.fitting, report.traces);
}

#[test]
fn noise_filtered_variant_is_a_misfit() {
    let mut sequences: Vec<&[&str]> = vec![&["a", "b", "c"]; 10];
    sequences.push(&["b", "a", "c"]);
    let log = log_from_sequences(&sequences);
    let tree = inductive(&log, "case", FIFTH); // seq(a, b, c): the swap is noise
    let report = tree_replay(&log, "case", &tree);
    assert_eq!((report.traces, report.fitting), (11, 10));
    assert_eq!(report.variants, 2);
    assert_eq!(report.fitting_variants, 1);
    assert_eq!(report.misfits.len(), 1);
    assert_eq!(report.misfits[0].activities, vec!["b", "a", "c"]);
    assert_eq!(report.misfits[0].count, 1);
    assert!(report.misfits[0].example.starts_with('o'));
}

#[test]
fn mined_sequence_is_perfectly_precise() {
    let log = log_from_sequences(&[&["a", "b", "c"], &["a", "b", "c"]]);
    let tree = inductive(&log, "case", EXACT);
    let report = tree_precision(&log, "case", &tree).unwrap();
    assert_eq!(report.truncated_traces, 0);
    assert_eq!(report.escaping, 0);
}

#[test]
fn only_empty_objects_give_the_silent_step() {
    let mut log = log_from_sequences(&[&["a"]]);
    log.events.clear();
    let tree = inductive(&log, "case", EXACT);
    assert_tree(&tree, &ProcessTree::Tau);
}

#[test]
fn single_activity_repeated_is_a_silent_redo_loop() {
    let log = log_from_sequences(&[&["a"], &["a", "a"]]);
    let tree = inductive(&log, "case", EXACT);
    assert_tree(&tree, &ProcessTree::Loop { children: vec![activity("a"), ProcessTree::Tau] });
}
