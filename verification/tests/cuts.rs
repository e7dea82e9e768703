use ocel_mine::cuts::{cut_graph, Weighted};
use ocel_mine::heuristics::Ratio;

fn w(seq: &[usize], count: usize) -> Weighted {
    Weighted { seq: seq.to_vec(), count }
}

#[test]
fn weighted_successions_starts_and_ends() {
    // 0 1 2 three times, 0 2 once; activity 3 never occurs
    let log = vec![w(&[0, 1, 2], 3), w(&[0, 2], 1)];
    let g = cut_graph(&log, 4, Ratio { num: 0, den: 1 });
    assert_eq!(g.alphabet, vec![0, 1, 2]);
    assert_eq!(g.follows[0][1], 3);
    assert_eq!(g.follows[1][2], 3);
    assert_eq!(g.follows[0][2], 1);
    assert_eq!(g.follows[2][0], 0);
    assert_eq!(g.starts, vec![true, false, false, false]);
    assert_eq!(g.ends, vec![false, false, true, false]);
}

#[test]
fn noise_drops_weak_successions_of_a_source() {
    let log = vec![w(&[0, 1, 2], 3), w(&[0, 2], 1)];
    // 1 < 3 · 1/2 : the weaker successor of 0 goes
    let g = cut_graph(&log, 3, Ratio { num: 1, den: 2 });
    assert_eq!(g.follows[0][1], 3);
    assert_eq!(g.follows[0][2], 0);
    assert_eq!(g.follows[1][2], 3);
}

#[test]
fn noise_keeps_only_strong_start_activities() {
    let log = vec![w(&[0, 1], 9), w(&[1, 0], 1)];
    let g = cut_graph(&log, 2, Ratio { num: 1, den: 5 });
    assert_eq!(g.starts, vec![true, false]);
    assert_eq!(g.ends, vec![false, true]);
}

#[test]
fn empty_sequences_add_nothing() {
    let log = vec![w(&[], 4)];
    let g = cut_graph(&log, 2, Ratio { num: 0, den: 1 });
    assert!(g.alphabet.is_empty());
    assert_eq!(g.starts, vec![false, false]);
}
