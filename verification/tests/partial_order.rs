use ocel_mine::heuristics::Ratio;
use ocel_mine::partial_order::{categories, po_groups};
use ocel_mine::partial_order::Cat::{self, Conc, Gt, Lt, Unrelated};

/// Categories of the N-shaped order a≺c, b≺c, b≺d (a ∥ b, a ∥ d, c ∥ d).
fn n_shape() -> Vec<Vec<Cat>> {
    vec![
        vec![Unrelated, Conc, Lt, Conc],
        vec![Conc, Unrelated, Lt, Lt],
        vec![Gt, Gt, Unrelated, Conc],
        vec![Conc, Gt, Conc, Unrelated],
    ]
}

#[test]
fn n_shape_keeps_four_singletons() {
    let groups = po_groups(4, &n_shape(), &vec![true, true, false, false], &vec![false, false, true, true]);
    assert_eq!(groups, vec![vec![0], vec![1], vec![2], vec![3]]);
}

#[test]
fn unrelated_activities_share_a_group() {
    // a and b are alternatives, both before c
    let cats = vec![
        vec![Unrelated, Unrelated, Lt],
        vec![Unrelated, Unrelated, Lt],
        vec![Gt, Gt, Unrelated],
    ];
    let groups = po_groups(3, &cats, &vec![true, true, false], &vec![false, false, true]);
    assert_eq!(groups, vec![vec![0, 1], vec![2]]);
}

#[test]
fn first_group_without_a_start_is_merged() {
    // a before b, but only b starts traces
    let cats = vec![vec![Unrelated, Lt], vec![Gt, Unrelated]];
    let groups = po_groups(2, &cats, &vec![false, true], &vec![false, true]);
    assert_eq!(groups, vec![vec![0, 1]]);
}

#[test]
fn broken_transitivity_merges_the_outer_pair() {
    // a < b < c but a ∥ c
    let cats = vec![
        vec![Unrelated, Lt, Conc],
        vec![Gt, Unrelated, Lt],
        vec![Conc, Gt, Unrelated],
    ];
    let groups = po_groups(3, &cats, &vec![true, false, false], &vec![false, false, true]);
    // {a, c} is not uniform against b (Lt then Gt), so everything merges
    assert_eq!(groups, vec![vec![0, 2, 1]]);
}

#[test]
fn no_activities_no_groups() {
    assert!(po_groups(0, &vec![], &vec![], &vec![]).is_empty());
}

/// Directly-follows counts of the five linear extensions of the N shape:
/// abcd, abdc, bacd, badc, bdac.
fn n_counts() -> Vec<Vec<usize>> {
    vec![
        vec![0, 2, 2, 1], // a→b, a→c, a→d
        vec![2, 0, 1, 2], // b→a, b→c, b→d
        vec![0, 0, 0, 2], // c→d
        vec![1, 0, 2, 0], // d→a, d→c
    ]
}

#[test]
fn categories_of_the_n_shape() {
    let cats = categories(&n_counts(), 4, Ratio { num: 0, den: 1 });
    assert_eq!(cats, n_shape());
}

#[test]
fn dominant_direction_orders_a_bidirectional_pair() {
    // a→b ten times, b→a once
    let counts = vec![vec![0, 10], vec![1, 0]];
    let plain = categories(&counts, 2, Ratio { num: 0, den: 1 });
    assert_eq!(plain[0][1], Conc);
    // with a threshold of 1/5, 1 < 10/5 makes a→b dominant
    let filtered = categories(&counts, 2, Ratio { num: 1, den: 5 });
    assert_eq!(filtered[0][1], Lt);
    assert_eq!(filtered[1][0], Gt);
}
