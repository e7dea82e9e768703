use ocel_mine::closure::{closure, components};

fn matrix(n: usize, edges: &[(usize, usize)]) -> Vec<Vec<bool>> {
    let mut m = vec![vec![false; n]; n];
    for &(a, b) in edges {
        m[a][b] = true;
    }
    m
}

#[test]
fn closure_follows_chains_but_not_against_them() {
    let reach = closure(&matrix(4, &[(0, 1), (1, 2)]), 4);
    assert!(reach[0][2]);
    assert!(!reach[2][0]);
    assert!(!reach[0][0]);
    assert!(!reach[3][3]);
}

#[test]
fn closure_sees_cycles() {
    let reach = closure(&matrix(3, &[(0, 1), (1, 0)]), 3);
    assert!(reach[0][0] && reach[1][1]);
    assert!(!reach[2][2]);
}

#[test]
fn components_number_by_first_activity() {
    // 0-2 linked one way, 3-1 the other, 4 alone
    let (comp, count) = components(&matrix(5, &[(0, 2), (3, 1)]), 5);
    assert_eq!(comp, vec![0, 1, 0, 1, 2]);
    assert_eq!(count, 3);
}

#[test]
fn components_join_through_chains() {
    let (comp, count) = components(&matrix(4, &[(3, 2), (1, 2), (0, 3)]), 4);
    assert_eq!(comp, vec![0, 0, 0, 0]);
    assert_eq!(count, 1);
}

#[test]
fn no_activities_no_components() {
    let (comp, count) = components(&vec![], 0);
    assert!(comp.is_empty());
    assert_eq!(count, 0);
}
