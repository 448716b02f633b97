use grust::topology::Topology;

fn cycle_with_chord() -> Vec<Vec<bool>> {
    let n = 6;
    let mut m = vec![vec![false; n]; n];
    for i in 0..n {
        let j = (i + 1) % n;
        m[i][j] = true;
        m[j][i] = true;
    }
    m[0][3] = true;
    m[3][0] = true;
    m
}

#[test]
fn accepts_symmetric_irreflexive_matrix() {
    let t = Topology::from_matrix(cycle_with_chord()).unwrap();
    assert_eq!(t.node_count(), 6);
    assert!(t.has_edge(0, 3) && t.has_edge(3, 0));
    assert!(t.has_edge(5, 0));
    assert!(!t.has_edge(1, 4));
}

#[test]
fn neighbors_in_increasing_order() {
    let t = Topology::from_matrix(cycle_with_chord()).unwrap();
    assert_eq!(t.neighbors(0), vec![1, 3, 5]);
    assert_eq!(t.neighbors(2), vec![1, 3]);
}

#[test]
fn refuses_asymmetric_matrix() {
    let mut m = cycle_with_chord();
    m[1][4] = true;
    assert!(Topology::from_matrix(m).is_none());
}

#[test]
fn refuses_self_loop() {
    let mut m = cycle_with_chord();
    m[2][2] = true;
    assert!(Topology::from_matrix(m).is_none());
}

#[test]
fn refuses_ragged_matrix() {
    let m = vec![vec![false, true], vec![true]];
    assert!(Topology::from_matrix(m).is_none());
}

#[test]
fn empty_topology_has_no_nodes() {
    assert_eq!(Topology::empty().node_count(), 0);
    assert_eq!(Topology::from_matrix(Vec::new()).unwrap().node_count(), 0);
}
