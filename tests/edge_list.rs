use grust::edge_list::{parse_edge_list, EdgeListError};
use grust::topology::Topology;

fn matrix_of(t: &Topology) -> Vec<Vec<bool>> {
    let n = t.node_count();
    let mut m = Vec::new();
    for i in 0..n {
        let mut row = Vec::new();
        for j in 0..n {
            row.push(t.has_edge(i, j));
        }
        m.push(row);
    }
    m
}

#[test]
fn triangle_round_trip() {
    let t = parse_edge_list(b"0 1\n1 2\n2 0\n").unwrap();
    assert_eq!(
        matrix_of(&t),
        vec![
            vec![false, true, true],
            vec![true, false, true],
            vec![true, true, false],
        ]
    );
}

#[test]
fn three_tokens_rejected() {
    assert_eq!(parse_edge_list(b"0 1 2").err(), Some(EdgeListError::WrongTokenCount));
    assert_eq!(parse_edge_list(b"0 1\n0 1 2\n").err(), Some(EdgeListError::WrongTokenCount));
}

#[test]
fn non_numeric_token_rejected() {
    assert_eq!(parse_edge_list(b"0 x").err(), Some(EdgeListError::InvalidNumber));
    assert_eq!(parse_edge_list(b"0 -1\n").err(), Some(EdgeListError::InvalidNumber));
}

#[test]
fn number_too_large_rejected() {
    assert_eq!(
        parse_edge_list(b"0 99999999999999999999999\n").err(),
        Some(EdgeListError::InvalidNumber)
    );
}

#[test]
fn one_token_and_empty_line_rejected() {
    assert_eq!(parse_edge_list(b"7\n").err(), Some(EdgeListError::WrongTokenCount));
    assert_eq!(parse_edge_list(b"0 1\n\n1 2\n").err(), Some(EdgeListError::WrongTokenCount));
}

#[test]
fn first_malformed_line_decides() {
    assert_eq!(parse_edge_list(b"0 y\n1 2 3\n").err(), Some(EdgeListError::InvalidNumber));
    assert_eq!(parse_edge_list(b"1 2 3\n0 y\n").err(), Some(EdgeListError::WrongTokenCount));
}

#[test]
fn empty_text_gives_no_nodes() {
    let t = parse_edge_list(b"").unwrap();
    assert_eq!(t.node_count(), 0);
}

#[test]
fn self_loop_is_skipped() {
    let t = parse_edge_list(b"0 1\n2 2\n").unwrap();
    assert_eq!(matrix_of(&t), vec![vec![false, true], vec![true, false]]);
    let only_loops = parse_edge_list(b"3 3\n").unwrap();
    assert_eq!(only_loops.node_count(), 0);
}

#[test]
fn ids_renumbered_from_lowest() {
    let t = parse_edge_list(b"5 6\n7 6").unwrap();
    assert_eq!(
        matrix_of(&t),
        vec![
            vec![false, true, false],
            vec![true, false, true],
            vec![false, true, false],
        ]
    );
}

#[test]
fn gap_in_ids_rejected() {
    assert_eq!(parse_edge_list(b"0 5\n").err(), Some(EdgeListError::IdGap));
    assert_eq!(parse_edge_list(b"0 1\n3 4\n").err(), Some(EdgeListError::IdGap));
}

#[test]
fn blanks_tabs_and_carriage_returns() {
    let t = parse_edge_list(b"  0\t 1  \r\n1 2\r\n").unwrap();
    assert_eq!(
        matrix_of(&t),
        vec![
            vec![false, true, false],
            vec![true, false, true],
            vec![false, true, false],
        ]
    );
}

#[test]
fn repeated_edge_counts_once() {
    let t = parse_edge_list(b"0 1\n1 0\n0 1\n").unwrap();
    assert_eq!(matrix_of(&t), vec![vec![false, true], vec![true, false]]);
}

#[test]
fn parsed_matrix_is_symmetric_and_irreflexive() {
    let t = parse_edge_list(b"0 3\n1 2\n3 1\n4 0\n2 4\n").unwrap();
    let m = matrix_of(&t);
    assert_eq!(m.len(), 5);
    for i in 0..5 {
        assert!(!m[i][i]);
        for j in 0..5 {
            assert_eq!(m[i][j], m[j][i]);
        }
    }
    assert!(m[0][3] && m[1][2] && m[3][1] && m[4][0] && m[2][4]);
    assert!(!m[0][1] && !m[2][3]);
}
