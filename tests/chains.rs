use plotter::marching_squares::{cell_case, continuation, corner, edge_cases, find_chains, next_non_empty, vertex_id};

fn norm(a: usize, b: usize) -> (usize, usize) {
    if a <= b {
        (a, b)
    } else {
        (b, a)
    }
}

/// Every input edge walked exactly once, every chain a simple path.
fn check_cover(edges: &[(usize, usize)], chains: &Vec<Vec<usize>>) {
    let mut walked: Vec<(usize, usize)> = Vec::new();
    for chain in chains {
        assert!(chain.len() >= 2);
        for i in 0..chain.len() {
            for j in 0..i {
                assert_ne!(chain[i], chain[j]);
            }
        }
        for w in chain.windows(2) {
            walked.push(norm(w[0], w[1]));
        }
    }
    let mut expected: Vec<(usize, usize)> = edges.iter().map(|&(a, b)| norm(a, b)).collect();
    expected.sort();
    expected.dedup();
    walked.sort();
    assert_eq!(walked, expected);
}

#[test]
fn chains_join_two_edges() {
    let edges = [(0, 1), (1, 2)];
    let chains = find_chains(&edges);
    assert_eq!(chains, vec![vec![0, 1, 2]]);
}

#[test]
fn chains_of_nothing() {
    let chains = find_chains(&[]);
    assert!(chains.is_empty());
}

#[test]
fn chains_extend_backwards() {
    // starts at 0, runs forward to 2, then back from 0 to 3
    let edges = [(0, 1), (1, 2), (3, 0)];
    let chains = find_chains(&edges);
    assert_eq!(chains, vec![vec![3, 0, 1, 2]]);
    check_cover(&edges, &chains);
}

#[test]
fn chains_of_a_triangle() {
    let edges = [(0, 1), (1, 2), (2, 0)];
    let chains = find_chains(&edges);
    assert_eq!(chains, vec![vec![0, 1, 2], vec![0, 2]]);
    check_cover(&edges, &chains);
}

#[test]
fn chains_of_separate_pieces() {
    let edges = [(4, 5), (0, 1), (5, 6), (2, 1)];
    let chains = find_chains(&edges);
    assert_eq!(chains, vec![vec![0, 1, 2], vec![4, 5, 6]]);
    check_cover(&edges, &chains);
}

#[test]
fn chains_walk_a_repeated_edge_once() {
    let edges = [(0, 1), (1, 0), (1, 2)];
    let chains = find_chains(&edges);
    check_cover(&edges, &chains);
    assert_eq!(chains, vec![vec![0, 1, 2]]);
}

#[test]
fn chains_of_a_star() {
    let edges = [(0, 1), (0, 2), (0, 3)];
    let chains = find_chains(&edges);
    check_cover(&edges, &chains);
    assert_eq!(chains.len(), 2);
}

#[test]
fn next_non_empty_finds_first() {
    let residual = vec![vec![], vec![], vec![3], vec![1]];
    assert_eq!(next_non_empty(&residual), Some(2));
    let empty: Vec<Vec<usize>> = vec![vec![], vec![]];
    assert_eq!(next_non_empty(&empty), None);
}

#[test]
fn continuation_needs_remaining_edges() {
    let residual = vec![vec![1], vec![]];
    assert_eq!(continuation(&residual, Some(&0)), Some(0));
    assert_eq!(continuation(&residual, Some(&1)), None);
    assert_eq!(continuation(&residual, None), None);
}

#[test]
fn vertex_ids_of_cell_edges() {
    // left edge of the cell at (3, 4): corners 0 and 2
    assert_eq!(vertex_id(3, 4, (0, 2)), (3, 5, false));
    // bottom edge: corners 0 and 1
    assert_eq!(vertex_id(3, 4, (0, 1)), (3, 4, true));
    // right edge: corners 1 and 3
    assert_eq!(vertex_id(3, 4, (1, 3)), (4, 5, false));
    // top edge: corners 2 and 3
    assert_eq!(vertex_id(3, 4, (2, 3)), (3, 5, true));
}

#[test]
fn cell_case_bits() {
    assert_eq!(cell_case([false, false, false, false]), 0);
    assert_eq!(cell_case([true, false, false, false]), 1);
    assert_eq!(cell_case([false, true, true, false]), 6);
    assert_eq!(cell_case([true, true, true, true]), 15);
}

#[test]
fn edge_cases_table() {
    assert_eq!(edge_cases(0), [None, None]);
    assert_eq!(edge_cases(15), [None, None]);
    assert_eq!(edge_cases(1), [Some(((0, 2), (0, 1))), None]);
    assert_eq!(edge_cases(6), [Some(((0, 2), (2, 3))), Some(((0, 1), (1, 3)))]);
    assert_eq!(edge_cases(9), [Some(((0, 2), (0, 1))), Some(((2, 3), (1, 3)))]);
    assert_eq!(edge_cases(14), [Some(((0, 1), (0, 2))), None]);
}

#[test]
fn edge_cases_cross_the_level() {
    for case in 0..16usize {
        let below = |i: usize| (case >> i) & 1 == 1;
        let mut touched = Vec::new();
        for seg in edge_cases(case).iter().flatten() {
            for (a, b) in [seg.0, seg.1] {
                assert_ne!(below(a), below(b));
                touched.push(if a < b { (a, b) } else { (b, a) });
            }
        }
        for side in [(0, 1), (0, 2), (1, 3), (2, 3)] {
            if below(side.0) != below(side.1) {
                assert!(touched.contains(&side));
            }
        }
    }
}

#[test]
fn corners_of_a_cell() {
    assert_eq!(corner(0), (0, 0));
    assert_eq!(corner(1), (1, 0));
    assert_eq!(corner(2), (0, 1));
    assert_eq!(corner(3), (1, 1));
}
