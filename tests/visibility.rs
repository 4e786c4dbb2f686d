use plotter::eq::first_sign_change;
use plotter::uv2xy::split_visible;

#[test]
fn split_all_visible_is_one_polyline() {
    let points = vec![(0, 0), (1, 1), (2, 4), (3, 9)];
    let keep = vec![true; 4];
    assert_eq!(split_visible(&points, &keep), vec![points.clone()]);
}

#[test]
fn split_at_hidden_midpoint() {
    let points = vec![10, 11, 12, 13, 14];
    let keep = vec![true, true, false, true, true];
    assert_eq!(split_visible(&points, &keep), vec![vec![10, 11], vec![13, 14]]);
}

#[test]
fn split_hidden_ends_leave_empty_pieces() {
    let points = vec![1, 2, 3];
    let keep = vec![false, true, false];
    assert_eq!(split_visible(&points, &keep), vec![vec![], vec![2], vec![]]);
}

#[test]
fn split_empty_polyline() {
    let points: Vec<i32> = vec![];
    let keep: Vec<bool> = vec![];
    assert_eq!(split_visible(&points, &keep), vec![Vec::<i32>::new()]);
}

#[test]
fn split_counts_one_more_than_hidden() {
    let points = vec![0, 1, 2, 3, 4, 5, 6];
    let keep = vec![true, false, false, true, false, true, true];
    let pieces = split_visible(&points, &keep);
    assert_eq!(pieces.len(), 4);
    assert_eq!(pieces, vec![vec![0], vec![], vec![3], vec![5, 6]]);
}

#[test]
fn sign_change_first_wins() {
    assert_eq!(first_sign_change(&vec![false, false, true, false]), Some(1));
    assert_eq!(first_sign_change(&vec![true, false]), Some(0));
}

#[test]
fn sign_change_monotone_brackets_root() {
    // samples of x - 2.5 at 0, 1, 2, 3, 4: negative up to 2
    let samples: Vec<bool> = (0..5).map(|x| (x as f64) - 2.5 < 0.0).collect();
    assert_eq!(first_sign_change(&samples), Some(2));
}

#[test]
fn sign_change_none() {
    assert_eq!(first_sign_change(&vec![true, true, true]), None);
    assert_eq!(first_sign_change(&vec![false]), None);
    assert_eq!(first_sign_change(&vec![]), None);
}
