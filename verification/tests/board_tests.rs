use n_puzzle::board::{Board, BoardError};

#[test]
fn new_accepts_valid_board() {
    let b = Board::new(vec![vec![1, 2, 3], vec![4, 0, 5], vec![6, 7, 8]]).unwrap();
    assert_eq!(b.size, 3);
    assert_eq!(b.zero_pos, (1, 1));
    assert_eq!(b.tiles, vec![vec![1, 2, 3], vec![4, 0, 5], vec![6, 7, 8]]);
}

#[test]
fn new_rejects_non_square_rows() {
    let r = Board::new(vec![vec![0, 1, 2], vec![3, 4]]);
    assert_eq!(r.unwrap_err(), BoardError::NotSquare);
}

#[test]
fn new_rejects_single_cell() {
    let r = Board::new(vec![vec![0]]);
    assert_eq!(r.unwrap_err(), BoardError::NotSquare);
}

#[test]
fn new_rejects_empty_grid() {
    let r = Board::new(Vec::new());
    assert_eq!(r.unwrap_err(), BoardError::NotSquare);
}

#[test]
fn new_rejects_missing_blank() {
    let r = Board::new(vec![vec![1, 2], vec![3, 4]]);
    assert_eq!(r.unwrap_err(), BoardError::MissingBlank);
}

#[test]
fn new_rejects_duplicate_value() {
    let r = Board::new(vec![vec![1, 1], vec![3, 0]]);
    assert_eq!(r.unwrap_err(), BoardError::InvalidValues);
}

#[test]
fn new_rejects_out_of_range_value() {
    let r = Board::new(vec![vec![1, 7], vec![3, 0]]);
    assert_eq!(r.unwrap_err(), BoardError::InvalidValues);
}

#[test]
fn is_goal_true_on_goal_boards() {
    let b2 = Board::new(vec![vec![1, 2], vec![3, 0]]).unwrap();
    assert!(b2.is_goal());
    let b3 = Board::new(vec![vec![1, 2, 3], vec![4, 5, 6], vec![7, 8, 0]]).unwrap();
    assert!(b3.is_goal());
}

#[test]
fn is_goal_false_on_scrambles() {
    let b = Board::new(vec![vec![2, 1], vec![3, 0]]).unwrap();
    assert!(!b.is_goal());
    let c = Board::new(vec![vec![0, 2, 3], vec![4, 5, 6], vec![7, 8, 1]]).unwrap();
    assert!(!c.is_goal());
}

fn is_single_move(a: &Vec<Vec<u8>>, b: &Vec<Vec<u8>>) -> bool {
    let n = a.len();
    if b.len() != n {
        return false;
    }
    let mut diffs: Vec<(usize, usize)> = Vec::new();
    for r in 0..n {
        if a[r].len() != n || b[r].len() != n {
            return false;
        }
        for c in 0..n {
            if a[r][c] != b[r][c] {
                diffs.push((r, c));
            }
        }
    }
    if diffs.len() != 2 {
        return false;
    }
    let (r1, c1) = diffs[0];
    let (r2, c2) = diffs[1];
    let adjacent = (r1 == r2 && (c1 + 1 == c2 || c2 + 1 == c1))
        || (c1 == c2 && (r1 + 1 == r2 || r2 + 1 == r1));
    let swapped = a[r1][c1] == b[r2][c2] && a[r2][c2] == b[r1][c1];
    let blank_moved = a[r1][c1] == 0 || a[r2][c2] == 0;
    adjacent && swapped && blank_moved
}

#[test]
fn neighbors_corner_blank_has_two() {
    let b = Board::new(vec![vec![0, 2, 3], vec![4, 5, 6], vec![7, 8, 1]]).unwrap();
    let ns = b.neighbors();
    assert_eq!(ns.len(), 2);
    for (nb, cost) in &ns {
        assert_eq!(*cost, 1);
        assert!(is_single_move(&b.tiles, &nb.tiles));
        let (zr, zc) = nb.zero_pos;
        let d = zr.abs_diff(0) + zc.abs_diff(0);
        assert_eq!(d, 1);
    }
}

#[test]
fn neighbors_edge_blank_has_three() {
    let b = Board::new(vec![vec![1, 0, 3], vec![4, 5, 6], vec![7, 8, 2]]).unwrap();
    let ns = b.neighbors();
    assert_eq!(ns.len(), 3);
    for (nb, cost) in &ns {
        assert_eq!(*cost, 1);
        assert!(is_single_move(&b.tiles, &nb.tiles));
    }
}

#[test]
fn neighbors_interior_blank_has_four() {
    let b = Board::new(vec![vec![1, 2, 3], vec![4, 0, 5], vec![6, 7, 8]]).unwrap();
    let ns = b.neighbors();
    assert_eq!(ns.len(), 4);
    for (nb, cost) in &ns {
        assert_eq!(*cost, 1);
        assert!(is_single_move(&b.tiles, &nb.tiles));
        let (zr, zc) = nb.zero_pos;
        assert_eq!(zr.abs_diff(1) + zc.abs_diff(1), 1);
    }
}

#[test]
fn neighbors_two_by_two_corner() {
    let b = Board::new(vec![vec![1, 2], vec![3, 0]]).unwrap();
    let ns = b.neighbors();
    assert_eq!(ns.len(), 2);
}

#[test]
fn duplicate_preserves_board() {
    let b = Board::new(vec![vec![1, 2], vec![0, 3]]).unwrap();
    let d = b.duplicate();
    assert_eq!(d.tiles, b.tiles);
    assert_eq!(d.zero_pos, b.zero_pos);
    assert_eq!(d.size, b.size);
}
