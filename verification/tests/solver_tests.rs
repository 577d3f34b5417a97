use std::collections::HashMap;
use std::collections::VecDeque;

use n_puzzle::a_star::{a_star, manhattan_distance};
use n_puzzle::board::Board;

fn goal_tiles(n: usize) -> Vec<Vec<u8>> {
    let mut g = vec![vec![0u8; n]; n];
    let mut v: usize = 1;
    for r in 0..n {
        for c in 0..n {
            g[r][c] = if v == n * n { 0 } else { v as u8 };
            v += 1;
        }
    }
    g
}

fn is_single_move(a: &Vec<Vec<u8>>, b: &Vec<Vec<u8>>) -> bool {
    let n = a.len();
    let mut diffs: Vec<(usize, usize)> = Vec::new();
    for r in 0..n {
        for c in 0..n {
            if a[r][c] != b[r][c] {
                diffs.push((r, c));
            }
        }
    }
    if diffs.len() != 2 {
        return false;
    }
    let (r1, c1) = diffs[0];
    let (r2, c2) = diffs[1];
    let adjacent = (r1 == r2 && (c1 + 1 == c2 || c2 + 1 == c1))
        || (c1 == c2 && (r1 + 1 == r2 || r2 + 1 == r1));
    let swapped = a[r1][c1] == b[r2][c2] && a[r2][c2] == b[r1][c1];
    let blank_moved = a[r1][c1] == 0 || a[r2][c2] == 0;
    adjacent && swapped && blank_moved
}

/// Breadth-first search over raw grids; returns the optimal move count, if
/// the goal is reachable.
fn bfs_optimal_moves(start: &Vec<Vec<u8>>) -> Option<usize> {
    let n = start.len();
    let goal = goal_tiles(n);
    let mut dist: HashMap<Vec<Vec<u8>>, usize> = HashMap::new();
    let mut queue: VecDeque<Vec<Vec<u8>>> = VecDeque::new();
    dist.insert(start.clone(), 0);
    queue.push_back(start.clone());
    while let Some(t) = queue.pop_front() {
        let d = dist[&t];
        if t == goal {
            return Some(d);
        }
        let (mut zr, mut zc) = (0usize, 0usize);
        for r in 0..n {
            for c in 0..n {
                if t[r][c] == 0 {
                    zr = r;
                    zc = c;
                }
            }
        }
        let moves: [(isize, isize); 4] = [(-1, 0), (1, 0), (0, -1), (0, 1)];
        for (dr, dc) in moves {
            let nr = zr as isize + dr;
            let nc = zc as isize + dc;
            if nr >= 0 && nr < n as isize && nc >= 0 && nc < n as isize {
                let mut nt = t.clone();
                nt[zr][zc] = nt[nr as usize][nc as usize];
                nt[nr as usize][nc as usize] = 0;
                if !dist.contains_key(&nt) {
                    dist.insert(nt.clone(), d + 1);
                    queue.push_back(nt);
                }
            }
        }
    }
    None
}

fn assert_valid_solution(start: &Vec<Vec<u8>>, path: &Vec<Board>) {
    let n = start.len();
    assert!(path.len() >= 1);
    assert_eq!(&path[0].tiles, start);
    assert_eq!(path[path.len() - 1].tiles, goal_tiles(n));
    for w in path.windows(2) {
        assert!(is_single_move(&w[0].tiles, &w[1].tiles));
    }
}

#[test]
fn goal_board_yields_one_element_path() {
    let start = vec![vec![1, 2], vec![3, 0]];
    let b = Board::new(start.clone()).unwrap();
    let path = a_star(b).unwrap();
    assert_eq!(path.len(), 1);
    assert_eq!(path[0].tiles, start);
}

#[test]
fn solves_single_move_board() {
    let start = vec![vec![1u8, 2], vec![0, 3]];
    let b = Board::new(start.clone()).unwrap();
    let path = a_star(b).unwrap();
    assert_valid_solution(&start, &path);
    assert_eq!(path.len(), 2);
}

#[test]
fn solves_three_by_three_scramble() {
    let start = vec![vec![1u8, 2, 3], vec![4, 0, 5], vec![6, 7, 8]];
    let b = Board::new(start.clone()).unwrap();
    let path = a_star(b).unwrap();
    assert_valid_solution(&start, &path);
}

#[test]
fn path_length_is_optimal_on_small_boards() {
    // a deterministic scramble: walk away from the goal for 20 moves
    let mut walker = Board::new(goal_tiles(3)).unwrap();
    for step in 0..20 {
        let ns = walker.neighbors();
        let pick = step % ns.len();
        walker = ns.into_iter().nth(pick).unwrap().0;
    }
    let cases: Vec<Vec<Vec<u8>>> = vec![
        vec![vec![1, 2, 3], vec![4, 0, 5], vec![6, 7, 8]],
        walker.tiles.clone(),
        vec![vec![3, 1], vec![0, 2]],
    ];
    for start in cases {
        let expected = bfs_optimal_moves(&start);
        let b = Board::new(start.clone()).unwrap();
        match a_star(b) {
            Some(path) => {
                assert_valid_solution(&start, &path);
                assert_eq!(Some(path.len() - 1), expected);
            }
            None => assert_eq!(expected, None),
        }
    }
}

#[test]
fn solution_path_never_revisits_a_board() {
    let start = vec![vec![1u8, 2, 3], vec![4, 0, 5], vec![6, 7, 8]];
    let b = Board::new(start.clone()).unwrap();
    let path = a_star(b).unwrap();
    assert!(path.len() >= 1 + 6); // at least the start's Manhattan distance in moves
    for x in 0..path.len() {
        for y in (x + 1)..path.len() {
            assert_ne!(path[x].tiles, path[y].tiles);
        }
    }
}

#[test]
fn unsolvable_two_by_two_returns_none() {
    let b = Board::new(vec![vec![2, 1], vec![3, 0]]).unwrap();
    assert!(a_star(b).is_none());
}

#[test]
fn unsolvable_three_by_three_returns_none() {
    // the goal arrangement with tiles 1 and 2 swapped: an odd permutation
    let b = Board::new(vec![vec![2, 1, 3], vec![4, 5, 6], vec![7, 8, 0]]).unwrap();
    assert!(a_star(b).is_none());
}

#[test]
fn manhattan_distance_of_goal_is_zero() {
    let b = Board::new(goal_tiles(3)).unwrap();
    assert_eq!(manhattan_distance(&b), 0);
    let c = Board::new(goal_tiles(4)).unwrap();
    assert_eq!(manhattan_distance(&c), 0);
}

#[test]
fn manhattan_distance_known_value() {
    let b = Board::new(vec![vec![1, 2, 3], vec![4, 0, 5], vec![6, 7, 8]]).unwrap();
    // 5 is one cell right of its goal; 6 is three cells away; 7 and 8 one each
    assert_eq!(manhattan_distance(&b), 6);
}

#[test]
fn manhattan_distance_changes_by_one_per_move() {
    let b = Board::new(vec![vec![1, 2, 3], vec![4, 0, 5], vec![6, 7, 8]]).unwrap();
    let h = manhattan_distance(&b);
    for (nb, _) in b.neighbors() {
        let hn = manhattan_distance(&nb);
        assert!(hn == h + 1 || hn + 1 == h);
    }
}
