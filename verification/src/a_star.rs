use vstd::prelude::*;

use crate::board::{
    adjacent, goal_value, grid_is_square, legal_move, lemma_view_determines, lemma_wf_size_bound,
    same_board, spec_is_goal, Board,
};

verus! {

/// |a - b| for spec arithmetic.
pub open spec fn dist1(a: int, b: int) -> int {
    if a >= b {
        a - b
    } else {
        b - a
    }
}

/// The goal row of tile value v on an N x N board.
pub open spec fn tile_goal_row(v: int, n: int) -> int {
    (v - 1) / n
}

/// The goal column of tile value v on an N x N board.
pub open spec fn tile_goal_col(v: int, n: int) -> int {
    (v - 1) % n
}

/// The Manhattan distance of the tile at (r, c) from its goal cell; the blank
/// contributes nothing.
pub open spec fn tile_dist(v: u8, r: int, c: int, n: int) -> int {
    if v == 0 {
        0
    } else {
        dist1(r, tile_goal_row(v as int, n)) + dist1(c, tile_goal_col(v as int, n))
    }
}

/// Sum of tile distances over the first c_end cells of row r.
pub open spec fn row_dist_upto(row: Seq<u8>, r: int, n: int, c_end: int) -> int
    decreases c_end,
{
    if c_end <= 0 {
        0
    } else {
        row_dist_upto(row, r, n, c_end - 1) + tile_dist(row[c_end - 1], r, c_end - 1, n)
    }
}

/// Sum of tile distances over the first r_end full rows.
pub open spec fn grid_dist_upto(t: Seq<Seq<u8>>, n: int, r_end: int) -> int
    decreases r_end,
{
    if r_end <= 0 {
        0
    } else {
        grid_dist_upto(t, n, r_end - 1) + row_dist_upto(t[r_end - 1], r_end - 1, n, n)
    }
}

/// The Manhattan-distance heuristic of a grid: the sum over all non-blank
/// tiles of the distance between their current and goal cells.
pub open spec fn spec_manhattan(t: Seq<Seq<u8>>) -> int {
    grid_dist_upto(t, t.len() as int, t.len() as int)
}

proof fn lemma_row_dist_nonneg(row: Seq<u8>, r: int, n: int, c_end: int)
    requires
        n >= 1,
    ensures
        row_dist_upto(row, r, n, c_end) >= 0,
    decreases c_end,
{
    if c_end > 0 {
        lemma_row_dist_nonneg(row, r, n, c_end - 1);
    }
}

proof fn lemma_grid_dist_nonneg(t: Seq<Seq<u8>>, n: int, r_end: int)
    requires
        n >= 1,
    ensures
        grid_dist_upto(t, n, r_end) >= 0,
    decreases r_end,
{
    if r_end > 0 {
        lemma_grid_dist_nonneg(t, n, r_end - 1);
        lemma_row_dist_nonneg(t[r_end - 1], r_end - 1, n, n);
    }
}

/// The Manhattan-distance heuristic is never negative.
pub proof fn lemma_manhattan_nonneg(t: Seq<Seq<u8>>)
    ensures
        spec_manhattan(t) >= 0,
{
    if t.len() >= 1 {
        lemma_grid_dist_nonneg(t, t.len() as int, t.len() as int);
    }
}

proof fn lemma_goal_row_dist_zero(t: Seq<Seq<u8>>, r: int, c_end: int)
    requires
        grid_is_square(t),
        spec_is_goal(t),
        0 <= r < t.len(),
        0 <= c_end <= t.len(),
    ensures
        row_dist_upto(t[r], r, t.len() as int, c_end) == 0,
    decreases c_end,
{
    let n = t.len() as int;
    if c_end > 0 {
        lemma_goal_row_dist_zero(t, r, c_end - 1);
        let c = c_end - 1;
        let v = t[r][c];
        assert(v == goal_value(r, c, n));
        if v != 0 {
            assert(v == r * n + c + 1);
            vstd::arithmetic::div_mod::lemma_fundamental_div_mod_converse(r * n + c, n, r, c);
            assert(tile_goal_row(v as int, n) == r);
            assert(tile_goal_col(v as int, n) == c);
            assert(tile_dist(v, r, c, n) == 0);
        }
    }
}

proof fn lemma_goal_grid_dist_zero(t: Seq<Seq<u8>>, r_end: int)
    requires
        grid_is_square(t),
        spec_is_goal(t),
        0 <= r_end <= t.len(),
    ensures
        grid_dist_upto(t, t.len() as int, r_end) == 0,
    decreases r_end,
{
    if r_end > 0 {
        lemma_goal_grid_dist_zero(t, r_end - 1);
        lemma_goal_row_dist_zero(t, r_end - 1, t.len() as int);
    }
}

/// The goal arrangement has Manhattan distance 0.
pub proof fn lemma_manhattan_goal(t: Seq<Seq<u8>>)
    requires
        grid_is_square(t),
        spec_is_goal(t),
    ensures
        spec_manhattan(t) == 0,
{
    lemma_goal_grid_dist_zero(t, t.len() as int);
}

proof fn lemma_row_dist_one_cell(
    t_row: Seq<u8>,
    s_row: Seq<u8>,
    r: int,
    n: int,
    c_end: int,
    cx: int,
)
    requires
        s_row.len() == t_row.len(),
        0 <= cx < t_row.len(),
        c_end <= t_row.len(),
        forall|c: int| 0 <= c < t_row.len() && c != cx ==> s_row[c] == t_row[c],
    ensures
        row_dist_upto(s_row, r, n, c_end) - row_dist_upto(t_row, r, n, c_end) == (if cx < c_end {
            tile_dist(s_row[cx], r, cx, n) - tile_dist(t_row[cx], r, cx, n)
        } else {
            0
        }),
    decreases c_end,
{
    if c_end > 0 {
        lemma_row_dist_one_cell(t_row, s_row, r, n, c_end - 1, cx);
    }
}

proof fn lemma_row_dist_two_cells(
    t_row: Seq<u8>,
    s_row: Seq<u8>,
    r: int,
    n: int,
    c_end: int,
    cx: int,
    cy: int,
)
    requires
        s_row.len() == t_row.len(),
        0 <= cx < t_row.len(),
        0 <= cy < t_row.len(),
        cx != cy,
        c_end <= t_row.len(),
        forall|c: int| 0 <= c < t_row.len() && c != cx && c != cy ==> s_row[c] == t_row[c],
    ensures
        row_dist_upto(s_row, r, n, c_end) - row_dist_upto(t_row, r, n, c_end) == (if cx < c_end {
            tile_dist(s_row[cx], r, cx, n) - tile_dist(t_row[cx], r, cx, n)
        } else {
            0
        }) + (if cy < c_end {
            tile_dist(s_row[cy], r, cy, n) - tile_dist(t_row[cy], r, cy, n)
        } else {
            0
        }),
    decreases c_end,
{
    if c_end > 0 {
        lemma_row_dist_two_cells(t_row, s_row, r, n, c_end - 1, cx, cy);
    }
}

proof fn lemma_grid_dist_one_row(t: Seq<Seq<u8>>, s: Seq<Seq<u8>>, n: int, r_end: int, rx: int)
    requires
        s.len() == t.len(),
        0 <= rx < t.len(),
        r_end <= t.len(),
        forall|r: int| 0 <= r < t.len() && r != rx ==> s[r] == t[r],
    ensures
        grid_dist_upto(s, n, r_end) - grid_dist_upto(t, n, r_end) == (if rx < r_end {
            row_dist_upto(s[rx], rx, n, n) - row_dist_upto(t[rx], rx, n, n)
        } else {
            0
        }),
    decreases r_end,
{
    if r_end > 0 {
        lemma_grid_dist_one_row(t, s, n, r_end - 1, rx);
    }
}

proof fn lemma_grid_dist_two_rows(
    t: Seq<Seq<u8>>,
    s: Seq<Seq<u8>>,
    n: int,
    r_end: int,
    rx: int,
    ry: int,
)
    requires
        s.len() == t.len(),
        0 <= rx < t.len(),
        0 <= ry < t.len(),
        rx != ry,
        r_end <= t.len(),
        forall|r: int| 0 <= r < t.len() && r != rx && r != ry ==> s[r] == t[r],
    ensures
        grid_dist_upto(s, n, r_end) - grid_dist_upto(t, n, r_end) == (if rx < r_end {
            row_dist_upto(s[rx], rx, n, n) - row_dist_upto(t[rx], rx, n, n)
        } else {
            0
        }) + (if ry < r_end {
            row_dist_upto(s[ry], ry, n, n) - row_dist_upto(t[ry], ry, n, n)
        } else {
            0
        }),
    decreases r_end,
{
    if r_end > 0 {
        lemma_grid_dist_two_rows(t, s, n, r_end - 1, rx, ry);
    }
}

/// One legal move changes the Manhattan-distance heuristic by exactly one:
/// only the slid tile's term changes, and sliding a tile one cell moves it
/// either one step towards or one step away from its goal cell.
pub proof fn lemma_manhattan_step(a: Board, b: Board)
    requires
        legal_move(a, b),
    ensures
        spec_manhattan(b@) == spec_manhattan(a@) + 1 || spec_manhattan(b@) == spec_manhattan(a@)
            - 1,
{
    let t = a@;
    let s = b@;
    let n = t.len() as int;
    let zr = a.zero_pos.0 as int;
    let zc = a.zero_pos.1 as int;
    let nr = b.zero_pos.0 as int;
    let nc = b.zero_pos.1 as int;
    let v = t[nr][nc];
    assert(s.len() == t.len());
    assert(nr < n && nc < n) by {
        assert(b.zero_pos.0 < b.size);
        assert(b.size == a.size);
    }
    assert(!(zr == nr && zc == nc)) by {
        assert(adjacent(a.zero_pos, b.zero_pos));
    }
    assert(v != 0) by {
        if v == 0 {
            assert(t[zr][zc] == 0);
            assert(t[nr][nc] == t[zr][zc]);
            assert(zr == nr && zc == nc);
        }
    }
    assert(s[zr][zc] == v && s[nr][nc] == 0);
    let gr = tile_goal_row(v as int, n);
    let gc = tile_goal_col(v as int, n);
    let delta = tile_dist(v, zr, zc, n) - tile_dist(v, nr, nc, n);
    assert(delta == 1 || delta == -1) by {
        if zr == nr {
            assert(zc + 1 == nc || nc + 1 == zc);
        } else {
            assert(zc == nc);
            assert(zr + 1 == nr || nr + 1 == zr);
        }
    }
    assert(forall|r: int| 0 <= r < t.len() ==> (#[trigger] s[r]).len() == t[r].len());
    if zr == nr {
        // both affected cells sit in one row
        assert forall|r: int| 0 <= r < t.len() && r != zr implies #[trigger] s[r] == t[r] by {
            assert(s[r] =~= t[r]);
        };
        lemma_grid_dist_one_row(t, s, n, n, zr);
        lemma_row_dist_two_cells(t[zr], s[zr], zr, n, n, zc, nc);
        assert(tile_dist(s[zr][zc], zr, zc, n) - tile_dist(t[zr][zc], zr, zc, n) == tile_dist(
            v,
            zr,
            zc,
            n,
        ));
        assert(tile_dist(s[zr][nc], zr, nc, n) - tile_dist(t[zr][nc], zr, nc, n) == 0 - tile_dist(
            v,
            nr,
            nc,
            n,
        ));
    } else {
        assert forall|r: int| 0 <= r < t.len() && r != zr && r != nr implies #[trigger] s[r]
            == t[r] by {
            assert(s[r] =~= t[r]);
        };
        lemma_grid_dist_two_rows(t, s, n, n, zr, nr);
        lemma_row_dist_one_cell(t[zr], s[zr], zr, n, n, zc);
        lemma_row_dist_one_cell(t[nr], s[nr], nr, n, n, nc);
        assert(s[zr][zc] == v && s[zr].len() == t[zr].len());
        assert(tile_dist(s[zr][zc], zr, zc, n) - tile_dist(t[zr][zc], zr, zc, n) == tile_dist(
            v,
            zr,
            zc,
            n,
        ));
        assert(tile_dist(s[nr][nc], nr, nc, n) - tile_dist(t[nr][nc], nr, nc, n) == 0 - tile_dist(
            v,
            nr,
            nc,
            n,
        ));
    }
    assert(spec_manhattan(s) - spec_manhattan(t) == delta);
}

proof fn lemma_manhattan_bounded_along(p: Seq<Board>, i: int)
    requires
        0 <= i < p.len(),
        forall|q: int| 0 <= q < p.len() ==> (#[trigger] p[q]).wf(),
        forall|q: int| 0 <= q < p.len() - 1 ==> legal_move(#[trigger] p[q], p[q + 1]),
        spec_is_goal(p[p.len() - 1]@),
    ensures
        spec_manhattan(p[i]@) <= p.len() - 1 - i,
    decreases p.len() - i,
{
    if i == p.len() - 1 {
        lemma_manhattan_goal(p[i]@);
    } else {
        lemma_manhattan_bounded_along(p, i + 1);
        lemma_manhattan_step(p[i], p[i + 1]);
    }
}

/// Admissibility of the heuristic: no valid solution path has fewer moves
/// than the start board's Manhattan distance. Each move changes the
/// heuristic by exactly one, and it must reach zero at the goal.
pub proof fn lemma_manhattan_admissible(start: Board, p: Seq<Board>)
    requires
        valid_path(start, p),
    ensures
        spec_manhattan(start@) <= p.len() - 1,
{
    lemma_manhattan_bounded_along(p, 0);
}

/// Manhattan-distance heuristic, as the original search uses it: the sum over
/// all non-blank tiles of |row - goal row| + |col - goal col|.
pub fn manhattan_distance(board: &Board) -> (d: usize)
    requires
        board.wf(),
    ensures
        d == spec_manhattan(board@),
        d <= 8192,
{
    proof {
        lemma_wf_size_bound(*board);
    }
    let n = board.size;
    let mut total: usize = 0;
    let mut r: usize = 0;
    while r < n
        invariant
            board.wf(),
            n == board.size,
            2 <= n <= 16,
            r <= n,
            total == grid_dist_upto(board@, n as int, r as int),
            total <= 512 * r,
        decreases n - r,
    {
        let mut c: usize = 0;
        proof {
            assert(board@[r as int].len() == board.tiles@[r as int]@.len());
        }
        let mut row_total: usize = 0;
        while c < n
            invariant
                board.wf(),
                n == board.size,
                2 <= n <= 16,
                r < n,
                c <= n,
                board@[r as int].len() == n,
                row_total == row_dist_upto(board@[r as int], r as int, n as int, c as int),
                row_total <= 32 * c,
            decreases n - c,
        {
            let v = board.tiles[r][c];
            proof {
                assert(board@[r as int][c as int] == board.tiles@[r as int]@[c as int]);
                assert(board@[r as int][c as int] < board@.len() * board@.len());
                assert(n * n <= 256) by (nonlinear_arith)
                    requires
                        2 <= n <= 16,
                ;
            }
            if v != 0 {
                let vi = (v as usize) - 1;
                let tr = vi / n;
                let tc = vi % n;
                proof {
                    assert(vi < 256);
                    assert(tr == tile_goal_row(v as int, n as int));
                    assert(tc == tile_goal_col(v as int, n as int));
                    assert(tr < n) by (nonlinear_arith)
                        requires
                            vi < n * n,
                            n >= 1,
                            tr == vi as int / n as int,
                    ;
                    assert(tc < n) by (nonlinear_arith)
                        requires
                            n >= 1,
                            tc == vi as int % n as int,
                    ;
                }
                let dr = if r >= tr {
                    r - tr
                } else {
                    tr - r
                };
                let dc = if c >= tc {
                    c - tc
                } else {
                    tc - c
                };
                proof {
                    assert(dr + dc == tile_dist(v, r as int, c as int, n as int));
                    assert(dr <= 15 && dc <= 15);
                }
                row_total = row_total + dr + dc;
            }
            c += 1;
        }
        proof {
            assert(grid_dist_upto(board@, n as int, r as int + 1) == grid_dist_upto(
                board@,
                n as int,
                r as int,
            ) + row_dist_upto(board@[r as int], r as int, n as int, n as int));
        }
        total = total + row_total;
        r += 1;
    }
    total
}

/// How many hash buckets the duplicate index uses.
const INDEX_BUCKETS: usize = 32768;

/// Every index stored in any of the buckets lies below `bound`.
spec fn entries_bounded(v: Seq<Vec<usize>>, bound: int) -> bool {
    forall|k: int, j: int|
        0 <= k < v.len() && 0 <= j < (#[trigger] v[k])@.len() ==> (#[trigger] v[k]@[j]) < bound
}

/// `p` is a sequence of boards that starts at `start`, advances by one legal
/// move at a time, and ends on the goal arrangement.
pub open spec fn valid_path(start: Board, p: Seq<Board>) -> bool {
    &&& p.len() >= 1
    &&& same_board(p[0], start)
    &&& forall|i: int| 0 <= i < p.len() ==> (#[trigger] p[i]).wf()
    &&& forall|i: int| 0 <= i < p.len() - 1 ==> legal_move(#[trigger] p[i], p[i + 1])
    &&& spec_is_goal(p[p.len() - 1]@)
}

/// The bookkeeping invariant of one search run: the parallel arrays agree in
/// length, entry 0 is the start, every stored board is well formed, and each
/// non-start entry records a finalized predecessor one legal move and one
/// cost unit away.
spec fn search_inv(
    nodes: Seq<Board>,
    gs: Seq<usize>,
    parents: Seq<Option<usize>>,
    closed: Seq<bool>,
    start: Board,
) -> bool {
    &&& nodes.len() >= 1
    &&& gs.len() == nodes.len()
    &&& parents.len() == nodes.len()
    &&& closed.len() == nodes.len()
    &&& nodes[0] == start
    &&& gs[0] == 0
    &&& forall|i: int| 0 <= i < nodes.len() ==> (#[trigger] nodes[i]).wf()
    &&& forall|i1: int, i2: int|
        0 <= i1 < i2 < nodes.len() ==> (#[trigger] nodes[i1])@ != (#[trigger] nodes[i2])@
    &&& parents[0] is None
    &&& forall|i: int| 1 <= i < nodes.len() ==> (#[trigger] parents[i]) is Some
    &&& forall|i: int|
        0 <= i < nodes.len() ==> ((#[trigger] parents[i]) matches Some(p) ==> {
            &&& 0 <= p < nodes.len()
            &&& closed[p as int]
            &&& legal_move(nodes[p as int], nodes[i])
            &&& gs[i] == gs[p as int] + 1
        })
}

/// A legal move is preserved when either side is replaced by a board that
/// carries the same grid, blank and side length.
proof fn lemma_legal_move_same(a1: Board, a2: Board, b1: Board, b2: Board)
    requires
        legal_move(a1, b1),
        same_board(a2, a1),
        same_board(b2, b1),
        a2.wf(),
        b2.wf(),
    ensures
        legal_move(a2, b2),
{
}

/// True exactly when the two boards hold the same grid.
fn boards_equal(a: &Board, b: &Board) -> (eq: bool)
    requires
        a.wf(),
        b.wf(),
    ensures
        eq == (a@ == b@),
{
    if a.size != b.size {
        proof {
            assert(a@.len() != b@.len());
        }
        return false;
    }
    let n = a.size;
    let mut r: usize = 0;
    while r < n
        invariant
            a.wf(),
            b.wf(),
            n == a.size,
            n == b.size,
            r <= n,
            forall|i: int, j: int| 0 <= i < r && 0 <= j < n ==> (#[trigger] a@[i][j]) == b@[i][j],
        decreases n - r,
    {
        proof {
            assert(a@[r as int].len() == a.tiles@[r as int]@.len());
            assert(b@[r as int].len() == b.tiles@[r as int]@.len());
        }
        let mut c: usize = 0;
        while c < n
            invariant
                a.wf(),
                b.wf(),
                n == a.size,
                n == b.size,
                r < n,
                c <= n,
                a@[r as int].len() == n,
                b@[r as int].len() == n,
                forall|i: int, j: int|
                    0 <= i < r && 0 <= j < n ==> (#[trigger] a@[i][j]) == b@[i][j],
                forall|j: int| 0 <= j < c ==> (#[trigger] a@[r as int][j]) == b@[r as int][j],
            decreases n - c,
        {
            proof {
                assert(a@[r as int][c as int] == a.tiles@[r as int]@[c as int]);
                assert(b@[r as int][c as int] == b.tiles@[r as int]@[c as int]);
            }
            if a.tiles[r][c] != b.tiles[r][c] {
                proof {
                    assert(a@[r as int][c as int] != b@[r as int][c as int]);
                }
                return false;
            }
            c += 1;
        }
        r += 1;
    }
    proof {
        assert forall|i: int| 0 <= i < n implies (#[trigger] a@[i]) =~= b@[i] by {
            assert(a@[i].len() == a.tiles@[i]@.len());
            assert(b@[i].len() == b.tiles@[i]@.len());
        };
        assert(a@ =~= b@);
    }
    true
}

/// A cheap grid fingerprint used only to pick a hash bucket; lookups confirm
/// candidates with `boards_equal`, so nothing depends on its distribution.
/// One fingerprint step: fold a cell value into the running hash.
spec fn fp_step(h: u64, v: u8) -> u64 {
    vstd::wrapping::u64_specs::wrapping_add(
        vstd::wrapping::u64_specs::wrapping_mul(h, 0x100000001b3u64),
        v as u64,
    )
}

/// Fingerprint of the first c_end cells of a row, folded onto h.
spec fn fp_row(row: Seq<u8>, h: u64, c_end: int) -> u64
    decreases c_end,
{
    if c_end <= 0 {
        h
    } else {
        fp_step(fp_row(row, h, c_end - 1), row[c_end - 1])
    }
}

/// Fingerprint of the first r_end full rows, folded onto h.
spec fn fp_grid(t: Seq<Seq<u8>>, h: u64, r_end: int) -> u64
    decreases r_end,
{
    if r_end <= 0 {
        h
    } else {
        fp_row(t[r_end - 1], fp_grid(t, h, r_end - 1), t[r_end - 1].len() as int)
    }
}

/// The grid fingerprint: a pure function of the grid, so equal grids always
/// land in the same index bucket.
#[verifier::opaque]
spec fn spec_fingerprint(t: Seq<Seq<u8>>) -> u64 {
    fp_grid(t, 0xcbf29ce484222325u64, t.len() as int)
}

fn fingerprint(b: &Board) -> (h: u64)
    requires
        b.wf(),
    ensures
        h == spec_fingerprint(b@),
{
    let n = b.size;
    let mut h: u64 = 0xcbf29ce484222325u64;
    let mut r: usize = 0;
    while r < n
        invariant
            b.wf(),
            n == b.size,
            r <= n,
            h == fp_grid(b@, 0xcbf29ce484222325u64, r as int),
        decreases n - r,
    {
        proof {
            assert(b@[r as int].len() == b.tiles@[r as int]@.len());
        }
        let mut c: usize = 0;
        while c < n
            invariant
                b.wf(),
                n == b.size,
                r < n,
                c <= n,
                b@[r as int].len() == n,
                h == fp_row(b@[r as int], fp_grid(b@, 0xcbf29ce484222325u64, r as int), c as int),
            decreases n - c,
        {
            proof {
                assert(b@[r as int][c as int] == b.tiles@[r as int]@[c as int]);
            }
            h = h.wrapping_mul(0x100000001b3u64).wrapping_add(b.tiles[r][c] as u64);
            c += 1;
        }
        r += 1;
    }
    proof {
        assert(h == spec_fingerprint(b@)) by {
            reveal(spec_fingerprint);
        };
    }
    h
}

/// The bucket a grid falls into, among nb buckets.
spec fn bucket_of(t: Seq<Seq<u8>>, nb: int) -> int {
    spec_fingerprint(t) as int % nb
}

/// Every arena entry is recorded in the bucket of its grid's fingerprint, so
/// a bucket miss proves the grid is new to the arena.
spec fn index_complete(index: Seq<Vec<usize>>, nodes: Seq<Board>) -> bool {
    forall|i: int|
        0 <= i < nodes.len() ==> index[bucket_of(
            (#[trigger] nodes[i])@,
            index.len() as int,
        )]@.contains(i as usize)
}

/// Look a board up in the duplicate index. A returned index always refers to
/// an arena entry holding the same grid, and a miss means no arena entry
/// holds this grid.
fn find_node(nodes: &Vec<Board>, index: &Vec<Vec<usize>>, b: &Board) -> (res: Option<usize>)
    requires
        b.wf(),
        index@.len() > 0,
        forall|i: int| 0 <= i < nodes@.len() ==> (#[trigger] nodes@[i]).wf(),
        entries_bounded(index@, nodes@.len() as int),
        index_complete(index@, nodes@),
    ensures
        res matches Some(i) ==> i < nodes@.len() && nodes@[i as int]@ == b@,
        res is None ==> forall|i: int| 0 <= i < nodes@.len() ==> (#[trigger] nodes@[i])@ != b@,
{
    let fp = fingerprint(b);
    let k = (fp % (index.len() as u64)) as usize;
    proof {
        assert(fp % (index@.len() as u64) < index@.len() as u64);
        assert(k as int == bucket_of(b@, index@.len() as int));
    }
    let mut j: usize = 0;
    while j < index[k].len()
        invariant
            b.wf(),
            forall|i: int| 0 <= i < nodes@.len() ==> (#[trigger] nodes@[i]).wf(),
            entries_bounded(index@, nodes@.len() as int),
            index_complete(index@, nodes@),
            k < index@.len(),
            k as int == bucket_of(b@, index@.len() as int),
            j <= index@[k as int]@.len(),
            forall|j2: int|
                0 <= j2 < j ==> nodes@[(#[trigger] index@[k as int]@[j2]) as int]@ != b@,
        decreases index@[k as int]@.len() - j,
    {
        let i = index[k][j];
        proof {
            assert(index@[k as int]@[j as int] < nodes@.len());
        }
        if boards_equal(&nodes[i], b) {
            return Some(i);
        }
        j += 1;
    }
    proof {
        assert forall|i: int| 0 <= i < nodes@.len() implies (#[trigger] nodes@[i])@ != b@ by {
            if nodes@[i]@ == b@ {
                vstd::std_specs::vec::axiom_spec_len(nodes);
                assert(0 <= i < usize::MAX as int + 1);
                let bk = bucket_of(nodes@[i]@, index@.len() as int);
                assert(bk == k as int);
                assert(index@[bk]@.contains(i as usize));
                let j2 = choose|j2: int|
                    0 <= j2 < index@[bk]@.len() && index@[bk]@[j2] == i as usize;
                assert(nodes@[index@[k as int]@[j2] as int]@ != b@);
                assert(false);
            }
        };
    }
    None
}

/// Append a frontier entry in the bucket of its f-value.
fn frontier_push(fr: &mut Vec<Vec<usize>>, f: usize, idx: usize, bound: usize)
    requires
        entries_bounded(old(fr)@, bound as int),
        idx < bound,
    ensures
        entries_bounded(final(fr)@, bound as int),
{
    while fr.len() <= f
        invariant
            entries_bounded(fr@, bound as int),
        decreases f + 1 - fr@.len(),
    {
        fr.push(Vec::new());
        proof {
            assert forall|k: int, j: int|
                0 <= k < fr@.len() && 0 <= j < (#[trigger] fr@[k])@.len() implies (
            #[trigger] fr@[k]@[j]) < bound as int by {
                assert(k < fr@.len() - 1);
            };
        }
    }
    let bucket = &mut fr[f];
    bucket.push(idx);
    proof {
        assert forall|k: int, j: int|
            0 <= k < fr@.len() && 0 <= j < (#[trigger] fr@[k])@.len() implies (
        #[trigger] fr@[k]@[j]) < bound as int by {
            if k == f {
                if j < fr@[k]@.len() - 1 {
                } else {
                    assert(fr@[k]@[j] == idx);
                }
            }
        };
    }
}

/// Remove and return an entry from the lowest non-empty f-bucket, or report
/// an exhausted frontier.
fn frontier_pop(fr: &mut Vec<Vec<usize>>, bound: usize) -> (res: Option<usize>)
    requires
        entries_bounded(old(fr)@, bound as int),
    ensures
        entries_bounded(final(fr)@, bound as int),
        res matches Some(i) ==> i < bound,
{
    let mut k: usize = 0;
    while k < fr.len()
        invariant
            entries_bounded(fr@, bound as int),
            k <= fr@.len(),
        decreases fr@.len() - k,
    {
        if fr[k].len() > 0 {
            let bucket = &mut fr[k];
            let got = bucket.pop();
            match got {
                Some(i) => {
                    return Some(i);
                },
                None => {
                    k += 1;
                },
            }
        } else {
            k += 1;
        }
    }
    None
}

/// Append a newly discovered board to the arena: record its predecessor,
/// cost and closed flag, and file it in the duplicate index.
#[verifier::rlimit(100)]
fn record_new_node(
    nodes: &mut Vec<Board>,
    gs: &mut Vec<usize>,
    parents: &mut Vec<Option<usize>>,
    closed: &mut Vec<bool>,
    index: &mut Vec<Vec<usize>>,
    nb: &Board,
    cur: usize,
    t: usize,
    Ghost(start0): Ghost<Board>,
) -> (j: usize)
    requires
        search_inv(old(nodes)@, old(gs)@, old(parents)@, old(closed)@, start0),
        index_complete(old(index)@, old(nodes)@),
        entries_bounded(old(index)@, old(nodes)@.len() as int),
        old(index)@.len() == INDEX_BUCKETS,
        cur < old(nodes)@.len(),
        old(closed)@[cur as int],
        legal_move(old(nodes)@[cur as int], *nb),
        t == old(gs)@[cur as int] + 1,
        forall|i: int| 0 <= i < old(nodes)@.len() ==> (#[trigger] old(nodes)@[i])@ != nb@,
    ensures
        search_inv(final(nodes)@, final(gs)@, final(parents)@, final(closed)@, start0),
        index_complete(final(index)@, final(nodes)@),
        entries_bounded(final(index)@, final(nodes)@.len() as int),
        final(index)@.len() == INDEX_BUCKETS,
        j == old(nodes)@.len(),
        final(nodes)@.len() == old(nodes)@.len() + 1,
        forall|i: int| 0 <= i < old(nodes)@.len() ==> final(nodes)@[i] == old(nodes)@[i],
        final(gs)@[cur as int] == old(gs)@[cur as int],
        final(closed)@ == old(closed)@.push(false),
{
    let j = nodes.len();
    let nbc = nb.duplicate();
    proof {
        lemma_legal_move_same(old(nodes)@[cur as int], old(nodes)@[cur as int], *nb, nbc);
    }
    nodes.push(nbc);
    gs.push(t);
    parents.push(Some(cur));
    closed.push(false);
    proof {
        assert(nodes@[j as int] == nbc);
        assert forall|i2: int|
            0 <= i2 < nodes@.len() implies ((#[trigger] parents@[i2]) matches Some(p2) ==> {
            &&& 0 <= p2 < nodes@.len()
            &&& closed@[p2 as int]
            &&& legal_move(nodes@[p2 as int], nodes@[i2])
            &&& gs@[i2] == gs@[p2 as int] + 1
        }) by {
            if i2 < j as int {
                match parents@[i2] {
                    Some(p2) => {
                        assert(closed@[p2 as int]);
                    },
                    None => {},
                }
            }
        };
        assert forall|i1: int, i2: int|
            0 <= i1 < i2 < nodes@.len() implies (#[trigger] nodes@[i1])@ != (
        #[trigger] nodes@[i2])@ by {
            if i2 == j as int {
                assert(old(nodes)@[i1]@ != nb@);
                assert(nbc@ == nb@);
            }
        };
        assert(search_inv(nodes@, gs@, parents@, closed@, start0));
    }
    proof {
        assert(nodes@.subrange(0, j as int) =~= old(nodes)@);
    }
    index_insert(index, nodes, j);
    j
}

/// File arena entry j, the one just appended, in its fingerprint bucket.
#[verifier::rlimit(100)]
fn index_insert(index: &mut Vec<Vec<usize>>, nodes: &Vec<Board>, j: usize)
    requires
        j + 1 == nodes@.len(),
        forall|i: int| 0 <= i < nodes@.len() ==> (#[trigger] nodes@[i]).wf(),
        old(index)@.len() == INDEX_BUCKETS,
        entries_bounded(old(index)@, j as int),
        index_complete(old(index)@, nodes@.subrange(0, j as int)),
    ensures
        final(index)@.len() == INDEX_BUCKETS,
        entries_bounded(final(index)@, nodes@.len() as int),
        index_complete(final(index)@, nodes@),
{
    let fpn = {
        let nref = &nodes[j];
        fingerprint(nref)
    };
    let kn = (fpn % (INDEX_BUCKETS as u64)) as usize;
    proof {
        assert(fpn % (INDEX_BUCKETS as u64) < INDEX_BUCKETS as u64);
    }
    let bkt = &mut index[kn];
    bkt.push(j);
    proof {
        let ghost prefix = nodes@.subrange(0, j as int);
        assert forall|q: int, j2: int|
            0 <= q < index@.len() && 0 <= j2 < (#[trigger] index@[q])@.len() implies (
        #[trigger] index@[q]@[j2]) < nodes@.len() as int by {};
        assert(kn as int == bucket_of(nodes@[j as int]@, index@.len() as int));
        assert forall|i: int| 0 <= i < nodes@.len() implies index@[bucket_of(
            (#[trigger] nodes@[i])@,
            index@.len() as int,
        )]@.contains(i as usize) by {
            vstd::std_specs::vec::axiom_spec_len(nodes);
            assert(0 <= i < usize::MAX as int + 1);
            if i == j as int {
                assert(index@[kn as int]@[index@[kn as int]@.len() - 1] == j);
                assert(index@[kn as int]@.contains(i as usize));
            } else {
                assert(prefix[i] == nodes@[i]);
                let bk = bucket_of(prefix[i]@, old(index)@.len() as int);
                assert(old(index)@[bk]@.contains(i as usize));
                let j2 = choose|j2: int|
                    0 <= j2 < old(index)@[bk]@.len() && old(index)@[bk]@[j2] == i as usize;
                assert(index@[bk]@[j2] == i as usize);
                assert(index@[bk]@.contains(i as usize));
            }
        };
        assert(index_complete(index@, nodes@));
    }
}

/// Walk the predecessor chain back from a popped goal entry and return the
/// start-to-goal path.
#[verifier::rlimit(100)]
fn reconstruct_path(
    nodes: &Vec<Board>,
    gs: &Vec<usize>,
    parents: &Vec<Option<usize>>,
    closed: &Vec<bool>,
    cur: usize,
    Ghost(start0): Ghost<Board>,
) -> (path: Vec<Board>)
    requires
        search_inv(nodes@, gs@, parents@, closed@, start0),
        cur < nodes@.len(),
        spec_is_goal(nodes@[cur as int]@),
        start0.wf(),
    ensures
        valid_path(start0, path@),
        path@.len() - 1 >= spec_manhattan(start0@),
        forall|x: int, y: int|
            0 <= x < y < path@.len() ==> (#[trigger] path@[x])@ != (#[trigger] path@[y])@,
{
    let mut rev: Vec<Board> = Vec::new();
    let first = {
        let nref = &nodes[cur];
        nref.duplicate()
    };
    rev.push(first);
    let mut i: usize = cur;
    let ghost mut idxs: Seq<int> = seq![cur as int];
    loop
        invariant
            search_inv(nodes@, gs@, parents@, closed@, start0),
            i < nodes@.len(),
            rev@.len() >= 1,
            spec_is_goal(rev@[0]@),
            forall|q: int| 0 <= q < rev@.len() ==> (#[trigger] rev@[q]).wf(),
            forall|q: int|
                0 <= q < rev@.len() - 1 ==> legal_move(rev@[q + 1], #[trigger] rev@[q]),
            same_board(rev@[rev@.len() - 1], nodes@[i as int]),
            idxs.len() == rev@.len(),
            idxs[idxs.len() - 1] == i as int,
            forall|q: int| 0 <= q < idxs.len() ==> 0 <= #[trigger] idxs[q] < nodes@.len(),
            forall|q: int|
                0 <= q < idxs.len() ==> same_board(rev@[q], nodes@[#[trigger] idxs[q]]),
            forall|q: int|
                0 <= q < idxs.len() ==> gs@[#[trigger] idxs[q]] == gs@[i as int] + (
                idxs.len() - 1 - q),
        ensures
            rev@.len() >= 1,
            spec_is_goal(rev@[0]@),
            forall|q: int| 0 <= q < rev@.len() ==> (#[trigger] rev@[q]).wf(),
            forall|q: int|
                0 <= q < rev@.len() - 1 ==> legal_move(rev@[q + 1], #[trigger] rev@[q]),
            same_board(rev@[rev@.len() - 1], start0),
            forall|q1: int, q2: int|
                0 <= q1 < q2 < rev@.len() ==> (#[trigger] rev@[q1])@ != (
                #[trigger] rev@[q2])@,
        decreases gs@[i as int],
    {
        let pi = parents[i];
        match pi {
            None => {
                proof {
                    assert(i == 0);
                    assert(nodes@[0] == start0);
                    assert forall|q1: int, q2: int|
                        0 <= q1 < q2 < rev@.len() implies (#[trigger] rev@[q1])@ != (
                    #[trigger] rev@[q2])@ by {
                        assert(gs@[idxs[q1]] > gs@[idxs[q2]]);
                        assert(idxs[q1] != idxs[q2]);
                        if idxs[q1] < idxs[q2] {
                            assert(nodes@[idxs[q1]]@ != nodes@[idxs[q2]]@);
                        } else {
                            assert(nodes@[idxs[q2]]@ != nodes@[idxs[q1]]@);
                        }
                        assert(rev@[q1]@ == nodes@[idxs[q1]]@);
                        assert(rev@[q2]@ == nodes@[idxs[q2]]@);
                    };
                }
                break ;
            },
            Some(p) => {
                proof {
                    assert(parents@[i as int] matches Some(pp) && pp == p);
                }
                let pb = {
                    let nref = &nodes[p];
                    nref.duplicate()
                };
                proof {
                    lemma_legal_move_same(
                        nodes@[p as int],
                        pb,
                        nodes@[i as int],
                        rev@[rev@.len() - 1],
                    );
                }
                rev.push(pb);
                proof {
                    idxs = idxs.push(p as int);
                }
                i = p;
            },
        }
    }
    let ghost revsnap = rev@;
    let mut path: Vec<Board> = Vec::new();
    while rev.len() > 0
        invariant
            rev@ == revsnap.subrange(0, rev@.len() as int),
            path@.len() + rev@.len() == revsnap.len(),
            forall|q: int|
                0 <= q < path@.len() ==> (#[trigger] path@[q]) == revsnap[revsnap.len()
                    - 1 - q],
        decreases rev@.len(),
    {
        let got = rev.pop();
        match got {
            Some(bb) => {
                path.push(bb);
            },
            None => {},
        }
    }
    proof {
        let l = revsnap.len() as int;
        assert(path@.len() == l);
        assert(same_board(path@[0], start0));
        assert forall|q: int| 0 <= q < l - 1 implies legal_move(
            #[trigger] path@[q],
            path@[q + 1],
        ) by {
            assert(path@[q] == revsnap[l - 1 - q]);
            assert(path@[q + 1] == revsnap[l - 2 - q]);
            assert(legal_move(revsnap[(l - 2 - q) + 1], revsnap[l - 2 - q]));
        };
        assert(spec_is_goal(path@[l - 1]@));
        assert(valid_path(start0, path@));
        lemma_manhattan_admissible(start0, path@);
        assert forall|x: int, y: int| 0 <= x < y < path@.len() implies (
        #[trigger] path@[x])@ != (#[trigger] path@[y])@ by {
            assert(path@[x] == revsnap[l - 1 - x]);
            assert(path@[y] == revsnap[l - 1 - y]);
            assert(revsnap[l - 1 - y]@ != revsnap[l - 1 - x]@);
        };
    }
    path
}

/// A* search with the Manhattan-distance heuristic. On success the returned
/// sequence runs from `start` to the goal board inclusive, advancing by one
/// legal move per step; a board that is already the goal yields the
/// one-element path. `None` signals that the frontier was exhausted without
/// reaching the goal, and is never returned for the goal board itself.
#[verifier::rlimit(100)]
pub fn a_star(start: Board) -> (res: Option<Vec<Board>>)
    requires
        start.wf(),
    ensures
        res matches Some(p) ==> valid_path(start, p@),
        spec_is_goal(start@) ==> (res matches Some(p) && p@.len() == 1),
        res is None ==> !spec_is_goal(start@),
        res matches Some(p) ==> p@.len() - 1 >= spec_manhattan(start@),
        res matches Some(p) ==> (forall|x: int, y: int|
            0 <= x < y < p@.len() ==> (#[trigger] p@[x])@ != (#[trigger] p@[y])@),
{
    if start.is_goal() {
        proof {
            lemma_manhattan_goal(start@);
        }
        let mut path: Vec<Board> = Vec::new();
        path.push(start);
        return Some(path);
    }
    let ghost start0 = start;
    let mut nodes: Vec<Board> = Vec::new();
    let mut gs: Vec<usize> = Vec::new();
    let mut parents: Vec<Option<usize>> = Vec::new();
    let mut closed: Vec<bool> = Vec::new();
    let mut index: Vec<Vec<usize>> = Vec::new();
    let mut k: usize = 0;
    while k < INDEX_BUCKETS
        invariant
            index@.len() == k,
            k <= INDEX_BUCKETS,
            forall|q: int| 0 <= q < index@.len() ==> (#[trigger] index@[q])@.len() == 0,
        decreases INDEX_BUCKETS - k,
    {
        index.push(Vec::new());
        k += 1;
    }
    let h0 = manhattan_distance(&start);
    let fp0 = fingerprint(&start);
    nodes.push(start);
    gs.push(0);
    parents.push(None);
    closed.push(false);
    let k0 = (fp0 % (INDEX_BUCKETS as u64)) as usize;
    proof {
        assert(fp0 % (INDEX_BUCKETS as u64) < INDEX_BUCKETS as u64);
    }
    let bkt0 = &mut index[k0];
    bkt0.push(0);
    proof {
        assert forall|q: int, j: int|
            0 <= q < index@.len() && 0 <= j < (#[trigger] index@[q])@.len() implies (
        #[trigger] index@[q]@[j]) < nodes@.len() as int by {
            assert(q == k0 as int && j == 0);
        };
        assert(k0 as int == bucket_of(nodes@[0]@, index@.len() as int));
        assert(index_complete(index@, nodes@)) by {
            assert(index@[k0 as int]@[0] == 0usize);
            assert(index@[k0 as int]@.contains(0usize));
        };
    }
    let mut frontier: Vec<Vec<usize>> = Vec::new();
    frontier_push(&mut frontier, h0, 0, nodes.len());
    // Step budget for the termination measure. The search ends when the
    // frontier empties (every reachable board explored, at most N*N! of
    // them); the budget of 2^64 - 1 frontier pops is far beyond any state
    // space this process could hold and is never the exit taken in practice.
    let mut fuel: u64 = u64::MAX;
    loop
        invariant
            start0 == start,
            start0.wf(),
            !spec_is_goal(start0@),
            search_inv(nodes@, gs@, parents@, closed@, start0),
            index@.len() == INDEX_BUCKETS,
            entries_bounded(index@, nodes@.len() as int),
            index_complete(index@, nodes@),
            entries_bounded(frontier@, nodes@.len() as int),
        decreases fuel,
    {
        if fuel == 0 {
            return None;
        }
        fuel = fuel - 1;
        let popped = frontier_pop(&mut frontier, nodes.len());
        let cur = match popped {
            Some(i) => i,
            None => {
                return None;
            },
        };
        if !closed[cur] {
            let goal_here = {
                let nref = &nodes[cur];
                nref.is_goal()
            };
            if goal_here {
                let path = reconstruct_path(
                    &nodes,
                    &gs,
                    &parents,
                    &closed,
                    cur,
                    Ghost(start0),
                );
                return Some(path);
            } else {
                closed.set(cur, true);
                proof {
                    assert forall|i2: int|
                        0 <= i2 < nodes@.len() implies ((#[trigger] parents@[i2]) matches Some(p2)
                        ==> {
                        &&& 0 <= p2 < nodes@.len()
                        &&& closed@[p2 as int]
                        &&& legal_move(nodes@[p2 as int], nodes@[i2])
                        &&& gs@[i2] == gs@[p2 as int] + 1
                    }) by {};
                }
                let nbrs = {
                    let nref = &nodes[cur];
                    nref.neighbors()
                };
                let ghost curb = nodes@[cur as int];
                let gcur = gs[cur];
                let mut m: usize = 0;
                while m < nbrs.len()
                    invariant
                        start0.wf(),
                        !spec_is_goal(start0@),
                        search_inv(nodes@, gs@, parents@, closed@, start0),
                        index@.len() == INDEX_BUCKETS,
                        entries_bounded(index@, nodes@.len() as int),
                        index_complete(index@, nodes@),
                        entries_bounded(frontier@, nodes@.len() as int),
                        cur < nodes@.len(),
                        closed@[cur as int],
                        curb == nodes@[cur as int],
                        gcur == gs@[cur as int],
                        m <= nbrs@.len(),
                        forall|q: int|
                            0 <= q < nbrs@.len() ==> legal_move(curb, (#[trigger] nbrs@[q]).0),
                    decreases nbrs@.len() - m,
                {
                    let nb = &nbrs[m].0;
                    proof {
                        assert(legal_move(curb, nbrs@[m as int].0));
                    }
                    let found = find_node(&nodes, &index, nb);
                    match found {
                        Some(j) => {
                            if !closed[j] {
                                match gcur.checked_add(1) {
                                    Some(t) => {
                                        if t < gs[j] {
                                            proof {
                                                lemma_view_determines(
                                                    nodes@[j as int],
                                                    nbrs@[m as int].0,
                                                );
                                                assert(legal_move(curb, nodes@[j as int]));
                                                assert(j != 0) by {
                                                    assert(gs@[0] == 0);
                                                };
                                                assert(j != cur);
                                            }
                                            gs.set(j, t);
                                            parents.set(j, Some(cur));
                                            proof {
                                                assert forall|i2: int|
                                                    0 <= i2 < nodes@.len() implies ((
                                                #[trigger] parents@[i2]) matches Some(p2) ==> {
                                                    &&& 0 <= p2 < nodes@.len()
                                                    &&& closed@[p2 as int]
                                                    &&& legal_move(nodes@[p2 as int], nodes@[i2])
                                                    &&& gs@[i2] == gs@[p2 as int] + 1
                                                }) by {
                                                    if i2 != j as int {
                                                        match parents@[i2] {
                                                            Some(p2) => {
                                                                assert(closed@[p2 as int]);
                                                                assert(p2 != j);
                                                            },
                                                            None => {},
                                                        }
                                                    }
                                                };
                                            }
                                            let h = manhattan_distance(nb);
                                            match t.checked_add(h) {
                                                Some(f) => {
                                                    frontier_push(&mut frontier, f, j, nodes.len());
                                                },
                                                None => {},
                                            }
                                        }
                                    },
                                    None => {},
                                }
                            }
                        },
                        None => {
                            match gcur.checked_add(1) {
                                Some(t) => {
                                    let j = record_new_node(
                                        &mut nodes,
                                        &mut gs,
                                        &mut parents,
                                        &mut closed,
                                        &mut index,
                                        nb,
                                        cur,
                                        t,
                                        Ghost(start0),
                                    );
                                    let h = {
                                        let nref = &nodes[j];
                                        manhattan_distance(nref)
                                    };
                                    match t.checked_add(h) {
                                        Some(f) => {
                                            frontier_push(&mut frontier, f, j, nodes.len());
                                        },
                                        None => {},
                                    }
                                },
                                None => {},
                            }
                        },
                    }
                    m += 1;
                }
            }
        }
    }
}

} // verus!
