use vstd::prelude::*;

verus! {

/// Why a tile grid was rejected at construction.
#[derive(Clone, Copy, Debug, PartialEq, Eq, Structural)]
pub enum BoardError {
    /// Fewer than two rows, or some row's length differs from the row count.
    NotSquare,
    /// No cell holds the blank value 0.
    MissingBlank,
    /// The cells are not a permutation of 0..N*N.
    InvalidValues,
}

/// An N x N sliding-tile board. `tiles` holds every value in `0..N*N` exactly
/// once, with 0 for the blank; `zero_pos` is the blank's (row, column) and
/// `size` is N. Valid boards satisfy `wf`.
#[derive(Debug)]
pub struct Board {
    pub tiles: Vec<Vec<u8>>,
    pub zero_pos: (usize, usize),
    pub size: usize,
}

impl View for Board {
    type V = Seq<Seq<u8>>;

    open spec fn view(&self) -> Seq<Seq<u8>> {
        self.tiles.deep_view()
    }
}

/// At least 2 x 2, and every row as long as the column of rows.
pub open spec fn grid_is_square(t: Seq<Seq<u8>>) -> bool {
    &&& 2 <= t.len()
    &&& forall|r: int| 0 <= r < t.len() ==> (#[trigger] t[r]).len() == t.len()
}

/// Every cell value lies below N*N.
pub open spec fn values_in_range(t: Seq<Seq<u8>>) -> bool {
    forall|r: int, c: int|
        0 <= r < t.len() && 0 <= c < t.len() ==> (#[trigger] t[r][c]) < t.len() * t.len()
}

/// No two distinct cells hold the same value.
pub open spec fn values_distinct(t: Seq<Seq<u8>>) -> bool {
    forall|r1: int, c1: int, r2: int, c2: int|
        0 <= r1 < t.len() && 0 <= c1 < t.len() && 0 <= r2 < t.len() && 0 <= c2 < t.len()
            && #[trigger] t[r1][c1] == #[trigger] t[r2][c2] ==> r1 == r2 && c1 == c2
}

/// Value `v` occurs somewhere in the grid.
pub open spec fn appears(t: Seq<Seq<u8>>, v: int) -> bool {
    exists|r: int, c: int| 0 <= r < t.len() && 0 <= c < t.len() && #[trigger] t[r][c] == v
}

/// Every value in 0..N*N occurs.
pub open spec fn covers_all(t: Seq<Seq<u8>>, v_limit: int) -> bool {
    forall|v: int| 0 <= v < v_limit ==> #[trigger] appears(t, v)
}

/// The grid is square and its cells are exactly the values 0..N*N, each once.
pub open spec fn grid_permutation(t: Seq<Seq<u8>>) -> bool {
    &&& grid_is_square(t)
    &&& values_in_range(t)
    &&& values_distinct(t)
    &&& covers_all(t, (t.len() * t.len()) as int)
}

/// The value the canonical goal arrangement puts at (r, c): row-major
/// ascending from 1, with the blank in the last cell.
pub open spec fn goal_value(r: int, c: int, n: int) -> int {
    if r == n - 1 && c == n - 1 {
        0
    } else {
        r * n + c + 1
    }
}

/// The grid matches the canonical goal arrangement.
pub open spec fn spec_is_goal(t: Seq<Seq<u8>>) -> bool {
    forall|r: int, c: int|
        0 <= r < t.len() && 0 <= c < t.len() ==> (#[trigger] t[r][c]) == goal_value(
            r,
            c,
            t.len() as int,
        )
}

impl Board {
    /// The structural invariant of a board.
    pub open spec fn wf(self) -> bool {
        &&& self.size == self.tiles@.len()
        &&& grid_permutation(self@)
        &&& self.zero_pos.0 < self.size
        &&& self.zero_pos.1 < self.size
        &&& self@[self.zero_pos.0 as int][self.zero_pos.1 as int] == 0
    }
}

/// A board's side length never exceeds 16: the largest tile value N*N-1 must
/// fit in a u8, so N*N <= 256.
pub proof fn lemma_wf_size_bound(b: Board)
    requires
        b.wf(),
    ensures
        2 <= b.size,
        b.size <= 16,
        b.size * b.size <= 256,
{
    let t = b@;
    let n = t.len() as int;
    assert(n * n - 1 >= 0) by (nonlinear_arith)
        requires
            n >= 2,
    ;
    assert(appears(t, n * n - 1));
    let (r0, c0) = choose|r0: int, c0: int|
        0 <= r0 < t.len() && 0 <= c0 < t.len() && #[trigger] t[r0][c0] == n * n - 1;
    assert(t[r0][c0] <= 255);
    assert(n <= 16) by (nonlinear_arith)
        requires
            n * n <= 256,
            n >= 2,
    ;
}

impl Board {
    /// Goal test: true exactly when the tiles are in the canonical goal
    /// arrangement (ascending row-major, blank last).
    pub fn is_goal(&self) -> (res: bool)
        requires
            self.wf(),
        ensures
            res == spec_is_goal(self@),
    {
        proof {
            lemma_wf_size_bound(*self);
        }
        let n = self.size;
        let mut r: usize = 0;
        while r < n
            invariant
                self.wf(),
                n == self.size,
                n <= 16,
                r <= n,
                forall|i: int, j: int|
                    0 <= i < r && 0 <= j < n ==> (#[trigger] self@[i][j]) == goal_value(
                        i,
                        j,
                        n as int,
                    ),
            decreases n - r,
        {
            let mut c: usize = 0;
            while c < n
                invariant
                    self.wf(),
                    n == self.size,
                    n <= 16,
                    r < n,
                    c <= n,
                    forall|i: int, j: int|
                        0 <= i < r && 0 <= j < n ==> (#[trigger] self@[i][j]) == goal_value(
                            i,
                            j,
                            n as int,
                        ),
                    forall|j: int|
                        0 <= j < c ==> (#[trigger] self@[r as int][j]) == goal_value(
                            r as int,
                            j,
                            n as int,
                        ),
                decreases n - c,
            {
                let expected: u8 = if r == n - 1 && c == n - 1 {
                    0u8
                } else {
                    proof {
                        assert(r * n + c + 1 < n * n || (r == n - 1 && c == n - 1))
                            by (nonlinear_arith)
                            requires
                                0 <= r < n,
                                0 <= c < n,
                        ;
                        assert(n * n <= 256) by (nonlinear_arith)
                            requires
                                0 <= n <= 16,
                        ;
                    }
                    (r * n + c + 1) as u8
                };
                proof {
                    assert(self@[r as int].len() == self.tiles@[r as int]@.len());
                    assert(self@[r as int].len() == n);
                }
                if self.tiles[r][c] != expected {
                    proof {
                        assert(self@[r as int][c as int] == self.tiles@[r as int]@[c as int]);
                        assert(self@[r as int][c as int] != goal_value(r as int, c as int, n as int));
                    }
                    return false;
                }
                c += 1;
            }
            r += 1;
        }
        true
    }
}

/// Two cells are orthogonally adjacent.
pub open spec fn adjacent(a: (usize, usize), b: (usize, usize)) -> bool {
    ||| a.0 == b.0 && (a.1 + 1 == b.1 || b.1 + 1 == a.1)
    ||| a.1 == b.1 && (a.0 + 1 == b.0 || b.0 + 1 == a.0)
}

/// The grid with the contents of (r1, c1) and (r2, c2) exchanged.
pub open spec fn grid_swap(t: Seq<Seq<u8>>, r1: int, c1: int, r2: int, c2: int) -> Seq<Seq<u8>> {
    Seq::new(
        t.len(),
        |r: int|
            Seq::new(
                t[r].len(),
                |c: int|
                    if r == r1 && c == c1 {
                        t[r2][c2]
                    } else if r == r2 && c == c2 {
                        t[r1][c1]
                    } else {
                        t[r][c]
                    },
            ),
    )
}

/// Two boards carry the same grid, blank position and side length.
pub open spec fn same_board(a: Board, b: Board) -> bool {
    a@ == b@ && a.size == b.size && a.zero_pos == b.zero_pos
}

/// `b` arises from `a` by one legal move: the blank slides to an orthogonally
/// adjacent cell, whose tile slides back into the blank's old cell.
pub open spec fn legal_move(a: Board, b: Board) -> bool {
    &&& a.wf()
    &&& b.wf()
    &&& b.size == a.size
    &&& adjacent(a.zero_pos, b.zero_pos)
    &&& b@ == grid_swap(
        a@,
        a.zero_pos.0 as int,
        a.zero_pos.1 as int,
        b.zero_pos.0 as int,
        b.zero_pos.1 as int,
    )
}

/// Exchanging two cells keeps the grid a permutation of 0..N*N.
pub proof fn lemma_swap_permutation(t: Seq<Seq<u8>>, r1: int, c1: int, r2: int, c2: int)
    requires
        grid_permutation(t),
        0 <= r1 < t.len(),
        0 <= c1 < t.len(),
        0 <= r2 < t.len(),
        0 <= c2 < t.len(),
    ensures
        grid_permutation(grid_swap(t, r1, c1, r2, c2)),
        grid_swap(t, r1, c1, r2, c2).len() == t.len(),
{
    let s = grid_swap(t, r1, c1, r2, c2);
    assert(s.len() == t.len());
    assert forall|r: int| 0 <= r < s.len() implies (#[trigger] s[r]).len() == s.len() by {
        assert(t[r].len() == t.len());
    };
    assert forall|r: int, c: int| 0 <= r < s.len() && 0 <= c < s.len() implies (#[trigger] s[r][c])
        < s.len() * s.len() by {
        if r == r1 && c == c1 {
            assert(s[r][c] == t[r2][c2]);
            assert(t[r2][c2] < t.len() * t.len());
        } else if r == r2 && c == c2 {
            assert(s[r][c] == t[r1][c1]);
            assert(t[r1][c1] < t.len() * t.len());
        } else {
            assert(s[r][c] == t[r][c]);
            assert(t[r][c] < t.len() * t.len());
        }
    };
    assert forall|a1: int, b1: int, a2: int, b2: int|
        0 <= a1 < s.len() && 0 <= b1 < s.len() && 0 <= a2 < s.len() && 0 <= b2 < s.len()
            && #[trigger] s[a1][b1] == #[trigger] s[a2][b2] implies a1 == a2 && b1 == b2 by {
        let x1 = if a1 == r1 && b1 == c1 { r2 } else if a1 == r2 && b1 == c2 { r1 } else { a1 };
        let y1 = if a1 == r1 && b1 == c1 { c2 } else if a1 == r2 && b1 == c2 { c1 } else { b1 };
        let x2 = if a2 == r1 && b2 == c1 { r2 } else if a2 == r2 && b2 == c2 { r1 } else { a2 };
        let y2 = if a2 == r1 && b2 == c1 { c2 } else if a2 == r2 && b2 == c2 { c1 } else { b2 };
        assert(s[a1][b1] == t[x1][y1]);
        assert(s[a2][b2] == t[x2][y2]);
        assert(t[x1][y1] == t[x2][y2]);
        assert(x1 == x2 && y1 == y2);
    };
    assert forall|v: int| 0 <= v < s.len() * s.len() implies #[trigger] appears(s, v) by {
        assert(appears(t, v));
        let (rw, cw) = choose|rw: int, cw: int|
            0 <= rw < t.len() && 0 <= cw < t.len() && #[trigger] t[rw][cw] == v;
        let xw = if rw == r1 && cw == c1 { r2 } else if rw == r2 && cw == c2 { r1 } else { rw };
        let yw = if rw == r1 && cw == c1 { c2 } else if rw == r2 && cw == c2 { c1 } else { cw };
        assert(s[xw][yw] == v);
    };
}

/// On well-formed boards, the grid alone determines the side length and the
/// blank's position.
pub proof fn lemma_view_determines(a: Board, b: Board)
    requires
        a.wf(),
        b.wf(),
        a@ == b@,
    ensures
        a.size == b.size,
        a.zero_pos == b.zero_pos,
{
    assert(a@[a.zero_pos.0 as int][a.zero_pos.1 as int] == 0);
    assert(b@[b.zero_pos.0 as int][b.zero_pos.1 as int] == 0);
    assert(a@[b.zero_pos.0 as int][b.zero_pos.1 as int] == a@[a.zero_pos.0 as int][a.zero_pos.1 as int]);
}

/// How many orthogonal moves the blank at (zr, zc) has on an N x N board.
pub open spec fn num_moves(zr: int, zc: int, n: int) -> int {
    (if zr > 0 {
        1int
    } else {
        0int
    }) + (if zr + 1 < n {
        1int
    } else {
        0int
    }) + (if zc > 0 {
        1int
    } else {
        0int
    }) + (if zc + 1 < n {
        1int
    } else {
        0int
    })
}

/// The blank is in a corner: two legal moves.
pub open spec fn is_corner(zr: int, zc: int, n: int) -> bool {
    (zr == 0 || zr == n - 1) && (zc == 0 || zc == n - 1)
}

/// The blank is on a border but not in a corner: three legal moves.
pub open spec fn is_edge(zr: int, zc: int, n: int) -> bool {
    !is_corner(zr, zc, n) && (zr == 0 || zr == n - 1 || zc == 0 || zc == n - 1)
}

/// The blank is strictly inside: four legal moves.
pub open spec fn is_interior(zr: int, zc: int, n: int) -> bool {
    0 < zr < n - 1 && 0 < zc < n - 1
}

/// The blank's position class fixes the neighbour count: 2 in a corner, 3 on
/// an edge, 4 in the interior.
pub proof fn lemma_neighbor_count(b: Board)
    requires
        b.wf(),
    ensures
        is_corner(b.zero_pos.0 as int, b.zero_pos.1 as int, b.size as int) ==> num_moves(
            b.zero_pos.0 as int,
            b.zero_pos.1 as int,
            b.size as int,
        ) == 2,
        is_edge(b.zero_pos.0 as int, b.zero_pos.1 as int, b.size as int) ==> num_moves(
            b.zero_pos.0 as int,
            b.zero_pos.1 as int,
            b.size as int,
        ) == 3,
        is_interior(b.zero_pos.0 as int, b.zero_pos.1 as int, b.size as int) ==> num_moves(
            b.zero_pos.0 as int,
            b.zero_pos.1 as int,
            b.size as int,
        ) == 4,
        2 <= num_moves(b.zero_pos.0 as int, b.zero_pos.1 as int, b.size as int) <= 4,
{
}

/// (r1, c1) comes strictly before (r, c) in row-major order.
pub open spec fn cell_before(r1: int, c1: int, r: int, c: int) -> bool {
    r1 < r || (r1 == r && c1 < c)
}

/// Value `v` occurs in the row-major prefix that ends just before (r, c).
spec fn appears_before(t: Seq<Seq<u8>>, r: int, c: int, v: int) -> bool {
    exists|r1: int, c1: int|
        0 <= r1 < t.len() && 0 <= c1 < t.len() && cell_before(r1, c1, r, c) && #[trigger] t[r1][c1]
            == v
}

proof fn lemma_prefix_step(t: Seq<Seq<u8>>, r: int, c: int, w: int)
    requires
        0 <= r < t.len(),
        0 <= c < t.len(),
    ensures
        appears_before(t, r, c + 1, w) <==> (appears_before(t, r, c, w) || t[r][c] == w),
{
    if appears_before(t, r, c + 1, w) {
        let (r1, c1) = choose|r1: int, c1: int|
            0 <= r1 < t.len() && 0 <= c1 < t.len() && cell_before(r1, c1, r, c + 1)
                && #[trigger] t[r1][c1] == w;
        if !(r1 == r && c1 == c) {
            assert(cell_before(r1, c1, r, c));
        }
    }
    if appears_before(t, r, c, w) {
        let (r1, c1) = choose|r1: int, c1: int|
            0 <= r1 < t.len() && 0 <= c1 < t.len() && cell_before(r1, c1, r, c) && #[trigger] t[r1][c1]
                == w;
        assert(cell_before(r1, c1, r, c + 1));
    }
    if t[r][c] == w {
        assert(cell_before(r, c, r, c + 1));
        assert(appears_before(t, r, c + 1, w));
    }
}

proof fn lemma_prefix_row_wrap(t: Seq<Seq<u8>>, r: int, w: int)
    requires
        0 <= r < t.len(),
    ensures
        appears_before(t, r, t.len() as int, w) <==> appears_before(t, r + 1, 0, w),
{
    if appears_before(t, r, t.len() as int, w) {
        let (r1, c1) = choose|r1: int, c1: int|
            0 <= r1 < t.len() && 0 <= c1 < t.len() && cell_before(r1, c1, r, t.len() as int)
                && #[trigger] t[r1][c1] == w;
        assert(cell_before(r1, c1, r + 1, 0));
    }
    if appears_before(t, r + 1, 0, w) {
        let (r1, c1) = choose|r1: int, c1: int|
            0 <= r1 < t.len() && 0 <= c1 < t.len() && cell_before(r1, c1, r + 1, 0)
                && #[trigger] t[r1][c1] == w;
        assert(cell_before(r1, c1, r, t.len() as int));
    }
}

impl Board {
    /// Build a board from raw rows. Succeeds exactly when the grid is square
    /// (at least 2 x 2), holds a blank, and its cells are a permutation of
    /// 0..N*N; otherwise reports which of the three conditions failed first,
    /// checked in the order: shape, blank, value set.
    pub fn new(tiles: Vec<Vec<u8>>) -> (result: Result<Board, BoardError>)
        ensures
            match result {
                Ok(b) => {
                    &&& grid_permutation(tiles.deep_view())
                    &&& appears(tiles.deep_view(), 0)
                    &&& b.wf()
                    &&& b@ == tiles.deep_view()
                    &&& b.size == tiles@.len()
                },
                Err(BoardError::NotSquare) => !grid_is_square(tiles.deep_view()),
                Err(BoardError::MissingBlank) => grid_is_square(tiles.deep_view()) && !appears(
                    tiles.deep_view(),
                    0,
                ),
                Err(BoardError::InvalidValues) => grid_is_square(tiles.deep_view()) && appears(
                    tiles.deep_view(),
                    0,
                ) && !grid_permutation(tiles.deep_view()),
            },
    {
        let ghost t = tiles.deep_view();
        let n = tiles.len();
        if n < 2 {
            return Err(BoardError::NotSquare);
        }
        let mut r: usize = 0;
        while r < n
            invariant
                n == tiles@.len(),
                t == tiles.deep_view(),
                r <= n,
                forall|i: int| 0 <= i < r ==> (#[trigger] t[i]).len() == n,
            decreases n - r,
        {
            proof {
                assert(t[r as int].len() == tiles@[r as int]@.len());
            }
            if tiles[r].len() != n {
                return Err(BoardError::NotSquare);
            }
            r += 1;
        }
        assert(grid_is_square(t));
        // locate the blank
        let mut zr: usize = 0;
        let mut zc: usize = 0;
        let mut found = false;
        let mut rr: usize = 0;
        while rr < n
            invariant
                n == tiles@.len(),
                t == tiles.deep_view(),
                grid_is_square(t),
                rr <= n,
                found ==> zr < n && zc < n && t[zr as int][zc as int] == 0,
                !found ==> forall|i: int, j: int|
                    0 <= i < rr && 0 <= j < n ==> (#[trigger] t[i][j]) != 0,
            decreases n - rr,
        {
            let mut cc: usize = 0;
            while cc < n
                invariant
                    n == tiles@.len(),
                    t == tiles.deep_view(),
                    grid_is_square(t),
                    rr < n,
                    cc <= n,
                    found ==> zr < n && zc < n && t[zr as int][zc as int] == 0,
                    !found ==> forall|i: int, j: int|
                        0 <= i < rr && 0 <= j < n ==> (#[trigger] t[i][j]) != 0,
                    !found ==> forall|j: int| 0 <= j < cc ==> (#[trigger] t[rr as int][j]) != 0,
                decreases n - cc,
            {
                proof {
                    assert(t[rr as int].len() == tiles@[rr as int]@.len());
                }
                if !found && tiles[rr][cc] == 0 {
                    found = true;
                    zr = rr;
                    zc = cc;
                }
                cc += 1;
            }
            rr += 1;
        }
        if !found {
            proof {
                assert(!appears(t, 0)) by {
                    if appears(t, 0) {
                        let (r1, c1) = choose|r1: int, c1: int|
                            0 <= r1 < t.len() && 0 <= c1 < t.len() && #[trigger] t[r1][c1] == 0;
                        assert(t[r1][c1] != 0);
                    }
                };
            }
            return Err(BoardError::MissingBlank);
        }
        assert(appears(t, 0));
        // check the value set
        if n > 16 {
            proof {
                assert(n * n > 256) by (nonlinear_arith)
                    requires
                        n >= 17,
                ;
                if covers_all(t, (t.len() * t.len()) as int) {
                    assert(appears(t, 256));
                    let (r1, c1) = choose|r1: int, c1: int|
                        0 <= r1 < t.len() && 0 <= c1 < t.len() && #[trigger] t[r1][c1] == 256;
                    assert(t[r1][c1] <= 255);
                    assert(false);
                }
            }
            return Err(BoardError::InvalidValues);
        }
        proof {
            assert(n * n <= 256) by (nonlinear_arith)
                requires
                    2 <= n <= 16,
            ;
        }
        let nn = n * n;
        assert(nn == t.len() * t.len());
        let mut seen: Vec<bool> = Vec::new();
        let mut i: usize = 0;
        while i < nn
            invariant
                i <= nn,
                seen@.len() == i,
                forall|w: int| 0 <= w < i ==> !(#[trigger] seen@[w]),
            decreases nn - i,
        {
            seen.push(false);
            i += 1;
        }
        let mut r2: usize = 0;
        while r2 < n
            invariant
                n == tiles@.len(),
                t == tiles.deep_view(),
                grid_is_square(t),
                appears(t, 0),
                nn == t.len() * t.len(),
                n <= 16,
                nn <= 256,
                seen@.len() == nn,
                r2 <= n,
                forall|i1: int, j1: int|
                    0 <= i1 < t.len() && 0 <= j1 < t.len() && cell_before(i1, j1, r2 as int, 0)
                        ==> (#[trigger] t[i1][j1]) < nn,
                forall|i1: int, j1: int, i2: int, j2: int|
                    0 <= i1 < t.len() && 0 <= j1 < t.len() && 0 <= i2 < t.len() && 0 <= j2
                        < t.len() && cell_before(i1, j1, r2 as int, 0) && cell_before(
                        i2,
                        j2,
                        r2 as int,
                        0,
                    ) && #[trigger] t[i1][j1] == #[trigger] t[i2][j2] ==> i1 == i2 && j1 == j2,
                forall|w: int|
                    0 <= w < nn ==> ((#[trigger] seen@[w]) <==> appears_before(
                        t,
                        r2 as int,
                        0,
                        w,
                    )),
            decreases n - r2,
        {
            let mut c2: usize = 0;
            while c2 < n
                invariant
                    n == tiles@.len(),
                    t == tiles.deep_view(),
                    grid_is_square(t),
                    appears(t, 0),
                    nn == t.len() * t.len(),
                    n <= 16,
                    nn <= 256,
                    seen@.len() == nn,
                    r2 < n,
                    c2 <= n,
                    forall|i1: int, j1: int|
                        0 <= i1 < t.len() && 0 <= j1 < t.len() && cell_before(
                            i1,
                            j1,
                            r2 as int,
                            c2 as int,
                        ) ==> (#[trigger] t[i1][j1]) < nn,
                    forall|i1: int, j1: int, i2: int, j2: int|
                        0 <= i1 < t.len() && 0 <= j1 < t.len() && 0 <= i2 < t.len() && 0 <= j2
                            < t.len() && cell_before(i1, j1, r2 as int, c2 as int) && cell_before(
                            i2,
                            j2,
                            r2 as int,
                            c2 as int,
                        ) && #[trigger] t[i1][j1] == #[trigger] t[i2][j2] ==> i1 == i2 && j1 == j2,
                    forall|w: int|
                        0 <= w < nn ==> ((#[trigger] seen@[w]) <==> appears_before(
                            t,
                            r2 as int,
                            c2 as int,
                            w,
                        )),
                decreases n - c2,
            {
                proof {
                    assert(t[r2 as int].len() == tiles@[r2 as int]@.len());
                }
                let v = tiles[r2][c2];
                let vi = v as usize;
                if vi >= nn {
                    proof {
                        if values_in_range(t) {
                            assert(t[r2 as int][c2 as int] < t.len() * t.len());
                            assert(false);
                        }
                    }
                    return Err(BoardError::InvalidValues);
                }
                if seen[vi] {
                    proof {
                        assert(appears_before(t, r2 as int, c2 as int, vi as int));
                        let (r1, c1) = choose|r1: int, c1: int|
                            0 <= r1 < t.len() && 0 <= c1 < t.len() && cell_before(
                                r1,
                                c1,
                                r2 as int,
                                c2 as int,
                            ) && #[trigger] t[r1][c1] == vi as int;
                        assert(t[r1][c1] == t[r2 as int][c2 as int]);
                        assert(!(r1 == r2 as int && c1 == c2 as int));
                        assert(!values_distinct(t));
                    }
                    return Err(BoardError::InvalidValues);
                }
                seen.set(vi, true);
                proof {
                    assert forall|w: int| 0 <= w < nn implies ((#[trigger] seen@[w])
                        <==> appears_before(t, r2 as int, c2 as int + 1, w)) by {
                        lemma_prefix_step(t, r2 as int, c2 as int, w);
                    };
                }
                c2 += 1;
            }
            proof {
                assert forall|w: int| 0 <= w < nn implies ((#[trigger] seen@[w]) <==> appears_before(
                    t,
                    r2 as int + 1,
                    0,
                    w,
                )) by {
                    lemma_prefix_row_wrap(t, r2 as int, w);
                };
                assert forall|i1: int, j1: int|
                    0 <= i1 < t.len() && 0 <= j1 < t.len() && cell_before(i1, j1, r2 as int + 1, 0)
                        implies (#[trigger] t[i1][j1]) < nn by {
                    assert(cell_before(i1, j1, r2 as int, n as int));
                };
                assert forall|i1: int, j1: int, i2: int, j2: int|
                    0 <= i1 < t.len() && 0 <= j1 < t.len() && 0 <= i2 < t.len() && 0 <= j2 < t.len()
                        && cell_before(i1, j1, r2 as int + 1, 0) && cell_before(
                        i2,
                        j2,
                        r2 as int + 1,
                        0,
                    ) && #[trigger] t[i1][j1] == #[trigger] t[i2][j2] implies i1 == i2 && j1
                    == j2 by {
                    assert(cell_before(i1, j1, r2 as int, n as int));
                    assert(cell_before(i2, j2, r2 as int, n as int));
                };
            }
            r2 += 1;
        }
        proof {
            assert(values_in_range(t)) by {
                assert forall|i1: int, j1: int| 0 <= i1 < t.len() && 0 <= j1 < t.len() implies (
                #[trigger] t[i1][j1]) < t.len() * t.len() by {
                    assert(cell_before(i1, j1, n as int, 0));
                };
            };
            assert(values_distinct(t)) by {
                assert forall|i1: int, j1: int, i2: int, j2: int|
                    0 <= i1 < t.len() && 0 <= j1 < t.len() && 0 <= i2 < t.len() && 0 <= j2 < t.len()
                        && #[trigger] t[i1][j1] == #[trigger] t[i2][j2] implies i1 == i2 && j1
                    == j2 by {
                    assert(cell_before(i1, j1, n as int, 0));
                    assert(cell_before(i2, j2, n as int, 0));
                };
            };
        }
        let mut v2: usize = 0;
        while v2 < nn
            invariant
                n == tiles@.len(),
                t == tiles.deep_view(),
                grid_is_square(t),
                appears(t, 0),
                nn == t.len() * t.len(),
                seen@.len() == nn,
                v2 <= nn,
                forall|w: int| 0 <= w < nn ==> ((#[trigger] seen@[w]) <==> appears_before(
                    t,
                    n as int,
                    0,
                    w,
                )),
                forall|w: int| 0 <= w < v2 ==> #[trigger] appears(t, w),
            decreases nn - v2,
        {
            if !seen[v2] {
                proof {
                    assert(!appears(t, v2 as int)) by {
                        if appears(t, v2 as int) {
                            let (r1, c1) = choose|r1: int, c1: int|
                                0 <= r1 < t.len() && 0 <= c1 < t.len() && #[trigger] t[r1][c1]
                                    == v2 as int;
                            assert(cell_before(r1, c1, n as int, 0));
                            assert(appears_before(t, n as int, 0, v2 as int));
                        }
                    };
                    assert(!covers_all(t, (t.len() * t.len()) as int));
                }
                return Err(BoardError::InvalidValues);
            }
            proof {
                assert(appears_before(t, n as int, 0, v2 as int));
                let (r1, c1) = choose|r1: int, c1: int|
                    0 <= r1 < t.len() && 0 <= c1 < t.len() && cell_before(r1, c1, n as int, 0)
                        && #[trigger] t[r1][c1] == v2 as int;
                assert(appears(t, v2 as int));
            }
            v2 += 1;
        }
        assert(covers_all(t, (t.len() * t.len()) as int));
        let b = Board { tiles, zero_pos: (zr, zc), size: n };
        proof {
            assert(b@ == t);
            assert(b.wf());
        }
        Ok(b)
    }

    /// A fresh board with the same grid, blank position and side length.
    pub fn duplicate(&self) -> (b: Board)
        requires
            self.wf(),
        ensures
            same_board(b, *self),
            b.wf(),
    {
        let n = self.size;
        let mut rows: Vec<Vec<u8>> = Vec::new();
        let mut r: usize = 0;
        while r < n
            invariant
                self.wf(),
                n == self.size,
                r <= n,
                rows@.len() == r,
                forall|i: int| 0 <= i < r ==> (#[trigger] rows@[i]@).len() == n,
                forall|i: int, j: int|
                    0 <= i < r && 0 <= j < n ==> (#[trigger] rows@[i]@[j]) == self@[i][j],
            decreases n - r,
        {
            proof {
                assert(self@[r as int].len() == self.tiles@[r as int]@.len());
            }
            let mut row: Vec<u8> = Vec::new();
            let mut c: usize = 0;
            while c < n
                invariant
                    self.wf(),
                    n == self.size,
                    r < n,
                    c <= n,
                    row@.len() == c,
                    self@[r as int].len() == n,
                    forall|j: int| 0 <= j < c ==> (#[trigger] row@[j]) == self@[r as int][j],
                decreases n - c,
            {
                let v = self.tiles[r][c];
                proof {
                    assert(self@[r as int][c as int] == self.tiles@[r as int]@[c as int]);
                }
                row.push(v);
                c += 1;
            }
            rows.push(row);
            r += 1;
        }
        let b = Board { tiles: rows, zero_pos: self.zero_pos, size: n };
        proof {
            assert forall|i: int| 0 <= i < n implies (#[trigger] b@[i]) =~= self@[i] by {
                assert(b@[i] == rows@[i]@);
                assert(self@[i].len() == self.tiles@[i]@.len());
            };
            assert(b@ =~= self@);
        }
        b
    }

    /// The board after sliding the blank to the adjacent cell (nr, nc).
    fn moved(&self, nr: usize, nc: usize) -> (b: Board)
        requires
            self.wf(),
            nr < self.size,
            nc < self.size,
            adjacent(self.zero_pos, (nr, nc)),
        ensures
            legal_move(*self, b),
            b.zero_pos == (nr, nc),
            b.size == self.size,
    {
        let n = self.size;
        let (zr, zc) = self.zero_pos;
        proof {
            assert(self@[nr as int].len() == self.tiles@[nr as int]@.len());
        }
        let moved_tile = self.tiles[nr][nc];
        let ghost s = grid_swap(self@, zr as int, zc as int, nr as int, nc as int);
        let mut rows: Vec<Vec<u8>> = Vec::new();
        let mut r: usize = 0;
        while r < n
            invariant
                self.wf(),
                n == self.size,
                zr == self.zero_pos.0,
                zc == self.zero_pos.1,
                nr < n,
                nc < n,
                moved_tile == self@[nr as int][nc as int],
                s == grid_swap(self@, zr as int, zc as int, nr as int, nc as int),
                r <= n,
                rows@.len() == r,
                forall|i: int| 0 <= i < r ==> (#[trigger] rows@[i]@).len() == n,
                forall|i: int, j: int|
                    0 <= i < r && 0 <= j < n ==> (#[trigger] rows@[i]@[j]) == s[i][j],
            decreases n - r,
        {
            proof {
                assert(self@[r as int].len() == self.tiles@[r as int]@.len());
            }
            let mut row: Vec<u8> = Vec::new();
            let mut c: usize = 0;
            while c < n
                invariant
                    self.wf(),
                    n == self.size,
                    zr == self.zero_pos.0,
                    zc == self.zero_pos.1,
                    nr < n,
                    nc < n,
                    moved_tile == self@[nr as int][nc as int],
                    s == grid_swap(self@, zr as int, zc as int, nr as int, nc as int),
                    r < n,
                    c <= n,
                    row@.len() == c,
                    self@[r as int].len() == n,
                    forall|j: int| 0 <= j < c ==> (#[trigger] row@[j]) == s[r as int][j],
                decreases n - c,
            {
                let val: u8 = if r == zr && c == zc {
                    moved_tile
                } else if r == nr && c == nc {
                    0u8
                } else {
                    proof {
                        assert(self@[r as int][c as int] == self.tiles@[r as int]@[c as int]);
                    }
                    self.tiles[r][c]
                };
                proof {
                    assert(self@[r as int].len() == self.tiles@[r as int]@.len());
                    assert(s[r as int].len() == self@[r as int].len());
                    if r == zr && c == zc {
                        if !(r == nr && c == nc) {
                            assert(s[r as int][c as int] == self@[nr as int][nc as int]);
                        } else {
                            assert(s[r as int][c as int] == self@[zr as int][zc as int]);
                            assert(self@[zr as int][zc as int] == 0);
                            assert(moved_tile == 0);
                        }
                    } else if r == nr && c == nc {
                        assert(s[r as int][c as int] == self@[zr as int][zc as int]);
                        assert(self@[zr as int][zc as int] == 0);
                    } else {
                        assert(s[r as int][c as int] == self@[r as int][c as int]);
                    }
                }
                row.push(val);
                c += 1;
            }
            rows.push(row);
            r += 1;
        }
        let b = Board { tiles: rows, zero_pos: (nr, nc), size: n };
        proof {
            lemma_swap_permutation(self@, zr as int, zc as int, nr as int, nc as int);
            assert forall|i: int| 0 <= i < n implies (#[trigger] b@[i]) =~= s[i] by {
                assert(b@[i] == rows@[i]@);
                assert(s[i].len() == self@[i].len());
                assert(self@[i].len() == self.tiles@[i]@.len());
            };
            assert(b@ =~= s);
            assert(b@[nr as int][nc as int] == self@[zr as int][zc as int]);
            assert(b.wf());
        }
        b
    }

    /// All boards one legal move away, each paired with the uniform move cost
    /// of 1. There are 2 of them for a corner blank, 3 for an edge blank and
    /// 4 for an interior blank; their blank cells are exactly the in-bounds
    /// orthogonal neighbours of this board's blank cell.
    pub fn neighbors(&self) -> (res: Vec<(Board, usize)>)
        requires
            self.wf(),
        ensures
            res@.len() == num_moves(self.zero_pos.0 as int, self.zero_pos.1 as int, self.size as int),
            forall|i: int|
                0 <= i < res@.len() ==> (#[trigger] res@[i]).1 == 1 && legal_move(
                    *self,
                    res@[i].0,
                ),
            forall|p: (usize, usize)|
                p.0 < self.size && p.1 < self.size && #[trigger] adjacent(self.zero_pos, p)
                    ==> exists|i: int|
                    0 <= i < res@.len() && (#[trigger] res@[i]).0.zero_pos == p,
            forall|i: int, j: int|
                0 <= i < j < res@.len() ==> (#[trigger] res@[i]).0.zero_pos != (
                #[trigger] res@[j]).0.zero_pos,
    {
        proof {
            lemma_wf_size_bound(*self);
        }
        let n = self.size;
        let (zr, zc) = self.zero_pos;
        let mut res: Vec<(Board, usize)> = Vec::new();
        if zr > 0 {
            let b = self.moved(zr - 1, zc);
            res.push((b, 1));
        }
        if zr + 1 < n {
            let b = self.moved(zr + 1, zc);
            res.push((b, 1));
        }
        if zc > 0 {
            let b = self.moved(zr, zc - 1);
            res.push((b, 1));
        }
        if zc + 1 < n {
            let b = self.moved(zr, zc + 1);
            res.push((b, 1));
        }
        proof {
            let iu: int = 0;
            let id: int = if zr > 0 { 1int } else { 0int };
            let il: int = id + if zr + 1 < n { 1int } else { 0int };
            let ir: int = il + if zc > 0 { 1int } else { 0int };
            assert forall|p: (usize, usize)|
                p.0 < self.size && p.1 < self.size && #[trigger] adjacent(self.zero_pos, p)
                    implies exists|i: int|
                    0 <= i < res@.len() && (#[trigger] res@[i]).0.zero_pos == p by {
                if p.1 == zc && p.0 + 1 == zr {
                    assert(res@[iu].0.zero_pos == p);
                } else if p.1 == zc && p.0 == zr + 1 {
                    assert(res@[id].0.zero_pos == p);
                } else if p.0 == zr && p.1 + 1 == zc {
                    assert(res@[il].0.zero_pos == p);
                } else {
                    assert(p.0 == zr && p.1 == zc + 1);
                    assert(res@[ir].0.zero_pos == p);
                }
            };
        }
        res
    }
}

} // verus!
