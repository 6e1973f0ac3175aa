//! The layout of a fresh cloth: an `n` by `m` grid of particles, the springs
//! that join each particle to its neighbour above and to its right, and the
//! two anchored corners of the top row.
use vstd::prelude::*;

verus! {

/// A spring between the particles at grid cells `p1` and `p2`, each given as
/// `(row, column)`.
#[derive(Clone, Copy, Debug, PartialEq, Eq)]
pub struct Spring {
    pub p1: (usize, usize),
    pub p2: (usize, usize),
}

/// The grid bookkeeping of a cloth: its size, which particles are anchored,
/// and its springs.
pub struct Cloth {
    pub rows: usize,
    pub cols: usize,
    pub fixed: Vec<Vec<bool>>,
    pub springs: Vec<Spring>,
}

/// The spring from cell `(i, j)` to the cell one row up, `(i + 1, j)`.
pub open spec fn vertical_spring(i: usize, j: usize) -> Spring {
    Spring { p1: (i, j), p2: ((i + 1) as usize, j) }
}

/// The spring from cell `(i, j)` to the cell one column right, `(i, j + 1)`.
pub open spec fn horizontal_spring(i: usize, j: usize) -> Spring {
    Spring { p1: (i, j), p2: (i, (j + 1) as usize) }
}

/// The springs that start at cell `(i, j)` of an `n` by `m` grid: the
/// vertical one unless `i` is the last row, then the horizontal one unless
/// `j` is the last column.
pub open spec fn cell_springs(n: usize, m: usize, i: usize, j: usize) -> Seq<Spring> {
    (if i + 1 < n {
        seq![vertical_spring(i, j)]
    } else {
        Seq::empty()
    }) + (if j + 1 < m {
        seq![horizontal_spring(i, j)]
    } else {
        Seq::empty()
    })
}

/// The springs that start in the first `j` cells of row `i`, in column order.
pub open spec fn row_springs(n: usize, m: usize, i: usize, j: usize) -> Seq<Spring>
    decreases j,
{
    if j == 0 {
        Seq::empty()
    } else {
        row_springs(n, m, i, (j - 1) as usize) + cell_springs(n, m, i, (j - 1) as usize)
    }
}

/// The springs that start in the first `i` rows, row by row.
pub open spec fn grid_springs_upto(n: usize, m: usize, i: usize) -> Seq<Spring>
    decreases i,
{
    if i == 0 {
        Seq::empty()
    } else {
        grid_springs_upto(n, m, (i - 1) as usize) + row_springs(n, m, (i - 1) as usize, m)
    }
}

/// All springs of an `n` by `m` cloth, in the order in which they are made.
pub open spec fn grid_springs(n: usize, m: usize) -> Seq<Spring> {
    grid_springs_upto(n, m, n)
}

/// Whether the particle at `(i, j)` of an `n` by `m` cloth is anchored: the
/// first and the last particle of the top row are.
pub open spec fn is_anchor(n: usize, m: usize, i: int, j: int) -> bool {
    i == n - 1 && (j == 0 || j == m - 1)
}

/// The anchored flags of a cloth, row by row.
pub open spec fn fixed_view(fixed: Seq<Vec<bool>>) -> Seq<Seq<bool>> {
    fixed.map_values(|r: Vec<bool>| r@)
}

impl Cloth {
    /// The grid holds `rows` rows of `cols` flags, and every spring joins two
    /// neighbouring cells of the grid.
    pub open spec fn wf(&self) -> bool {
        &&& self.rows >= 1
        &&& self.cols >= 1
        &&& self.fixed@.len() == self.rows
        &&& forall|i: int| 0 <= i < self.rows ==> (#[trigger] self.fixed@[i])@.len() == self.cols
        &&& forall|k: int|
            0 <= k < self.springs@.len() ==> is_grid_edge(
                self.rows,
                self.cols,
                #[trigger] self.springs@[k],
            )
    }

    /// A fresh `n` by `m` cloth: the first and last particles of the top row
    /// (row `n - 1`) are anchored, and a spring joins every particle to the
    /// one above it and to the one on its right, cell by cell in row-major
    /// order, the upward spring first.
    pub fn new(n: usize, m: usize) -> (res: Cloth)
        requires
            n >= 1,
            m >= 1,
        ensures
            res.rows == n,
            res.cols == m,
            res.wf(),
            fixed_view(res.fixed@).len() == n,
            forall|i: int|
                0 <= i < n ==> #[trigger] fixed_view(res.fixed@)[i] == Seq::new(
                    m as nat,
                    |j: int| is_anchor(n, m, i, j),
                ),
            res.springs@ == grid_springs(n, m),
            forall|i: int, j: int|
                0 <= i < n && 0 <= j < m ==> (#[trigger] fixed_view(res.fixed@)[i][j] <==> (i
                    == n - 1 && (j == 0 || j == m - 1))),
            forall|i: int, j: int|
                0 <= i < n && 0 <= j < m && #[trigger] fixed_view(res.fixed@)[i][j] ==> (i, j)
                    == (n - 1, 0int) || (i, j) == (n - 1, m - 1),
    {
        let mut fixed: Vec<Vec<bool>> = Vec::new();
        for i in 0..n
            invariant
                n >= 1,
                m >= 1,
                fixed@.len() == i,
                forall|r: int|
                    0 <= r < i ==> (#[trigger] fixed@[r])@ == Seq::new(
                        m as nat,
                        |j: int| is_anchor(n, m, r, j),
                    ),
        {
            let mut row: Vec<bool> = Vec::new();
            for j in 0..m
                invariant
                    n >= 1,
                    m >= 1,
                    i < n,
                    row@ == Seq::new(j as nat, |c: int| is_anchor(n, m, i as int, c)),
            {
                row.push(i == n - 1 && (j == 0 || j == m - 1));
                assert(row@ =~= Seq::new((j + 1) as nat, |c: int| is_anchor(n, m, i as int, c)));
            }
            fixed.push(row);
        }
        let mut springs: Vec<Spring> = Vec::new();
        for i in 0..n
            invariant
                n >= 1,
                m >= 1,
                springs@ == grid_springs_upto(n, m, i),
        {
            for j in 0..m
                invariant
                    n >= 1,
                    m >= 1,
                    i < n,
                    springs@ == grid_springs_upto(n, m, i) + row_springs(n, m, i, j),
            {
                let ghost before = springs@;
                if i < n - 1 {
                    springs.push(Spring { p1: (i, j), p2: (i + 1, j) });
                }
                if j < m - 1 {
                    springs.push(Spring { p1: (i, j), p2: (i, j + 1) });
                }
                assert(springs@ =~= before + cell_springs(n, m, i, j));
                assert(row_springs(n, m, i, (j + 1) as usize) == row_springs(n, m, i, j)
                    + cell_springs(n, m, i, j));
                assert(springs@ =~= grid_springs_upto(n, m, i) + row_springs(
                    n,
                    m,
                    i,
                    (j + 1) as usize,
                ));
            }
            assert(grid_springs_upto(n, m, (i + 1) as usize) == grid_springs_upto(n, m, i)
                + row_springs(n, m, i, m));
        }
        proof {
            lemma_grid_springs_upto(n, m, n);
            lemma_anchors_are_top_corners(n, m);
            assert forall|i: int, j: int| 0 <= i < n && 0 <= j < m implies (
            #[trigger] fixed_view(fixed@)[i][j] <==> (i == n - 1 && (j == 0 || j == m - 1))) by {
                assert(fixed_view(fixed@)[i] == fixed@[i]@);
                assert(fixed@[i]@[j] == is_anchor(n, m, i, j));
            }
        }
        Cloth { rows: n, cols: m, fixed, springs }
    }
}

/// Whether `s` joins a cell of an `n` by `m` grid to the cell just above it
/// or just to its right.
pub open spec fn is_grid_edge(n: usize, m: usize, s: Spring) -> bool {
    ||| (s.p1.0 + 1 == s.p2.0 && s.p1.1 == s.p2.1 && s.p2.0 < n && s.p1.1 < m)
    ||| (s.p1.0 == s.p2.0 && s.p1.1 + 1 == s.p2.1 && s.p1.0 < n && s.p2.1 < m)
}

proof fn lemma_row_springs(n: usize, m: usize, i: usize, j: usize)
    requires
        i < n,
        j <= m,
        m >= 1,
    ensures
        forall|k: int|
            0 <= k < row_springs(n, m, i, j).len() ==> {
                let s = #[trigger] row_springs(n, m, i, j)[k];
                s.p1.0 == i && s.p1.1 < j && is_grid_edge(n, m, s)
            },
        row_springs(n, m, i, j).no_duplicates(),
        forall|s: Spring|
            is_grid_edge(n, m, s) && s.p1.0 == i && s.p1.1 < j ==> #[trigger] row_springs(
                n,
                m,
                i,
                j,
            ).contains(s),
        row_springs(n, m, i, j).len() == (if i + 1 < n {
            j as int
        } else {
            0
        }) + (if j < m {
            j as int
        } else {
            m - 1
        }),
    decreases j,
{
    if j > 0 {
        let jp = (j - 1) as usize;
        lemma_row_springs(n, m, i, jp);
        let prev = row_springs(n, m, i, jp);
        let cell = cell_springs(n, m, i, jp);
        assert(row_springs(n, m, i, j) == prev + cell);
        assert forall|k: int| 0 <= k < cell.len() implies {
            let s = #[trigger] cell[k];
            s.p1.0 == i && s.p1.1 == jp && is_grid_edge(n, m, s)
        } by {}
        assert(cell.no_duplicates());
        assert forall|a: int, b: int| 0 <= a < prev.len() && 0 <= b < cell.len() implies prev[a]
            != cell[b] by {
            assert(prev[a].p1.1 < jp);
        }
        vstd::seq_lib::lemma_no_dup_in_concat(prev, cell);
        let rs = prev + cell;
        assert forall|k: int| 0 <= k < rs.len() implies {
            let s = #[trigger] rs[k];
            s.p1.0 == i && s.p1.1 < j && is_grid_edge(n, m, s)
        } by {
            if k < prev.len() {
                assert(rs[k] == prev[k]);
            } else {
                assert(rs[k] == cell[k - prev.len()]);
            }
        }
        assert forall|s: Spring|
            is_grid_edge(n, m, s) && s.p1.0 == i && s.p1.1 < j implies #[trigger] rs.contains(
            s,
        ) by {
            if s.p1.1 < jp {
                assert(prev.contains(s));
                let k = choose|k: int| 0 <= k < prev.len() && prev[k] == s;
                assert(rs[k] == s);
            } else if s.p1.0 + 1 == s.p2.0 {
                assert(s == vertical_spring(i, jp));
                assert(rs[prev.len() as int] == s);
            } else {
                assert(s == horizontal_spring(i, jp));
                let k = rs.len() - 1;
                assert(rs[k] == s);
            }
        }
    }
}

proof fn lemma_grid_springs_upto(n: usize, m: usize, i: usize)
    requires
        i <= n,
        n >= 1,
        m >= 1,
    ensures
        forall|k: int|
            0 <= k < grid_springs_upto(n, m, i).len() ==> {
                let s = #[trigger] grid_springs_upto(n, m, i)[k];
                s.p1.0 < i && is_grid_edge(n, m, s)
            },
        grid_springs_upto(n, m, i).no_duplicates(),
        forall|s: Spring|
            is_grid_edge(n, m, s) && s.p1.0 < i ==> #[trigger] grid_springs_upto(
                n,
                m,
                i,
            ).contains(s),
        grid_springs_upto(n, m, i).len() == (if i < n {
            i as int
        } else {
            n - 1
        }) * m + i * (m - 1),
    decreases i,
{
    if i > 0 {
        let ip = (i - 1) as usize;
        lemma_grid_springs_upto(n, m, ip);
        lemma_row_springs(n, m, ip, m);
        let prev = grid_springs_upto(n, m, ip);
        let row = row_springs(n, m, ip, m);
        assert(grid_springs_upto(n, m, i) == prev + row);
        assert forall|a: int, b: int| 0 <= a < prev.len() && 0 <= b < row.len() implies prev[a]
            != row[b] by {
            assert(prev[a].p1.0 < ip);
            assert(row[b].p1.0 == ip);
        }
        vstd::seq_lib::lemma_no_dup_in_concat(prev, row);
        let gs = prev + row;
        assert forall|k: int| 0 <= k < gs.len() implies {
            let s = #[trigger] gs[k];
            s.p1.0 < i && is_grid_edge(n, m, s)
        } by {
            if k < prev.len() {
                assert(gs[k] == prev[k]);
            } else {
                assert(gs[k] == row[k - prev.len()]);
            }
        }
        assert forall|s: Spring| is_grid_edge(n, m, s) && s.p1.0 < i implies #[trigger] gs.contains(
            s,
        ) by {
            if s.p1.0 < ip {
                assert(prev.contains(s));
                let k = choose|k: int| 0 <= k < prev.len() && prev[k] == s;
                assert(gs[k] == s);
            } else {
                assert(row.contains(s));
                let k = choose|k: int| 0 <= k < row.len() && row[k] == s;
                assert(gs[prev.len() + k] == s);
            }
        }
        let mi = m as int;
        let ii = i as int;
        if i < n {
            assert((ii - 1) * mi + (ii - 1) * (mi - 1) + mi + (mi - 1) == ii * mi + ii * (mi - 1))
                by (nonlinear_arith);
        } else {
            assert((ii - 1) * mi + (ii - 1) * (mi - 1) + (mi - 1) == (ii - 1) * mi + ii * (mi - 1))
                by (nonlinear_arith);
        }
    }
}

/// The springs of an `n` by `m` cloth are exactly the edges of the grid, each
/// once: a spring joins every particle to its neighbour above and to its
/// neighbour on the right, and there are `(n - 1) * m + n * (m - 1)` of them.
pub proof fn lemma_springs_are_grid_edges(n: usize, m: usize)
    requires
        n >= 1,
        m >= 1,
    ensures
        forall|s: Spring| #[trigger] grid_springs(n, m).contains(s) <==> is_grid_edge(n, m, s),
        grid_springs(n, m).no_duplicates(),
        grid_springs(n, m).len() == (n - 1) * m + n * (m - 1),
{
    lemma_grid_springs_upto(n, m, n);
    let gs = grid_springs(n, m);
    assert forall|s: Spring| #[trigger] gs.contains(s) implies is_grid_edge(n, m, s) by {
        let k = choose|k: int| 0 <= k < gs.len() && gs[k] == s;
        assert(is_grid_edge(n, m, gs[k]));
    }
}

/// The anchored particles of an `n` by `m` cloth are exactly the two ends of
/// its top row, `(n - 1, 0)` and `(n - 1, m - 1)`: two of them when `m >= 2`,
/// one when `m == 1`; no other cell, in the top row or below it, is anchored.
pub proof fn lemma_anchors_are_top_corners(n: usize, m: usize)
    requires
        n >= 1,
        m >= 1,
    ensures
        forall|i: int, j: int|
            0 <= i < n && 0 <= j < m ==> (#[trigger] is_anchor(n, m, i, j) <==> (i == n - 1 && j
                == 0) || (i == n - 1 && j == m - 1)),
        Set::new(|c: (int, int)| 0 <= c.0 < n && 0 <= c.1 < m && is_anchor(n, m, c.0, c.1))
            == set![(n - 1, 0int), (n - 1, m - 1)],
        m >= 2 ==> set![(n - 1, 0int), (n - 1, m - 1)].len() == 2,
        m == 1 ==> set![(n - 1, 0int), (n - 1, m - 1)].len() == 1,
        forall|i: int, j: int|
            0 <= i < n && 0 < j < m - 1 ==> !#[trigger] is_anchor(n, m, i, j),
        forall|i: int, j: int| 0 <= i < n - 1 && 0 <= j < m ==> !#[trigger] is_anchor(n, m, i, j),
{
    let a = Set::new(|c: (int, int)| 0 <= c.0 < n && 0 <= c.1 < m && is_anchor(n, m, c.0, c.1));
    let b = set![(n - 1, 0int), (n - 1, m - 1)];
    assert(a =~= b);
    if m >= 2 {
        assert(b.len() == 2) by {
            assert(set![(n - 1, 0int)].len() == 1);
            assert(!set![(n - 1, 0int)].contains((n - 1, m - 1)));
        }
    } else {
        assert(b =~= set![(n - 1, 0int)]);
    }
}

} // verus!
