//! The index buffer that draws every spring of a cloth as a line between two
//! vertices of the row-major vertex list.
use vstd::prelude::*;
use crate::cloth::{Spring, grid_springs, lemma_springs_are_grid_edges, is_grid_edge};

verus! {

/// The vertex index of the particle at `p = (row, column)` in a vertex list
/// of `m` columns, computed on 16-bit values: row and column are each cut to
/// 16 bits, then `row * m + column`.
pub open spec fn line_index(p: (usize, usize), m: usize) -> int {
    ((p.0 as u16) as int) * ((m as u16) as int) + ((p.1 as u16) as int)
}

/// Whether both endpoints of every spring have a 16-bit vertex index.
pub open spec fn fits_u16(springs: Seq<Spring>, m: usize) -> bool {
    forall|k: int|
        0 <= k < springs.len() ==> line_index((#[trigger] springs[k]).p1, m) <= u16::MAX
            && line_index(springs[k].p2, m) <= u16::MAX
}

/// The line list of `springs`: for each spring, in order, the vertex index of
/// its first endpoint and then that of its second.
pub fn spring_line_indices(springs: &[Spring], m: usize) -> (res: Vec<u16>)
    requires
        fits_u16(springs@, m),
    ensures
        res@.len() == 2 * springs@.len(),
        forall|k: int|
            0 <= k < springs@.len() ==> res@[2 * k] == line_index((#[trigger] springs@[k]).p1, m)
                && res@[2 * k + 1] == line_index(springs@[k].p2, m),
{
    let mut res: Vec<u16> = Vec::new();
    let n = springs.len();
    for k in 0..n
        invariant
            n == springs@.len(),
            fits_u16(springs@, m),
            res@.len() == 2 * k,
            forall|q: int|
                0 <= q < k ==> res@[2 * q] == line_index((#[trigger] springs@[q]).p1, m)
                    && res@[2 * q + 1] == line_index(springs@[q].p2, m),
    {
        let s = springs[k];
        assert(line_index(springs@[k as int].p1, m) <= u16::MAX);
        let a: u16 = (s.p1.0 as u16) * (m as u16) + (s.p1.1 as u16);
        let b: u16 = (s.p2.0 as u16) * (m as u16) + (s.p2.1 as u16);
        res.push(a);
        res.push(b);
    }
    res
}

/// For a cloth of `n` rows and `m` columns with at most 65536 particles, the
/// line list indexes the row-major vertex list at the two endpoints of each
/// spring: an endpoint `(i, j)` is drawn from vertex `i * m + j`, which is
/// below `n * m`.
pub proof fn lemma_line_indices_address_endpoints(n: usize, m: usize)
    requires
        n >= 1,
        m >= 1,
        n * m <= 65536,
    ensures
        fits_u16(grid_springs(n, m), m),
        forall|k: int|
            0 <= k < grid_springs(n, m).len() ==> {
                let s = #[trigger] grid_springs(n, m)[k];
                &&& line_index(s.p1, m) == s.p1.0 * m + s.p1.1
                &&& line_index(s.p2, m) == s.p2.0 * m + s.p2.1
                &&& s.p1.0 * m + s.p1.1 < n * m
                &&& s.p2.0 * m + s.p2.1 < n * m
            },
{
    lemma_springs_are_grid_edges(n, m);
    let gs = grid_springs(n, m);
    assert forall|k: int| 0 <= k < gs.len() implies {
        let s = #[trigger] gs[k];
        &&& line_index(s.p1, m) == s.p1.0 * m + s.p1.1
        &&& line_index(s.p2, m) == s.p2.0 * m + s.p2.1
        &&& s.p1.0 * m + s.p1.1 < n * m
        &&& s.p2.0 * m + s.p2.1 < n * m
    } by {
        let s = gs[k];
        assert(gs.contains(s));
        assert(is_grid_edge(n, m, s));
        lemma_cell_index(n, m, s.p1.0, s.p1.1);
        lemma_cell_index(n, m, s.p2.0, s.p2.1);
    }
}

proof fn lemma_cell_index(n: usize, m: usize, i: usize, j: usize)
    requires
        n >= 1,
        m >= 1,
        n * m <= 65536,
        i < n,
        j < m,
    ensures
        line_index((i, j), m) == i * m + j,
        i * m + j < n * m,
        i * m + j <= u16::MAX,
{
    assert(i * m + j < n * m) by (nonlinear_arith)
        requires
            i < n,
            j < m,
    ;
    assert(j < 65536);
    assert(i < 65536) by (nonlinear_arith)
        requires
            i < n,
            m >= 1,
            n * m <= 65536,
    ;
    assert((i as u16) as int == i);
    assert((j as u16) as int == j);
    if m < 65536 {
        assert((m as u16) as int == m);
    } else {
        assert(n == 1) by (nonlinear_arith)
            requires
                n >= 1,
                m >= 65536,
                n * m <= 65536,
        ;
        assert(i == 0);
        assert(i * m == 0) by (nonlinear_arith)
            requires
                i == 0,
        ;
        let mu = (m as u16) as int;
        assert(0 * mu == 0) by (nonlinear_arith);
    }
}

} // verus!
