//! Row-major layout of a rectangular grid: flattening rows into one buffer,
//! cutting a buffer back into rows, and the flat position of a cell.
use vstd::prelude::*;

verus! {

/// The rows of a grid, each taken by its view.
pub open spec fn rows_view<T>(rows: Seq<Vec<T>>) -> Seq<Seq<T>> {
    rows.map_values(|r: Vec<T>| r@)
}

/// Concatenates the rows of `points` in order into one buffer.
pub fn flatten_points<T: Copy>(points: &[Vec<T>]) -> (res: Vec<T>)
    ensures
        res@ == rows_view(points@).flatten(),
{
    let mut res: Vec<T> = Vec::new();
    let n = points.len();
    for i in 0..n
        invariant
            n == points@.len(),
            res@ == rows_view(points@).take(i as int).flatten(),
    {
        let row = &points[i];
        let ghost before = res@;
        let m = row.len();
        for j in 0..m
            invariant
                m == row@.len(),
                row == points@[i as int],
                res@ == before + row@.take(j as int),
        {
            res.push(row[j]);
            assert(row@.take(j as int).push(row@[j as int]) =~= row@.take(j + 1));
        }
        proof {
            assert(row@.take(m as int) =~= row@);
            let rv = rows_view(points@);
            assert(rv.take(i + 1) =~= rv.take(i as int).push(rv[i as int]));
            rv.take(i as int).lemma_flatten_push(rv[i as int]);
        }
    }
    proof {
        assert(rows_view(points@).take(n as int) =~= rows_view(points@));
    }
    res
}

/// The position of cell `(row, col)` in the row-major buffer of a grid with
/// `num_cols` columns.
pub fn flat_index(row: usize, col: usize, num_cols: usize) -> (res: usize)
    requires
        row * num_cols + col <= usize::MAX,
    ensures
        res == row * num_cols + col,
{
    assert(row * num_cols <= usize::MAX) by (nonlinear_arith)
        requires
            row * num_cols + col <= usize::MAX,
            col >= 0,
    ;
    row * num_cols + col
}

/// How many particles of a `rows` by `cols` grid each worker takes when the
/// work goes to four workers per core: the particle count divided by
/// `4 * core_count`, rounded down.
pub fn points_per_thread(rows: usize, cols: usize, core_count: u32) -> (res: usize)
    requires
        rows * cols <= usize::MAX,
        1 <= core_count,
        4 * core_count <= u32::MAX,
    ensures
        res == (rows * cols) / (4 * core_count as int),
{
    let num_threads: u32 = 4 * core_count;
    let num_points: usize = rows * cols;
    num_points / (num_threads as usize)
}

/// `flat` cut into consecutive rows of `row_len` items; the last row holds
/// what is left over and may be shorter.
pub open spec fn spec_chunks<T>(flat: Seq<T>, row_len: nat) -> Seq<Seq<T>>
    decreases flat.len(),
{
    if flat.len() == 0 || row_len == 0 {
        Seq::empty()
    } else if flat.len() <= row_len {
        seq![flat]
    } else {
        seq![flat.take(row_len as int)] + spec_chunks(flat.skip(row_len as int), row_len)
    }
}

/// Cuts `flattened_points` into rows of `row_len` items, in order; the last
/// row is shorter when the length is not a multiple of `row_len`.
pub fn unflatten_points<T: Copy>(flattened_points: &[T], row_len: usize) -> (res: Vec<Vec<T>>)
    requires
        row_len > 0,
    ensures
        rows_view(res@) == spec_chunks(flattened_points@, row_len as nat),
{
    let ghost flat = flattened_points@;
    let len = flattened_points.len();
    let mut res: Vec<Vec<T>> = Vec::new();
    let mut start: usize = 0;
    proof {
        assert(flat.skip(0) =~= flat);
        assert(rows_view(res@) =~= Seq::<Seq<T>>::empty());
        assert(Seq::<Seq<T>>::empty() + spec_chunks(flat, row_len as nat) =~= spec_chunks(
            flat,
            row_len as nat,
        ));
    }
    while start < len
        invariant
            len == flat.len(),
            flat == flattened_points@,
            row_len > 0,
            start <= len,
            spec_chunks(flat, row_len as nat) == rows_view(res@) + spec_chunks(
                flat.skip(start as int),
                row_len as nat,
            ),
        decreases len - start,
    {
        let end: usize = if len - start <= row_len { len } else { start + row_len };
        let mut chunk: Vec<T> = Vec::new();
        let mut k: usize = start;
        while k < end
            invariant
                start <= k <= end <= len,
                len == flat.len(),
                flat == flattened_points@,
                chunk@ == flat.subrange(start as int, k as int),
            decreases end - k,
        {
            chunk.push(flattened_points[k]);
            assert(flat.subrange(start as int, k as int).push(flat[k as int]) =~= flat.subrange(
                start as int,
                k + 1,
            ));
            k = k + 1;
        }
        proof {
            let rest = flat.skip(start as int);
            let rv = rows_view(res@);
            if len - start <= row_len {
                assert(chunk@ =~= rest);
                assert(rest.skip(rest.len() as int) =~= flat.skip(end as int));
                assert(flat.skip(end as int).len() == 0);
            } else {
                assert(chunk@ =~= rest.take(row_len as int));
                assert(rest.skip(row_len as int) =~= flat.skip(end as int));
            }
            assert(spec_chunks(rest, row_len as nat) =~= seq![chunk@] + spec_chunks(
                flat.skip(end as int),
                row_len as nat,
            ));
        }
        let ghost old_res = res@;
        res.push(chunk);
        proof {
            assert(rows_view(res@) =~= rows_view(old_res).push(chunk@));
            assert(rows_view(old_res) + seq![chunk@] =~= rows_view(old_res).push(chunk@));
            assert(rows_view(old_res) + (seq![chunk@] + spec_chunks(
                flat.skip(end as int),
                row_len as nat,
            )) =~= rows_view(old_res).push(chunk@) + spec_chunks(
                flat.skip(end as int),
                row_len as nat,
            ));
        }
        start = end;
    }
    proof {
        assert(flat.skip(len as int).len() == 0);
        assert(rows_view(res@) + Seq::<Seq<T>>::empty() =~= rows_view(res@));
    }
    res
}

/// Every row of `rows` holds exactly `row_len` items.
pub open spec fn is_rectangular<T>(rows: Seq<Seq<T>>, row_len: nat) -> bool {
    forall|i: int| 0 <= i < rows.len() ==> (#[trigger] rows[i]).len() == row_len
}

proof fn lemma_flatten_cons<T>(head: Seq<T>, tail: Seq<Seq<T>>)
    ensures
        (seq![head] + tail).flatten() == head + tail.flatten(),
{
    let s = seq![head] + tail;
    assert(s.len() > 0);
    assert(s.first() == head);
    assert(s.drop_first() =~= tail);
}

/// In a rectangular grid of `row_len` columns, the flattened buffer has
/// `rows.len() * row_len` items and cell `(i, j)` sits at `i * row_len + j`.
pub proof fn lemma_flat_position<T>(rows: Seq<Seq<T>>, row_len: nat)
    requires
        is_rectangular(rows, row_len),
    ensures
        rows.flatten().len() == rows.len() * row_len,
        forall|i: int, j: int|
            0 <= i < rows.len() && 0 <= j < row_len ==> #[trigger] rows.flatten()[i * row_len + j]
                == rows[i][j],
    decreases rows.len(),
{
    if rows.len() > 0 {
        let tail = rows.drop_first();
        assert(is_rectangular(tail, row_len)) by {
            assert forall|i: int| 0 <= i < tail.len() implies (#[trigger] tail[i]).len()
                == row_len by {
                assert(tail[i] == rows[i + 1]);
            }
        }
        lemma_flat_position(tail, row_len);
        let n = rows.len();
        assert(rows.flatten() == rows[0] + tail.flatten());
        assert(rows[0].len() == row_len);
        assert(row_len + (n - 1) * row_len == n * row_len) by (nonlinear_arith);
        assert forall|i: int, j: int|
            0 <= i < rows.len() && 0 <= j < row_len implies #[trigger] rows.flatten()[i * row_len
            + j] == rows[i][j] by {
            if i == 0 {
                assert(i * row_len + j == j) by (nonlinear_arith)
                    requires
                        i == 0,
                ;
            } else {
                assert(i * row_len + j == row_len + ((i - 1) * row_len + j)) by (nonlinear_arith);
                assert(0 <= (i - 1) * row_len) by (nonlinear_arith)
                    requires
                        i >= 1,
                ;
                assert((i - 1) * row_len + j < (n - 1) * row_len) by (nonlinear_arith)
                    requires
                        1 <= i < n,
                        0 <= j < row_len,
                ;
                assert(tail[i - 1] == rows[i]);
                assert(tail.flatten()[(i - 1) * row_len + j] == tail[i - 1][j]);
            }
        }
    }
}

/// Cutting the flattened buffer of a rectangular grid into rows of its width
/// gives the grid back.
pub proof fn lemma_unflatten_flatten<T>(rows: Seq<Seq<T>>, row_len: nat)
    requires
        row_len > 0,
        is_rectangular(rows, row_len),
    ensures
        spec_chunks(rows.flatten(), row_len) == rows,
    decreases rows.len(),
{
    if rows.len() == 0 {
        assert(rows.flatten().len() == 0);
        assert(spec_chunks(rows.flatten(), row_len) =~= rows);
    } else {
        let tail = rows.drop_first();
        assert(is_rectangular(tail, row_len)) by {
            assert forall|i: int| 0 <= i < tail.len() implies (#[trigger] tail[i]).len()
                == row_len by {
                assert(tail[i] == rows[i + 1]);
            }
        }
        lemma_unflatten_flatten(tail, row_len);
        lemma_flat_position(tail, row_len);
        let flat = rows.flatten();
        assert(flat == rows[0] + tail.flatten());
        assert(rows[0].len() == row_len);
        if tail.len() == 0 {
            assert(tail.flatten().len() == 0);
            assert(flat =~= rows[0]);
            assert(spec_chunks(flat, row_len) =~= seq![rows[0]]);
            assert(seq![rows[0]] =~= rows);
        } else {
            assert(tail.len() * row_len > 0) by (nonlinear_arith)
                requires
                    tail.len() > 0,
                    row_len > 0,
            ;
            assert(flat.len() > row_len);
            assert(flat.take(row_len as int) =~= rows[0]);
            assert(flat.skip(row_len as int) =~= tail.flatten());
            assert(spec_chunks(flat, row_len) == seq![rows[0]] + spec_chunks(
                tail.flatten(),
                row_len,
            ));
            assert(seq![rows[0]] + tail =~= rows);
        }
    }
}

/// Flattening the rows that a buffer was cut into gives the buffer back.
pub proof fn lemma_flatten_unflatten<T>(flat: Seq<T>, row_len: nat)
    requires
        row_len > 0,
    ensures
        spec_chunks(flat, row_len).flatten() == flat,
    decreases flat.len(),
{
    if flat.len() == 0 {
        assert(spec_chunks(flat, row_len).flatten() =~= flat);
    } else if flat.len() <= row_len {
        lemma_flatten_cons(flat, Seq::<Seq<T>>::empty());
        assert(seq![flat] + Seq::<Seq<T>>::empty() =~= seq![flat]);
        assert(flat + Seq::<T>::empty() =~= flat);
    } else {
        let rest = flat.skip(row_len as int);
        lemma_flatten_unflatten(rest, row_len);
        lemma_flatten_cons(flat.take(row_len as int), spec_chunks(rest, row_len));
        assert(flat.take(row_len as int) + rest =~= flat);
    }
}

proof fn lemma_chunk_start_in_bounds(k: int, len: int, c: int)
    requires
        c > 0,
        len >= 0,
        0 <= k < (len + c - 1) / c,
    ensures
        k * c < len,
{
    let q = (len + c - 1) / c;
    vstd::arithmetic::div_mod::lemma_fundamental_div_mod(len + c - 1, c);
    vstd::arithmetic::div_mod::lemma_mod_bound(len + c - 1, c);
    assert(c * q <= len + c - 1);
    assert(k * c <= q * c - c) by (nonlinear_arith)
        requires
            k <= q - 1,
            c > 0,
    ;
    assert(q * c == c * q) by (nonlinear_arith);
}

/// Every row that a buffer is cut into holds `row_len` items, except the
/// last one, which holds between one and `row_len`; there are as many rows
/// as `row_len` goes into the length, rounded up.
pub proof fn lemma_chunk_shape<T>(flat: Seq<T>, row_len: nat)
    requires
        row_len > 0,
    ensures
        spec_chunks(flat, row_len).len() == (flat.len() + row_len - 1) / (row_len as int),
        forall|k: int|
            0 <= k < spec_chunks(flat, row_len).len() ==> #[trigger] spec_chunks(flat, row_len)[k]
                == flat.subrange(
                k * row_len,
                if (k + 1) * row_len <= flat.len() {
                    (k + 1) * row_len
                } else {
                    flat.len() as int
                },
            ),
    decreases flat.len(),
{
    let ch = spec_chunks(flat, row_len);
    let c = row_len as int;
    if flat.len() == 0 {
        assert((c - 1) / c == 0) by (nonlinear_arith)
            requires
                c > 0,
        ;
    } else if flat.len() <= row_len {
        let l = flat.len() as int;
        assert((l + c - 1) / c == 1) by (nonlinear_arith)
            requires
                c > 0,
                0 < l <= c,
        ;
        assert forall|k: int| 0 <= k < ch.len() implies #[trigger] ch[k] == flat.subrange(
            k * row_len,
            if (k + 1) * row_len <= flat.len() {
                (k + 1) * row_len
            } else {
                flat.len() as int
            },
        ) by {
            assert(k == 0);
            assert(k * row_len == 0) by (nonlinear_arith)
                requires
                    k == 0,
            ;
            assert(flat.subrange(0, flat.len() as int) =~= flat);
            if flat.len() == row_len {
                assert(flat.subrange(0, row_len as int) =~= flat);
            }
        }
    } else {
        let rest = flat.skip(row_len as int);
        lemma_chunk_shape(rest, row_len);
        let rch = spec_chunks(rest, row_len);
        let l = flat.len() as int;
        assert((l + c - 1) / c == 1 + (l - c + c - 1) / c) by (nonlinear_arith)
            requires
                c > 0,
                l > c,
        {
            vstd::arithmetic::div_mod::lemma_div_plus_one(l - c + c - 1, c);
        }
        assert forall|k: int| 0 <= k < ch.len() implies #[trigger] ch[k] == flat.subrange(
            k * row_len,
            if (k + 1) * row_len <= flat.len() {
                (k + 1) * row_len
            } else {
                flat.len() as int
            },
        ) by {
            if k == 0 {
                assert(k * row_len == 0) by (nonlinear_arith)
                    requires
                        k == 0,
                ;
                assert((k + 1) * row_len == row_len) by (nonlinear_arith)
                    requires
                        k == 0,
                ;
                assert(ch[0] == flat.take(row_len as int));
                assert(flat.take(row_len as int) =~= flat.subrange(0, row_len as int));
            } else {
                assert(ch == seq![flat.take(row_len as int)] + rch);
                assert(ch[k] == rch[k - 1]);
                assert(k * row_len == row_len + (k - 1) * row_len) by (nonlinear_arith);
                assert((k + 1) * row_len == row_len + k * row_len) by (nonlinear_arith);
                assert(0 <= (k - 1) * row_len) by (nonlinear_arith)
                    requires
                        k >= 1,
                ;
                lemma_chunk_start_in_bounds(k - 1, rest.len() as int, c);
                let lo = (k - 1) * row_len;
                let hi = if k * row_len <= rest.len() {
                    k * row_len
                } else {
                    rest.len() as int
                };
                assert(rch[k - 1] == rest.subrange(lo, hi));
                assert(rest.subrange(lo, hi) =~= flat.subrange(c + lo, c + hi));
            }
        }
    }
}

} // verus!
