//! Picking the particle under the cursor, and the particle held between a
//! press and a release of the mouse button.
use vstd::prelude::*;

verus! {

/// A grid of keys, row by row.
pub open spec fn keys_view(keys: Seq<Vec<i32>>) -> Seq<Seq<i32>> {
    keys.map_values(|r: Vec<i32>| r@)
}

/// Whether `(i, j)` is a cell of the grid `keys`.
pub open spec fn in_grid(keys: Seq<Seq<i32>>, i: int, j: int) -> bool {
    0 <= i < keys.len() && 0 <= j < keys[i].len()
}

/// Whether `(a, b)` comes before `(i, j)` in row-major order.
pub open spec fn row_major_before(a: int, b: int, i: int, j: int) -> bool {
    a < i || (a == i && b < j)
}

/// Whether `(i, j)` holds the smallest key of the grid, and every cell before
/// it in row-major order holds a larger one: the first smallest key.
pub open spec fn is_first_min(keys: Seq<Seq<i32>>, i: int, j: int) -> bool {
    &&& in_grid(keys, i, j)
    &&& forall|a: int, b: int| #[trigger] in_grid(keys, a, b) ==> keys[i][j] <= keys[a][b]
    &&& forall|a: int, b: int|
        #[trigger] in_grid(keys, a, b) && row_major_before(a, b, i, j) ==> keys[i][j] < keys[a][b]
}

/// Whether the grid has no cell at all.
pub open spec fn is_empty_grid(keys: Seq<Seq<i32>>) -> bool {
    forall|i: int| 0 <= i < keys.len() ==> (#[trigger] keys[i]).len() == 0
}

/// The cell of `keys` with the smallest key, the first one in row-major order
/// where several hold it; `None` when the grid has no cell.
pub fn closest_point(keys: &Vec<Vec<i32>>) -> (res: Option<(usize, usize)>)
    ensures
        res is None <==> is_empty_grid(keys_view(keys@)),
        res matches Some(p) ==> is_first_min(keys_view(keys@), p.0 as int, p.1 as int),
{
    let ghost kv = keys_view(keys@);
    let mut best: Option<(usize, usize, i32)> = None;
    let n = keys.len();
    for i in 0..n
        invariant
            n == keys@.len(),
            kv == keys_view(keys@),
            best is None <==> (forall|r: int| 0 <= r < i ==> (#[trigger] kv[r]).len() == 0),
            best matches Some(t) ==> {
                &&& in_grid(kv, t.0 as int, t.1 as int)
                &&& t.0 < i
                &&& t.2 == kv[t.0 as int][t.1 as int]
                &&& forall|a: int, b: int|
                    #[trigger] in_grid(kv, a, b) && a < i ==> t.2 <= kv[a][b]
                &&& forall|a: int, b: int|
                    #[trigger] in_grid(kv, a, b) && row_major_before(a, b, t.0 as int, t.1 as int)
                        ==> t.2 < kv[a][b]
            },
    {
        let row = &keys[i];
        let m = row.len();
        assert(kv[i as int] == row@);
        let ghost best_before = best;
        for j in 0..m
            invariant
                n == keys@.len(),
                i < n,
                kv == keys_view(keys@),
                kv[i as int] == row@,
                m == row@.len(),
                best is None <==> (best_before is None && j == 0),
                best_before is None <==> (forall|r: int| 0 <= r < i ==> (#[trigger] kv[r]).len()
                    == 0),
                best matches Some(t) ==> {
                    &&& in_grid(kv, t.0 as int, t.1 as int)
                    &&& t.0 <= i
                    &&& t.2 == kv[t.0 as int][t.1 as int]
                    &&& forall|a: int, b: int|
                        #[trigger] in_grid(kv, a, b) && (a < i || (a == i && b < j)) ==> t.2
                            <= kv[a][b]
                    &&& forall|a: int, b: int|
                        #[trigger] in_grid(kv, a, b) && row_major_before(
                            a,
                            b,
                            t.0 as int,
                            t.1 as int,
                        ) ==> t.2 < kv[a][b]
                },
        {
            let key = row[j];
            let better = match best {
                None => true,
                Some(t) => key < t.2,
            };
            if better {
                best = Some((i, j, key));
            }
        }
    }
    match best {
        None => None,
        Some(t) => Some((t.0, t.1)),
    }
}

/// The first smallest key of a grid is one cell: `closest_point` can give
/// only one answer.
pub proof fn lemma_first_min_unique(keys: Seq<Seq<i32>>, i: int, j: int, a: int, b: int)
    requires
        is_first_min(keys, i, j),
        is_first_min(keys, a, b),
    ensures
        i == a && j == b,
{
    assert(in_grid(keys, a, b));
    assert(in_grid(keys, i, j));
    if row_major_before(a, b, i, j) {
        assert(keys[i][j] < keys[a][b]);
    } else if row_major_before(i, j, a, b) {
        assert(keys[a][b] < keys[i][j]);
    }
}

/// The particle held by the mouse between a press and a release of its
/// button.
pub struct Grab {
    pub held: Option<(usize, usize)>,
}

/// What is held after a press that picked `picked`: the picked particle, or,
/// when nothing was picked, what was held before.
pub open spec fn held_after_press(
    held: Option<(usize, usize)>,
    picked: Option<(usize, usize)>,
) -> Option<(usize, usize)> {
    if picked is Some {
        picked
    } else {
        held
    }
}

impl Grab {
    /// Nothing held.
    pub fn new() -> (res: Grab)
        ensures
            res.held is None,
    {
        Grab { held: None }
    }

    /// The button went down: picks the particle with the smallest key
    /// (see `closest_point`) and, if there is one, holds it and returns it.
    pub fn press(&mut self, keys: &Vec<Vec<i32>>) -> (picked: Option<(usize, usize)>)
        ensures
            picked is None <==> is_empty_grid(keys_view(keys@)),
            picked matches Some(p) ==> is_first_min(keys_view(keys@), p.0 as int, p.1 as int),
            final(self).held == held_after_press(old(self).held, picked),
    {
        let picked = closest_point(keys);
        if let Some(p) = picked {
            self.held = Some(p);
        }
        picked
    }

    /// The button went up: lets go of the held particle and returns it.
    pub fn release(&mut self) -> (released: Option<(usize, usize)>)
        ensures
            released == old(self).held,
            final(self).held is None,
    {
        let released = self.held;
        self.held = None;
        released
    }
}

/// A release gives back the particle that the last press picked; after a
/// press that picked nothing it gives back what was held before.
pub proof fn lemma_release_returns_picked(
    held: Option<(usize, usize)>,
    picked: Option<(usize, usize)>,
)
    ensures
        picked is Some ==> held_after_press(held, picked) == picked,
        picked is None ==> held_after_press(held, picked) == held,
{
}

} // verus!
