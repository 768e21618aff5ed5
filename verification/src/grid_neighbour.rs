//! Enumerating the neighbours of a cell in an `n` by `m` grid.

use vstd::prelude::*;

verus! {

/// The four axis offsets, in the order they are visited.
pub open spec fn base_offsets() -> Seq<(i64, i64)> {
    seq![(-1i64, 0i64), (1i64, 0i64), (0i64, -1i64), (0i64, 1i64)]
}

/// The four axis offsets followed by the four diagonal ones.
pub open spec fn diagonal_offsets() -> Seq<(i64, i64)> {
    base_offsets() + seq![(-1i64, -1i64), (-1i64, 1i64), (1i64, -1i64), (1i64, 1i64)]
}

/// The neighbour candidates of `(x, y)`: the cell shifted by each offset,
/// in visiting order, diagonals included on request.
pub open spec fn neighbour_candidates(x: int, y: int, diagonal: bool) -> Seq<(int, int)> {
    let offs = if diagonal {
        diagonal_offsets()
    } else {
        base_offsets()
    };
    offs.map_values(|o: (i64, i64)| (x + o.0, y + o.1))
}

/// `p` is a cell of an `n` by `m` grid.
pub open spec fn in_grid(p: (int, int), n: int, m: int) -> bool {
    0 <= p.0 < n && 0 <= p.1 < m
}

/// The position of the first candidate at or after `t` that lies in the
/// grid, or `c.len()` when there is none.
pub open spec fn first_valid(c: Seq<(int, int)>, n: int, m: int, t: int) -> int
    decreases c.len() - t,
{
    if t < 0 || t >= c.len() {
        c.len() as int
    } else if in_grid(c[t], n, m) {
        t
    } else {
        first_valid(c, n, m, t + 1)
    }
}

/// A cursor over the in-grid neighbours of cell `(x, y)` in an `n` by `m`
/// grid, visited in the fixed offset order.
pub struct GridNeighbour {
    x: usize,
    y: usize,
    n: usize,
    m: usize,
    offset: Vec<(i64, i64)>,
    offset_idx: usize,
}

impl GridNeighbour {
    /// The neighbour candidates, valid or not, in visiting order.
    pub closed spec fn candidates(self) -> Seq<(int, int)> {
        self.offset@.map_values(|o: (i64, i64)| (self.x + o.0, self.y + o.1))
    }

    /// The grid bounds.
    pub closed spec fn dims(self) -> (int, int) {
        (self.n as int, self.m as int)
    }

    /// How many candidates have been visited.
    pub closed spec fn idx_spec(self) -> int {
        self.offset_idx as int
    }

    pub closed spec fn wf(self) -> bool {
        &&& (self.offset@ == base_offsets() || self.offset@ == diagonal_offsets())
        &&& self.offset_idx <= self.offset@.len()
        &&& self.x + 1 <= i64::MAX
        &&& self.y + 1 <= i64::MAX
        &&& self.n <= i64::MAX
        &&& self.m <= i64::MAX
    }

    /// A fresh cursor for cell `(x, y)`, with the diagonal neighbours
    /// included on request.
    pub fn new(x: usize, y: usize, n: usize, m: usize, diagonal_traversal: bool) -> (r:
        GridNeighbour)
        requires
            x + 1 <= i64::MAX,
            y + 1 <= i64::MAX,
            n <= i64::MAX,
            m <= i64::MAX,
        ensures
            r.wf(),
            r.candidates() == neighbour_candidates(x as int, y as int, diagonal_traversal),
            r.dims() == (n as int, m as int),
            r.idx_spec() == 0,
    {
        let mut offset: Vec<(i64, i64)> = Vec::new();
        offset.push((-1, 0));
        offset.push((1, 0));
        offset.push((0, -1));
        offset.push((0, 1));
        if diagonal_traversal {
            offset.push((-1, -1));
            offset.push((-1, 1));
            offset.push((1, -1));
            offset.push((1, 1));
        }
        proof {
            if diagonal_traversal {
                assert(offset@ =~= diagonal_offsets());
            } else {
                assert(offset@ =~= base_offsets());
            }
        }
        let r = GridNeighbour { x, y, n, m, offset, offset_idx: 0 };
        proof {
            assert(r.candidates() =~= neighbour_candidates(
                x as int,
                y as int,
                diagonal_traversal,
            ));
        }
        r
    }

    /// The next neighbour that lies inside the grid, or `None` once the
    /// offsets are exhausted.
    pub fn next(&mut self) -> (r: Option<(usize, usize)>)
        requires
            old(self).wf(),
        ensures
            final(self).wf(),
            final(self).candidates() == old(self).candidates(),
            final(self).dims() == old(self).dims(),
            ({
                let c = old(self).candidates();
                let fv = first_valid(c, old(self).dims().0, old(self).dims().1, old(
                    self,
                ).idx_spec());
                if fv < c.len() {
                    &&& r is Some
                    &&& (r->Some_0.0 as int, r->Some_0.1 as int) == c[fv]
                    &&& final(self).idx_spec() == fv + 1
                } else {
                    &&& r is None
                    &&& final(self).idx_spec() == c.len()
                }
            }),
    {
        let ghost c = self.candidates();
        let ghost gn = self.dims().0;
        let ghost gm = self.dims().1;
        let ghost start = self.idx_spec();
        while self.offset_idx < self.offset.len()
            invariant
                self.wf(),
                self.candidates() == c,
                self.dims() == (gn, gm),
                c == old(self).candidates(),
                gn == old(self).dims().0,
                gm == old(self).dims().1,
                start == old(self).idx_spec(),
                self.x == old(self).x,
                self.y == old(self).y,
                self.n == old(self).n,
                self.m == old(self).m,
                self.offset == old(self).offset,
                start <= self.idx_spec() <= c.len(),
                first_valid(c, gn, gm, start) == first_valid(c, gn, gm, self.idx_spec()),
            decreases self.offset@.len() - self.offset_idx,
        {
            let t = self.offset_idx;
            let ox = self.offset[t].0;
            let oy = self.offset[t].1;
            let xx = self.x as i64 + ox;
            let yy = self.y as i64 + oy;
            self.offset_idx = t + 1;
            if xx >= 0 && xx < self.n as i64 && yy >= 0 && yy < self.m as i64 {
                proof {
                    assert(self.candidates()[t as int] == (
                        self.x + self.offset@[t as int].0,
                        self.y + self.offset@[t as int].1,
                    ));
                    assert(c[t as int] == (xx as int, yy as int));
                    assert(in_grid(c[t as int], gn, gm));
                    assert(first_valid(c, gn, gm, t as int) == t);
                    assert(0 <= xx as int && (xx as int) < (self.n as int));
                    assert(0 <= yy as int && (yy as int) < (self.m as int));
                    assert((xx as usize) as int == xx as int);
                    assert((yy as usize) as int == yy as int);
                }
                return Some((xx as usize, yy as usize));
            }
            proof {
                assert(!in_grid(c[t as int], gn, gm));
                assert(first_valid(c, gn, gm, t as int) == first_valid(c, gn, gm, t + 1));
            }
        }
        None
    }
}

} // verus!
