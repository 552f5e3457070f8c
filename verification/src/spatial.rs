//! Uniform grid for near-neighbour queries (collisions, crowd, bites).
//!
//! The grid is built from the cell `(column, row)` of each body; bodies in the
//! same or in touching cells are candidate pairs.

use vstd::prelude::*;

verus! {

/// Bucket index of cell `c` in a grid `nx` columns wide.
pub open spec fn slot(c: (usize, usize), nx: int) -> int {
    c.1 * nx + c.0
}

/// Cells `a` and `b` are the same or touch (also across a corner).
pub open spec fn near(a: (usize, usize), b: (usize, usize)) -> bool {
    -1 <= a.0 - b.0 <= 1 && -1 <= a.1 - b.1 <= 1
}

/// `(i, j)` is a neighbour pair of bodies whose cells are `cells`.
pub open spec fn is_pair(cells: Seq<(usize, usize)>, i: int, j: int) -> bool {
    0 <= i < j < cells.len() && near(cells[i], cells[j])
}

/// Position of the cell of `to` among the nine cells around `from`, row by row.
pub open spec fn offset(from: (usize, usize), to: (usize, usize)) -> int {
    3 * (to.1 - from.1 + 1) + (to.0 - from.0 + 1)
}

/// The grid visits pair `p` before pair `q`: cells row by row and, in a row,
/// column by column; in one cell, bodies by index; for one body, its
/// neighbour cells row by row, and in one of them bodies by index.
pub open spec fn visits_before(cells: Seq<(usize, usize)>, p: (usize, usize), q: (usize, usize)) -> bool {
    let a = cells[p.0 as int];
    let b = cells[q.0 as int];
    ||| a.1 < b.1
    ||| a.1 == b.1 && a.0 < b.0
    ||| a == b && p.0 < q.0
    ||| p.0 == q.0 && offset(a, cells[p.1 as int]) < offset(a, cells[q.1 as int])
    ||| p.0 == q.0 && offset(a, cells[p.1 as int]) == offset(a, cells[q.1 as int]) && p.1 < q.1
}

proof fn lemma_slot_order(a: (usize, usize), b: (usize, usize), nx: int)
    requires
        a.0 < nx,
        b.0 < nx,
        slot(a, nx) < slot(b, nx),
    ensures
        a.1 < b.1 || (a.1 == b.1 && a.0 < b.0),
{
    if a.1 > b.1 {
        assert(b.1 * nx + nx <= a.1 * nx) by (nonlinear_arith)
            requires
                b.1 < a.1,
                0 <= nx,
        ;
    }
}

/// `x` is among the first `n` entries of `s`.
spec fn prefix_has(s: Seq<usize>, n: int, x: int) -> bool {
    exists|k: int| 0 <= k < n && s[k] == x
}

proof fn lemma_slot_bounds(c: (usize, usize), nx: int, ny: int)
    requires
        c.0 < nx,
        c.1 < ny,
    ensures
        0 <= slot(c, nx) < nx * ny,
        slot(c, nx) + 1 <= (c.1 + 1) * nx,
{
    assert(0 <= c.1 * nx) by (nonlinear_arith)
        requires
            0 <= c.1,
            0 <= nx,
    ;
    assert(c.1 * nx + c.0 < nx * ny) by (nonlinear_arith)
        requires
            c.0 < nx,
            c.1 < ny,
    ;
    assert((c.1 + 1) * nx == c.1 * nx + nx) by (nonlinear_arith);
}

proof fn lemma_slot_unique(a: (usize, usize), b: (usize, usize), nx: int)
    requires
        a.0 < nx,
        b.0 < nx,
        slot(a, nx) == slot(b, nx),
    ensures
        a == b,
{
    if a.1 < b.1 {
        assert(a.1 * nx + nx <= b.1 * nx) by (nonlinear_arith)
            requires
                a.1 < b.1,
                0 <= nx,
        ;
    } else if b.1 < a.1 {
        assert(b.1 * nx + nx <= a.1 * nx) by (nonlinear_arith)
            requires
                b.1 < a.1,
                0 <= nx,
        ;
    }
}

/// Buckets of body indices, one per grid cell.
pub struct SpatialHash {
    nx: usize,
    ny: usize,
    buckets: Vec<Vec<usize>>,
    cells: Ghost<Seq<(usize, usize)>>,
}

impl SpatialHash {
    /// The cell of each body the grid was last built from.
    pub closed spec fn cells(&self) -> Seq<(usize, usize)> {
        self.cells@
    }

    /// Number of columns of the grid.
    pub closed spec fn columns(&self) -> nat {
        self.nx as nat
    }

    /// Number of rows of the grid.
    pub closed spec fn rows(&self) -> nat {
        self.ny as nat
    }

    #[verifier::type_invariant]
    spec fn inv(&self) -> bool {
        &&& self.buckets.len() == self.nx * self.ny
        &&& forall|i: int|
            0 <= i < self.cells@.len() ==> (#[trigger] self.cells@[i]).0 < self.nx && self.cells@[i].1 < self.ny
        &&& forall|h: int, k: int|
            0 <= h < self.buckets.len() && 0 <= k < self.buckets[h].len() ==> (#[trigger] self.buckets[h][k])
                < self.cells@.len() && slot(self.cells@[self.buckets[h][k] as int], self.nx as int) == h
        &&& forall|h: int, k1: int, k2: int|
            0 <= h < self.buckets.len() && 0 <= k1 < k2 < self.buckets[h].len() ==> #[trigger] self.buckets[h][k1]
                < #[trigger] self.buckets[h][k2]
        &&& forall|i: int|
            0 <= i < self.cells@.len() ==> prefix_has(
                self.buckets[slot(#[trigger] self.cells@[i], self.nx as int)]@,
                self.buckets[slot(self.cells@[i], self.nx as int)].len() as int,
                i,
            )
    }

    /// An empty grid without cells.
    pub fn new() -> (g: SpatialHash)
        ensures
            g.cells() == Seq::<(usize, usize)>::empty(),
            g.columns() == 0,
            g.rows() == 0,
    {
        SpatialHash { nx: 0, ny: 0, buckets: Vec::new(), cells: Ghost(Seq::empty()) }
    }

    /// Rebuilds the grid with `nx` columns and `ny` rows, body `i` lying in
    /// cell `cells[i]`.
    pub fn clear_and_build(&mut self, nx: usize, ny: usize, cells: &[(usize, usize)])
        requires
            nx * ny <= usize::MAX,
            forall|i: int| 0 <= i < cells@.len() ==> (#[trigger] cells@[i]).0 < nx && cells@[i].1 < ny,
        ensures
            final(self).cells() == cells@,
            final(self).columns() == nx,
            final(self).rows() == ny,
    {
        let total = nx * ny;
        let mut buckets: Vec<Vec<usize>> = Vec::new();
        for k in 0..total
            invariant
                buckets.len() == k,
                forall|h: int| 0 <= h < k ==> (#[trigger] buckets[h]).len() == 0,
        {
            buckets.push(Vec::new());
        }
        let n = cells.len();
        for i in 0..n
            invariant
                n == cells@.len(),
                total == nx * ny,
                buckets.len() == total,
                forall|x: int| 0 <= x < cells@.len() ==> (#[trigger] cells@[x]).0 < nx && cells@[x].1 < ny,
                forall|h: int, k: int|
                    0 <= h < buckets.len() && 0 <= k < buckets[h].len() ==> (#[trigger] buckets[h][k]) < i && slot(
                        cells@[buckets[h][k] as int],
                        nx as int,
                    ) == h,
                forall|h: int, k1: int, k2: int|
                    0 <= h < buckets.len() && 0 <= k1 < k2 < buckets[h].len() ==> #[trigger] buckets[h][k1]
                        < #[trigger] buckets[h][k2],
                forall|x: int|
                    0 <= x < i ==> prefix_has(
                        buckets[slot(#[trigger] cells@[x], nx as int)]@,
                        buckets[slot(cells@[x], nx as int)].len() as int,
                        x,
                    ),
        {
            let (cx, cy) = cells[i];
            proof {
                lemma_slot_bounds(cells@[i as int], nx as int, ny as int);
            }
            let h = cy * nx + cx;
            let ghost old_b = buckets@;
            buckets[h].push(i);
            proof {
                assert forall|x: int| 0 <= x <= i implies prefix_has(
                    buckets[slot(#[trigger] cells@[x], nx as int)]@,
                    buckets[slot(cells@[x], nx as int)].len() as int,
                    x,
                ) by {
                    let s = slot(cells@[x], nx as int);
                    lemma_slot_bounds(cells@[x], nx as int, ny as int);
                    if x < i {
                        let k = choose|k: int| 0 <= k < old_b[s].len() && old_b[s][k] == x;
                        assert(buckets[s][k] == x);
                    } else {
                        assert(buckets[s][old_b[s].len() as int] == x);
                    }
                }
            }
        }
        *self = SpatialHash { nx, ny, buckets, cells: Ghost(cells@) };
    }

    /// Pair `(x, y)` comes before the scan cursor: home bucket `h`, position
    /// `a` in it, neighbour cell number `off` and position `b` in that cell.
    spec fn seen(&self, h: int, a: int, off: int, b: int, x: int, y: int) -> bool {
        let c = self.cells@;
        let nx = self.nx as int;
        let home = self.buckets[h]@;
        ||| slot(c[x], nx) < h
        ||| slot(c[x], nx) == h && prefix_has(home, a, x)
        ||| slot(c[x], nx) == h && 0 <= a < home.len() && x == home[a] && (offset(c[x], c[y]) < off || (offset(c[x], c[y])
            == off && prefix_has(self.buckets[slot(c[y], nx)]@, b, y)))
    }

    /// `out` holds, once each, exactly the pairs before the scan cursor.
    spec fn scanned(&self, out: Seq<(usize, usize)>, h: int, a: int, off: int, b: int) -> bool {
        &&& forall|q: int|
            0 <= q < out.len() ==> is_pair(self.cells@, (#[trigger] out[q]).0 as int, out[q].1 as int) && self.seen(
                h,
                a,
                off,
                b,
                out[q].0 as int,
                out[q].1 as int,
            )
        &&& forall|x: int, y: int|
            #[trigger] is_pair(self.cells@, x, y) && self.seen(h, a, off, b, x, y) ==> exists|q: int|
                0 <= q < out.len() && #[trigger] out[q] == (x as usize, y as usize)
        &&& forall|q1: int, q2: int| 0 <= q1 < q2 < out.len() ==> #[trigger] out[q1] != #[trigger] out[q2]
        &&& forall|q1: int, q2: int| 0 <= q1 < q2 < out.len() ==> visits_before(self.cells@, #[trigger] out[q1], #[trigger] out[q2])
    }

    proof fn lemma_rescan(&self, out: Seq<(usize, usize)>, h1: int, a1: int, o1: int, b1: int, h2: int, a2: int, o2: int, b2: int)
        requires
            self.scanned(out, h1, a1, o1, b1),
            forall|x: int, y: int|
                #[trigger] is_pair(self.cells@, x, y) ==> (self.seen(h1, a1, o1, b1, x, y) <==> self.seen(h2, a2, o2, b2, x, y)),
        ensures
            self.scanned(out, h2, a2, o2, b2),
    {
        assert forall|q: int| 0 <= q < out.len() implies is_pair(self.cells@, (#[trigger] out[q]).0 as int, out[q].1 as int)
            && self.seen(h2, a2, o2, b2, out[q].0 as int, out[q].1 as int) by {
            assert(is_pair(self.cells@, out[q].0 as int, out[q].1 as int));
        }
    }

    /// Pairs body `i`, at position `a` of home bucket `h`, with the later
    /// bodies of the neighbour cell `(ncx, ncy)`.
    fn pair_with_cell(
        &self,
        out: &mut Vec<(usize, usize)>,
        h: usize,
        a: usize,
        i: usize,
        off: usize,
        ncx: usize,
        ncy: usize,
    )
        requires
            self.inv(),
            h < self.buckets.len(),
            a < self.buckets[h as int].len(),
            i == self.buckets[h as int][a as int],
            ncx < self.nx,
            ncy < self.ny,
            near(self.cells@[i as int], (ncx, ncy)),
            off == offset(self.cells@[i as int], (ncx, ncy)),
            self.scanned(old(out)@, h as int, a as int, off as int, 0),
        ensures
            self.scanned(final(out)@, h as int, a as int, off + 1, 0),
    {
        let ghost c = self.cells@;
        let ghost nxi = self.nx as int;
        proof {
            lemma_slot_bounds((ncx, ncy), self.nx as int, self.ny as int);
            lemma_slot_bounds(c[i as int], self.nx as int, self.ny as int);
        }
        let nb = ncy * self.nx + ncx;
        let m = self.buckets[nb].len();
        for b in 0..m
            invariant
                self.inv(),
                c == self.cells@,
                nxi == self.nx,
                h < self.buckets.len(),
                a < self.buckets[h as int].len(),
                i == self.buckets[h as int][a as int],
                ncx < self.nx,
                ncy < self.ny,
                nb == slot((ncx, ncy), nxi),
                nb < self.buckets.len(),
                m == self.buckets[nb as int].len(),
                near(c[i as int], (ncx, ncy)),
                off == offset(c[i as int], (ncx, ncy)),
                self.scanned(out@, h as int, a as int, off as int, b as int),
        {
            let j = self.buckets[nb][b];
            let ghost before = out@;
            proof {
                assert(j < c.len() && slot(c[j as int], nxi) == nb);
                lemma_slot_unique(c[j as int], (ncx, ncy), nxi);
                assert(slot(c[i as int], nxi) == h);
                // Any pair of `i` at this offset lies in the cell `(ncx, ncy)`.
                assert forall|x: int, y: int| #[trigger] is_pair(c, x, y) implies (self.seen(
                    h as int,
                    a as int,
                    off as int,
                    b + 1,
                    x,
                    y,
                ) <==> (self.seen(h as int, a as int, off as int, b as int, x, y) || (x == i && y == j))) by {
                    if x == i && offset(c[x], c[y]) == off {
                        assert(c[y].0 == ncx && c[y].1 == ncy);
                        if prefix_has(self.buckets[slot(c[y], nxi)]@, b + 1, y) && !prefix_has(
                            self.buckets[slot(c[y], nxi)]@,
                            b as int,
                            y,
                        ) {
                            let k = choose|k: int| 0 <= k < b + 1 && self.buckets[slot(c[y], nxi)]@[k] == y;
                            assert(k == b);
                        }
                        if y == j {
                            assert(self.buckets[nb as int]@[b as int] == y);
                        }
                    }
                    if x == i && y == j {
                        assert(offset(c[x], c[y]) == off);
                        assert(self.buckets[nb as int]@[b as int] == y);
                    }
                }
            }
            if j > i {
                proof {
                    assert(is_pair(c, i as int, j as int));
                    // The pair is new: `i` sits at position `a` only, `j` at `b` only.
                    assert(!self.seen(h as int, a as int, off as int, b as int, i as int, j as int)) by {
                        if prefix_has(self.buckets[h as int]@, a as int, i as int) {
                            let k = choose|k: int| 0 <= k < a && self.buckets[h as int]@[k] == i;
                            assert(self.buckets[h as int][k] < self.buckets[h as int][a as int]);
                        }
                        if prefix_has(self.buckets[nb as int]@, b as int, j as int) {
                            let k = choose|k: int| 0 <= k < b && self.buckets[nb as int]@[k] == j;
                            assert(self.buckets[nb as int][k] < self.buckets[nb as int][b as int]);
                        }
                    }
                    // Every pair found so far comes earlier in visiting order.
                    assert forall|q: int| 0 <= q < before.len() implies visits_before(c, before[q], (i, j)) by {
                        let x = before[q].0 as int;
                        let y = before[q].1 as int;
                        assert(is_pair(c, x, y) && self.seen(h as int, a as int, off as int, b as int, x, y));
                        let home = self.buckets[h as int]@;
                        if slot(c[x], nxi) < h {
                            lemma_slot_order(c[x], c[i as int], nxi);
                        } else if slot(c[x], nxi) == h && prefix_has(home, a as int, x) {
                            let k = choose|k: int| 0 <= k < a && home[k] == x;
                            assert(self.buckets[h as int][k] < self.buckets[h as int][a as int]);
                            lemma_slot_unique(c[x], c[i as int], nxi);
                        } else {
                            assert(x == i);
                            if offset(c[x], c[y]) == off {
                                assert(c[y].0 == ncx && c[y].1 == ncy);
                                let k = choose|k: int| 0 <= k < b && self.buckets[slot(c[y], nxi)]@[k] == y;
                                assert(self.buckets[nb as int][k] < self.buckets[nb as int][b as int]);
                            }
                        }
                    }
                }
                out.push((i, j));
                proof {
                    let after = out@;
                    assert(after[before.len() as int] == (i, j));
                    assert forall|x: int, y: int|
                        #[trigger] is_pair(c, x, y) && self.seen(h as int, a as int, off as int, b + 1, x, y) implies exists|q: int|
                        0 <= q < after.len() && #[trigger] after[q] == (x as usize, y as usize) by {
                        if self.seen(h as int, a as int, off as int, b as int, x, y) {
                            let q = choose|q: int| 0 <= q < before.len() && #[trigger] before[q] == (x as usize, y as usize);
                            assert(after[q] == before[q]);
                        } else {
                            assert(after[before.len() as int] == (x as usize, y as usize));
                        }
                    }
                    assert forall|q1: int, q2: int| 0 <= q1 < q2 < after.len() implies #[trigger] after[q1]
                        != #[trigger] after[q2] by {
                        if q2 == before.len() {
                            assert(after[q1] == before[q1]);
                            assert(is_pair(c, before[q1].0 as int, before[q1].1 as int));
                        } else {
                            assert(after[q1] == before[q1] && after[q2] == before[q2]);
                        }
                    }
                    assert forall|q1: int, q2: int| 0 <= q1 < q2 < after.len() implies visits_before(
                        c,
                        #[trigger] after[q1],
                        #[trigger] after[q2],
                    ) by {
                        assert(after[q1] == before[q1]);
                        if q2 < before.len() {
                            assert(after[q2] == before[q2]);
                        }
                    }
                    assert forall|q: int| 0 <= q < after.len() implies is_pair(c, (#[trigger] after[q]).0 as int, after[q].1 as int)
                        && self.seen(h as int, a as int, off as int, b + 1, after[q].0 as int, after[q].1 as int) by {
                        if q < before.len() {
                            assert(after[q] == before[q]);
                            assert(is_pair(c, before[q].0 as int, before[q].1 as int));
                        }
                    }
                }
            } else {
                proof {
                    self.lemma_rescan(out@, h as int, a as int, off as int, b as int, h as int, a as int, off as int, b + 1);
                }
            }
        }
        proof {
            assert forall|x: int, y: int| #[trigger] is_pair(c, x, y) implies (self.seen(
                h as int,
                a as int,
                off as int,
                m as int,
                x,
                y,
            ) <==> self.seen(h as int, a as int, off + 1, 0, x, y)) by {
                if x == i && offset(c[x], c[y]) == off {
                    assert(c[y].0 == ncx && c[y].1 == ncy);
                    assert(prefix_has(self.buckets[slot(c[y], nxi)]@, self.buckets[slot(c[y], nxi)].len() as int, y));
                }
            }
            self.lemma_rescan(out@, h as int, a as int, off as int, m as int, h as int, a as int, off + 1, 0);
        }
    }

    /// Pairs body `buckets[h][a]`, which lies in cell `(cx, cy)`, with the
    /// later bodies of the nine cells around it, row by row.
    fn pair_from(&self, out: &mut Vec<(usize, usize)>, cx: usize, cy: usize, h: usize, a: usize)
        requires
            self.inv(),
            cx < self.nx,
            cy < self.ny,
            h == slot((cx, cy), self.nx as int),
            a < self.buckets[h as int].len(),
            self.scanned(old(out)@, h as int, a as int, 0, 0),
        ensures
            self.scanned(final(out)@, h as int, a as int + 1, 0, 0),
    {
        let ghost c = self.cells@;
        let ghost nxi = self.nx as int;
        proof {
            lemma_slot_bounds((cx, cy), self.nx as int, self.ny as int);
        }
        let i = self.buckets[h][a];
        proof {
            lemma_slot_unique(c[i as int], (cx, cy), nxi);
        }
        for dy in 0..3usize
            invariant
                self.inv(),
                c == self.cells@,
                nxi == self.nx,
                cx < self.nx,
                cy < self.ny,
                h < self.buckets.len(),
                a < self.buckets[h as int].len(),
                i == self.buckets[h as int][a as int],
                c[i as int] == (cx, cy),
                self.scanned(out@, h as int, a as int, 3 * dy, 0),
        {
            for dx in 0..3usize
                invariant
                    self.inv(),
                    c == self.cells@,
                    nxi == self.nx,
                    cx < self.nx,
                    cy < self.ny,
                    dy < 3,
                    h < self.buckets.len(),
                    a < self.buckets[h as int].len(),
                    i == self.buckets[h as int][a as int],
                    c[i as int] == (cx, cy),
                    self.scanned(out@, h as int, a as int, 3 * dy + dx, 0),
            {
                let off = 3 * dy + dx;
                let inside_x = if dx == 0 { cx >= 1 } else if dx == 1 { true } else { cx + 1 < self.nx };
                let inside_y = if dy == 0 { cy >= 1 } else if dy == 1 { true } else { cy + 1 < self.ny };
                if inside_x && inside_y {
                    let ncx = if dx == 0 { cx - 1 } else { cx + (dx - 1) };
                    let ncy = if dy == 0 { cy - 1 } else { cy + (dy - 1) };
                    self.pair_with_cell(out, h, a, i, off, ncx, ncy);
                } else {
                    proof {
                        // No body lies in a cell off the grid.
                        self.lemma_rescan(out@, h as int, a as int, off as int, 0, h as int, a as int, off + 1, 0);
                    }
                }
            }
        }
        proof {
            assert forall|x: int, y: int| #[trigger] is_pair(c, x, y) implies (self.seen(h as int, a as int, 9, 0, x, y)
                <==> self.seen(h as int, a + 1, 0, 0, x, y)) by {
                let home = self.buckets[h as int]@;
                if prefix_has(home, a + 1, x) && !prefix_has(home, a as int, x) {
                    let k = choose|k: int| 0 <= k < a + 1 && home[k] == x;
                    assert(k == a);
                }
                if x == i {
                    assert(home[a as int] == x);
                }
            }
            self.lemma_rescan(out@, h as int, a as int, 9, 0, h as int, a + 1, 0, 0);
        }
    }

    /// The unordered pairs `(i, j)`, `i < j`, of bodies in the same or in
    /// touching cells, each once, in the order the grid visits them.
    pub fn for_each_pair(&self) -> (out: Vec<(usize, usize)>)
        ensures
            forall|q: int| 0 <= q < out.len() ==> is_pair(self.cells(), (#[trigger] out[q]).0 as int, out[q].1 as int),
            forall|i: int, j: int| #[trigger] is_pair(self.cells(), i, j) ==> out@.contains((i as usize, j as usize)),
            forall|q1: int, q2: int| 0 <= q1 < q2 < out.len() ==> #[trigger] out[q1] != #[trigger] out[q2],
            forall|q1: int, q2: int|
                0 <= q1 < q2 < out.len() ==> visits_before(self.cells(), #[trigger] out[q1], #[trigger] out[q2]),
    {
        proof {
            use_type_invariant(self);
        }
        let ghost c = self.cells@;
        let ghost nxi = self.nx as int;
        let mut out: Vec<(usize, usize)> = Vec::new();
        let nx = self.nx;
        let ny = self.ny;
        proof {
            assert(0 * nxi == 0);
            self.lemma_rescan(out@, 0, 0, 0, 0, 0, 0, 0, 0);
        }
        for cy in 0..ny
            invariant
                self.inv(),
                c == self.cells@,
                nx == self.nx,
                ny == self.ny,
                nxi == nx,
                self.scanned(out@, cy * nxi, 0, 0, 0),
        {
            for cx in 0..nx
                invariant
                    self.inv(),
                    c == self.cells@,
                    nx == self.nx,
                    ny == self.ny,
                    nxi == nx,
                    cy < ny,
                    self.scanned(out@, cy * nxi + cx, 0, 0, 0),
            {
                proof {
                    lemma_slot_bounds((cx, cy), nxi, ny as int);
                }
                let h = cy * nx + cx;
                let m = self.buckets[h].len();
                for a in 0..m
                    invariant
                        self.inv(),
                        c == self.cells@,
                        nx == self.nx,
                        ny == self.ny,
                        nxi == nx,
                        cx < nx,
                        cy < ny,
                        h == slot((cx, cy), nxi),
                        h < self.buckets.len(),
                        m == self.buckets[h as int].len(),
                        self.scanned(out@, h as int, a as int, 0, 0),
                {
                    self.pair_from(&mut out, cx, cy, h, a);
                }
                proof {
                    assert forall|x: int, y: int| #[trigger] is_pair(c, x, y) implies (self.seen(h as int, m as int, 0, 0, x, y)
                        <==> self.seen(h + 1, 0, 0, 0, x, y)) by {
                        if slot(c[x], nxi) == h {
                            assert(prefix_has(self.buckets[h as int]@, m as int, x));
                        }
                    }
                    self.lemma_rescan(out@, h as int, m as int, 0, 0, h + 1, 0, 0, 0);
                }
            }
            proof {
                assert((cy + 1) * nxi == cy * nxi + nxi) by (nonlinear_arith);
            }
        }
        proof {
            assert forall|x: int, y: int| #[trigger] is_pair(c, x, y) implies self.seen(ny * nxi, 0, 0, 0, x, y) by {
                lemma_slot_bounds(c[x], nxi, ny as int);
                assert(nxi * ny == ny * nxi) by (nonlinear_arith);
            }
            assert forall|i: int, j: int| #[trigger] is_pair(c, i, j) implies out@.contains((i as usize, j as usize)) by {
                let q = choose|q: int| 0 <= q < out@.len() && #[trigger] out@[q] == (i as usize, j as usize);
            }
        }
        out
    }
}

impl Default for SpatialHash {
    fn default() -> (g: SpatialHash)
        ensures
            g.cells() == Seq::<(usize, usize)>::empty(),
            g.columns() == 0,
            g.rows() == 0,
    {
        SpatialHash::new()
    }
}

} // verus!
