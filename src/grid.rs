//! Grid index: positions to cells, and the field-of-view neighbourhood.
use vstd::prelude::*;

verus! {

/// Fixed-point sub-units per arena unit: every length and position is an
/// integer count of these.
pub const UNIT: i64 = 1000;

/// Largest number of cells along one side of the grid.
pub const MAX_CELLS: usize = 4096;

/// Largest arena side, in arena units.
pub const MAX_SIDE: i64 = 1_000_000;

/// Largest field-of-view radius, in cells.
pub const MAX_VIEW: i64 = 64;

/// A point of the arena, in fixed-point sub-units.
#[derive(Clone, Copy, Debug, PartialEq, Eq, Structural)]
pub struct Point {
    pub x: i64,
    pub y: i64,
}

/// An offset lies in a circular field of view of the given radius.
pub open spec fn in_view(di: int, dj: int, radius: int) -> bool {
    di * di + dj * dj <= radius * radius
}

/// Offsets are listed row by row, then column by column.
pub open spec fn offset_before(a: (i64, i64), b: (i64, i64)) -> bool {
    a.0 < b.0 || (a.0 == b.0 && a.1 < b.1)
}

/// `s` lists every offset (di, dj) of the square [-radius, radius]² whose
/// squared length is at most radius², in row-major order, each once.
pub open spec fn is_view(s: Seq<(i64, i64)>, radius: int) -> bool {
    &&& forall|k: int|
        0 <= k < s.len() ==> -radius <= #[trigger] s[k].0 <= radius && -radius <= s[k].1 <= radius
            && in_view(s[k].0 as int, s[k].1 as int, radius)
    &&& forall|di: int, dj: int|
        -radius <= di <= radius && -radius <= dj <= radius && #[trigger] in_view(di, dj, radius)
            ==> s.contains((di as i64, dj as i64))
    &&& forall|a: int, b: int| 0 <= a < b < s.len() ==> offset_before(s[a], s[b])
}

/// The field-of-view offsets of the given radius, computed once per grid.
pub fn view_offsets(radius: i64) -> (r: Vec<(i64, i64)>)
    requires
        0 <= radius <= MAX_VIEW,
    ensures
        is_view(r@, radius as int),
{
    let mut r: Vec<(i64, i64)> = Vec::new();
    let mut di: i64 = -radius;
    while di <= radius
        invariant
            0 <= radius <= MAX_VIEW,
            -radius <= di <= radius + 1,
            forall|k: int|
                0 <= k < r.len() ==> -radius <= #[trigger] r@[k].0 < di && -radius <= r@[k].1 <= radius
                    && in_view(r@[k].0 as int, r@[k].1 as int, radius as int),
            forall|a: int, b: int| 0 <= a < b < r.len() ==> offset_before(r@[a], r@[b]),
            forall|x: int, y: int|
                -radius <= x < di && -radius <= y <= radius && #[trigger] in_view(x, y, radius as int)
                    ==> r@.contains((x as i64, y as i64)),
        decreases radius + 1 - di,
    {
        let mut dj: i64 = -radius;
        let ghost start = r.len();
        while dj <= radius
            invariant
                0 <= radius <= MAX_VIEW,
                -radius <= di <= radius,
                -radius <= dj <= radius + 1,
                start <= r.len(),
                forall|k: int|
                    0 <= k < start ==> -radius <= #[trigger] r@[k].0 < di && -radius <= r@[k].1 <= radius
                        && in_view(r@[k].0 as int, r@[k].1 as int, radius as int),
                forall|k: int|
                    start <= k < r.len() ==> #[trigger] r@[k].0 == di && -radius <= r@[k].1 < dj
                        && in_view(r@[k].0 as int, r@[k].1 as int, radius as int),
                forall|a: int, b: int| 0 <= a < b < r.len() ==> offset_before(r@[a], r@[b]),
                forall|x: int, y: int|
                    -radius <= x < di && -radius <= y <= radius && #[trigger] in_view(x, y, radius as int)
                        ==> r@.contains((x as i64, y as i64)),
                forall|y: int|
                    -radius <= y < dj && #[trigger] in_view(di as int, y, radius as int)
                        ==> r@.contains((di, y as i64)),
            decreases radius + 1 - dj,
        {
            assert(0 <= di * di <= 4096 && 0 <= dj * dj <= 4096 && 0 <= radius * radius <= 4096)
                by (nonlinear_arith)
                requires -64 <= di <= 64, -64 <= dj <= 64, 0 <= radius <= 64;
            let ghost old_r = r@;
            if di * di + dj * dj <= radius * radius {
                r.push((di, dj));
                assert(forall|k: int| 0 <= k < old_r.len() ==> #[trigger] r@[k] == old_r[k]);
                assert forall|x: int, y: int|
                    -radius <= x < di && -radius <= y <= radius && #[trigger] in_view(x, y, radius as int)
                    implies r@.contains((x as i64, y as i64)) by {
                    assert(old_r.contains((x as i64, y as i64)));
                    let k = choose|k: int| 0 <= k < old_r.len() && old_r[k] == (x as i64, y as i64);
                    assert(r@[k] == old_r[k]);
                }
                assert forall|y: int|
                    -radius <= y < dj + 1 && #[trigger] in_view(di as int, y, radius as int)
                    implies r@.contains((di, y as i64)) by {
                    if y < dj {
                        assert(old_r.contains((di, y as i64)));
                        let k = choose|k: int| 0 <= k < old_r.len() && old_r[k] == (di, y as i64);
                        assert(r@[k] == old_r[k]);
                    } else {
                        assert(r@[r.len() - 1] == (di, dj));
                    }
                }
            }
            dj = dj + 1;
        }
        di = di + 1;
    }
    r
}

/// Index of cell (i, j) in a row-major list of n × n cells.
pub open spec fn cell_index_spec(i: int, j: int, n: int) -> int {
    i * n + j
}

/// Maps a cell coordinate to its position in the row-major cell list.
pub fn two_to_one(i: usize, j: usize, n: usize) -> (r: usize)
    requires
        i < n,
        j < n,
        n <= MAX_CELLS,
    ensures
        r == cell_index_spec(i as int, j as int, n as int),
        r < n * n,
{
    assert(i * n + j < n * n && n * n <= MAX_CELLS * MAX_CELLS) by (nonlinear_arith)
        requires i < n, j < n, n <= MAX_CELLS;
    i * n + j
}

/// Two cell coordinates name the same cell.
pub fn same_partition_index(a: (usize, usize), b: (usize, usize)) -> (r: bool)
    ensures
        r == (a == b),
{
    a.0 == b.0 && a.1 == b.1
}

/// The cell holding a point: each coordinate divided by the cell side.
pub open spec fn cell_of_spec(p: Point, cell_len: int) -> (int, int) {
    (p.x as int / cell_len, p.y as int / cell_len)
}

/// The cell holding a point, as an index pair.
pub open spec fn cell_at(p: Point, cell_len: int) -> (usize, usize) {
    ((p.x as int / cell_len) as usize, (p.y as int / cell_len) as usize)
}

/// The cell indices, in view order, of the offsets of `view` that land inside
/// the n × n grid when added to cell (i, j); the others are skipped.
pub open spec fn neighbours(view: Seq<(i64, i64)>, i: int, j: int, n: int) -> Seq<usize>
    decreases view.len(),
{
    if view.len() == 0 {
        Seq::empty()
    } else {
        let rest = neighbours(view.drop_last(), i, j, n);
        let a = i + view.last().0;
        let b = j + view.last().1;
        if 0 <= a < n && 0 <= b < n {
            rest.push(cell_index_spec(a, b, n) as usize)
        } else {
            rest
        }
    }
}

/// The arena's partition into n × n square cells, with the field-of-view
/// offsets that every neighbour scan uses.
pub struct Grid {
    pub n_cells: usize,
    pub cell_len: i64,
    pub view_radius: i64,
    pub view: Vec<(i64, i64)>,
}

impl Grid {
    pub open spec fn wf(&self) -> bool {
        &&& 0 < self.n_cells <= MAX_CELLS
        &&& 0 < self.cell_len
        &&& self.n_cells * self.cell_len <= MAX_SIDE * UNIT
        &&& 0 <= self.view_radius <= MAX_VIEW
        &&& is_view(self.view@, self.view_radius as int)
    }

    /// Length of the arena's side, in sub-units.
    pub open spec fn side(&self) -> int {
        self.n_cells * self.cell_len
    }

    /// A point lies inside the arena.
    pub open spec fn inside(&self, p: Point) -> bool {
        0 <= p.x < self.side() && 0 <= p.y < self.side()
    }

    /// Number of cells.
    pub open spec fn n_total(&self) -> int {
        self.n_cells * self.n_cells
    }

    /// Row-major index of the cell holding a point.
    pub open spec fn home_of(&self, p: Point) -> int {
        let c = cell_of_spec(p, self.cell_len as int);
        cell_index_spec(c.0, c.1, self.n_cells as int)
    }

    /// A grid of `n_cells` × `n_cells` cells over an arena of side `side`
    /// (arena units). The cell count must divide the side.
    pub fn new(side: i64, n_cells: usize, view_radius: i64) -> (r: Grid)
        requires
            0 < n_cells <= MAX_CELLS,
            0 < side <= MAX_SIDE,
            side % (n_cells as i64) == 0,
            0 <= view_radius <= MAX_VIEW,
        ensures
            r.wf(),
            r.n_cells == n_cells,
            r.cell_len == (side as int) / (n_cells as int) * UNIT,
            r.side() == side * UNIT,
            r.view_radius == view_radius,
    {
        let per = side / (n_cells as i64);
        assert(per * n_cells == side && per * UNIT * n_cells == side * UNIT && per > 0) by (nonlinear_arith)
            requires per == (side as int) / (n_cells as int), (side as int) % (n_cells as int) == 0, side > 0, n_cells > 0;
        assert(per * UNIT <= MAX_SIDE * UNIT) by (nonlinear_arith)
            requires per <= side, side <= MAX_SIDE;
        assert((n_cells as int) * (per * UNIT) == side * UNIT) by (nonlinear_arith)
            requires per * n_cells == side;
        Grid { n_cells, cell_len: per * UNIT, view_radius, view: view_offsets(view_radius) }
    }

    /// The cell (i, j) holding a point of the arena.
    pub fn pos_to_cell(&self, p: Point) -> (r: (usize, usize))
        requires
            self.wf(),
            self.inside(p),
        ensures
            r.0 as int == cell_of_spec(p, self.cell_len as int).0,
            r.1 as int == cell_of_spec(p, self.cell_len as int).1,
            r.0 < self.n_cells,
            r.1 < self.n_cells,
            r == cell_at(p, self.cell_len as int),
    {
        let i = p.x / self.cell_len;
        let j = p.y / self.cell_len;
        assert(i < self.n_cells) by (nonlinear_arith)
            requires i == p.x / self.cell_len, 0 <= p.x < self.n_cells * self.cell_len, self.cell_len > 0;
        assert(j < self.n_cells) by (nonlinear_arith)
            requires j == p.y / self.cell_len, 0 <= p.y < self.n_cells * self.cell_len, self.cell_len > 0;
        (i as usize, j as usize)
    }

    /// Row-major index of the cell holding a point.
    pub fn home(&self, p: Point) -> (r: usize)
        requires
            self.wf(),
            self.inside(p),
        ensures
            r == self.home_of(p),
            r < self.n_total(),
    {
        let (i, j) = self.pos_to_cell(p);
        two_to_one(i, j, self.n_cells)
    }

    /// Indices of the cells within the field of view of cell (i, j), in view
    /// order; offsets that fall outside the arena are skipped.
    pub fn neighbour_cells(&self, i: usize, j: usize) -> (r: Vec<usize>)
        requires
            self.wf(),
            i < self.n_cells,
            j < self.n_cells,
        ensures
            r@ == neighbours(self.view@, i as int, j as int, self.n_cells as int),
            forall|k: int| 0 <= k < r.len() ==> #[trigger] r[k] < self.n_total(),
    {
        let n = self.n_cells;
        let mut r: Vec<usize> = Vec::new();
        let mut k: usize = 0;
        while k < self.view.len()
            invariant
                self.wf(),
                i < n,
                j < n,
                n == self.n_cells,
                k <= self.view.len(),
                r@ == neighbours(self.view@.take(k as int), i as int, j as int, n as int),
                forall|m: int| 0 <= m < r.len() ==> #[trigger] r[m] < self.n_total(),
            decreases self.view.len() - k,
        {
            let (di, dj) = self.view[k];
            assert(self.view@[k as int].0 == di);
            assert(self.view@.take(k + 1).drop_last() =~= self.view@.take(k as int));
            let a = i as i64 + di;
            let b = j as i64 + dj;
            if 0 <= a && a < n as i64 && 0 <= b && b < n as i64 {
                let c = two_to_one(a as usize, b as usize, n);
                r.push(c);
            }
            k = k + 1;
        }
        assert(self.view@.take(self.view.len() as int) =~= self.view@);
        r
    }
}

} // verus!
