//! Uniform-grid spatial hash answering "who may be near this point".
//!
//! Positions are integer world coordinates; the grid has square cells of a
//! fixed positive width. A query unions every bucket whose cell meets the
//! axis-aligned square around the query point, so its answer is a superset of
//! the agents inside that square; callers filter by exact distance.

use std::collections::HashMap;
use vstd::prelude::*;

use crate::grid::{cell_of, floor_div, lemma_floor_div_bounds};

verus! {

broadcast use vstd::std_specs::hash::group_hash_axioms;

/// Width of the key space given to the second cell coordinate.
pub const KEY_STRIDE: i64 = 4294967296;

/// Offset that makes the second cell coordinate non-negative in a key.
pub const KEY_OFFSET: i64 = 2147483648;

/// The integer that names cell `(cx, cy)` in the bucket map.
pub open spec fn cell_key(cx: int, cy: int) -> int {
    cx * KEY_STRIDE + (cy + KEY_OFFSET)
}

/// A cell coordinate as the grid stores it: within `i32`.
pub open spec fn in_i32(c: int) -> bool {
    i32::MIN <= c <= i32::MAX
}

/// Clamps a cell coordinate into the `i32` range.
pub open spec fn clamp_i32(c: int) -> int {
    if c < i32::MIN {
        i32::MIN as int
    } else if c > i32::MAX {
        i32::MAX as int
    } else {
        c
    }
}

/// The grid cell holding coordinate `x` on a grid of cells `size` wide.
pub open spec fn cell(x: int, size: int) -> int {
    floor_div(x, size)
}

/// The first cell of the range a query covers along one axis.
pub open spec fn range_lo(center: int, radius: int, size: int) -> int {
    clamp_i32(cell(center - radius, size))
}

/// The last cell of the range a query covers along one axis.
pub open spec fn range_hi(center: int, radius: int, size: int) -> int {
    clamp_i32(cell(center + radius, size))
}

proof fn lemma_cell_key_injective(a: int, b: int, c: int, d: int)
    requires
        in_i32(a),
        in_i32(b),
        in_i32(c),
        in_i32(d),
        cell_key(a, b) == cell_key(c, d),
    ensures
        a == c,
        b == d,
{
    if a < c {
        assert(a * KEY_STRIDE + KEY_STRIDE <= c * KEY_STRIDE) by (nonlinear_arith)
            requires
                a < c,
        ;
    } else if a > c {
        assert(c * KEY_STRIDE + KEY_STRIDE <= a * KEY_STRIDE) by (nonlinear_arith)
            requires
                c < a,
        ;
    }
}

proof fn lemma_cell_key_in_i64(a: int, b: int)
    requires
        in_i32(a),
        in_i32(b),
    ensures
        i64::MIN <= cell_key(a, b) <= i64::MAX,
{
    assert(i32::MIN * KEY_STRIDE <= a * KEY_STRIDE <= i32::MAX * KEY_STRIDE) by (nonlinear_arith)
        requires
            in_i32(a),
    ;
}

/// Cell buckets of agent identifiers over a grid of square cells.
pub struct SpatialHash {
    cell_size: i32,
    cells: HashMap<i64, Vec<u64>>,
}

impl SpatialHash {
    /// The width of one grid cell.
    pub closed spec fn size(&self) -> int {
        self.cell_size as int
    }

    /// The identifiers held by cell `(cx, cy)`, in insertion order.
    pub closed spec fn bucket(&self, cx: int, cy: int) -> Seq<u64> {
        if in_i32(cx) && in_i32(cy) && self.cells@.contains_key(cell_key(cx, cy) as i64) {
            self.cells@[cell_key(cx, cy) as i64]@
        } else {
            Seq::empty()
        }
    }

    /// The cell width is positive.
    pub closed spec fn wf(&self) -> bool {
        self.cell_size > 0
    }

    /// The buckets of column `cx` from row `lo` through row `hi`, row by row.
    pub open spec fn column(&self, cx: int, lo: int, hi: int) -> Seq<u64>
        decreases hi - lo + 1,
    {
        if hi < lo {
            Seq::empty()
        } else {
            self.column(cx, lo, hi - 1) + self.bucket(cx, hi)
        }
    }

    /// The buckets of the cells `[xlo, xhi] x [ylo, yhi]`, column by column.
    pub open spec fn block(&self, xlo: int, xhi: int, ylo: int, yhi: int) -> Seq<u64>
        decreases xhi - xlo + 1,
    {
        if xhi < xlo {
            Seq::empty()
        } else {
            self.block(xlo, xhi - 1, ylo, yhi) + self.column(xhi, ylo, yhi)
        }
    }

    /// What a query around `(x, y)` with the given radius returns: the
    /// buckets of every cell that meets the square `[x - r, x + r] x [y - r, y + r]`.
    pub open spec fn query_spec(&self, x: int, y: int, radius: int) -> Seq<u64> {
        self.block(
            range_lo(x, radius, self.size()),
            range_hi(x, radius, self.size()),
            range_lo(y, radius, self.size()),
            range_hi(y, radius, self.size()),
        )
    }

    /// Every bucket is empty.
    pub open spec fn is_empty_spec(&self) -> bool {
        forall|cx: int, cy: int| #[trigger] self.bucket(cx, cy) == Seq::<u64>::empty()
    }

    /// An empty index with cells `cell_size` wide.
    pub fn new(cell_size: i32) -> (r: SpatialHash)
        requires
            cell_size > 0,
        ensures
            r.wf(),
            r.size() == cell_size,
            r.is_empty_spec(),
    {
        SpatialHash { cell_size, cells: HashMap::new() }
    }

    /// The width of one grid cell.
    pub fn cell_size(&self) -> (r: i32)
        ensures
            r == self.size(),
    {
        self.cell_size
    }

    /// Empties every bucket; the cell width is kept.
    pub fn clear(&mut self)
        requires
            old(self).wf(),
        ensures
            final(self).wf(),
            final(self).size() == old(self).size(),
            final(self).is_empty_spec(),
    {
        self.cells.clear();
    }

    /// The cell that holds position `(x, y)`.
    pub fn cell_coords(&self, x: i32, y: i32) -> (r: (i32, i32))
        requires
            self.wf(),
        ensures
            r.0 == cell(x as int, self.size()),
            r.1 == cell(y as int, self.size()),
    {
        let cx = cell_of(x as i64, self.cell_size as i64);
        let cy = cell_of(y as i64, self.cell_size as i64);
        proof {
            lemma_cell_of_i32(x as int, self.size());
            lemma_cell_of_i32(y as int, self.size());
        }
        (cx as i32, cy as i32)
    }

    /// Appends `id` to the bucket of the cell that holds `(x, y)`.
    pub fn insert(&mut self, id: u64, x: i32, y: i32)
        requires
            old(self).wf(),
        ensures
            final(self).wf(),
            final(self).size() == old(self).size(),
            forall|cx: int, cy: int|
                #![trigger final(self).bucket(cx, cy)]
                final(self).bucket(cx, cy) == if cx == cell(x as int, old(self).size()) && cy
                    == cell(y as int, old(self).size()) {
                    old(self).bucket(cx, cy).push(id)
                } else {
                    old(self).bucket(cx, cy)
                },
    {
        let (cx, cy) = self.cell_coords(x, y);
        proof {
            lemma_cell_key_in_i64(cx as int, cy as int);
        }
        let key: i64 = (cx as i64) * KEY_STRIDE + ((cy as i64) + KEY_OFFSET);
        let mut bucket = match self.cells.remove(&key) {
            Some(b) => b,
            None => Vec::new(),
        };
        bucket.push(id);
        self.cells.insert(key, bucket);
        proof {
            assert forall|a: int, b: int| #[trigger]
                self.bucket(a, b) == if a == cx && b == cy {
                    old(self).bucket(a, b).push(id)
                } else {
                    old(self).bucket(a, b)
                } by {
                if in_i32(a) && in_i32(b) {
                    lemma_cell_key_in_i64(a, b);
                    if cell_key(a, b) == key {
                        lemma_cell_key_injective(a, b, cx as int, cy as int);
                    }
                }
            }
        }
    }

    /// Every identifier in the buckets of the cells that meet the square of
    /// half-width `radius` around `(x, y)`, with no distance filtering.
    pub fn query_neighbors(&self, x: i32, y: i32, radius: i32) -> (r: Vec<u64>)
        requires
            self.wf(),
        ensures
            r@ == self.query_spec(x as int, y as int, radius as int),
    {
        let size = self.cell_size as i64;
        let xlo = clamp_cell(cell_of(x as i64 - radius as i64, size));
        let xhi = clamp_cell(cell_of(x as i64 + radius as i64, size));
        let ylo = clamp_cell(cell_of(y as i64 - radius as i64, size));
        let yhi = clamp_cell(cell_of(y as i64 + radius as i64, size));
        let mut result: Vec<u64> = Vec::new();
        if xlo > xhi || ylo > yhi {
            proof {
                self.lemma_block_empty(xlo as int, xhi as int, ylo as int, yhi as int);
            }
            return result;
        }
        let mut cx: i64 = xlo;
        while cx <= xhi
            invariant
                self.wf(),
                xlo <= cx <= xhi + 1,
                in_i32(xlo as int),
                in_i32(xhi as int),
                in_i32(ylo as int),
                in_i32(yhi as int),
                ylo <= yhi,
                result@ == self.block(xlo as int, cx - 1, ylo as int, yhi as int),
            decreases xhi + 1 - cx,
        {
            let mut cy: i64 = ylo;
            while cy <= yhi
                invariant
                    self.wf(),
                    xlo <= cx <= xhi,
                    ylo <= cy <= yhi + 1,
                    in_i32(xlo as int),
                    in_i32(xhi as int),
                    in_i32(ylo as int),
                    in_i32(yhi as int),
                    result@ == self.block(xlo as int, cx - 1, ylo as int, yhi as int)
                        + self.column(cx as int, ylo as int, cy - 1),
                decreases yhi + 1 - cy,
            {
                proof {
                    lemma_cell_key_in_i64(cx as int, cy as int);
                }
                let key: i64 = cx * KEY_STRIDE + (cy + KEY_OFFSET);
                let ghost before = result@;
                match self.cells.get(&key) {
                    Some(ids) => {
                        let mut k: usize = 0;
                        while k < ids.len()
                            invariant
                                0 <= k <= ids.len(),
                                result@ == before + ids@.subrange(0, k as int),
                            decreases ids.len() - k,
                        {
                            result.push(ids[k]);
                            k = k + 1;
                            proof {
                                assert(ids@.subrange(0, k as int) == ids@.subrange(0, k - 1)
                                    .push(ids@[k - 1]));
                            }
                        }
                        proof {
                            assert(ids@.subrange(0, ids@.len() as int) == ids@);
                            assert(self.bucket(cx as int, cy as int) == ids@);
                        }
                    },
                    None => {
                        proof {
                            assert(self.bucket(cx as int, cy as int) == Seq::<u64>::empty());
                        }
                    },
                }
                proof {
                    let b = self.block(xlo as int, cx - 1, ylo as int, yhi as int);
                    let c0 = self.column(cx as int, ylo as int, cy - 1);
                    let bk = self.bucket(cx as int, cy as int);
                    assert(self.column(cx as int, ylo as int, cy as int) == c0 + bk);
                    assert(result@ == (b + c0) + bk);
                    assert((b + c0) + bk == b + (c0 + bk));
                }
                cy = cy + 1;
            }
            cx = cx + 1;
        }
        result
    }

    proof fn lemma_block_empty(&self, xlo: int, xhi: int, ylo: int, yhi: int)
        requires
            xlo > xhi || ylo > yhi,
        ensures
            self.block(xlo, xhi, ylo, yhi) == Seq::<u64>::empty(),
        decreases xhi - xlo + 1,
    {
        if xhi >= xlo {
            self.lemma_block_empty(xlo, xhi - 1, ylo, yhi);
            assert(self.column(xhi, ylo, yhi) == Seq::<u64>::empty());
            assert(self.block(xlo, xhi - 1, ylo, yhi) + self.column(xhi, ylo, yhi)
                =~= Seq::<u64>::empty());
        }
    }
}

/// The identifiers, among the first `n` agents, whose position lies in cell
/// `(cx, cy)`, in agent order.
pub open spec fn agents_in_cell(
    ids: Seq<u64>,
    positions: Seq<(i32, i32)>,
    size: int,
    cx: int,
    cy: int,
    n: int,
) -> Seq<u64>
    decreases n,
{
    if n <= 0 {
        Seq::empty()
    } else {
        let prev = agents_in_cell(ids, positions, size, cx, cy, n - 1);
        if cell(positions[n - 1].0 as int, size) == cx && cell(positions[n - 1].1 as int, size)
            == cy {
            prev.push(ids[n - 1])
        } else {
            prev
        }
    }
}

impl SpatialHash {
    /// The buckets are exactly those of `ids` placed at `positions`, in order.
    pub open spec fn holds_exactly(&self, ids: Seq<u64>, positions: Seq<(i32, i32)>) -> bool {
        forall|cx: int, cy: int|
            #[trigger] self.bucket(cx, cy) == agents_in_cell(
                ids,
                positions,
                self.size(),
                cx,
                cy,
                ids.len() as int,
            )
    }
}

/// `id` is found in column `cx` over rows `[lo, hi]` when its bucket in row `cy` holds it.
proof fn lemma_column_contains(h: &SpatialHash, cx: int, lo: int, hi: int, cy: int, id: u64)
    requires
        lo <= cy <= hi,
        h.bucket(cx, cy).contains(id),
    ensures
        h.column(cx, lo, hi).contains(id),
    decreases hi - lo + 1,
{
    let prev = h.column(cx, lo, hi - 1);
    let b = h.bucket(cx, hi);
    if cy == hi {
        let k = choose|k: int| 0 <= k < b.len() && b[k] == id;
        assert((prev + b)[prev.len() + k] == id);
    } else {
        lemma_column_contains(h, cx, lo, hi - 1, cy, id);
        let k = choose|k: int| 0 <= k < prev.len() && prev[k] == id;
        assert((prev + b)[k] == id);
    }
}

/// `id` is found in the block of cells when the bucket of one of them holds it.
proof fn lemma_block_contains(
    h: &SpatialHash,
    xlo: int,
    xhi: int,
    ylo: int,
    yhi: int,
    cx: int,
    cy: int,
    id: u64,
)
    requires
        xlo <= cx <= xhi,
        ylo <= cy <= yhi,
        h.bucket(cx, cy).contains(id),
    ensures
        h.block(xlo, xhi, ylo, yhi).contains(id),
    decreases xhi - xlo + 1,
{
    let prev = h.block(xlo, xhi - 1, ylo, yhi);
    let col = h.column(xhi, ylo, yhi);
    if cx == xhi {
        lemma_column_contains(h, cx, ylo, yhi, cy, id);
        let k = choose|k: int| 0 <= k < col.len() && col[k] == id;
        assert((prev + col)[prev.len() + k] == id);
    } else {
        lemma_block_contains(h, xlo, xhi - 1, ylo, yhi, cx, cy, id);
        let k = choose|k: int| 0 <= k < prev.len() && prev[k] == id;
        assert((prev + col)[k] == id);
    }
}

/// Along one axis, the cell of a coordinate within `radius` of `center`
/// lies in the range of cells that a query around `center` covers.
proof fn lemma_cell_in_range(p: int, center: int, radius: int, size: int)
    requires
        size > 0,
        in_i32(p),
        center - radius <= p <= center + radius,
    ensures
        range_lo(center, radius, size) <= cell(p, size) <= range_hi(center, radius, size),
{
    vstd::arithmetic::div_mod::lemma_div_is_ordered(center - radius, p, size);
    vstd::arithmetic::div_mod::lemma_div_is_ordered(p, center + radius, size);
    lemma_cell_of_i32(p, size);
}

/// No false negatives: an identifier whose bucket is the cell of a position
/// inside the square of half-width `radius` around `(x, y)` is returned by a
/// query there.
pub proof fn lemma_query_finds_nearby(
    h: &SpatialHash,
    id: u64,
    px: i32,
    py: i32,
    x: i32,
    y: i32,
    radius: i32,
)
    requires
        h.wf(),
        h.bucket(cell(px as int, h.size()), cell(py as int, h.size())).contains(id),
        x - radius <= px <= x + radius,
        y - radius <= py <= y + radius,
    ensures
        h.query_spec(x as int, y as int, radius as int).contains(id),
{
    lemma_cell_in_range(px as int, x as int, radius as int, h.size());
    lemma_cell_in_range(py as int, y as int, radius as int, h.size());
    lemma_block_contains(
        h,
        range_lo(x as int, radius as int, h.size()),
        range_hi(x as int, radius as int, h.size()),
        range_lo(y as int, radius as int, h.size()),
        range_hi(y as int, radius as int, h.size()),
        cell(px as int, h.size()),
        cell(py as int, h.size()),
        id,
    );
}

proof fn lemma_agent_in_own_cell(
    ids: Seq<u64>,
    positions: Seq<(i32, i32)>,
    size: int,
    i: int,
    n: int,
)
    requires
        0 <= i < n <= ids.len(),
        ids.len() == positions.len(),
    ensures
        agents_in_cell(
            ids,
            positions,
            size,
            cell(positions[i].0 as int, size),
            cell(positions[i].1 as int, size),
            n,
        ).contains(ids[i]),
    decreases n,
{
    let cx = cell(positions[i].0 as int, size);
    let cy = cell(positions[i].1 as int, size);
    let prev = agents_in_cell(ids, positions, size, cx, cy, n - 1);
    if i == n - 1 {
        assert(prev.push(ids[i])[prev.len() as int] == ids[i]);
    } else {
        lemma_agent_in_own_cell(ids, positions, size, i, n - 1);
        let k = choose|k: int| 0 <= k < prev.len() && prev[k] == ids[i];
        assert(prev.push(ids[n - 1])[k] == ids[i]);
    }
}

proof fn lemma_no_agent_in_cell(
    ids: Seq<u64>,
    positions: Seq<(i32, i32)>,
    size: int,
    cx: int,
    cy: int,
    n: int,
)
    requires
        n <= ids.len(),
        ids.len() == positions.len(),
        forall|i: int|
            0 <= i < n ==> !(cell(#[trigger] positions[i].0 as int, size) == cx && cell(
                positions[i].1 as int,
                size,
            ) == cy),
    ensures
        agents_in_cell(ids, positions, size, cx, cy, n) == Seq::<u64>::empty(),
    decreases n,
{
    if n > 0 {
        lemma_no_agent_in_cell(ids, positions, size, cx, cy, n - 1);
    }
}

/// After a rebuild, a query whose square covers every position returns every
/// inserted identifier.
pub proof fn lemma_rebuilt_query_finds_all(
    h: &SpatialHash,
    ids: Seq<u64>,
    positions: Seq<(i32, i32)>,
    x: i32,
    y: i32,
    radius: i32,
)
    requires
        h.wf(),
        ids.len() == positions.len(),
        h.holds_exactly(ids, positions),
        forall|i: int|
            0 <= i < positions.len() ==> x - radius <= (#[trigger] positions[i]).0 <= x + radius
                && y - radius <= positions[i].1 <= y + radius,
    ensures
        forall|i: int|
            0 <= i < ids.len() ==> h.query_spec(x as int, y as int, radius as int).contains(
                #[trigger] ids[i],
            ),
{
    assert forall|i: int| 0 <= i < ids.len() implies h.query_spec(
        x as int,
        y as int,
        radius as int,
    ).contains(#[trigger] ids[i]) by {
        let p = positions[i];
        lemma_agent_in_own_cell(ids, positions, h.size(), i, ids.len() as int);
        assert(h.bucket(cell(p.0 as int, h.size()), cell(p.1 as int, h.size())).contains(ids[i]));
        lemma_query_finds_nearby(h, ids[i], p.0, p.1, x, y, radius);
    }
}

/// After a rebuild, a query of radius zero at a point whose cell holds no
/// agent returns nothing.
pub proof fn lemma_rebuilt_query_empty_cell(
    h: &SpatialHash,
    ids: Seq<u64>,
    positions: Seq<(i32, i32)>,
    x: i32,
    y: i32,
)
    requires
        h.wf(),
        ids.len() == positions.len(),
        h.holds_exactly(ids, positions),
        forall|i: int|
            0 <= i < positions.len() ==> !(cell((#[trigger] positions[i]).0 as int, h.size())
                == cell(x as int, h.size()) && cell(positions[i].1 as int, h.size()) == cell(
                y as int,
                h.size(),
            )),
    ensures
        h.query_spec(x as int, y as int, 0) == Seq::<u64>::empty(),
{
    let cx = cell(x as int, h.size());
    let cy = cell(y as int, h.size());
    lemma_cell_of_i32(x as int, h.size());
    lemma_cell_of_i32(y as int, h.size());
    lemma_no_agent_in_cell(ids, positions, h.size(), cx, cy, ids.len() as int);
    assert(h.bucket(cx, cy) == Seq::<u64>::empty());
    assert(h.column(cx, cy, cy - 1) == Seq::<u64>::empty());
    assert(h.column(cx, cy, cy) =~= Seq::<u64>::empty());
    assert(h.block(cx, cx - 1, cy, cy) == Seq::<u64>::empty());
    assert(h.block(cx, cx, cy, cy) =~= Seq::<u64>::empty());
}

/// A position on the boundary between cells `k - 1` and `k` belongs to cell
/// `k`, and a query centered in either of the two cells whose square reaches
/// the position returns what that cell holds.
pub proof fn lemma_boundary_found_from_both_sides(
    h: &SpatialHash,
    id: u64,
    k: int,
    py: i32,
    x: i32,
    y: i32,
    radius: i32,
)
    requires
        h.wf(),
        in_i32(k * h.size()),
        h.bucket(k, cell(py as int, h.size())).contains(id),
        cell(x as int, h.size()) == k - 1 || cell(x as int, h.size()) == k,
        x - radius <= k * h.size() <= x + radius,
        y - radius <= py <= y + radius,
    ensures
        cell(k * h.size(), h.size()) == k,
        h.query_spec(x as int, y as int, radius as int).contains(id),
{
    vstd::arithmetic::div_mod::lemma_div_multiples_vanish(k, h.size());
    vstd::arithmetic::mul::lemma_mul_is_commutative(k, h.size());
    lemma_query_finds_nearby(h, id, (k * h.size()) as i32, py, x, y, radius);
}

/// Clamps a cell coordinate into the `i32` range.
fn clamp_cell(c: i64) -> (r: i64)
    ensures
        r == clamp_i32(c as int),
{
    if c < i32::MIN as i64 {
        i32::MIN as i64
    } else if c > i32::MAX as i64 {
        i32::MAX as i64
    } else {
        c
    }
}

proof fn lemma_cell_of_i32(x: int, size: int)
    requires
        size > 0,
        in_i32(x),
    ensures
        in_i32(cell(x, size)),
{
    lemma_floor_div_bounds(x, size);
    let q = x / size;
    if q >= 0 {
        assert(q <= q * size) by (nonlinear_arith)
            requires
                q >= 0,
                size > 0,
        ;
    } else {
        assert((q + 1) * size <= q + 1) by (nonlinear_arith)
            requires
                q + 1 <= 0,
                size > 0,
        ;
        assert((q + 1) * size == q * size + size) by (nonlinear_arith);
    }
}

} // verus!
