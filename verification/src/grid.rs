//! A rebuildable uniform-bucket spatial index over positioned entities.
//!
//! The world square is split into `(size / cell_size + 1)^2` buckets; every
//! item lands in the bucket of its coordinates' floor quotients. Queries
//! cover a clamped square neighborhood of buckets. `query_serialized`
//! memoizes each bucket's encoded bytes, so many overlapping queries within
//! one broadcast pass encode every bucket at most once.

use vstd::prelude::*;
use crate::entity::{Position, PositionTrait, ToBytes};

verus! {

pub struct Grid<T> {
    /// Highest bucket index per axis (`size / cell_size`).
    pub grid_size: u64,
    pub cell_size: u64,
    /// The snapshot the grid was built from.
    pub items: Vec<T>,
    /// Buckets of indices into `items`, row-major.
    pub buckets: Vec<Vec<usize>>,
    /// Per-bucket memoized encodings, same layout as `buckets`.
    pub serialized: Vec<Option<Vec<u8>>>,
}

impl<T: PositionTrait + ToBytes> Grid<T> {
    /// Bucket count.
    pub open spec fn nb(&self) -> int {
        (self.grid_size as int + 1) * (self.grid_size as int + 1)
    }

    /// Bucket x index of item `i`.
    pub open spec fn bkx(&self, i: int) -> int {
        self.items[i].sx() / (self.cell_size as int)
    }

    /// Bucket y index of item `i`.
    pub open spec fn bky(&self, i: int) -> int {
        self.items[i].sy() / (self.cell_size as int)
    }

    /// Flat bucket index of the bucket at `(bx, by)`.
    pub open spec fn flat(&self, bx: int, by: int) -> int {
        bx * (self.grid_size as int + 1) + by
    }

    /// Flat bucket index of item `i`.
    pub open spec fn item_bucket(&self, i: int) -> int {
        self.flat(self.bkx(i), self.bky(i))
    }

    pub open spec fn wf(&self) -> bool {
        &&& 1 <= self.cell_size
        &&& self.grid_size <= 1000
        &&& self.buckets.len() == self.nb()
        &&& self.serialized.len() == self.nb()
        &&& forall|i: int|
            0 <= i < self.items.len() ==> 0 <= #[trigger] self.bkx(i) && 0 <= self.bky(i)
        &&& forall|b: int, j: int|
            0 <= b < self.buckets.len() && 0 <= j < self.buckets[b].len() ==> #[trigger] self.buckets[b][j]
                < self.items.len() && self.item_bucket(self.buckets[b][j] as int) == b && self.bkx(
                self.buckets[b][j] as int,
            ) <= self.grid_size && self.bky(self.buckets[b][j] as int) <= self.grid_size
        &&& forall|i: int|
            0 <= i < self.items.len() && #[trigger] self.bkx(i) <= self.grid_size && self.bky(i)
                <= self.grid_size ==> self.buckets[self.item_bucket(i)]@.contains(i as usize)
        &&& forall|b: int, j1: int, j2: int|
            0 <= b < self.buckets.len() && 0 <= j1 < j2 < self.buckets[b].len()
                ==> #[trigger] self.buckets[b][j1] != #[trigger] self.buckets[b][j2]
        &&& forall|b: int|
            0 <= b < self.serialized.len() ==> ((#[trigger] self.serialized[b]) is Some
                ==> self.serialized[b]->Some_0@ == self.bucket_bytes(b))
    }

    /// Encoded contents of one bucket: the records of its items, in bucket
    /// order.
    pub open spec fn bucket_bytes(&self, b: int) -> Seq<u8> {
        Self::concat_bytes(self.items@, self.buckets[b]@)
    }

    pub open spec fn concat_bytes(items: Seq<T>, idxs: Seq<usize>) -> Seq<u8>
        decreases idxs.len(),
    {
        if idxs.len() == 0 {
            Seq::empty()
        } else {
            Self::concat_bytes(items, idxs.drop_last()) + items[idxs.last() as int].bytes_spec()
        }
    }

    /// Encoded contents of the buckets `(bx, y0..=y1)`, over explicit fields
    /// so the statement is independent of the memo cache.
    pub open spec fn s_row_bytes(
        items: Seq<T>,
        buckets: Seq<Vec<usize>>,
        g: int,
        bx: int,
        y0: int,
        y1: int,
    ) -> Seq<u8>
        decreases y1 - y0 + 1,
    {
        if y1 < y0 {
            Seq::empty()
        } else {
            Self::s_row_bytes(items, buckets, g, bx, y0, y1 - 1) + Self::concat_bytes(
                items,
                buckets[bx * (g + 1) + y1]@,
            )
        }
    }

    /// Encoded contents of the bucket window `(x0..=x1, y0..=y1)`, row-major.
    pub open spec fn s_window_bytes(
        items: Seq<T>,
        buckets: Seq<Vec<usize>>,
        g: int,
        x0: int,
        x1: int,
        y0: int,
        y1: int,
    ) -> Seq<u8>
        decreases x1 - x0 + 1,
    {
        if x1 < x0 {
            Seq::empty()
        } else {
            Self::s_window_bytes(items, buckets, g, x0, x1 - 1, y0, y1) + Self::s_row_bytes(
                items,
                buckets,
                g,
                x1,
                y0,
                y1,
            )
        }
    }

    pub open spec fn window_bytes(&self, x0: int, x1: int, y0: int, y1: int) -> Seq<u8> {
        Self::s_window_bytes(
            self.items@,
            self.buckets@,
            self.grid_size as int,
            x0,
            x1,
            y0,
            y1,
        )
    }

    /// The query radius in buckets: `range / cell_size`, rounded up.
    pub open spec fn win_radius(&self, range: int) -> int {
        let cs = self.cell_size as int;
        if range % cs == 0 {
            range / cs
        } else {
            range / cs + 1
        }
    }

    /// The bucket of a query point; points outside the world clamp to the
    /// world's buckets rather than erring.
    pub open spec fn query_bucket(&self, p: int) -> int {
        let cp = if p < 0 {
            0
        } else {
            p
        };
        cp / (self.cell_size as int)
    }

    /// Lowest bucket x index a query at `px` with `range` covers.
    pub open spec fn win_lo(&self, p: int, range: int) -> int {
        let b = self.query_bucket(p);
        let r = self.win_radius(range);
        if b - r > 0 {
            b - r
        } else {
            0
        }
    }

    /// Highest bucket x index such a query covers.
    pub open spec fn win_hi(&self, p: int, range: int) -> int {
        let b = self.query_bucket(p);
        let r = self.win_radius(range);
        if b + r < self.grid_size as int {
            b + r
        } else {
            self.grid_size as int
        }
    }

    /// Whether item `i`'s bucket lies in the window of a query at `(px, py)`
    /// with `range`.
    pub open spec fn in_window(&self, i: int, px: int, py: int, range: int) -> bool {
        &&& self.win_lo(px, range) <= self.bkx(i) <= self.win_hi(px, range)
        &&& self.win_lo(py, range) <= self.bky(i) <= self.win_hi(py, range)
    }

    /// Builds the grid from a snapshot: every item is placed in the bucket of
    /// its floor-divided coordinates.
    #[verifier::loop_isolation(false)]
    pub fn new(size: u64, cell_size: u64, items: Vec<T>) -> (g: Grid<T>)
        requires
            1 <= cell_size,
            size / cell_size <= 1000,
            forall|i: int|
                0 <= i < items.len() ==> 0 <= #[trigger] items[i].sx()
                    <= crate::consts::POS_MAX && 0 <= items[i].sy() <= crate::consts::POS_MAX,
        ensures
            g.wf(),
            g.items == items,
            g.cell_size == cell_size,
            g.grid_size == size / cell_size,
            forall|b: int, j1: int, j2: int|
                0 <= b < g.buckets.len() && 0 <= j1 < j2 < g.buckets[b].len()
                    ==> #[trigger] g.buckets[b][j1] < #[trigger] g.buckets[b][j2],
            forall|b: int| 0 <= b < g.serialized.len() ==> (#[trigger] g.serialized[b]) is None,
    {
        let grid_size: u64 = size / cell_size;
        proof {
            assert((grid_size as int + 1) * (grid_size as int + 1) <= 1002001) by (nonlinear_arith)
                requires
                    grid_size <= 1000,
            {}
        }
        let nb: usize = ((grid_size + 1) * (grid_size + 1)) as usize;
        let mut buckets: Vec<Vec<usize>> = Vec::new();
        let mut serialized: Vec<Option<Vec<u8>>> = Vec::new();
        proof {
            assert(forall|i: int|
                0 <= i < items.len() ==> 0 <= #[trigger] items[i].sx() / (cell_size as int) && 0
                    <= items[i].sy() / (cell_size as int)) by {
                assert forall|i: int| 0 <= i < items.len() implies 0 <= #[trigger] items[i].sx() / (
                cell_size as int) && 0 <= items[i].sy() / (cell_size as int) by {
                    vstd::arithmetic::div_mod::lemma_div_pos_is_pos(items[i].sx(), cell_size as int);
                    vstd::arithmetic::div_mod::lemma_div_pos_is_pos(items[i].sy(), cell_size as int);
                }
            }
        }
        let mut b: usize = 0;
        while b < nb
            invariant
                nb == (grid_size as int + 1) * (grid_size as int + 1),
                grid_size == size / cell_size,
                1 <= cell_size,
                grid_size <= 1000,
                buckets.len() == b,
                serialized.len() == b,
                b <= nb,
                forall|i: int|
                    0 <= i < items.len() ==> 0 <= #[trigger] items[i].sx() / (cell_size as int) && 0
                        <= items[i].sy() / (cell_size as int),
                forall|bi: int, j: int|
                    0 <= bi < b && 0 <= j < buckets[bi].len() ==> #[trigger] buckets[bi][j]
                        < items.len() && (items[buckets[bi][j] as int].sx() / (cell_size as int)) * (
                    grid_size as int + 1) + items[buckets[bi][j] as int].sy() / (cell_size as int)
                        == bi && items[buckets[bi][j] as int].sx() / (cell_size as int)
                        <= grid_size as int && items[buckets[bi][j] as int].sy() / (cell_size as int)
                        <= grid_size as int,
                forall|i: int|
                    0 <= i < items.len() && items[i].sx() / (cell_size as int) <= grid_size as int
                        && items[i].sy() / (cell_size as int) <= grid_size as int && (items[i].sx()
                        / (cell_size as int)) * (grid_size as int + 1) + items[i].sy() / (
                    cell_size as int) < b ==> buckets[(items[i].sx() / (cell_size as int)) * (
                    grid_size as int + 1) + items[i].sy() / (cell_size as int)]@.contains(
                        i as usize,
                    ),
                forall|bi: int, j1: int, j2: int|
                    0 <= bi < b && 0 <= j1 < j2 < buckets[bi].len() ==> #[trigger] buckets[bi][j1]
                        < #[trigger] buckets[bi][j2],
                forall|bi: int| 0 <= bi < b ==> (#[trigger] serialized[bi]) is None,
            decreases nb - b,
        {
            let mut row: Vec<usize> = Vec::new();
            let mut i: usize = 0;
            while i < items.len()
                invariant
                    1 <= cell_size,
                    grid_size <= 1000,
                    i <= items.len(),
                    forall|ii: int|
                        0 <= ii < items.len() ==> 0 <= #[trigger] items[ii].sx() / (
                        cell_size as int) && 0 <= items[ii].sy() / (cell_size as int),
                    forall|j: int|
                        0 <= j < row.len() ==> #[trigger] row[j] < i && (items[row[j] as int].sx()
                            / (cell_size as int)) * (grid_size as int + 1) + items[row[j] as int].sy()
                            / (cell_size as int) == b && items[row[j] as int].sx() / (
                        cell_size as int) <= grid_size as int && items[row[j] as int].sy() / (
                        cell_size as int) <= grid_size as int,
                    forall|ii: int|
                        0 <= ii < i && items[ii].sx() / (cell_size as int) <= grid_size as int
                            && items[ii].sy() / (cell_size as int) <= grid_size as int && (
                        items[ii].sx() / (cell_size as int)) * (grid_size as int + 1) + items[ii].sy()
                            / (cell_size as int) == b ==> row@.contains(ii as usize),
                    forall|j1: int, j2: int|
                        0 <= j1 < j2 < row.len() ==> #[trigger] row[j1] < #[trigger] row[j2],
                decreases items.len() - i,
            {
                let p: Position = items[i].position();
                proof {
                    assert(0 <= p.x && 0 <= p.y);
                }
                let ix: u64 = (p.x as u64) / cell_size;
                let iy: u64 = (p.y as u64) / cell_size;
                proof {
                    assert(ix == items[i as int].sx() / (cell_size as int));
                    assert(iy == items[i as int].sy() / (cell_size as int));
                }
                let ghost old_row = row@;
                if ix <= grid_size && iy <= grid_size {
                    proof {
                        assert(ix * (grid_size as int + 1) + iy <= 1002000) by (nonlinear_arith)
                            requires
                                ix <= grid_size,
                                iy <= grid_size,
                                grid_size <= 1000,
                        {}
                    }
                    let key: usize = (ix * (grid_size + 1) + iy) as usize;
                    if key == b {
                        row.push(i);
                    }
                }
                proof {
                    if row@ != old_row {
                        assert(row@ == old_row.push(i));
                        assert(forall|ii: usize| old_row.contains(ii) ==> row@.contains(ii)) by {
                            assert forall|ii: usize| old_row.contains(ii) implies row@.contains(
                                ii,
                            ) by {
                                let w = choose|w: int|
                                    0 <= w < old_row.len() && old_row[w] == ii;
                                assert(row@[w] == ii);
                            }
                        }
                        assert(row@[old_row.len() as int] == i);
                        assert(row@.contains(i));
                    }
                }
                i = i + 1;
            }
            buckets.push(row);
            serialized.push(None);
            b = b + 1;
        }
        proof {
            assert forall|i: int|
                0 <= i < items.len() && #[trigger] items[i].sx() / (cell_size as int)
                    <= grid_size as int && items[i].sy() / (cell_size as int)
                    <= grid_size as int implies 0 <= (items[i].sx() / (cell_size as int)) * (
            grid_size as int + 1) + items[i].sy() / (cell_size as int) < nb by {
                let ix = items[i].sx() / (cell_size as int);
                let iy = items[i].sy() / (cell_size as int);
                assert(0 <= ix * (grid_size as int + 1) + iy < (grid_size as int + 1) * (
                grid_size as int + 1)) by (nonlinear_arith)
                    requires
                        0 <= ix <= grid_size as int,
                        0 <= iy <= grid_size as int,
                {}
            }
        }
        Grid { grid_size, cell_size, items, buckets, serialized }
    }
}


/// Byte-for-byte copy of an encoded bucket.
fn copy_bytes(src: &Vec<u8>) -> (r: Vec<u8>)
    ensures
        r@ == src@,
{
    let mut r: Vec<u8> = Vec::new();
    let mut i: usize = 0;
    while i < src.len()
        invariant
            i <= src.len(),
            r@ == src@.take(i as int),
        decreases src.len() - i,
    {
        r.push(src[i]);
        proof {
            assert(r@ =~= src@.take(i as int + 1));
        }
        i = i + 1;
    }
    proof {
        assert(src@.take(src@.len() as int) =~= src@);
    }
    r
}

/// Two distinct bucket coordinates never share a flat index.
pub proof fn lemma_flat_inj(g: int, x1: int, y1: int, x2: int, y2: int)
    requires
        0 <= y1 <= g,
        0 <= y2 <= g,
        x1 * (g + 1) + y1 == x2 * (g + 1) + y2,
    ensures
        x1 == x2,
        y1 == y2,
{
    assert(x1 == x2 && y1 == y2) by (nonlinear_arith)
        requires
            0 <= y1 <= g,
            0 <= y2 <= g,
            x1 * (g + 1) + y1 == x2 * (g + 1) + y2,
    {}
}

impl<T: PositionTrait + ToBytes> Grid<T> {
    /// Pushes the whole contents of bucket `b` onto `out`.
    fn append_bucket(&self, b: usize, out: &mut Vec<usize>)
        requires
            b < self.buckets.len(),
        ensures
            final(out)@ == old(out)@ + self.buckets[b as int]@,
    {
        let mut j: usize = 0;
        while j < self.buckets[b].len()
            invariant
                b < self.buckets.len(),
                j <= self.buckets[b as int].len(),
                out@ == old(out)@ + self.buckets[b as int]@.take(j as int),
            decreases self.buckets[b as int].len() - j,
        {
            out.push(self.buckets[b][j]);
            proof {
                assert(old(out)@ + self.buckets[b as int]@.take(j as int + 1) =~= (old(out)@
                    + self.buckets[b as int]@.take(j as int)).push(self.buckets[b as int][j as int]));
            }
            j = j + 1;
        }
        proof {
            assert(self.buckets[b as int]@.take(self.buckets[b as int]@.len() as int)
                =~= self.buckets[b as int]@);
        }
    }

    /// Encodes bucket `b`: the records of its items, concatenated in order.
    fn bucket_to_bytes(&self, b: usize) -> (r: Vec<u8>)
        requires
            self.wf(),
            b < self.buckets.len(),
        ensures
            r@ == self.bucket_bytes(b as int),
    {
        let mut r: Vec<u8> = Vec::new();
        let mut j: usize = 0;
        while j < self.buckets[b].len()
            invariant
                self.wf(),
                b < self.buckets.len(),
                j <= self.buckets[b as int].len(),
                r@ == Self::concat_bytes(self.items@, self.buckets[b as int]@.take(j as int)),
            decreases self.buckets[b as int].len() - j,
        {
            let idx: usize = self.buckets[b][j];
            let mut piece = self.items[idx].to_bytes();
            r.append(&mut piece);
            proof {
                let pre = self.buckets[b as int]@.take(j as int);
                let post = self.buckets[b as int]@.take(j as int + 1);
                assert(post.drop_last() =~= pre);
                assert(post.last() == self.buckets[b as int][j as int]);
            }
            j = j + 1;
        }
        proof {
            assert(self.buckets[b as int]@.take(self.buckets[b as int]@.len() as int)
                =~= self.buckets[b as int]@);
        }
        r
    }

    /// All items whose bucket lies within `range / cell_size` buckets of the
    /// query point's bucket, in both axes, clamped to the world: a square
    /// bucket neighborhood, so callers still apply exact distance tests.
    /// Returns indices into `items`, each at most once.
    #[verifier::loop_isolation(false)]
    #[verifier::rlimit(60)]
    pub fn query(&self, pos: Position, range: u64) -> (r: Vec<usize>)
        requires
            self.wf(),
            pos.x <= crate::consts::POS_MAX,
            pos.y <= crate::consts::POS_MAX,
            range <= 10_000_000_000,
        ensures
            forall|j: int|
                0 <= j < r.len() ==> (#[trigger] r[j]) < self.items.len() && self.in_window(
                    r[j] as int,
                    pos.x as int,
                    pos.y as int,
                    range as int,
                ),
            forall|i: int|
                0 <= i < self.items.len() && #[trigger] self.in_window(
                    i,
                    pos.x as int,
                    pos.y as int,
                    range as int,
                ) ==> r@.contains(i as usize),
            forall|j1: int, j2: int| 0 <= j1 < j2 < r.len() ==> r[j1] != r[j2],
    {
        let ghost px = pos.x as int;
        let ghost py = pos.y as int;
        let ghost rg = range as int;
        let cpx: u64 = if pos.x < 0 { 0 } else { pos.x as u64 };
        let cpy: u64 = if pos.y < 0 { 0 } else { pos.y as u64 };
        let qx: u64 = cpx / self.cell_size;
        let qy: u64 = cpy / self.cell_size;
        let kr: u64 = range / self.cell_size + if range % self.cell_size == 0 { 0 } else { 1 };
        let x0: u64 = if kr > qx { 0 } else { qx - kr };
        let x1: u64 = if qx + kr < self.grid_size { qx + kr } else { self.grid_size };
        let y0: u64 = if kr > qy { 0 } else { qy - kr };
        let y1: u64 = if qy + kr < self.grid_size { qy + kr } else { self.grid_size };
        proof {
            assert(x0 as int == self.win_lo(px, rg));
            assert(x1 as int == self.win_hi(px, rg));
            assert(y0 as int == self.win_lo(py, rg));
            assert(y1 as int == self.win_hi(py, rg));
        }
        let mut out: Vec<usize> = Vec::new();
        let mut xi: u64 = x0;
        while xi <= x1
            invariant
                x0 <= xi,
                forall|j: int|
                    0 <= j < out.len() ==> (#[trigger] out[j]) < self.items.len() && self.in_window(
                        out[j] as int,
                        px,
                        py,
                        rg,
                    ) && self.bkx(out[j] as int) < xi,
                forall|i: int|
                    0 <= i < self.items.len() && #[trigger] self.in_window(i, px, py, rg)
                        && self.bkx(i) < xi ==> out@.contains(i as usize),
                forall|j1: int, j2: int| 0 <= j1 < j2 < out.len() ==> out[j1] != out[j2],
            decreases x1 + 1 - xi,
        {
            let mut yi: u64 = y0;
            while yi <= y1
                invariant
                    x0 <= xi <= x1,
                    y0 <= yi,
                    forall|j: int|
                        0 <= j < out.len() ==> (#[trigger] out[j]) < self.items.len()
                            && self.in_window(out[j] as int, px, py, rg) && (self.bkx(out[j] as int)
                            < xi || (self.bkx(out[j] as int) == xi && self.bky(out[j] as int)
                            < yi)),
                    forall|i: int|
                        0 <= i < self.items.len() && #[trigger] self.in_window(i, px, py, rg) && (
                        self.bkx(i) < xi || (self.bkx(i) == xi && self.bky(i) < yi))
                            ==> out@.contains(i as usize),
                    forall|j1: int, j2: int| 0 <= j1 < j2 < out.len() ==> out[j1] != out[j2],
                decreases y1 + 1 - yi,
            {
                proof {
                    assert(xi * (self.grid_size as int + 1) + yi < self.nb()) by (nonlinear_arith)
                        requires
                            0 <= xi <= self.grid_size as int,
                            0 <= yi <= self.grid_size as int,
                    {}
                }
                let b: usize = (xi * (self.grid_size + 1) + yi) as usize;
                let ghost old_out = out@;
                self.append_bucket(b, &mut out);
                proof {
                    let bs = self.buckets[b as int]@;
                    assert forall|j: int| 0 <= j < out.len() implies (#[trigger] out[j])
                        < self.items.len() && self.in_window(out[j] as int, px, py, rg) && (
                    self.bkx(out[j] as int) < xi || (self.bkx(out[j] as int) == xi && self.bky(
                        out[j] as int,
                    ) < yi + 1)) by {
                        if j < old_out.len() {
                            assert(out[j] == old_out[j]);
                        } else {
                            assert(out[j] == bs[j - old_out.len()]);
                            assert(self.item_bucket(out[j] as int) == b);
                            lemma_flat_inj(
                                self.grid_size as int,
                                self.bkx(out[j] as int),
                                self.bky(out[j] as int),
                                xi as int,
                                yi as int,
                            );
                        }
                    }
                    assert forall|i: int|
                        0 <= i < self.items.len() && #[trigger] self.in_window(i, px, py, rg) && (
                        self.bkx(i) < xi || (self.bkx(i) == xi && self.bky(i) < yi
                            + 1)) implies out@.contains(i as usize) by {
                        if self.bkx(i) < xi || (self.bkx(i) == xi && self.bky(i) < yi) {
                            let w = choose|w: int|
                                0 <= w < old_out.len() && old_out[w] == i as usize;
                            assert(out@[w] == i as usize);
                        } else {
                            assert(self.bkx(i) == xi && self.bky(i) == yi);
                            assert(self.item_bucket(i) == b);
                            assert(bs.contains(i as usize));
                            let w = choose|w: int| 0 <= w < bs.len() && bs[w] == i as usize;
                            assert(out@[old_out.len() + w] == i as usize);
                        }
                    }
                    assert forall|j1: int, j2: int| 0 <= j1 < j2 < out.len() implies out[j1]
                        != out[j2] by {
                        if j2 < old_out.len() {
                            assert(out[j1] == old_out[j1] && out[j2] == old_out[j2]);
                        } else if j1 >= old_out.len() {
                            assert(out[j1] == bs[j1 - old_out.len()]);
                            assert(out[j2] == bs[j2 - old_out.len()]);
                        } else {
                            assert(out[j1] == old_out[j1]);
                            assert(out[j2] == bs[j2 - old_out.len()]);
                            assert(self.bkx(out[j1] as int) < xi || self.bky(out[j1] as int) < yi);
                            assert(self.item_bucket(out[j2] as int) == b);
                            lemma_flat_inj(
                                self.grid_size as int,
                                self.bkx(out[j2] as int),
                                self.bky(out[j2] as int),
                                xi as int,
                                yi as int,
                            );
                        }
                    }
                }
                yi = yi + 1;
            }
            xi = xi + 1;
        }
        out
    }
}


impl<T: PositionTrait + ToBytes> Grid<T> {
    /// The well-formedness of a grid depends on the memo cache only through
    /// the memo clause itself: updating one entry with that bucket's bytes
    /// keeps the grid well formed.
    proof fn lemma_wf_serialized_update(pre: Self, post: Self)
        requires
            pre.wf(),
            post.items@ == pre.items@,
            post.buckets@ == pre.buckets@,
            post.cell_size == pre.cell_size,
            post.grid_size == pre.grid_size,
            post.serialized.len() == pre.serialized.len(),
            forall|b: int|
                0 <= b < post.serialized.len() ==> ((#[trigger] post.serialized[b]) is Some
                    ==> post.serialized[b]->Some_0@ == post.bucket_bytes(b)),
        ensures
            post.wf(),
    {
        assert forall|i: int|
            0 <= i < post.items.len() implies 0 <= #[trigger] post.bkx(i) && 0 <= post.bky(i) by {
            assert(0 <= pre.bkx(i) && 0 <= pre.bky(i));
        }
        assert forall|b: int, j: int|
            0 <= b < post.buckets.len() && 0 <= j < post.buckets[b].len() implies (
        #[trigger] post.buckets[b][j]) < post.items.len() && post.item_bucket(
            post.buckets[b][j] as int,
        ) == b && post.bkx(post.buckets[b][j] as int) <= post.grid_size && post.bky(
            post.buckets[b][j] as int,
        ) <= post.grid_size by {
            assert(pre.buckets[b][j] < pre.items.len() && pre.item_bucket(pre.buckets[b][j] as int)
                == b && pre.bkx(pre.buckets[b][j] as int) <= pre.grid_size && pre.bky(
                pre.buckets[b][j] as int,
            ) <= pre.grid_size);
        }
        assert forall|i: int|
            0 <= i < post.items.len() && #[trigger] post.bkx(i) <= post.grid_size && post.bky(i)
                <= post.grid_size implies post.buckets[post.item_bucket(i)]@.contains(
            i as usize,
        ) by {
            assert(pre.bkx(i) <= pre.grid_size && pre.bky(i) <= pre.grid_size);
            assert(pre.buckets[pre.item_bucket(i)]@.contains(i as usize));
            assert(post.item_bucket(i) == pre.item_bucket(i));
        }
        assert forall|b: int, j1: int, j2: int|
            0 <= b < post.buckets.len() && 0 <= j1 < j2 < post.buckets[b].len() implies (
        #[trigger] post.buckets[b][j1]) != (#[trigger] post.buckets[b][j2]) by {
            assert(pre.buckets[b][j1] != pre.buckets[b][j2]);
        }
    }

    /// Same bucket neighborhood as `query`, but returns the covered buckets'
    /// encoded contents, concatenated row-major. Each bucket is encoded at
    /// most once per grid instance: the encoding is memoized and reused by
    /// every later query that touches the bucket.
    #[verifier::loop_isolation(false)]
    #[verifier::rlimit(60)]
    pub fn query_serialized(&mut self, pos: Position, range: u64) -> (r: Vec<u8>)
        requires
            old(self).wf(),
            pos.x <= crate::consts::POS_MAX,
            pos.y <= crate::consts::POS_MAX,
            range <= 10_000_000_000,
        ensures
            final(self).wf(),
            final(self).items@ == old(self).items@,
            final(self).buckets@ == old(self).buckets@,
            final(self).cell_size == old(self).cell_size,
            final(self).grid_size == old(self).grid_size,
            r@ == old(self).window_bytes(
                old(self).win_lo(pos.x as int, range as int),
                old(self).win_hi(pos.x as int, range as int),
                old(self).win_lo(pos.y as int, range as int),
                old(self).win_hi(pos.y as int, range as int),
            ),
    {
        let ghost px = pos.x as int;
        let ghost py = pos.y as int;
        let ghost rg = range as int;
        let cpx: u64 = if pos.x < 0 { 0 } else { pos.x as u64 };
        let cpy: u64 = if pos.y < 0 { 0 } else { pos.y as u64 };
        let qx: u64 = cpx / self.cell_size;
        let qy: u64 = cpy / self.cell_size;
        let kr: u64 = range / self.cell_size + if range % self.cell_size == 0 { 0 } else { 1 };
        let x0: u64 = if kr > qx { 0 } else { qx - kr };
        let x1: u64 = if qx + kr < self.grid_size { qx + kr } else { self.grid_size };
        let y0: u64 = if kr > qy { 0 } else { qy - kr };
        let y1: u64 = if qy + kr < self.grid_size { qy + kr } else { self.grid_size };
        proof {
            assert(x0 as int == self.win_lo(px, rg));
            assert(x1 as int == self.win_hi(px, rg));
            assert(y0 as int == self.win_lo(py, rg));
            assert(y1 as int == self.win_hi(py, rg));
        }
        let ghost gits = self.items@;
        let ghost gbks = self.buckets@;
        let ghost gg = self.grid_size as int;
        let mut out: Vec<u8> = Vec::new();
        let mut xi: u64 = x0;
        while xi <= x1
            invariant
                x0 <= xi,
                xi <= x1 + 1 || xi == x0,
                self.wf(),
                self.items@ == gits,
                self.buckets@ == gbks,
                self.cell_size == old(self).cell_size,
                self.grid_size == old(self).grid_size,
                out@ == Self::s_window_bytes(gits, gbks, gg, x0 as int, xi - 1, y0 as int, y1 as int),
            decreases x1 + 1 - xi,
        {
            proof {
                assert(out@ =~= Self::s_window_bytes(
                    gits,
                    gbks,
                    gg,
                    x0 as int,
                    xi - 1,
                    y0 as int,
                    y1 as int,
                ) + Self::s_row_bytes(gits, gbks, gg, xi as int, y0 as int, y0 - 1));
            }
            let mut yi: u64 = y0;
            while yi <= y1
                invariant
                    x0 <= xi <= x1,
                    y0 <= yi,
                    yi <= y1 + 1 || yi == y0,
                    self.wf(),
                    self.items@ == gits,
                    self.buckets@ == gbks,
                    self.cell_size == old(self).cell_size,
                    self.grid_size == old(self).grid_size,
                    out@ == Self::s_window_bytes(
                        gits,
                        gbks,
                        gg,
                        x0 as int,
                        xi - 1,
                        y0 as int,
                        y1 as int,
                    ) + Self::s_row_bytes(gits, gbks, gg, xi as int, y0 as int, yi - 1),
                decreases y1 + 1 - yi,
            {
                proof {
                    assert(xi * (self.grid_size as int + 1) + yi < self.nb()) by (nonlinear_arith)
                        requires
                            0 <= xi <= self.grid_size as int,
                            0 <= yi <= self.grid_size as int,
                    {}
                }
                let b: usize = (xi * (self.grid_size + 1) + yi) as usize;
                proof {
                    assert(b as int == (xi as int) * (gg + 1) + yi as int);
                }
                let mut piece: Vec<u8>;
                let mut have: bool = false;
                match &self.serialized[b] {
                    Some(v) => {
                        piece = copy_bytes(v);
                        have = true;
                    },
                    None => {
                        piece = self.bucket_to_bytes(b);
                    },
                }
                let ghost piecev = piece@;
                proof {
                    assert(piecev == Self::concat_bytes(gits, gbks[b as int]@));
                }
                if !have {
                    let keep = copy_bytes(&piece);
                    let ghost pre_grid = *self;
                    self.serialized.set(b, Some(keep));
                    proof {
                        assert forall|bb: int|
                            0 <= bb < self.serialized.len() implies ((
                        #[trigger] self.serialized[bb]) is Some ==> self.serialized[bb]->Some_0@
                            == self.bucket_bytes(bb)) by {
                            if bb == b as int {
                                assert(self.serialized[bb]->Some_0@ == piecev);
                                assert(self.bucket_bytes(bb) == Self::concat_bytes(
                                    self.items@,
                                    self.buckets[bb]@,
                                ));
                            } else {
                                assert(self.serialized[bb] == pre_grid.serialized[bb]);
                                assert(pre_grid.bucket_bytes(bb) == Self::concat_bytes(
                                    pre_grid.items@,
                                    pre_grid.buckets[bb]@,
                                ));
                            }
                        }
                        Self::lemma_wf_serialized_update(pre_grid, *self);
                    }
                }
                let ghost pre_out = out@;
                out.append(&mut piece);
                proof {
                    let rb_new = Self::s_row_bytes(gits, gbks, gg, xi as int, y0 as int, yi as int);
                    let rb_old = Self::s_row_bytes(gits, gbks, gg, xi as int, y0 as int, yi - 1);
                    assert(rb_new == rb_old + Self::concat_bytes(gits, gbks[b as int]@));
                    assert(out@ == pre_out + piecev);
                    assert(out@ =~= Self::s_window_bytes(
                        gits,
                        gbks,
                        gg,
                        x0 as int,
                        xi - 1,
                        y0 as int,
                        y1 as int,
                    ) + rb_new);
                }
                yi = yi + 1;
            }
            proof {
                if y0 > y1 {
                    assert(Self::s_row_bytes(gits, gbks, gg, xi as int, y0 as int, yi - 1)
                        =~= Self::s_row_bytes(gits, gbks, gg, xi as int, y0 as int, y1 as int));
                } else {
                    assert(yi == y1 + 1);
                }
                assert(Self::s_window_bytes(gits, gbks, gg, x0 as int, xi as int, y0 as int, y1 as int)
                    == Self::s_window_bytes(gits, gbks, gg, x0 as int, xi - 1, y0 as int, y1 as int)
                    + Self::s_row_bytes(gits, gbks, gg, xi as int, y0 as int, y1 as int));
                assert(out@ =~= Self::s_window_bytes(
                    gits,
                    gbks,
                    gg,
                    x0 as int,
                    xi as int,
                    y0 as int,
                    y1 as int,
                ));
            }
            xi = xi + 1;
        }
        proof {
            if x0 > x1 {
                assert(out@ =~= Self::s_window_bytes(
                    gits,
                    gbks,
                    gg,
                    x0 as int,
                    x1 as int,
                    y0 as int,
                    y1 as int,
                ));
            } else {
                assert(xi == x1 + 1);
            }
            assert(out@ == Self::s_window_bytes(
                gits,
                gbks,
                gg,
                x0 as int,
                x1 as int,
                y0 as int,
                y1 as int,
            ));
            assert(old(self).window_bytes(x0 as int, x1 as int, y0 as int, y1 as int)
                == Self::s_window_bytes(gits, gbks, gg, x0 as int, x1 as int, y0 as int, y1 as int));
        }
        out
    }

    /// No false negatives: an item within Chebyshev distance `range` of the
    /// query point lies in the covered bucket window, for every range (the
    /// bucket radius rounds up). Together with `query`'s contract, the query
    /// result is a superset of the items within a circle of radius `range`.
    pub proof fn lemma_query_no_false_negative(&self, i: int, px: int, py: int, range: int)
        requires
            self.wf(),
            0 <= i < self.items.len(),
            0 <= px,
            0 <= py,
            0 <= range,
            self.bkx(i) <= self.grid_size,
            self.bky(i) <= self.grid_size,
            crate::physics::dist2(self.items[i].sx(), self.items[i].sy(), px, py) <= range * range,
        ensures
            self.in_window(i, px, py, range),
    {
        let cs = self.cell_size as int;
        let sx = self.items[i].sx();
        let sy = self.items[i].sy();
        let k = self.win_radius(range);
        assert(k * cs >= range && k >= 0) by {
            vstd::arithmetic::div_mod::lemma_fundamental_div_mod(range, cs);
            vstd::arithmetic::div_mod::lemma_mod_bound(range, cs);
            vstd::arithmetic::div_mod::lemma_div_pos_is_pos(range, cs);
            if range % cs == 0 {
                assert(k * cs == cs * (range / cs)) by (nonlinear_arith)
                    requires
                        k == range / cs,
                {}
            } else {
                assert(k * cs == cs * (range / cs) + cs) by (nonlinear_arith)
                    requires
                        k == range / cs + 1,
                {}
            }
        }
        assert(sx - px <= range && px - sx <= range && sy - py <= range && py - sy <= range) by (
        nonlinear_arith)
            requires
                (sx - px) * (sx - px) + (sy - py) * (sy - py) <= range * range,
                range >= 0,
        {}
        // x axis: px / cs - k <= sx / cs <= px / cs + k, then clamping.
        vstd::arithmetic::div_mod::lemma_hoist_over_denominator(px, -k, cs as nat);
        vstd::arithmetic::div_mod::lemma_hoist_over_denominator(px, k, cs as nat);
        assert(px + (-k) * cs <= px - range && px + k * cs >= px + range) by (nonlinear_arith)
            requires
                k * cs >= range,
        {}
        vstd::arithmetic::div_mod::lemma_div_is_ordered(px + (-k) * cs, sx, cs);
        vstd::arithmetic::div_mod::lemma_div_is_ordered(sx, px + k * cs, cs);
        vstd::arithmetic::div_mod::lemma_hoist_over_denominator(py, -k, cs as nat);
        vstd::arithmetic::div_mod::lemma_hoist_over_denominator(py, k, cs as nat);
        assert(py + (-k) * cs <= py - range && py + k * cs >= py + range) by (nonlinear_arith)
            requires
                k * cs >= range,
        {}
        vstd::arithmetic::div_mod::lemma_div_is_ordered(py + (-k) * cs, sy, cs);
        vstd::arithmetic::div_mod::lemma_div_is_ordered(sy, py + k * cs, cs);
    }
}


impl<T: PositionTrait + ToBytes> Grid<T> {
    /// Fixed-size records concatenate to a multiple of the record size.
    pub proof fn lemma_concat_bytes_multiple(items: Seq<T>, idxs: Seq<usize>, l: int)
        requires
            l > 0,
            forall|j: int| 0 <= j < idxs.len() ==> (#[trigger] idxs[j]) < items.len(),
            forall|i: int| 0 <= i < items.len() ==> (#[trigger] items[i]).bytes_spec().len() == l,
        ensures
            Self::concat_bytes(items, idxs).len() as int % l == 0,
        decreases idxs.len(),
    {
        if idxs.len() > 0 {
            let pre = idxs.drop_last();
            assert forall|j: int| 0 <= j < pre.len() implies (#[trigger] pre[j]) < items.len() by {
                assert(pre[j] == idxs[j]);
            }
            Self::lemma_concat_bytes_multiple(items, pre, l);
            let c0 = Self::concat_bytes(items, pre).len() as int;
            assert(idxs.last() < items.len());
            assert(items[idxs.last() as int].bytes_spec().len() == l);
            assert(Self::concat_bytes(items, idxs).len() as int == c0 + l);
            vstd::arithmetic::div_mod::lemma_mod_add_multiples_vanish(c0, l);
            assert((l + c0) % l == c0 % l);
        } else {
            vstd::arithmetic::div_mod::lemma_small_mod(0, l as nat);
        }
    }

    pub proof fn lemma_row_bytes_multiple(&self, l: int, bx: int, y0: int, y1: int)
        requires
            self.wf(),
            l > 0,
            forall|i: int|
                0 <= i < self.items.len() ==> (#[trigger] self.items[i]).bytes_spec().len() == l,
            0 <= bx <= self.grid_size,
            0 <= y0,
            y1 <= self.grid_size,
        ensures
            Self::s_row_bytes(self.items@, self.buckets@, self.grid_size as int, bx, y0, y1).len()
                as int % l == 0,
        decreases y1 - y0 + 1,
    {
        if y1 >= y0 {
            self.lemma_row_bytes_multiple(l, bx, y0, y1 - 1);
            let b = bx * (self.grid_size as int + 1) + y1;
            assert(0 <= b < self.nb()) by (nonlinear_arith)
                requires
                    0 <= bx <= self.grid_size as int,
                    0 <= y1 <= self.grid_size as int,
                    b == bx * (self.grid_size as int + 1) + y1,
            {}
            assert forall|j: int|
                0 <= j < self.buckets@[b]@.len() implies (#[trigger] self.buckets@[b]@[j])
                < self.items@.len() by {
                assert(self.buckets[b][j] < self.items.len());
            }
            Self::lemma_concat_bytes_multiple(self.items@, self.buckets@[b]@, l);
            let c0 = Self::s_row_bytes(
                self.items@,
                self.buckets@,
                self.grid_size as int,
                bx,
                y0,
                y1 - 1,
            ).len() as int;
            let c1 = Self::concat_bytes(self.items@, self.buckets@[b]@).len() as int;
            assert(Self::s_row_bytes(
                self.items@,
                self.buckets@,
                self.grid_size as int,
                bx,
                y0,
                y1,
            ).len() as int == c0 + c1);
            vstd::arithmetic::div_mod::lemma_add_mod_noop(c0, c1, l);
            vstd::arithmetic::div_mod::lemma_small_mod(0, l as nat);
        } else {
            vstd::arithmetic::div_mod::lemma_small_mod(0, l as nat);
        }
    }

    /// A covered window's bytes are a whole number of fixed-size records.
    pub proof fn lemma_window_bytes_multiple(&self, l: int, x0: int, x1: int, y0: int, y1: int)
        requires
            self.wf(),
            l > 0,
            forall|i: int|
                0 <= i < self.items.len() ==> (#[trigger] self.items[i]).bytes_spec().len() == l,
            0 <= x0,
            x1 <= self.grid_size,
            0 <= y0,
            y1 <= self.grid_size,
        ensures
            self.window_bytes(x0, x1, y0, y1).len() as int % l == 0,
        decreases x1 - x0 + 1,
    {
        if x1 >= x0 {
            self.lemma_window_bytes_multiple(l, x0, x1 - 1, y0, y1);
            self.lemma_row_bytes_multiple(l, x1, y0, y1);
            let c0 = Self::s_window_bytes(
                self.items@,
                self.buckets@,
                self.grid_size as int,
                x0,
                x1 - 1,
                y0,
                y1,
            ).len() as int;
            let c1 = Self::s_row_bytes(
                self.items@,
                self.buckets@,
                self.grid_size as int,
                x1,
                y0,
                y1,
            ).len() as int;
            assert(self.window_bytes(x0, x1, y0, y1).len() as int == c0 + c1);
            vstd::arithmetic::div_mod::lemma_add_mod_noop(c0, c1, l);
            vstd::arithmetic::div_mod::lemma_small_mod(0, l as nat);
        } else {
            vstd::arithmetic::div_mod::lemma_small_mod(0, l as nat);
        }
    }
}

} // verus!
