//! A uniform grid of cells over the boundary segments of a face, and the
//! crossing-parity rule that uses it.
//!
//! A segment is filed under every cell its bounding box touches, so lookups
//! are conservative (never miss). A segment that lies in several of the cells
//! of a lookup is still met once.

use vstd::prelude::*;

use crate::double::{below, is_less, nan, rank};

verus! {

/// The cells that a bounding box touches, all four bounds taken in.
#[derive(Debug, Clone, Copy, PartialEq, Eq, Structural)]
pub struct CellBox {
    pub x0: usize,
    pub x1: usize,
    pub y0: usize,
    pub y1: usize,
}

/// True when a box touches a cell.
pub open spec fn touches(b: CellBox, x: int, y: int) -> bool {
    b.x0 <= x <= b.x1 && b.y0 <= y <= b.y1
}

/// The segments among the first `n` whose boxes touch a cell, in order.
pub open spec fn filed(boxes: Seq<CellBox>, n: int, x: int, y: int) -> Seq<u32>
    decreases n,
{
    if n <= 0 {
        Seq::empty()
    } else {
        let before = filed(boxes, n - 1, x, y);
        if touches(boxes[n - 1], x, y) {
            before.push((n - 1) as u32)
        } else {
            before
        }
    }
}

/// Uniform bucket grid over the boundary segments.
pub struct SegGrid {
    pub nx: usize,
    pub ny: usize,
    /// How many segments there are.
    pub count: usize,
    /// What is filed under a cell, row by row.
    pub buckets: Vec<Vec<Vec<u32>>>,
}

impl SegGrid {
    /// The grid has the size it says, and names only segments that there are.
    pub open spec fn well_formed(self) -> bool {
        &&& self.buckets@.len() == self.ny
        &&& forall|y: int| 0 <= y < self.ny ==> (#[trigger] self.buckets@[y])@.len() == self.nx
        &&& forall|y: int, x: int, k: int|
            0 <= y < self.ny && 0 <= x < self.nx && 0 <= k < self.at(x, y).len() ==> (
            #[trigger] self.at(x, y)[k]) < self.count
    }

    /// What is filed under a cell.
    pub open spec fn at(self, x: int, y: int) -> Seq<u32> {
        self.buckets@[y]@[x]@
    }

    /// File segments by their boxes.
    pub fn build(nx: usize, ny: usize, boxes: &[CellBox]) -> (r: SegGrid)
        requires
            boxes@.len() <= u32::MAX,
            forall|i: int|
                0 <= i < boxes@.len() ==> (#[trigger] boxes@[i]).x1 < nx && boxes@[i].y1 < ny,
        ensures
            r.well_formed(),
            r.nx == nx,
            r.ny == ny,
            r.count == boxes@.len(),
            forall|x: int, y: int|
                0 <= x < nx && 0 <= y < ny ==> #[trigger] r.at(x, y) == filed(
                    boxes@,
                    boxes@.len() as int,
                    x,
                    y,
                ),
    {
        let mut buckets: Vec<Vec<Vec<u32>>> = Vec::new();
        let mut y: usize = 0;
        while y < ny
            invariant
                y <= ny,
                buckets@.len() == y,
                forall|b: int| 0 <= b < y ==> (#[trigger] buckets@[b])@.len() == nx,
                forall|b: int, a: int|
                    0 <= b < y && 0 <= a < nx ==> (#[trigger] buckets@[b]@[a])@ == Seq::<
                        u32,
                    >::empty(),
            decreases ny - y,
        {
            let mut row: Vec<Vec<u32>> = Vec::new();
            let mut x: usize = 0;
            while x < nx
                invariant
                    x <= nx,
                    row@.len() == x,
                    forall|a: int|
                        0 <= a < x ==> (#[trigger] row@[a])@ == Seq::<u32>::empty(),
                decreases nx - x,
            {
                row.push(Vec::new());
                x += 1;
            }
            buckets.push(row);
            y += 1;
        }
        let mut i: usize = 0;
        while i < boxes.len()
            invariant
                i <= boxes@.len(),
                boxes@.len() <= u32::MAX,
                forall|i: int|
                    0 <= i < boxes@.len() ==> (#[trigger] boxes@[i]).x1 < nx && boxes@[i].y1 < ny,
                buckets@.len() == ny,
                forall|b: int| 0 <= b < ny ==> (#[trigger] buckets@[b])@.len() == nx,
                forall|b: int, a: int|
                    0 <= b < ny && 0 <= a < nx ==> (#[trigger] buckets@[b]@[a])@ == filed(
                        boxes@,
                        i as int,
                        a,
                        b,
                    ),
            decreases boxes@.len() - i,
        {
            let bx: CellBox = boxes[i];
            file_one(&mut buckets, nx, ny, bx, i as u32);
            assert forall|b: int, a: int| 0 <= b < ny && 0 <= a < nx implies (
            #[trigger] buckets@[b]@[a])@ == filed(boxes@, i + 1, a, b) by {
                assert(filed(boxes@, i + 1, a, b) == (if touches(bx, a, b) {
                    filed(boxes@, i as int, a, b).push(i as u32)
                } else {
                    filed(boxes@, i as int, a, b)
                }));
            }
            i += 1;
        }
        let r = SegGrid { nx, ny, count: boxes.len(), buckets };
        proof {
            assert forall|b: int, a: int, k: int|
                0 <= b < ny && 0 <= a < nx && 0 <= k < r.at(a, b).len() implies (
            #[trigger] r.at(a, b)[k]) < r.count by {
                assert(r.buckets@[b]@[a]@ == filed(boxes@, boxes@.len() as int, a, b));
                lemma_filed(boxes@, boxes@.len() as int, a, b);
            }
            assert forall|x: int, y: int| 0 <= x < nx && 0 <= y < ny implies #[trigger] r.at(x, y)
                == filed(boxes@, boxes@.len() as int, x, y) by {
                assert(r.buckets@[y]@[x]@ == filed(boxes@, boxes@.len() as int, x, y));
            }
        }
        r
    }
}

/// File one segment under the cells of its box.
fn file_one(buckets: &mut Vec<Vec<Vec<u32>>>, nx: usize, ny: usize, bx: CellBox, i: u32)
    requires
        bx.x1 < nx,
        bx.y1 < ny,
        old(buckets)@.len() == ny,
        forall|b: int| 0 <= b < ny ==> (#[trigger] old(buckets)@[b])@.len() == nx,
    ensures
        final(buckets)@.len() == ny,
        forall|b: int| 0 <= b < ny ==> (#[trigger] final(buckets)@[b])@.len() == nx,
        forall|b: int, a: int|
            0 <= b < ny && 0 <= a < nx ==> (#[trigger] final(buckets)@[b]@[a])@ == (if touches(
                bx,
                a,
                b,
            ) {
                old(buckets)@[b]@[a]@.push(i)
            } else {
                old(buckets)@[b]@[a]@
            }),
{
    let ghost start = buckets@;
    let mut y: usize = bx.y0;
    while y <= bx.y1
        invariant
            bx.y0 <= y,
            y <= bx.y1 + 1 || y == bx.y0,
            bx.x1 < nx,
            bx.y1 < ny,
            start.len() == ny,
            forall|b: int| 0 <= b < ny ==> (#[trigger] start[b])@.len() == nx,
            buckets@.len() == ny,
            forall|b: int| 0 <= b < ny ==> (#[trigger] buckets@[b])@.len() == nx,
            forall|b: int, a: int|
                0 <= b < ny && 0 <= a < nx ==> (#[trigger] buckets@[b]@[a])@ == (if touches(
                    bx,
                    a,
                    b,
                ) && b < y {
                    start[b]@[a]@.push(i)
                } else {
                    start[b]@[a]@
                }),
        decreases bx.y1 + 1 - y,
    {
        let ghost before = buckets@;
        let row = &mut buckets[y];
        file_in_row(row, nx, bx.x0, bx.x1, i);
        assert forall|b: int, a: int| 0 <= b < ny && 0 <= a < nx implies (
        #[trigger] buckets@[b]@[a])@ == (if touches(bx, a, b) && b < y + 1 {
            start[b]@[a]@.push(i)
        } else {
            start[b]@[a]@
        }) by {
            assert(before[b]@[a]@ == (if touches(bx, a, b) && b < y {
                start[b]@[a]@.push(i)
            } else {
                start[b]@[a]@
            }));
            if b != y {
                assert(buckets@[b] == before[b]);
            }
        }
        y += 1;
    }
}

/// File one segment under the cells `x0` to `x1` of a row.
fn file_in_row(row: &mut Vec<Vec<u32>>, nx: usize, x0: usize, x1: usize, i: u32)
    requires
        x1 < nx,
        old(row)@.len() == nx,
    ensures
        final(row)@.len() == nx,
        forall|a: int|
            0 <= a < nx ==> (#[trigger] final(row)@[a])@ == (if x0 <= a <= x1 {
                old(row)@[a]@.push(i)
            } else {
                old(row)@[a]@
            }),
{
    let ghost start = row@;
    let mut x: usize = x0;
    while x <= x1
        invariant
            x0 <= x,
            x <= x1 + 1 || x == x0,
            x1 < nx,
            start.len() == nx,
            row@.len() == nx,
            forall|a: int|
                0 <= a < nx ==> (#[trigger] row@[a])@ == (if x0 <= a < x && a <= x1 {
                    start[a]@.push(i)
                } else {
                    start[a]@
                }),
        decreases x1 + 1 - x,
    {
        let ghost before = row@;
        let cell = &mut row[x];
        cell.push(i);
        assert forall|a: int| 0 <= a < nx implies (#[trigger] row@[a])@ == (if x0 <= a < x + 1 && a
            <= x1 {
            start[a]@.push(i)
        } else {
            start[a]@
        }) by {
            assert(before[a]@ == (if x0 <= a < x && a <= x1 {
                start[a]@.push(i)
            } else {
                start[a]@
            }));
            if a != x {
                assert(row@[a] == before[a]);
            }
        }
        x += 1;
    }
}

/// What is filed under a cell are segments whose boxes touch it.
pub proof fn lemma_filed(boxes: Seq<CellBox>, n: int, x: int, y: int)
    requires
        0 <= n <= boxes.len(),
        n <= u32::MAX,
    ensures
        forall|k: int|
            0 <= k < filed(boxes, n, x, y).len() ==> 0 <= (#[trigger] filed(boxes, n, x, y)[k]) < n
                && touches(boxes[filed(boxes, n, x, y)[k] as int], x, y),
        forall|i: int|
            0 <= i < n && touches(#[trigger] boxes[i], x, y) ==> filed(boxes, n, x, y).contains(
                i as u32,
            ),
    decreases n,
{
    if n > 0 {
        lemma_filed(boxes, n - 1, x, y);
        let before = filed(boxes, n - 1, x, y);
        let after = filed(boxes, n, x, y);
        assert forall|i: int| 0 <= i < n && touches(#[trigger] boxes[i], x, y) implies after.contains(
            i as u32,
        ) by {
            if i < n - 1 {
                assert(before.contains(i as u32));
                let k = choose|k: int| 0 <= k < before.len() && before[k] == i as u32;
                assert(after[k] == i as u32);
            } else {
                assert(after[before.len() as int] == i as u32);
            }
        }
    }
}

/// A run of cells in one row: the row, the first cell and the last.
#[derive(Debug, Clone, Copy, PartialEq, Eq, Structural)]
pub struct CellRun {
    pub y: usize,
    pub x0: usize,
    pub x1: usize,
}

/// Segments in the order in which they are first met.
pub open spec fn firsts(s: Seq<u32>) -> Seq<u32>
    decreases s.len(),
{
    if s.len() == 0 {
        Seq::empty()
    } else {
        let before = firsts(s.drop_last());
        if before.contains(s.last()) {
            before
        } else {
            before.push(s.last())
        }
    }
}

impl SegGrid {
    /// What is filed under the cells from `x0` up to `x` of a row.
    pub open spec fn in_cells(self, y: int, x0: int, x: int) -> Seq<u32>
        decreases x - x0,
    {
        if x <= x0 {
            Seq::empty()
        } else {
            self.in_cells(y, x0, x - 1) + self.at(x - 1, y)
        }
    }

    /// What is filed under runs of cells, in order.
    pub open spec fn in_runs(self, runs: Seq<CellRun>) -> Seq<u32>
        decreases runs.len(),
    {
        if runs.len() == 0 {
            Seq::empty()
        } else {
            self.in_runs(runs.drop_last()) + self.in_cells(
                runs.last().y as int,
                runs.last().x0 as int,
                runs.last().x1 + 1,
            )
        }
    }

    /// Visit each segment filed under the cells of `runs`, once.
    pub fn visit(&self, runs: &[CellRun]) -> (r: Vec<u32>)
        requires
            self.well_formed(),
            forall|k: int|
                0 <= k < runs@.len() ==> (#[trigger] runs@[k]).y < self.ny && runs@[k].x1 < self.nx,
        ensures
            r@ == firsts(self.in_runs(runs@)),
    {
        let mut out: Vec<u32> = Vec::new();
        let mut seen: Vec<bool> = Vec::new();
        let mut c: usize = 0;
        while c < self.count
            invariant
                c <= self.count,
                seen@.len() == c,
                forall|k: int| 0 <= k < c ==> !seen@[k],
            decreases self.count - c,
        {
            seen.push(false);
            c += 1;
        }
        let ghost mut met: Seq<u32> = Seq::empty();
        let mut k: usize = 0;
        assert(self.in_runs(runs@.take(0)) =~= Seq::<u32>::empty());
        while k < runs.len()
            invariant
                k <= runs@.len(),
                self.well_formed(),
                forall|k: int|
                    0 <= k < runs@.len() ==> (#[trigger] runs@[k]).y < self.ny && runs@[k].x1
                        < self.nx,
                met == self.in_runs(runs@.take(k as int)),
                out@ == firsts(met),
                seen@.len() == self.count,
                forall|i: u32| i < self.count ==> seen@[i as int] == #[trigger] out@.contains(i),
            decreases runs@.len() - k,
        {
            let run: CellRun = runs[k];
            let ghost before = met;
            let mut x: usize = run.x0;
            proof {
                assert(runs@.take(k + 1).drop_last() =~= runs@.take(k as int));
                assert(before + self.in_cells(run.y as int, run.x0 as int, x as int) =~= before);
            }
            while x <= run.x1
                invariant
                    run.x0 <= x,
                    x <= run.x1 + 1 || x == run.x0,
                    run.x1 < self.nx,
                    run.y < self.ny,
                    self.well_formed(),
                    met == before + self.in_cells(run.y as int, run.x0 as int, x as int),
                    out@ == firsts(met),
                    seen@.len() == self.count,
                    forall|i: u32|
                        i < self.count ==> seen@[i as int] == #[trigger] out@.contains(i),
                decreases run.x1 + 1 - x,
            {
                let ghost cell = self.at(x as int, run.y as int);
                let ghost base = met;
                let bucket: &Vec<u32> = &self.buckets[run.y][x];
                let mut b: usize = 0;
                assert(base + cell.take(0) =~= base);
                while b < bucket.len()
                    invariant
                        b <= bucket@.len(),
                        bucket@ == cell,
                        run.x1 < self.nx,
                        run.y < self.ny,
                        x <= run.x1,
                        cell == self.at(x as int, run.y as int),
                        self.well_formed(),
                        met == base + cell.take(b as int),
                        out@ == firsts(met),
                        seen@.len() == self.count,
                        forall|i: u32|
                            i < self.count ==> seen@[i as int] == #[trigger] out@.contains(i),
                    decreases bucket@.len() - b,
                {
                    let i: u32 = bucket[b];
                    assert(self.at(x as int, run.y as int)[b as int] < self.count);
                    let ghost was = out@;
                    let ghost prior = met;
                    proof {
                        met = met.push(i);
                        assert(met.drop_last() =~= prior);
                        assert(met =~= base + cell.take(b + 1));
                        assert(seen@[i as int] == out@.contains(i));
                    }
                    if !seen[i as usize] {
                        seen.set(i as usize, true);
                        out.push(i);
                        assert forall|j: u32| j < self.count implies seen@[j as int]
                            == #[trigger] out@.contains(j) by {
                            if was.contains(j) {
                                let p = choose|p: int| 0 <= p < was.len() && was[p] == j;
                                assert(out@[p] == j);
                            }
                            assert(out@[was.len() as int] == i);
                            if out@.contains(j) && j != i {
                                let p = choose|p: int| 0 <= p < out@.len() && out@[p] == j;
                                assert(was[p] == j);
                            }
                        }
                    }
                    b += 1;
                }
                proof {
                    assert(cell.take(b as int) =~= cell);
                    assert(self.in_cells(run.y as int, run.x0 as int, x + 1) == self.in_cells(
                        run.y as int,
                        run.x0 as int,
                        x as int,
                    ) + cell);
                    assert(met =~= before + self.in_cells(run.y as int, run.x0 as int, x + 1));
                }
                x += 1;
            }
            proof {
                if x == run.x0 && x > run.x1 + 1 {
                    assert(self.in_cells(run.y as int, run.x0 as int, run.x1 + 1) =~= self.in_cells(
                        run.y as int,
                        run.x0 as int,
                        x as int,
                    ));
                }
                assert(met == self.in_runs(runs@.take(k + 1)));
            }
            k += 1;
        }
        assert(runs@.take(k as int) =~= runs@);
        out
    }
}

/// What is met first is all that is met, each once.
proof fn lemma_firsts(s: Seq<u32>)
    ensures
        firsts(s).no_duplicates(),
        forall|i: u32| #[trigger] firsts(s).contains(i) <==> s.contains(i),
    decreases s.len(),
{
    if s.len() > 0 {
        let shorter = s.drop_last();
        let last = s.last();
        lemma_firsts(shorter);
        assert forall|i: u32| #[trigger] firsts(s).contains(i) <==> s.contains(i) by {
            if shorter.contains(i) {
                let k = choose|k: int| 0 <= k < shorter.len() && shorter[k] == i;
                assert(s[k] == i);
            }
            assert(s[s.len() - 1] == last);
            if s.contains(i) && i != last {
                let k = choose|k: int| 0 <= k < s.len() && s[k] == i;
                assert(shorter[k] == i);
            }
            let before = firsts(shorter);
            assert(firsts(shorter).contains(i) <==> shorter.contains(i));
            if !before.contains(last) {
                assert(firsts(s) == before.push(last));
                assert(before.push(last)[before.len() as int] == last);
                if before.contains(i) {
                    let k = choose|k: int| 0 <= k < before.len() && before[k] == i;
                    assert(before.push(last)[k] == i);
                }
                if before.push(last).contains(i) && i != last {
                    let k = choose|k: int|
                        0 <= k < before.push(last).len() && before.push(last)[k] == i;
                    assert(before[k] == i);
                }
            }
        }
    }
}

/// What stands in the first of two lists, or in the second, stands in both
/// together.
proof fn lemma_in_either(a: Seq<u32>, b: Seq<u32>, i: u32)
    requires
        a.contains(i) || b.contains(i),
    ensures
        (a + b).contains(i),
{
    if a.contains(i) {
        let k = choose|k: int| 0 <= k < a.len() && a[k] == i;
        assert((a + b)[k] == i);
    } else {
        let k = choose|k: int| 0 <= k < b.len() && b[k] == i;
        assert((a + b)[a.len() + k] == i);
    }
}

/// What is filed under one of the cells is filed under them all together.
proof fn lemma_in_cells(g: SegGrid, y: int, x0: int, x: int, c: int, i: u32)
    requires
        x0 <= c < x,
        g.at(c, y).contains(i),
    ensures
        g.in_cells(y, x0, x).contains(i),
    decreases x - x0,
{
    if c < x - 1 {
        lemma_in_cells(g, y, x0, x - 1, c, i);
    }
    lemma_in_either(g.in_cells(y, x0, x - 1), g.at(x - 1, y), i);
}

/// What is filed under one of the runs is filed under them all together.
proof fn lemma_in_runs(g: SegGrid, runs: Seq<CellRun>, k: int, i: u32)
    requires
        0 <= k < runs.len(),
        g.in_cells(runs[k].y as int, runs[k].x0 as int, runs[k].x1 + 1).contains(i),
    ensures
        g.in_runs(runs).contains(i),
    decreases runs.len(),
{
    if k < runs.len() - 1 {
        lemma_in_runs(g, runs.drop_last(), k, i);
    }
    lemma_in_either(
        g.in_runs(runs.drop_last()),
        g.in_cells(runs.last().y as int, runs.last().x0 as int, runs.last().x1 + 1),
        i,
    );
}

/// A visit meets no segment twice, and misses none whose box touches one of
/// the cells that it goes through.
pub proof fn lemma_no_segment_is_missed(g: SegGrid, boxes: Seq<CellBox>, runs: Seq<CellRun>)
    requires
        boxes.len() <= u32::MAX,
        forall|x: int, y: int|
            0 <= x < g.nx && 0 <= y < g.ny ==> #[trigger] g.at(x, y) == filed(
                boxes,
                boxes.len() as int,
                x,
                y,
            ),
        forall|k: int| 0 <= k < runs.len() ==> (#[trigger] runs[k]).y < g.ny && runs[k].x1 < g.nx,
    ensures
        firsts(g.in_runs(runs)).no_duplicates(),
        forall|i: int, k: int, x: int|
            0 <= i < boxes.len() && 0 <= k < runs.len() && runs[k].x0 <= x <= runs[k].x1
                && #[trigger] touches(boxes[i], x, (#[trigger] runs[k]).y as int) ==> firsts(
                g.in_runs(runs),
            ).contains(i as u32),
{
    lemma_firsts(g.in_runs(runs));
    assert forall|i: int, k: int, x: int|
        0 <= i < boxes.len() && 0 <= k < runs.len() && runs[k].x0 <= x <= runs[k].x1
            && #[trigger] touches(boxes[i], x, (#[trigger] runs[k]).y as int) implies firsts(
        g.in_runs(runs),
    ).contains(i as u32) by {
        let y = runs[k].y as int;
        lemma_filed(boxes, boxes.len() as int, x, y);
        assert(g.at(x, y) == filed(boxes, boxes.len() as int, x, y));
        lemma_in_cells(g, y, runs[k].x0 as int, runs[k].x1 + 1, x, i as u32);
        lemma_in_runs(g, runs, k, i as u32);
        assert(firsts(g.in_runs(runs)).contains(i as u32) <==> g.in_runs(runs).contains(i as u32));
    }
}

// ---- inside or outside ----

/// A point is on the other side than its anchor when the way there crosses the
/// boundary an odd number of times.
pub open spec fn side_of(anchor_inside: bool, hits: u32) -> bool {
    anchor_inside != (hits % 2 == 1)
}

/// How many of the anchors put a point inside.
pub open spec fn votes(anchor_inside: bool, hits: Seq<u32>) -> nat
    decreases hits.len(),
{
    if hits.len() == 0 {
        0
    } else {
        votes(anchor_inside, hits.drop_last()) + if side_of(anchor_inside, hits.last()) {
            1nat
        } else {
            0nat
        }
    }
}

/// Inside or outside, by how often the ways from the anchors to a point cross
/// the boundary. Without a boundary the whole domain is the face; a single
/// heuristic anchor decides alone; several anchors decide by majority, which
/// outvotes parity errors from a way through a corner.
pub open spec fn inside_by(
    no_boundary: bool,
    heuristic: bool,
    anchor_inside: bool,
    hits: Seq<u32>,
) -> bool {
    if hits.len() == 0 || no_boundary {
        true
    } else if heuristic {
        side_of(anchor_inside, hits[0])
    } else {
        votes(anchor_inside, hits) * 2 > hits.len()
    }
}

/// Is a point inside the face?
pub fn inside(no_boundary: bool, heuristic: bool, anchor_inside: bool, hits: &[u32]) -> (r: bool)
    requires
        hits@.len() <= u32::MAX,
    ensures
        r == inside_by(no_boundary, heuristic, anchor_inside, hits@),
{
    if hits.len() == 0 || no_boundary {
        return true;
    }
    if heuristic {
        return anchor_inside != (hits[0] % 2 == 1);
    }
    let mut count: u64 = 0;
    let mut i: usize = 0;
    while i < hits.len()
        invariant
            i <= hits@.len(),
            hits@.len() <= u32::MAX,
            count == votes(anchor_inside, hits@.take(i as int)),
            count <= i,
        decreases hits@.len() - i,
    {
        assert(hits@.take(i + 1).drop_last() =~= hits@.take(i as int));
        assert(hits@.take(i + 1).last() == hits@[i as int]);
        if anchor_inside != (hits[i] % 2 == 1) {
            count += 1;
        }
        i += 1;
    }
    assert(hits@.take(i as int) =~= hits@);
    count * 2 > hits.len() as u64
}

/// True when one of two numbers comes first in order of size, the larger first,
/// and of two equal ones the earlier.
pub open spec fn ahead(lens: Seq<u64>, a: int, b: int) -> bool {
    rank(lens[a]) > rank(lens[b]) || (rank(lens[a]) == rank(lens[b]) && a < b)
}

/// The places of the largest numbers, at most `limit` of them: the largest
/// first, and of equal ones the earlier first.
pub fn largest_first(lens: &[u64], limit: usize) -> (r: Vec<usize>)
    requires
        forall|i: int| 0 <= i < lens@.len() ==> !nan(#[trigger] lens@[i]),
    ensures
        r@.len() == (if limit < lens@.len() {
            limit as nat
        } else {
            lens@.len()
        }),
        forall|k: int| 0 <= k < r@.len() ==> (#[trigger] r@[k]) < lens@.len(),
        forall|k: int, m: int|
            0 <= k < m < r@.len() ==> ahead(lens@, #[trigger] r@[k] as int, #[trigger] r@[m] as int),
        forall|k: int, j: int|
            0 <= k < r@.len() && 0 <= j < lens@.len() && !r@.contains(j as usize) ==> #[trigger] ahead(
                lens@,
                r@[k] as int,
                j,
            ),
{
    let mut out: Vec<usize> = Vec::new();
    let mut used: Vec<bool> = Vec::new();
    let mut c: usize = 0;
    while c < lens.len()
        invariant
            c <= lens@.len(),
            used@.len() == c,
            forall|k: int| 0 <= k < c ==> !used@[k],
        decreases lens@.len() - c,
    {
        used.push(false);
        c += 1;
    }
    while out.len() < limit && out.len() < lens.len()
        invariant
            out@.len() <= limit,
            out@.len() <= lens@.len(),
            used@.len() == lens@.len(),
            forall|i: int| 0 <= i < lens@.len() ==> !nan(#[trigger] lens@[i]),
            forall|k: int| 0 <= k < out@.len() ==> (#[trigger] out@[k]) < lens@.len(),
            forall|j: int|
                0 <= j < lens@.len() ==> used@[j] == (#[trigger] out@.contains(j as usize)),
            forall|k: int, m: int|
                0 <= k < m < out@.len() ==> ahead(
                    lens@,
                    #[trigger] out@[k] as int,
                    #[trigger] out@[m] as int,
                ),
            forall|k: int, j: int|
                0 <= k < out@.len() && 0 <= j < lens@.len() && !out@.contains(j as usize)
                    ==> #[trigger] ahead(lens@, out@[k] as int, j),
        decreases lens@.len() - out@.len(),
    {
        let ghost before = out@;
        let mut best: Option<usize> = None;
        let mut j: usize = 0;
        while j < lens.len()
            invariant
                j <= lens@.len(),
                used@.len() == lens@.len(),
                forall|i: int| 0 <= i < lens@.len() ==> !nan(#[trigger] lens@[i]),
                best matches Some(b) ==> b < j && !used@[b as int] && forall|i: int|
                    0 <= i < j && i != b && !used@[i] ==> #[trigger] ahead(lens@, b as int, i),
                best is None ==> forall|i: int| 0 <= i < j ==> used@[i],
            decreases lens@.len() - j,
        {
            if !used[j] {
                match best {
                    None => {
                        best = Some(j);
                    },
                    Some(b) => {
                        if is_less(lens[b], lens[j]) {
                            assert forall|i: int|
                                0 <= i < j + 1 && i != j && !used@[i] implies #[trigger] ahead(
                                lens@,
                                j as int,
                                i,
                            ) by {
                                if i != b {
                                    assert(ahead(lens@, b as int, i));
                                }
                            }
                            best = Some(j);
                        }
                    },
                }
            }
            j += 1;
        }
        match best {
            Some(b) => {
                assert(used@[b as int] == before.contains((b as int) as usize));
                out.push(b);
                used.set(b, true);
                proof {
                    assert(used@[b as int]);
                    assert(!before.contains(b));
                    assert forall|i: int| 0 <= i < lens@.len() implies used@[i]
                        == (#[trigger] out@.contains(i as usize)) by {
                        if before.contains(i as usize) {
                            let p = choose|p: int|
                                0 <= p < before.len() && before[p] == i as usize;
                            assert(out@[p] == i as usize);
                        }
                        assert(out@[before.len() as int] == b);
                        if out@.contains(i as usize) && i != b {
                            let p = choose|p: int| 0 <= p < out@.len() && out@[p] == i as usize;
                            assert(before[p] == i as usize);
                        }
                    }
                    assert forall|k: int, m: int| 0 <= k < m < out@.len() implies ahead(
                        lens@,
                        #[trigger] out@[k] as int,
                        #[trigger] out@[m] as int,
                    ) by {
                        if m < before.len() {
                            assert(ahead(lens@, before[k] as int, before[m] as int));
                        } else {
                            assert(ahead(lens@, before[k] as int, b as int));
                        }
                    }
                    assert forall|k: int, i: int|
                        0 <= k < out@.len() && 0 <= i < lens@.len() && !out@.contains(
                            i as usize,
                        ) implies #[trigger] ahead(lens@, out@[k] as int, i) by {
                        assert(used@[i] == out@.contains(i as usize));
                        if k < before.len() {
                            if before.contains(i as usize) {
                                let p = choose|p: int|
                                    0 <= p < before.len() && before[p] == i as usize;
                                assert(out@[p] == i as usize);
                            }
                            assert(ahead(lens@, before[k] as int, i));
                        } else {
                            assert(i != b);
                        }
                    }
                }
            },
            None => {
                proof {
                    lemma_one_is_left_out(before, lens@.len() as int);
                }
                return out;
            },
        }
    }
    out
}

/// A list shorter than `n` leaves out one of the first `n` places.
proof fn lemma_one_is_left_out(out: Seq<usize>, n: int)
    requires
        0 <= n <= usize::MAX,
        out.len() < n,
    ensures
        exists|j: int| 0 <= j < n && !(#[trigger] out.contains(j as usize)),
{
    if forall|j: int| 0 <= j < n ==> (#[trigger] out.contains(j as usize)) {
        let all = vstd::set_lib::set_int_range(0, n);
        vstd::set_lib::lemma_int_range(0, n);
        let f = |k: usize| k as int;
        vstd::seq_lib::seq_to_set_is_finite(out);
        out.lemma_cardinality_of_set();
        let image = out.to_set().map(f);
        vstd::set_lib::lemma_map_size_bound(out.to_set(), image, f);
        assert(all.subset_of(image)) by {
            assert forall|j: int| all.contains(j) implies image.contains(j) by {
                assert(out.contains(j as usize));
                assert(out.to_set().contains(j as usize));
                assert(f(j as usize) == j);
            }
        }
        vstd::set_lib::lemma_len_subset(all, image);
    }
}

/// The largest of the numbers above zero; of equal ones the first.
pub fn largest(areas: &[u64]) -> (r: Option<usize>)
    ensures
        match r {
            None => forall|j: int| 0 <= j < areas@.len() ==> !below(0, #[trigger] areas@[j]),
            Some(k) => {
                &&& k < areas@.len()
                &&& below(0, areas@[k as int])
                &&& forall|j: int|
                    0 <= j < areas@.len() ==> !below(areas@[k as int], #[trigger] areas@[j])
                &&& forall|j: int|
                    0 <= j < k && below(0, #[trigger] areas@[j]) ==> below(
                        areas@[j],
                        areas@[k as int],
                    )
            },
        },
{
    let mut best: Option<usize> = None;
    let mut i: usize = 0;
    while i < areas.len()
        invariant
            i <= areas@.len(),
            match best {
                None => forall|j: int| 0 <= j < i ==> !below(0, #[trigger] areas@[j]),
                Some(k) => {
                    &&& k < i
                    &&& below(0, areas@[k as int])
                    &&& forall|j: int|
                        0 <= j < i ==> !below(areas@[k as int], #[trigger] areas@[j])
                    &&& forall|j: int|
                        0 <= j < k && below(0, #[trigger] areas@[j]) ==> below(
                            areas@[j],
                            areas@[k as int],
                        )
                },
            },
        decreases areas@.len() - i,
    {
        let floor: u64 = match best {
            Some(k) => areas[k],
            None => 0,
        };
        if is_less(floor, areas[i]) {
            best = Some(i);
        }
        i += 1;
    }
    best
}

} // verus!
