//! Which side of a boundary a point is on: crossings counted along segments,
//! which the library's grid finds and its vote judges.

use solid_diff::grid::{inside, largest_first, CellBox, CellRun, SegGrid};

type P2 = [f64; 2];

/// Inside/outside by crossing parity against every boundary segment.
///
/// Segments are replicated across parameter periods; a query point is
/// classified by counting crossings of the straight segment from an anchor to
/// it. Whenever a parameter direction is open the anchor sits beyond the loops'
/// extent -- provably outside -- which makes the test exact and independent of
/// loop orientation (unreliable in practice). Only doubly-periodic surfaces
/// fall back to the material-left heuristic.
struct LoopClassifier {
    segs: Vec<[P2; 2]>,
    scale: P2,
    anchors: Vec<P2>,
    /// Whether the anchors are known-inside (heuristic) or known-outside.
    anchor_inside: bool,
    /// True when a single heuristic anchor is in use (majority vote off).
    heuristic: bool,
    /// Uniform-grid index over the segments, in metric-scaled space. Without
    /// it, classification is O(points x segments), which on a face with tens
    /// of thousands of boundary samples runs into billions of tests.
    grid: Option<Cells>,
}

/// The library's segment grid with the coordinates of its cells.
struct Cells {
    lo: P2,
    inv_cell: P2,
    grid: SegGrid,
}

impl Cells {
    /// Build an index if there are enough segments to pay for it.
    fn build(segs_s: &[[P2; 2]]) -> Option<Cells> {
        const MIN_SEGS: usize = 256;
        if segs_s.len() < MIN_SEGS || segs_s.len() > u32::MAX as usize {
            return None;
        }
        let (mut lo, mut hi) = ([f64::INFINITY; 2], [f64::NEG_INFINITY; 2]);
        for s in segs_s {
            for p in s {
                for i in 0..2 {
                    lo[i] = lo[i].min(p[i]);
                    hi[i] = hi[i].max(p[i]);
                }
            }
        }
        if !lo[0].is_finite() || !hi[0].is_finite() {
            return None;
        }
        // Aim for a handful of segments per cell.
        let target = ((segs_s.len() as f64 / 2.0).sqrt().ceil() as usize).clamp(4, 256);
        let span = [(hi[0] - lo[0]).max(1e-12), (hi[1] - lo[1]).max(1e-12)];
        let inv_cell = [target as f64 / span[0], target as f64 / span[1]];
        let boxes: Vec<CellBox> = segs_s
            .iter()
            .map(|s| {
                let (x0, x1) = (s[0][0].min(s[1][0]), s[0][0].max(s[1][0]));
                let (y0, y1) = (s[0][1].min(s[1][1]), s[0][1].max(s[1][1]));
                CellBox {
                    x0: Self::cell(x0, lo[0], inv_cell[0], target),
                    x1: Self::cell(x1, lo[0], inv_cell[0], target),
                    y0: Self::cell(y0, lo[1], inv_cell[1], target),
                    y1: Self::cell(y1, lo[1], inv_cell[1], target),
                }
            })
            .collect();
        Some(Cells {
            lo,
            inv_cell,
            grid: SegGrid::build(target, target, &boxes),
        })
    }

    fn cell(v: f64, lo: f64, inv: f64, n: usize) -> usize {
        (((v - lo) * inv) as isize).clamp(0, n as isize - 1) as usize
    }

    fn cell_x(&self, x: f64) -> usize {
        Self::cell(x, self.lo[0], self.inv_cell[0], self.grid.nx)
    }

    fn cell_y(&self, y: f64) -> usize {
        Self::cell(y, self.lo[1], self.inv_cell[1], self.grid.ny)
    }

    /// Each segment whose cell the segment from `a` to `b` passes through.
    fn along(&self, a: P2, b: P2) -> Vec<u32> {
        // Walk the cells of the bounding box of a->b, stepping along the line
        // one row at a time; cheaper than a full DDA and still conservative.
        let (x0, x1) = (a[0].min(b[0]), a[0].max(b[0]));
        let (y0, y1) = (a[1].min(b[1]), a[1].max(b[1]));
        let dy = b[1] - a[1];
        let mut runs = Vec::new();
        for y in self.cell_y(y0)..=self.cell_y(y1) {
            // x-range of the line within this row's y-band
            let (mut rx0, mut rx1) = (x0, x1);
            if dy.abs() > 1e-300 {
                let band_lo = self.lo[1] + y as f64 / self.inv_cell[1];
                let band_hi = band_lo + 1.0 / self.inv_cell[1];
                let t_at = |y: f64| ((y - a[1]) / dy).clamp(0.0, 1.0);
                let (t0, t1) = (t_at(band_lo), t_at(band_hi));
                let (xa, xb) = (a[0] + t0 * (b[0] - a[0]), a[0] + t1 * (b[0] - a[0]));
                rx0 = xa.min(xb);
                rx1 = xa.max(xb);
            }
            runs.push(CellRun {
                y,
                x0: self.cell_x(rx0),
                x1: self.cell_x(rx1),
            });
        }
        self.grid.visit(&runs)
    }

    /// Each segment within `r` of `q` (conservatively, by cell).
    fn near(&self, q: P2, r: f64) -> Vec<u32> {
        let (x0, x1) = (self.cell_x(q[0] - r), self.cell_x(q[0] + r));
        let runs: Vec<CellRun> = (self.cell_y(q[1] - r)..=self.cell_y(q[1] + r))
            .map(|y| CellRun { y, x0, x1 })
            .collect();
        self.grid.visit(&runs)
    }
}

impl LoopClassifier {
    fn new(
        loops_uv: &[Vec<P2>],
        period_u: Option<f64>,
        period_v: Option<f64>,
        left_is_inside: bool,
        scale: P2,
        outside_anchor: Option<P2>,
    ) -> Self {
        let mut segs: Vec<[P2; 2]> = Vec::new();
        for uv in loops_uv {
            let n = uv.len();
            for i in 0..n {
                let a = uv[i];
                let b = if i + 1 < n {
                    uv[i + 1]
                } else {
                    // Close winding loops the short way: the unwrapped last
                    // point sits ~one period from the first, so the closing
                    // segment targets the first point shifted by the winding.
                    let mut close = uv[0];
                    for (dim, period) in [(0usize, period_u), (1usize, period_v)] {
                        if let Some(p) = period {
                            close[dim] += p * ((uv[n - 1][dim] - uv[0][dim]) / p).round();
                        }
                    }
                    close
                };
                segs.push([a, b]);
            }
        }
        // Replication exists so a ray leaving the period window still meets
        // the boundary where it wraps. It is only safe while the loops stay
        // inside one period: a face that spans several (a thread winding many
        // turns) would have each copy land on top of a neighbouring turn,
        // injecting phantom segments right where real ones are and corrupting
        // the parity count.
        let span = |dim: usize| -> f64 {
            let mut lo = f64::INFINITY;
            let mut hi = f64::NEG_INFINITY;
            for s in &segs {
                for p in s {
                    lo = lo.min(p[dim]);
                    hi = hi.max(p[dim]);
                }
            }
            if lo.is_finite() {
                hi - lo
            } else {
                0.0
            }
        };
        let rep_u = period_u.filter(|p| span(0) < *p * 1.001);
        let rep_v = period_v.filter(|p| span(1) < *p * 1.001);

        let mut reps = segs.clone();
        if let Some(p) = rep_u {
            for du in [-p, p] {
                for s in &segs {
                    reps.push([[s[0][0] + du, s[0][1]], [s[1][0] + du, s[1][1]]]);
                }
            }
        }
        let base = reps.clone();
        if let Some(p) = rep_v {
            for dv in [-p, p] {
                for s in &base {
                    reps.push([[s[0][0], s[0][1] + dv], [s[1][0], s[1][1] + dv]]);
                }
            }
        }

        let grid = Cells::build(
            &reps
                .iter()
                .map(|s| {
                    [
                        [s[0][0] / scale[0], s[0][1] / scale[1]],
                        [s[1][0] / scale[0], s[1][1] / scale[1]],
                    ]
                })
                .collect::<Vec<_>>(),
        );
        let mut clf = LoopClassifier {
            segs: reps,
            scale,
            anchors: Vec::new(),
            anchor_inside: false,
            heuristic: false,
            grid,
        };

        if let Some(base) = outside_anchor {
            // Several offset anchors majority-vote away ray-through-vertex
            // parity errors (the classic point-in-polygon corner case).
            clf.anchors = vec![
                base,
                [base[0] + 0.917 * scale[0], base[1] - 1.313 * scale[1]],
                [base[0] - 1.531 * scale[0], base[1] - 0.717 * scale[1]],
            ];
            clf.anchor_inside = false;
            return clf;
        }

        // Doubly-periodic fallback: anchor just left of a long boundary
        // segment, stepped in by an eps small enough not to overshoot a thin
        // face. `left` is inside when the material-left convention holds.
        clf.heuristic = true;
        clf.anchor_inside = true;
        if segs.is_empty() {
            return clf;
        }
        let seg_len = |s: &[P2; 2]| -> f64 {
            let d = [
                (s[1][0] - s[0][0]) / scale[0],
                (s[1][1] - s[0][1]) / scale[1],
            ];
            (d[0] * d[0] + d[1] * d[1]).sqrt()
        };
        let lens: Vec<u64> = segs
            .iter()
            .map(|s| seg_len(s))
            .map(|len| if len.is_nan() { 0.0 } else { len })
            .map(f64::to_bits)
            .collect();
        let order = largest_first(&lens, 8);
        'outer: for eps_frac in [0.1, 0.03, 0.01, 0.003, 0.001] {
            for &k in &order {
                let s = segs[k];
                let len = seg_len(&s);
                if len <= 0.0 {
                    continue;
                }
                let t = [
                    (s[1][0] - s[0][0]) / scale[0] / len,
                    (s[1][1] - s[0][1]) / scale[1] / len,
                ];
                let left = [-t[1] * scale[0], t[0] * scale[1]];
                let eps = eps_frac * len;
                let sign = if left_is_inside { eps } else { -eps };
                let cand = [
                    (s[0][0] + s[1][0]) / 2.0 + left[0] * sign,
                    (s[0][1] + s[1][1]) / 2.0 + left[1] * sign,
                ];
                // the candidate's own segment sits exactly eps away; anything
                // closer means we may have overshot a thin face
                if !clf.within(cand, eps * 0.99) {
                    clf.anchors = vec![cand];
                    break 'outer;
                }
            }
        }
        if clf.anchors.is_empty() {
            clf.anchors = vec![[
                (segs[0][0][0] + segs[0][1][0]) / 2.0,
                (segs[0][0][1] + segs[0][1][1]) / 2.0,
            ]];
        }
        clf
    }

    fn scaled(&self, q: P2) -> P2 {
        [q[0] / self.scale[0], q[1] / self.scale[1]]
    }

    /// Metric-scaled distance from `q` to segment `i`.
    fn seg_dist(&self, i: usize, q_s: P2) -> f64 {
        let s = &self.segs[i];
        let a = self.scaled(s[0]);
        let b = self.scaled(s[1]);
        let ab = [b[0] - a[0], b[1] - a[1]];
        let ab2 = (ab[0] * ab[0] + ab[1] * ab[1]).max(1e-30);
        let aq = [q_s[0] - a[0], q_s[1] - a[1]];
        let t = ((aq[0] * ab[0] + aq[1] * ab[1]) / ab2).clamp(0.0, 1.0);
        let d = [aq[0] - t * ab[0], aq[1] - t * ab[1]];
        (d[0] * d[0] + d[1] * d[1]).sqrt()
    }

    /// Is any boundary segment within `r` (metric-scaled) of `q`?
    fn within(&self, q: P2, r: f64) -> bool {
        let q_s = self.scaled(q);
        match &self.grid {
            Some(g) => g
                .near(q_s, r)
                .iter()
                .any(|i| self.seg_dist(*i as usize, q_s) <= r),
            None => (0..self.segs.len()).any(|i| self.seg_dist(i, q_s) <= r),
        }
    }

    /// How many boundary segments the segment from `q0` to `q` crosses.
    fn crossings(&self, q0: P2, q: P2) -> u32 {
        let r = [q[0] - q0[0], q[1] - q0[1]];
        let test = |s: &[P2; 2]| -> bool {
            let sd = [s[1][0] - s[0][0], s[1][1] - s[0][1]];
            let denom = r[0] * sd[1] - r[1] * sd[0];
            if denom.abs() <= 1e-30 {
                return false;
            }
            let qp = [s[0][0] - q0[0], s[0][1] - q0[1]];
            let t = (qp[0] * sd[1] - qp[1] * sd[0]) / denom;
            let u = (qp[0] * r[1] - qp[1] * r[0]) / denom;
            // Half-open in u so a ray through a shared vertex counts once.
            t > 0.0 && t < 1.0 && (0.0..1.0).contains(&u)
        };
        let hits = match &self.grid {
            // Only segments in cells the anchor->query line passes through can
            // possibly cross it.
            Some(g) => g
                .along(self.scaled(q0), self.scaled(q))
                .iter()
                .filter(|i| test(&self.segs[**i as usize]))
                .count(),
            None => self.segs.iter().filter(|s| test(s)).count(),
        };
        hits as u32
    }

    fn inside(&self, q: P2) -> bool {
        let hits: Vec<u32> = self.anchors.iter().map(|a| self.crossings(*a, q)).collect();
        inside(
            self.segs.is_empty(),
            self.heuristic,
            self.anchor_inside,
            &hits,
        )
    }
}

#[test]
fn classifier_square_with_hole() {
    // outer 10x10 square, inner 2x2 hole, anchor outside
    let outer = vec![[0.0, 0.0], [10.0, 0.0], [10.0, 10.0], [0.0, 10.0]];
    let hole = vec![[4.0, 4.0], [6.0, 4.0], [6.0, 6.0], [4.0, 6.0]];
    let clf = LoopClassifier::new(
        &[outer, hole],
        None,
        None,
        true,
        [1.0, 1.0],
        Some([-3.0, -3.0]),
    );
    assert!(clf.inside([1.0, 1.0]), "corner region should be inside");
    assert!(clf.inside([9.0, 9.0]));
    assert!(!clf.inside([5.0, 5.0]), "hole centre should be outside");
    assert!(!clf.inside([-1.0, 5.0]), "left of the square is outside");
    assert!(!clf.inside([11.0, 5.0]), "right of the square is outside");
}

#[test]
fn classifier_periodic_band() {
    // a cylinder wall: two winding loops at v=0 and v=1 over period 2pi
    let p = std::f64::consts::TAU;
    let n = 32;
    let bottom: Vec<P2> = (0..n).map(|i| [p * i as f64 / n as f64, 0.0]).collect();
    let top: Vec<P2> = (0..n)
        .map(|i| [p * (n - i) as f64 / n as f64, 1.0])
        .collect();
    let clf = LoopClassifier::new(
        &[bottom, top],
        Some(p),
        None,
        true,
        [0.1, 0.05],
        Some([1.0, -0.3]),
    );
    assert!(clf.inside([1.0, 0.5]), "mid-band should be inside");
    assert!(clf.inside([5.0, 0.9]));
    assert!(!clf.inside([1.0, 1.4]), "above the band is outside");
    assert!(!clf.inside([1.0, -0.2]), "below the band is outside");
}

#[test]
fn the_grid_changes_no_verdict() {
    // A circle of 400 segments is filed in a grid; one of 200 is not.
    let ring = |n: usize| -> Vec<P2> {
        (0..n)
            .map(|i| {
                let t = std::f64::consts::TAU * i as f64 / n as f64;
                [5.0 * t.cos(), 5.0 * t.sin()]
            })
            .collect()
    };
    let clf = |n: usize| {
        LoopClassifier::new(&[ring(n)], None, None, true, [1.0, 1.0], Some([-8.1, -8.3]))
    };
    let (coarse, fine) = (clf(200), clf(400));
    assert!(coarse.grid.is_none() && fine.grid.is_some());
    for i in -12..=12 {
        for j in -12..=12 {
            let q = [i as f64 * 0.5 + 0.01, j as f64 * 0.5 + 0.02];
            let r = q[0].hypot(q[1]);
            if (r - 5.0).abs() > 0.01 {
                assert_eq!(coarse.inside(q), r < 5.0, "{q:?}");
                assert_eq!(fine.inside(q), r < 5.0, "{q:?}");
            }
            if (r - 4.5).abs() > 0.01 && (r - 5.5).abs() > 0.01 {
                assert_eq!(coarse.within(q, 0.5), fine.within(q, 0.5), "{q:?}");
            }
        }
    }
}
