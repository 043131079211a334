//! Scattering points over triangles and splatting them into an image.

use vstd::prelude::*;

use crate::double::{below, is_less, nan, rank};
use crate::iso::{Image, ImageView};

verus! {

/// The bits of negative infinity.
pub const NEG_INFINITY_BITS: u64 = 0xfff0000000000000;

/// What the state of the generator is multiplied by.
pub const PCG_FACTOR: u64 = 6364136223846793005;

/// What is added to the state of the generator.
pub const PCG_STEP: u64 = 1442695040888963407;

/// Deterministic PCG-XSH-RR; keeps renders reproducible without a dependency.
pub struct Rng(pub u64);

/// The state after one step.
pub open spec fn pcg_next(state: u64) -> u64 {
    state.wrapping_mul(PCG_FACTOR).wrapping_add(PCG_STEP)
}

/// Bits turned round to the right.
pub open spec fn turned_right(x: u32, by: u32) -> u32 {
    if by == 0 {
        x
    } else {
        (x >> by) | (x << ((32 - by) as u32))
    }
}

/// The number that a state gives: an xorshift, turned by the top five bits.
pub open spec fn pcg_output(state: u64) -> u32 {
    turned_right((((state >> 18) ^ state) >> 27) as u32, (state >> 59) as u32)
}

impl Rng {
    pub fn new(seed: u64) -> (r: Self)
        ensures
            r.0 == seed.wrapping_mul(PCG_FACTOR).wrapping_add(1),
    {
        Rng(seed.wrapping_mul(PCG_FACTOR).wrapping_add(1))
    }

    pub fn next_u32(&mut self) -> (r: u32)
        ensures
            r == pcg_output(old(self).0),
            final(self).0 == pcg_next(old(self).0),
    {
        let state: u64 = self.0;
        self.0 = state.wrapping_mul(PCG_FACTOR).wrapping_add(PCG_STEP);
        let mixed: u32 = (((state >> 18) ^ state) >> 27) as u32;
        let by: u32 = (state >> 59) as u32;
        assert((state >> 59) < 32) by (bit_vector);
        if by == 0 {
            mixed
        } else {
            (mixed >> by) | (mixed << (32 - by))
        }
    }
}

/// How many points are scattered: enough to cover every pixel several times
/// over; the cost is driven by resolution, not by triangle count.
pub open spec fn sample_count_of(size: int, triangles: int) -> int {
    let n = if size * size * 6 >= triangles * 4 {
        size * size * 6
    } else {
        triangles * 4
    };
    if n < 60_000 {
        60_000
    } else if n > 12_000_000 {
        12_000_000
    } else {
        n
    }
}

pub fn sample_count(size: usize, triangles: usize) -> (r: usize)
    requires
        size * size * 6 <= usize::MAX,
        triangles * 4 <= usize::MAX,
    ensures
        r == sample_count_of(size as int, triangles as int),
{
    assert(0 <= size * size) by (nonlinear_arith)
        requires
            0 <= size,
    ;
    let by_pixel: usize = size * size * 6;
    let by_triangle: usize = triangles * 4;
    let n: usize = if by_pixel >= by_triangle {
        by_pixel
    } else {
        by_triangle
    };
    if n < 60_000 {
        60_000
    } else if n > 12_000_000 {
        12_000_000
    } else {
        n
    }
}

/// The triangle that a point of the running total of areas falls into. `cum`
/// starts with zero and holds the total after each triangle. A point on a
/// border belongs to the triangle behind it.
pub fn pick_triangle(cum: &[u64], target: u64) -> (r: usize)
    requires
        cum@.len() >= 2,
        forall|i: int| 0 <= i < cum@.len() ==> !nan(#[trigger] cum@[i]),
        forall|i: int, k: int|
            0 <= i <= k < cum@.len() ==> rank(#[trigger] cum@[i]) <= rank(#[trigger] cum@[k]),
        !nan(target),
    ensures
        r < cum@.len() - 1,
        exists|i: int| #[trigger] falls_at(cum@, target, i) && r == (if i < cum@.len() - 1 {
            i
        } else {
            cum@.len() - 2
        }),
{
    let mut lo: usize = 0;
    let mut hi: usize = cum.len();
    while lo < hi
        invariant
            lo <= hi <= cum@.len(),
            forall|i: int| 0 <= i < cum@.len() ==> !nan(#[trigger] cum@[i]),
            forall|i: int, k: int|
                0 <= i <= k < cum@.len() ==> rank(#[trigger] cum@[i]) <= rank(#[trigger] cum@[k]),
            !nan(target),
            forall|i: int| 0 <= i < lo ==> rank(#[trigger] cum@[i]) < rank(target),
            forall|i: int| hi <= i < cum@.len() ==> rank(#[trigger] cum@[i]) >= rank(target),
        decreases hi - lo,
    {
        let mid: usize = lo + (hi - lo) / 2;
        if is_less(cum[mid], target) {
            lo = mid + 1;
        } else {
            hi = mid;
        }
    }
    let last: usize = cum.len() - 2;
    // the first entry that is not below the target
    let at: usize = if lo < cum.len() && !is_less(target, cum[lo]) {
        lo
    } else if lo > 0 {
        lo - 1
    } else {
        0
    };
    assert(falls_at(cum@, target, at as int));
    if at < cum.len() - 1 {
        at
    } else {
        last
    }
}

/// A target falls at an entry: at one equal to it, or else at the last one
/// below it, or at the first where none is below.
pub open spec fn falls_at(cum: Seq<u64>, target: u64, i: int) -> bool {
    &&& 0 <= i < cum.len()
    &&& {
        ||| rank(cum[i]) == rank(target)
        ||| {
            &&& forall|k: int| 0 <= k < cum.len() ==> rank(#[trigger] cum[k]) != rank(target)
            &&& forall|k: int| i < k < cum.len() ==> rank(#[trigger] cum[k]) > rank(target)
            &&& i == 0 || rank(cum[i]) < rank(target)
        }
    }
}

// ---- the depth buffer ----

/// An image with the depth of what each pixel shows; larger is nearer.
pub struct Canvas {
    pub img: Image,
    pub depth: Vec<u64>,
}

/// A splat at (x, y) covers two by two pixels; one whose corner lies outside
/// the image covers none.
pub open spec fn covers(w: int, h: int, x: int, y: int, a: int, b: int) -> bool {
    0 <= x < w && 0 <= y < h && x <= a <= x + 1 && y <= b <= y + 1
}

/// Pixels lie inside the buffer.
proof fn lemma_pixel_in(w: int, h: int, a: int, b: int)
    requires
        0 <= a < w,
        0 <= b < h,
    ensures
        0 <= b * w,
        0 <= b * w + a < w * h,
{
    assert(0 <= b * w && b * w + a < w * h) by (nonlinear_arith)
        requires
            0 <= a < w,
            0 <= b < h,
    ;
}

/// Two pixels lie apart.
proof fn lemma_pixels_apart(w: int, x: int, y: int, a: int, b: int)
    requires
        0 <= x < w,
        0 <= a < w,
        0 <= y,
        0 <= b,
        y * w + x == b * w + a,
    ensures
        x == a,
        y == b,
{
    vstd::arithmetic::div_mod::lemma_fundamental_div_mod_converse(y * w + x, w, y, x);
    vstd::arithmetic::div_mod::lemma_fundamental_div_mod_converse(b * w + a, w, b, a);
}

impl Canvas {
    /// There is a depth for every pixel.
    pub open spec fn well_formed(self) -> bool {
        self.img.well_formed() && self.depth@.len() == self.img.w * self.img.h
    }

    /// The depth at a pixel.
    pub open spec fn z(self, a: int, b: int) -> u64 {
        self.depth@[b * self.img.w + a]
    }

    /// An image of `size` by `size` transparent pixels, infinitely far away.
    pub fn new(size: usize) -> (r: Self)
        requires
            size * size * 4 <= usize::MAX,
        ensures
            r.well_formed(),
            r.img@ == ImageView::filled(size as nat, size as nat, seq![0u8, 0, 0, 0]),
            forall|a: int, b: int|
                0 <= a < size && 0 <= b < size ==> #[trigger] r.z(a, b) == NEG_INFINITY_BITS,
    {
        let clear: [u8; 4] = [0, 0, 0, 0];
        assert(clear@ =~= seq![0u8, 0, 0, 0]);
        let img = Image::new(size, size, clear);
        assert(0 <= size * size) by (nonlinear_arith)
            requires
                0 <= size,
        ;
        let n: usize = size * size;
        let mut depth: Vec<u64> = Vec::new();
        let mut i: usize = 0;
        while i < n
            invariant
                i <= n,
                depth@.len() == i,
                forall|k: int| 0 <= k < i ==> depth@[k] == NEG_INFINITY_BITS,
            decreases n - i,
        {
            depth.push(NEG_INFINITY_BITS);
            i += 1;
        }
        let r = Canvas { img, depth };
        assert forall|a: int, b: int| 0 <= a < size && 0 <= b < size implies #[trigger] r.z(a, b)
            == NEG_INFINITY_BITS by {
            lemma_pixel_in(size as int, size as int, a, b);
        }
        r
    }

    /// Show a point at one pixel, where it is nearer than what is there.
    fn dab(&mut self, a: usize, b: usize, depth: u64, c: [u8; 4])
        requires
            old(self).well_formed(),
        ensures
            final(self).well_formed(),
            final(self).img.w == old(self).img.w,
            final(self).img.h == old(self).img.h,
            forall|x: int, y: int|
                0 <= x < old(self).img.w && 0 <= y < old(self).img.h ==> #[trigger] final(self).z(
                    x,
                    y,
                ) == (if x == a && y == b && below(old(self).z(x, y), depth) {
                    depth
                } else {
                    old(self).z(x, y)
                }),
            forall|x: int, y: int|
                0 <= x < old(self).img.w && 0 <= y < old(self).img.h
                    ==> #[trigger] final(self).img@.at(x, y) == (if x == a && y == b && below(
                    old(self).z(x, y),
                    depth,
                ) {
                    c@
                } else {
                    old(self).img@.at(x, y)
                }),
    {
        let ghost before = *self;
        if a < self.img.w && b < self.img.h {
            proof {
                lemma_pixel_in(self.img.w as int, self.img.h as int, a as int, b as int);
            }
            assert(self.depth.len() == self.img.w * self.img.h);
            let i: usize = b * self.img.w + a;
            if is_less(self.depth[i], depth) {
                self.depth.set(i, depth);
                self.img.set(a, b, c);
            }
        }
        proof {
            assert forall|x: int, y: int|
                0 <= x < before.img.w && 0 <= y < before.img.h implies #[trigger] self.z(x, y) == (
            if x == a && y == b && below(before.z(x, y), depth) {
                depth
            } else {
                before.z(x, y)
            }) by {
                lemma_pixel_in(self.img.w as int, self.img.h as int, x, y);
                if a < self.img.w && b < self.img.h && (x != a || y != b) {
                    if b * before.img.w + a == y * before.img.w + x {
                        lemma_pixels_apart(before.img.w as int, a as int, b as int, x, y);
                    }
                }
            }
        }
    }

    /// Splat a point: it shows at two by two pixels, wherever it is nearer than
    /// what is there. That keeps large flat faces solid at moderate sample
    /// counts.
    pub fn splat(&mut self, x: isize, y: isize, depth: u64, c: [u8; 4])
        requires
            old(self).well_formed(),
            old(self).img.w <= isize::MAX,
            old(self).img.h <= isize::MAX,
        ensures
            final(self).well_formed(),
            final(self).img.w == old(self).img.w,
            final(self).img.h == old(self).img.h,
            forall|a: int, b: int|
                0 <= a < old(self).img.w && 0 <= b < old(self).img.h ==> #[trigger] final(self).z(
                    a,
                    b,
                ) == splatted_depth(*old(self), x as int, y as int, depth, a, b),
            forall|a: int, b: int|
                0 <= a < old(self).img.w && 0 <= b < old(self).img.h
                    ==> #[trigger] final(self).img@.at(a, b) == splatted_color(
                    *old(self),
                    x as int,
                    y as int,
                    depth,
                    c@,
                    a,
                    b,
                ),
    {
        if x < 0 || y < 0 || x >= self.img.w as isize || y >= self.img.h as isize {
            return;
        }
        let a: usize = x as usize;
        let b: usize = y as usize;
        self.dab(a, b, depth, c);
        self.dab(a + 1, b, depth, c);
        self.dab(a, b + 1, depth, c);
        self.dab(a + 1, b + 1, depth, c);
    }
}

/// The depth that a pixel has after a splat.
pub open spec fn splatted_depth(
    canvas: Canvas,
    x: int,
    y: int,
    depth: u64,
    a: int,
    b: int,
) -> u64 {
    if covers(canvas.img.w as int, canvas.img.h as int, x, y, a, b) && below(
        canvas.z(a, b),
        depth,
    ) {
        depth
    } else {
        canvas.z(a, b)
    }
}

/// The colour that a pixel has after a splat.
pub open spec fn splatted_color(
    canvas: Canvas,
    x: int,
    y: int,
    depth: u64,
    c: Seq<u8>,
    a: int,
    b: int,
) -> Seq<u8> {
    if covers(canvas.img.w as int, canvas.img.h as int, x, y, a, b) && below(
        canvas.z(a, b),
        depth,
    ) {
        c
    } else {
        canvas.img@.at(a, b)
    }
}

/// A point to be shown.
pub struct Splat {
    pub x: int,
    pub y: int,
    pub depth: u64,
    pub color: Seq<u8>,
}

/// The depth and the colour that one pixel of a fresh image has after splats,
/// made in order.
pub open spec fn shown(splats: Seq<Splat>, w: int, h: int, a: int, b: int) -> (u64, Seq<u8>)
    decreases splats.len(),
{
    if splats.len() == 0 {
        (NEG_INFINITY_BITS, seq![0u8, 0, 0, 0])
    } else {
        let before = shown(splats.drop_last(), w, h, a, b);
        let s = splats.last();
        if covers(w, h, s.x, s.y, a, b) && below(before.0, s.depth) {
            (s.depth, s.color)
        } else {
            before
        }
    }
}

/// Whatever the order in which points are shown, a pixel ends up with the
/// nearest of those that cover it, or stays clear where none does.
pub proof fn lemma_nearest_point_shows(splats: Seq<Splat>, w: int, h: int, a: int, b: int)
    ensures
        !nan(shown(splats, w, h, a, b).0),
        forall|i: int|
            0 <= i < splats.len() && covers(w, h, (#[trigger] splats[i]).x, splats[i].y, a, b)
                && !nan(splats[i].depth) ==> rank(splats[i].depth) <= rank(
                shown(splats, w, h, a, b).0,
            ),
        shown(splats, w, h, a, b) == (NEG_INFINITY_BITS, seq![0u8, 0, 0, 0]) || exists|i: int|
            0 <= i < splats.len() && covers(w, h, (#[trigger] splats[i]).x, splats[i].y, a, b)
                && shown(splats, w, h, a, b) == (splats[i].depth, splats[i].color),
    decreases splats.len(),
{
    if splats.len() > 0 {
        let fewer = splats.drop_last();
        lemma_nearest_point_shows(fewer, w, h, a, b);
        let before = shown(fewer, w, h, a, b);
        let after = shown(splats, w, h, a, b);
        assert(splats[splats.len() - 1] == splats.last());
        assert forall|i: int|
            0 <= i < splats.len() && covers(w, h, (#[trigger] splats[i]).x, splats[i].y, a, b)
                && !nan(splats[i].depth) implies rank(splats[i].depth) <= rank(after.0) by {
            if i < fewer.len() {
                assert(fewer[i] == splats[i]);
            }
        }
        if after == before && before != (NEG_INFINITY_BITS, seq![0u8, 0, 0, 0]) {
            let i = choose|i: int|
                0 <= i < fewer.len() && covers(w, h, (#[trigger] fewer[i]).x, fewer[i].y, a, b)
                    && before == (fewer[i].depth, fewer[i].color);
            assert(splats[i] == fewer[i]);
        }
    }
}

} // verus!
