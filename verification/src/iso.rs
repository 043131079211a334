//! Images: drawing on RGBA buffers, the depth-buffered point splat, and
//! annotated contact sheets.
//!
//! A part is rendered by scattering area-weighted random points over its
//! triangles and splatting them into an image through a depth buffer. Sampling
//! rather than rasterising means cost scales with pixels, not triangles, so
//! million-triangle parts render in about the same time as small ones.

use vstd::arithmetic::div_mod::lemma_fundamental_div_mod_converse;
use vstd::prelude::*;

use crate::font::{has_dot, Font, GLYPH_H, GLYPH_W};
use crate::text::chars_of;

verus! {

/// Steel blue.
pub const BASE_COLOR: [u8; 3] = [155, 175, 215];

/// Tokyo-Night background used for contact sheets.
pub const SHEET_BG: [u8; 4] = [26, 27, 38, 255];

pub const TEXT: [u8; 4] = [192, 202, 245, 255];

pub const TEXT_DIM: [u8; 4] = [130, 140, 170, 255];

pub const ACCENT: [u8; 4] = [224, 175, 104, 255];

pub const GREEN: [u8; 4] = [158, 206, 106, 255];

pub const BORDER: [u8; 4] = [86, 95, 137, 255];

/// An RGBA8 image buffer.
pub struct Image {
    pub w: usize,
    pub h: usize,
    pub px: Vec<u8>,
}

/// The contents of an image: rows of pixels, each of four bytes.
#[verifier::ext_equal]
pub struct ImageView {
    pub w: nat,
    pub h: nat,
    pub rows: Seq<Seq<Seq<u8>>>,
}

/// Where a pixel begins in the buffer.
pub open spec fn offset(w: int, x: int, y: int) -> int {
    (y * w + x) * 4
}

/// The four bytes at an offset.
pub open spec fn quad(px: Seq<u8>, i: int) -> Seq<u8> {
    seq![px[i], px[i + 1], px[i + 2], px[i + 3]]
}

impl View for Image {
    type V = ImageView;

    open spec fn view(&self) -> ImageView {
        ImageView {
            w: self.w as nat,
            h: self.h as nat,
            rows: Seq::new(
                self.h as nat,
                |y: int|
                    Seq::new(
                        self.w as nat,
                        |x: int| quad(self.px@, offset(self.w as int, x, y)),
                    ),
            ),
        }
    }
}

impl ImageView {
    /// The pixel at a place.
    pub open spec fn at(self, x: int, y: int) -> Seq<u8> {
        self.rows[y][x]
    }

    /// An image of one colour.
    pub open spec fn filled(w: nat, h: nat, c: Seq<u8>) -> ImageView {
        ImageView { w, h, rows: Seq::new(h, |y: int| Seq::new(w, |x: int| c)) }
    }

    /// Every pixel changed as `f` says of its place and of itself.
    pub open spec fn changed(self, f: spec_fn(int, int, Seq<u8>) -> Seq<u8>) -> ImageView {
        ImageView {
            w: self.w,
            h: self.h,
            rows: Seq::new(
                self.h,
                |y: int| Seq::new(self.w, |x: int| f(x, y, self.at(x, y))),
            ),
        }
    }

    /// The pixels from `x0` to `x1` and from `y0` to `y1`, all taken in, painted
    /// in one colour; those outside the image are not there to be painted.
    pub open spec fn boxed(self, x0: int, x1: int, y0: int, y1: int, c: Seq<u8>) -> ImageView {
        self.changed(
            |x: int, y: int, p: Seq<u8>|
                if x0 <= x <= x1 && y0 <= y <= y1 {
                    c
                } else {
                    p
                },
        )
    }
}

/// Images with the same pixels are the same.
proof fn lemma_same_image(a: ImageView, b: ImageView)
    requires
        a.w == b.w,
        a.h == b.h,
        a.rows.len() == a.h,
        b.rows.len() == b.h,
        forall|y: int| 0 <= y < a.h ==> (#[trigger] a.rows[y]).len() == a.w,
        forall|y: int| 0 <= y < b.h ==> (#[trigger] b.rows[y]).len() == b.w,
        forall|x: int, y: int| 0 <= x < a.w && 0 <= y < a.h ==> #[trigger] a.at(x, y) == b.at(x, y),
    ensures
        a == b,
{
    assert forall|y: int| 0 <= y < a.h implies a.rows[y] == b.rows[y] by {
        assert(a.rows[y].len() == b.rows[y].len());
        assert forall|x: int| 0 <= x < a.w implies a.rows[y][x] == b.rows[y][x] by {
            assert(a.at(x, y) == b.at(x, y));
        }
        assert(a.rows[y] =~= b.rows[y]);
    }
    assert(a.rows =~= b.rows);
}

/// Pixels lie inside the buffer.
proof fn lemma_offset_in(w: int, h: int, x: int, y: int)
    requires
        0 <= x < w,
        0 <= y < h,
    ensures
        0 <= y * w,
        0 <= y * w + x < w * h,
        0 <= offset(w, x, y),
        offset(w, x, y) + 4 <= w * h * 4,
{
    assert(0 <= y * w && y * w + x < w * h) by (nonlinear_arith)
        requires
            0 <= x < w,
            0 <= y < h,
    ;
}

/// Two pixels lie apart.
proof fn lemma_offset_apart(w: int, x: int, y: int, a: int, b: int)
    requires
        0 <= x < w,
        0 <= a < w,
        0 <= y,
        0 <= b,
        x != a || y != b,
    ensures
        offset(w, x, y) + 4 <= offset(w, a, b) || offset(w, a, b) + 4 <= offset(w, x, y),
{
    if y * w + x == b * w + a {
        lemma_fundamental_div_mod_converse(y * w + x, w, y, x);
        lemma_fundamental_div_mod_converse(b * w + a, w, b, a);
    }
}

/// One colour over another, with the weight `a` of 255.
pub open spec fn mixed(over: u8, under: u8, a: u8) -> u8 {
    ((over * a + under * (255 - a)) / 255) as u8
}

/// A pixel over another.
pub open spec fn composed(src: Seq<u8>, dst: Seq<u8>) -> Seq<u8> {
    if src[3] == 0 {
        dst
    } else {
        seq![
            mixed(src[0], dst[0], src[3]),
            mixed(src[1], dst[1], src[3]),
            mixed(src[2], dst[2], src[3]),
            255u8,
        ]
    }
}

/// One colour over another.
pub fn mix(over: u8, under: u8, a: u8) -> (r: u8)
    ensures
        r == mixed(over, under, a),
{
    let s: u32 = over as u32;
    let d: u32 = under as u32;
    let k: u32 = a as u32;
    assert(s * k <= 255 * k) by (nonlinear_arith)
        requires
            s <= 255,
    ;
    assert(d * (255 - k) <= 255 * (255 - k)) by (nonlinear_arith)
        requires
            d <= 255,
            k <= 255,
    ;
    assert(over * a == s * k);
    ((s * k + d * (255 - k)) / 255) as u8
}

impl Image {
    /// The buffer holds four bytes for every pixel.
    pub open spec fn well_formed(self) -> bool {
        self.px@.len() == self.w * self.h * 4
    }

    pub fn new(w: usize, h: usize, fill: [u8; 4]) -> (r: Self)
        requires
            w * h * 4 <= usize::MAX,
        ensures
            r.well_formed(),
            r@ == ImageView::filled(w as nat, h as nat, fill@),
    {
        assert(0 <= w * h) by (nonlinear_arith)
            requires
                0 <= w,
                0 <= h,
        ;
        let count: usize = w * h;
        let mut px: Vec<u8> = Vec::new();
        let mut i: usize = 0;
        while i < count
            invariant
                i <= count,
                count == w * h,
                count * 4 <= usize::MAX,
                px@.len() == i * 4,
                forall|k: int| 0 <= k < i ==> #[trigger] quad(px@, k * 4) == fill@,
            decreases count - i,
        {
            let ghost before = px@;
            px.push(fill[0]);
            px.push(fill[1]);
            px.push(fill[2]);
            px.push(fill[3]);
            assert forall|k: int| 0 <= k < i + 1 implies #[trigger] quad(px@, k * 4) == fill@ by {
                if k < i {
                    assert(quad(before, k * 4) == fill@);
                    assert(quad(px@, k * 4) =~= quad(before, k * 4));
                } else {
                    assert(quad(px@, k * 4) =~= fill@);
                }
            }
            i += 1;
        }
        let r = Image { w, h, px };
        proof {
            let want = ImageView::filled(w as nat, h as nat, fill@);
            assert forall|x: int, y: int| 0 <= x < w && 0 <= y < h implies #[trigger] r@.at(x, y)
                == want.at(x, y) by {
                lemma_offset_in(w as int, h as int, x, y);
                assert(quad(r.px@, (y * w + x) * 4) == fill@);
            }
            lemma_same_image(r@, want);
        }
        r
    }

    /// Paint one pixel; one outside the image is not there to be painted.
    pub fn set(&mut self, x: usize, y: usize, c: [u8; 4])
        requires
            old(self).well_formed(),
        ensures
            final(self).well_formed(),
            final(self)@ == old(self)@.boxed(x as int, x as int, y as int, y as int, c@),
    {
        let ghost before = *self;
        if x < self.w && y < self.h {
            proof {
                lemma_offset_in(self.w as int, self.h as int, x as int, y as int);
            }
            assert(self.px.len() == self.w * self.h * 4);
            let i: usize = (y * self.w + x) * 4;
            self.px.set(i, c[0]);
            self.px.set(i + 1, c[1]);
            self.px.set(i + 2, c[2]);
            self.px.set(i + 3, c[3]);
        }
        proof {
            let want = before@.boxed(x as int, x as int, y as int, y as int, c@);
            assert forall|a: int, b: int| 0 <= a < self.w && 0 <= b < self.h implies #[trigger] self@.at(
                a,
                b,
            ) == want.at(a, b) by {
                lemma_offset_in(self.w as int, self.h as int, a, b);
                if a == x && b == y {
                    assert(self@.at(a, b) =~= c@);
                } else if x < self.w && y < self.h {
                    lemma_offset_apart(self.w as int, x as int, y as int, a, b);
                    assert(self@.at(a, b) =~= before@.at(a, b));
                } else {
                    assert(self@.at(a, b) =~= before@.at(a, b));
                }
            }
            lemma_same_image(self@, want);
        }
    }

    /// Read one pixel.
    fn get(&self, x: usize, y: usize) -> (r: [u8; 4])
        requires
            self.well_formed(),
            x < self.w,
            y < self.h,
        ensures
            r@ == self@.at(x as int, y as int),
    {
        proof {
            lemma_offset_in(self.w as int, self.h as int, x as int, y as int);
        }
        assert(self.px.len() == self.w * self.h * 4);
        let i: usize = (y * self.w + x) * 4;
        let r: [u8; 4] = [self.px[i], self.px[i + 1], self.px[i + 2], self.px[i + 3]];
        assert(r@ =~= quad(self.px@, i as int));
        r
    }

    /// Paint a box, all four bounds taken in.
    fn fill_box(&mut self, x0: usize, x1: usize, y0: usize, y1: usize, c: [u8; 4])
        requires
            old(self).well_formed(),
        ensures
            final(self).well_formed(),
            final(self)@ == old(self)@.boxed(x0 as int, x1 as int, y0 as int, y1 as int, c@),
    {
        let ghost start = self@;
        let ghost want = start.boxed(x0 as int, x1 as int, y0 as int, y1 as int, c@);
        let mut y: usize = y0;
        while y <= y1 && y < self.h
            invariant
                self.well_formed(),
                self@.w == start.w,
                self@.h == start.h,
                want == start.boxed(x0 as int, x1 as int, y0 as int, y1 as int, c@),
                y0 <= y,
                forall|a: int, b: int|
                    0 <= a < start.w && 0 <= b < start.h ==> #[trigger] self@.at(a, b) == (if b
                        < y {
                        want.at(a, b)
                    } else {
                        start.at(a, b)
                    }),
            decreases self.h - y,
        {
            let mut x: usize = x0;
            while x <= x1 && x < self.w
                invariant
                    self.well_formed(),
                    self@.w == start.w,
                    self@.h == start.h,
                    want == start.boxed(x0 as int, x1 as int, y0 as int, y1 as int, c@),
                    y0 <= y <= y1,
                    y < start.h,
                    x0 <= x,
                    forall|a: int, b: int|
                        0 <= a < start.w && 0 <= b < start.h ==> #[trigger] self@.at(a, b) == (if b
                            < y || (b == y && a < x) {
                            want.at(a, b)
                        } else {
                            start.at(a, b)
                        }),
                decreases self.w - x,
            {
                let ghost before = self@;
                self.set(x, y, c);
                assert forall|a: int, b: int| 0 <= a < start.w && 0 <= b < start.h implies #[trigger] self@.at(
                    a,
                    b,
                ) == (if b < y || (b == y && a < x + 1) {
                    want.at(a, b)
                } else {
                    start.at(a, b)
                }) by {
                    assert(before.at(a, b) == (if b < y || (b == y && a < x) {
                        want.at(a, b)
                    } else {
                        start.at(a, b)
                    }));
                }
                x += 1;
            }
            y += 1;
        }
        proof {
            lemma_same_image(self@, want);
        }
    }

    /// Alpha-composite `src` over this image at (ox, oy).
    pub fn blit(&mut self, src: &Image, ox: usize, oy: usize)
        requires
            old(self).well_formed(),
            src.well_formed(),
            ox + src.w <= usize::MAX,
            oy + src.h <= usize::MAX,
        ensures
            final(self).well_formed(),
            final(self)@ == blitted(old(self)@, src@, ox as int, oy as int),
    {
        let ghost start = self@;
        let ghost want = blitted(start, src@, ox as int, oy as int);
        let mut y: usize = 0;
        while y < src.h && oy + y < self.h
            invariant
                self.well_formed(),
                src.well_formed(),
                self@.w == start.w,
                self@.h == start.h,
                y <= src.h,
                ox + src.w <= usize::MAX,
                oy + src.h <= usize::MAX,
                want == blitted(start, src@, ox as int, oy as int),
                forall|a: int, b: int|
                    0 <= a < start.w && 0 <= b < start.h ==> #[trigger] self@.at(a, b) == (if b < oy
                        + y {
                        want.at(a, b)
                    } else {
                        start.at(a, b)
                    }),
            decreases src.h - y,
        {
            let mut x: usize = 0;
            while x < src.w && ox + x < self.w
                invariant
                    self.well_formed(),
                    src.well_formed(),
                    self@.w == start.w,
                    self@.h == start.h,
                    y < src.h,
                    oy + y < start.h,
                    x <= src.w,
                    ox + src.w <= usize::MAX,
                    oy + src.h <= usize::MAX,
                    want == blitted(start, src@, ox as int, oy as int),
                    forall|a: int, b: int|
                        0 <= a < start.w && 0 <= b < start.h ==> #[trigger] self@.at(a, b) == (if b
                            < oy + y || (b == oy + y && a < ox + x) {
                            want.at(a, b)
                        } else {
                            start.at(a, b)
                        }),
                decreases src.w - x,
            {
                let ghost before = self@;
                let s: [u8; 4] = src.get(x, y);
                if s[3] != 0 {
                    let d: [u8; 4] = self.get(ox + x, oy + y);
                    let c: [u8; 4] = [
                        mix(s[0], d[0], s[3]),
                        mix(s[1], d[1], s[3]),
                        mix(s[2], d[2], s[3]),
                        255,
                    ];
                    assert(c@ =~= composed(s@, d@));
                    self.set(ox + x, oy + y, c);
                }
                assert forall|a: int, b: int| 0 <= a < start.w && 0 <= b < start.h implies #[trigger] self@.at(
                    a,
                    b,
                ) == (if b < oy + y || (b == oy + y && a < ox + x + 1) {
                    want.at(a, b)
                } else {
                    start.at(a, b)
                }) by {
                    assert(before.at(a, b) == (if b < oy + y || (b == oy + y && a < ox + x) {
                        want.at(a, b)
                    } else {
                        start.at(a, b)
                    }));
                }
                x += 1;
            }
            y += 1;
        }
        proof {
            lemma_same_image(self@, want);
        }
    }

    /// A horizontal line from `x0` to `x1`, `th` pixels thick and one at least.
    pub fn hline(&mut self, x0: usize, x1: usize, y: usize, th: usize, c: [u8; 4])
        requires
            old(self).well_formed(),
            y + thickness(th as int) - 1 <= usize::MAX,
        ensures
            final(self).well_formed(),
            final(self)@ == old(self)@.boxed(
                x0 as int,
                x1 as int,
                y as int,
                y + thickness(th as int) - 1,
                c@,
            ),
    {
        let more: usize = if th > 1 {
            th - 1
        } else {
            0
        };
        self.fill_box(x0, x1, y, y + more, c);
    }

    /// A vertical line from `y0` to `y1`, `th` pixels thick and one at least.
    pub fn vline(&mut self, x: usize, y0: usize, y1: usize, th: usize, c: [u8; 4])
        requires
            old(self).well_formed(),
            x + thickness(th as int) - 1 <= usize::MAX,
        ensures
            final(self).well_formed(),
            final(self)@ == old(self)@.boxed(
                x as int,
                x + thickness(th as int) - 1,
                y0 as int,
                y1 as int,
                c@,
            ),
    {
        let more: usize = if th > 1 {
            th - 1
        } else {
            0
        };
        self.fill_box(x, x + more, y0, y1, c);
    }

    pub fn rect_outline(&mut self, x0: usize, y0: usize, x1: usize, y1: usize, c: [u8; 4])
        requires
            old(self).well_formed(),
        ensures
            final(self).well_formed(),
            final(self)@ == outlined(
                old(self)@,
                x0 as int,
                y0 as int,
                x1 as int,
                y1 as int,
                c@,
            ),
    {
        self.hline(x0, x1, y0, 1, c);
        self.hline(x0, x1, y1, 1, c);
        self.vline(x0, y0, y1, 1, c);
        self.vline(x1, y0, y1, 1, c);
    }
}

/// An image with another composed over it, the upper left corner of that at
/// (ox, oy).
pub open spec fn blitted(img: ImageView, src: ImageView, ox: int, oy: int) -> ImageView {
    img.changed(
        |x: int, y: int, p: Seq<u8>|
            if ox <= x < ox + src.w && oy <= y < oy + src.h {
                composed(src.at(x - ox, y - oy), p)
            } else {
                p
            },
    )
}

/// How thick a line is drawn.
pub open spec fn thickness(th: int) -> int {
    if th > 1 {
        th
    } else {
        1
    }
}

/// An image with the outline of a box.
pub open spec fn outlined(img: ImageView, x0: int, y0: int, x1: int, y1: int, c: Seq<u8>) -> ImageView {
    img.boxed(x0, x1, y0, y0, c).boxed(x0, x1, y1, y1, c).boxed(x0, x0, y0, y1, c).boxed(
        x1,
        x1,
        y0,
        y1,
        c,
    )
}

// ---- text ----

/// A text has a dot: in the character `i`, in its column and row.
pub open spec fn dotted(font: Font, text: Seq<char>, i: int, col: int, row: int) -> bool {
    0 <= i < text.len() && 0 <= col < GLYPH_W && 0 <= row < GLYPH_H && has_dot(
        font.columns(text[i])[col],
        row,
    )
}

/// A pixel lies in the square that a dot is drawn as.
pub open spec fn in_dot(
    x: int,
    y: int,
    scale: int,
    advance: int,
    i: int,
    col: int,
    row: int,
    a: int,
    b: int,
) -> bool {
    x + (i * advance + col) * scale <= a < x + (i * advance + col) * scale + scale && y + row
        * scale <= b < y + row * scale + scale
}

/// A pixel is inked when it lies in the square of some dot.
pub open spec fn inked(
    font: Font,
    text: Seq<char>,
    x: int,
    y: int,
    scale: int,
    a: int,
    b: int,
) -> bool {
    exists|i: int, col: int, row: int| #[trigger]
        dotted(font, text, i, col, row) && in_dot(
            x,
            y,
            scale,
            font.advance as int,
            i,
            col,
            row,
            a,
            b,
        )
}

/// The squares that a text is drawn as fit into numbers.
pub open spec fn text_fits(font: Font, len: int, x: int, y: int, scale: int) -> bool {
    x + (len * font.advance + GLYPH_W) * scale <= usize::MAX && y + GLYPH_H * scale <= usize::MAX
}

/// An image with a text on it.
pub open spec fn lettered(
    img: ImageView,
    font: Font,
    text: Seq<char>,
    x: int,
    y: int,
    scale: int,
    c: Seq<u8>,
) -> ImageView {
    img.changed(
        |a: int, b: int, p: Seq<u8>|
            if inked(font, text, x, y, thickness(scale), a, b) {
                c
            } else {
                p
            },
    )
}

/// One dot comes before another.
spec fn dot_before(i: int, col: int, row: int, i1: int, col1: int, row1: int) -> bool {
    i < i1 || (i == i1 && (col < col1 || (col == col1 && row < row1)))
}

/// A pixel lies in the square of a dot before another.
spec fn inked_before(
    font: Font,
    text: Seq<char>,
    x: int,
    y: int,
    scale: int,
    at: (int, int, int),
    a: int,
    b: int,
) -> bool {
    exists|i: int, col: int, row: int| #[trigger]
        dotted(font, text, i, col, row) && dot_before(i, col, row, at.0, at.1, at.2) && in_dot(
            x,
            y,
            scale,
            font.advance as int,
            i,
            col,
            row,
            a,
            b,
        )
}

/// One more dot.
proof fn lemma_one_more_dot(
    font: Font,
    text: Seq<char>,
    x: int,
    y: int,
    scale: int,
    i: int,
    col: int,
    row: int,
    a: int,
    b: int,
)
    ensures
        inked_before(font, text, x, y, scale, (i, col, row + 1), a, b) <==> inked_before(
            font,
            text,
            x,
            y,
            scale,
            (i, col, row),
            a,
            b,
        ) || (dotted(font, text, i, col, row) && in_dot(
            x,
            y,
            scale,
            font.advance as int,
            i,
            col,
            row,
            a,
            b,
        )),
{
    let adv = font.advance as int;
    if inked_before(font, text, x, y, scale, (i, col, row + 1), a, b) {
        let (i1, col1, row1) = choose|i1: int, col1: int, row1: int| #[trigger]
            dotted(font, text, i1, col1, row1) && dot_before(i1, col1, row1, i, col, row + 1)
                && in_dot(x, y, scale, adv, i1, col1, row1, a, b);
        if !dot_before(i1, col1, row1, i, col, row) {
            assert(i1 == i && col1 == col && row1 == row);
        }
    }
    if inked_before(font, text, x, y, scale, (i, col, row), a, b) {
        let (i1, col1, row1) = choose|i1: int, col1: int, row1: int| #[trigger]
            dotted(font, text, i1, col1, row1) && dot_before(i1, col1, row1, i, col, row) && in_dot(
                x,
                y,
                scale,
                adv,
                i1,
                col1,
                row1,
                a,
                b,
            );
        assert(dot_before(i1, col1, row1, i, col, row + 1));
    }
}

/// The end of a column is the beginning of the next, and so with characters.
proof fn lemma_next_column(
    font: Font,
    text: Seq<char>,
    x: int,
    y: int,
    scale: int,
    i: int,
    col: int,
    a: int,
    b: int,
)
    ensures
        inked_before(font, text, x, y, scale, (i, col, GLYPH_H as int), a, b) <==> inked_before(
            font,
            text,
            x,
            y,
            scale,
            (i, col + 1, 0),
            a,
            b,
        ),
        inked_before(font, text, x, y, scale, (i, GLYPH_W as int, 0), a, b) <==> inked_before(
            font,
            text,
            x,
            y,
            scale,
            (i + 1, 0, 0),
            a,
            b,
        ),
{
    assert forall|i1: int, col1: int, row1: int| #[trigger]
        dotted(font, text, i1, col1, row1) implies {
        &&& dot_before(i1, col1, row1, i, col, GLYPH_H as int) == dot_before(
            i1,
            col1,
            row1,
            i,
            col + 1,
            0,
        )
        &&& dot_before(i1, col1, row1, i, GLYPH_W as int, 0) == dot_before(
            i1,
            col1,
            row1,
            i + 1,
            0,
            0,
        )
    } by {}
}

/// The squares of a text lie where numbers reach.
proof fn lemma_dot_fits(font: Font, len: int, x: int, y: int, scale: int, i: int, col: int, row: int)
    requires
        text_fits(font, len, x, y, scale),
        0 <= i < len,
        0 <= col < GLYPH_W,
        0 <= row < GLYPH_H,
        0 <= x,
        0 <= y,
        1 <= scale,
    ensures
        0 <= i * font.advance,
        i * font.advance + col <= usize::MAX,
        0 <= (i * font.advance + col) * scale,
        x + (i * font.advance + col) * scale + scale <= usize::MAX,
        0 <= row * scale,
        y + row * scale + scale <= usize::MAX,
{
    let adv = font.advance as int;
    assert(0 <= i * adv <= len * adv) by (nonlinear_arith)
        requires
            0 <= i < len,
            0 <= adv,
    ;
    let lot = i * adv + col;
    let all = len * adv + GLYPH_W as int;
    assert(0 <= lot * scale && lot * scale + scale <= all * scale && lot <= lot * scale)
        by (nonlinear_arith)
        requires
            0 <= lot,
            lot + 1 <= all,
            1 <= scale,
    ;
    assert(0 <= row * scale && row * scale + scale <= (GLYPH_H as int) * scale)
        by (nonlinear_arith)
        requires
            0 <= row,
            row + 1 <= GLYPH_H as int,
            1 <= scale,
    ;
}

impl Image {
    /// Draw `text`, magnified by `scale`.
    pub fn text(&mut self, x: usize, y: usize, text: &str, scale: usize, c: [u8; 4], font: &Font)
        requires
            old(self).well_formed(),
            text_fits(*font, text@.len() as int, x as int, y as int, thickness(scale as int)),
        ensures
            final(self).well_formed(),
            final(self)@ == lettered(
                old(self)@,
                *font,
                text@,
                x as int,
                y as int,
                scale as int,
                c@,
            ),
    {
        let mag: usize = if scale > 1 {
            scale
        } else {
            1
        };
        let chars = chars_of(text);
        let ghost f = *font;
        let ghost t = text@;
        let ghost start = self@;
        let ghost xi = x as int;
        let ghost yi = y as int;
        let ghost m = mag as int;
        let mut i: usize = 0;
        while i < chars.len()
            invariant
                i <= chars@.len(),
                chars@ == t,
                f == *font,
                xi == x,
                yi == y,
                m == mag,
                1 <= m,
                text_fits(f, t.len() as int, xi, yi, m),
                self.well_formed(),
                self@.w == start.w,
                self@.h == start.h,
                forall|a: int, b: int|
                    0 <= a < start.w && 0 <= b < start.h ==> #[trigger] self@.at(a, b)
                        == (if inked_before(f, t, xi, yi, m, (i as int, 0, 0), a, b) {
                        c@
                    } else {
                        start.at(a, b)
                    }),
            decreases chars@.len() - i,
        {
            let g: [u8; 5] = font.glyph(chars[i]);
            let mut col: usize = 0;
            while col < GLYPH_W
                invariant
                    i < chars@.len(),
                    chars@ == t,
                    f == *font,
                    xi == x,
                    yi == y,
                    m == mag,
                    1 <= m,
                    col <= GLYPH_W,
                    g@ == f.columns(t[i as int]),
                    text_fits(f, t.len() as int, xi, yi, m),
                    self.well_formed(),
                    self@.w == start.w,
                    self@.h == start.h,
                    forall|a: int, b: int|
                        0 <= a < start.w && 0 <= b < start.h ==> #[trigger] self@.at(a, b)
                            == (if inked_before(f, t, xi, yi, m, (i as int, col as int, 0), a, b) {
                            c@
                        } else {
                            start.at(a, b)
                        }),
                decreases GLYPH_W - col,
            {
                let bits: u8 = g[col];
                let mut row: usize = 0;
                while row < GLYPH_H
                    invariant
                        i < chars@.len(),
                        chars@ == t,
                        f == *font,
                        xi == x,
                        yi == y,
                        m == mag,
                        1 <= m,
                        col < GLYPH_W,
                        row <= GLYPH_H,
                        bits == f.columns(t[i as int])[col as int],
                        text_fits(f, t.len() as int, xi, yi, m),
                        self.well_formed(),
                        self@.w == start.w,
                        self@.h == start.h,
                        forall|a: int, b: int|
                            0 <= a < start.w && 0 <= b < start.h ==> #[trigger] self@.at(a, b)
                                == (if inked_before(
                                f,
                                t,
                                xi,
                                yi,
                                m,
                                (i as int, col as int, row as int),
                                a,
                                b,
                            ) {
                                c@
                            } else {
                                start.at(a, b)
                            }),
                    decreases GLYPH_H - row,
                {
                    let ghost before = self@;
                    if bits & (1u8 << (row as u8)) != 0 {
                        proof {
                            lemma_dot_fits(
                                f,
                                t.len() as int,
                                xi,
                                yi,
                                m,
                                i as int,
                                col as int,
                                row as int,
                            );
                        }
                        let px: usize = x + (i * font.advance + col) * mag;
                        let py: usize = y + row * mag;
                        self.fill_box(px, px + (mag - 1), py, py + (mag - 1), c);
                    }
                    assert forall|a: int, b: int|
                        0 <= a < start.w && 0 <= b < start.h implies #[trigger] self@.at(a, b) == (
                    if inked_before(f, t, xi, yi, m, (i as int, col as int, row + 1), a, b) {
                        c@
                    } else {
                        start.at(a, b)
                    }) by {
                        lemma_one_more_dot(
                            f,
                            t,
                            xi,
                            yi,
                            m,
                            i as int,
                            col as int,
                            row as int,
                            a,
                            b,
                        );
                        assert(before.at(a, b) == (if inked_before(
                            f,
                            t,
                            xi,
                            yi,
                            m,
                            (i as int, col as int, row as int),
                            a,
                            b,
                        ) {
                            c@
                        } else {
                            start.at(a, b)
                        }));
                    }
                    row += 1;
                }
                assert forall|a: int, b: int| 0 <= a < start.w && 0 <= b < start.h implies #[trigger] self@.at(
                    a,
                    b,
                ) == (if inked_before(f, t, xi, yi, m, (i as int, col + 1, 0), a, b) {
                    c@
                } else {
                    start.at(a, b)
                }) by {
                    lemma_next_column(f, t, xi, yi, m, i as int, col as int, a, b);
                }
                col += 1;
            }
            assert forall|a: int, b: int| 0 <= a < start.w && 0 <= b < start.h implies #[trigger] self@.at(
                a,
                b,
            ) == (if inked_before(f, t, xi, yi, m, (i + 1, 0, 0), a, b) {
                c@
            } else {
                start.at(a, b)
            }) by {
                lemma_next_column(f, t, xi, yi, m, i as int, 0, a, b);
            }
            i += 1;
        }
        proof {
            let want = lettered(start, f, t, xi, yi, scale as int, c@);
            assert forall|a: int, b: int| 0 <= a < start.w && 0 <= b < start.h implies #[trigger] self@.at(
                a,
                b,
            ) == want.at(a, b) by {
                assert(inked_before(f, t, xi, yi, m, (t.len() as int, 0, 0), a, b) <==> inked(
                    f,
                    t,
                    xi,
                    yi,
                    m,
                    a,
                    b,
                )) by {
                    assert forall|i1: int, col1: int, row1: int| #[trigger]
                        dotted(f, t, i1, col1, row1) implies dot_before(
                        i1,
                        col1,
                        row1,
                        t.len() as int,
                        0,
                        0,
                    ) by {}
                }
            }
            lemma_same_image(self@, want);
        }
    }
}

// ---- PNG ----

/// The bytes that a PNG file begins with.
pub open spec fn png_signature() -> Seq<u8> {
    seq![137u8, 80, 78, 71, 13, 10, 26, 10]
}

/// The PNG file of an image with eight bits each of red, green, blue and alpha.
pub uninterp spec fn png_file(w: u32, h: u32, px: Seq<u8>) -> Seq<u8>;

/// Encode an image with `png::Encoder`: the width and height given to
/// `Encoder::new`, the colour type set to RGBA and the depth to eight bits, the
/// header written by `write_header`, the pixels by `write_image_data` and the
/// end by `finish`, all into a buffer in memory. The encoder refuses an image
/// without width or height and, writing to memory, no other; what it writes
/// depends on the image alone and begins with the signature of the format.
#[verifier::external_body]
fn encode_png(w: u32, h: u32, px: &[u8]) -> (r: Option<Vec<u8>>)
    requires
        px@.len() == w * h * 4,
    ensures
        r.is_some() == (w != 0 && h != 0),
        r.is_some() ==> r.unwrap()@ == png_file(w, h, px@),
        r.is_some() ==> r.unwrap()@.len() >= 8,
        r.is_some() ==> r.unwrap()@.take(8) == png_signature(),
{
    let mut out: Vec<u8> = Vec::new();
    let mut enc = png::Encoder::new(&mut out, w, h);
    enc.set_color(png::ColorType::Rgba);
    enc.set_depth(png::BitDepth::Eight);
    let mut writer = enc.write_header().ok()?;
    writer.write_image_data(px).ok()?;
    writer.finish().ok()?;
    Some(out)
}

impl Image {
    /// The image as a PNG file. `None`: it has no pixels.
    pub fn png(&self) -> (r: Option<Vec<u8>>)
        requires
            self.well_formed(),
            self.w <= u32::MAX,
            self.h <= u32::MAX,
        ensures
            r is Some <==> self.w > 0 && self.h > 0,
            r matches Some(file) ==> file@ == png_file(self.w as u32, self.h as u32, self.px@)
                && file@.len() >= 8 && file@.take(8) == png_signature(),
    {
        encode_png(self.w as u32, self.h as u32, self.px.as_slice())
    }
}

} // verus!
