//! Contact sheets: rendered parts laid out in a grid, each with its name, its
//! dimensions, its triangle count and a scale bar.

use vstd::prelude::*;

use crate::font::{Font, GLYPH_H};
use crate::iso::{
    blitted, lettered, outlined, text_fits, thickness, Image, ImageView, ACCENT, BORDER, GREEN,
    SHEET_BG, TEXT, TEXT_DIM,
};
use crate::text::{chars_of, push_decimal, string_of};

verus! {

/// The first `n` digits with a comma before every three that remain.
pub open spec fn grouped(digits: Seq<char>, n: int) -> Seq<char>
    decreases n,
{
    if n <= 0 {
        Seq::empty()
    } else {
        let before = grouped(digits, n - 1);
        let i = n - 1;
        if i > 0 && (digits.len() - i) % 3 == 0 {
            before.push(',').push(digits[i])
        } else {
            before.push(digits[i])
        }
    }
}

/// A number in decimal, its digits grouped by threes.
pub open spec fn thousands(n: nat) -> Seq<char> {
    let digits = crate::text::decimal(n);
    grouped(digits, digits.len() as int)
}

pub fn with_thousands(n: usize) -> (r: String)
    ensures
        r@ == thousands(n as nat),
{
    let mut s = String::new();
    push_decimal(&mut s, n as u64);
    assert(s@ =~= crate::text::decimal(n as nat));
    let digits = chars_of(s.as_str());
    let mut out = String::new();
    let mut i: usize = 0;
    while i < digits.len()
        invariant
            i <= digits@.len(),
            out@ == grouped(digits@, i as int),
        decreases digits@.len() - i,
    {
        if i > 0 && (digits.len() - i) % 3 == 0 {
            out.push(',');
        }
        out.push(digits[i]);
        i += 1;
    }
    out
}

/// A length drawn at the scale of a rendering.
pub struct ScaleBar {
    pub pixels: usize,
    /// What the length is.
    pub label: String,
}

/// One tile's worth of information.
pub struct Tile {
    pub name: String,
    /// The rendered part.
    pub image: Image,
    pub triangles: usize,
    /// The dimensions of the part, in words.
    pub dims: String,
    /// A readable length at the scale of the rendering; a part without extent
    /// has none.
    pub bar: Option<ScaleBar>,
}

/// How much the name is magnified.
pub open spec fn name_scale(tile_px: int) -> int {
    thickness(tile_px / 150)
}

/// How much the other texts are magnified.
pub open spec fn small_scale(tile_px: int) -> int {
    thickness(tile_px / 190)
}

/// What is left of `a` when `b` is taken off, and nothing where that is more.
pub open spec fn rest(a: int, b: int) -> int {
    if a >= b {
        a - b
    } else {
        0
    }
}

/// The count of triangles in words.
pub open spec fn count_text(t: Tile) -> Seq<char> {
    thousands(t.triangles as nat) + " tris"@
}

/// How wide a text is drawn.
pub open spec fn text_width(font: Font, text: Seq<char>, scale: int) -> int {
    text.len() * font.advance * scale
}

/// How many characters of the name fit: it gets whatever width the triangle
/// count leaves, so the two never collide however long the name is.
pub open spec fn name_room(font: Font, t: Tile, tile_px: int) -> int {
    rest(tile_px, text_width(font, count_text(t), small_scale(tile_px)) + 32) / thickness(
        font.advance * name_scale(tile_px),
    )
}

/// A name cut to a number of characters; a mark shows that it was cut.
pub open spec fn cut_name(name: Seq<char>, room: int) -> Seq<char> {
    if name.len() > room && room > 1 {
        name.take(room - 1).push('~')
    } else if name.len() > room {
        name.take(room)
    } else {
        name
    }
}

/// A scale bar is drawn when it is neither too short nor wider than the tile.
pub open spec fn bar_shows(t: Tile, tile_px: int) -> bool {
    t.bar is Some && t.bar->0.pixels > 4 && t.bar->0.pixels < rest(tile_px, 2)
}

/// A sheet with the scale bar of a tile.
pub open spec fn barred(
    sheet: ImageView,
    font: Font,
    t: Tile,
    ox: int,
    oy: int,
    tile_px: int,
) -> ImageView {
    if bar_shows(t, tile_px) {
        let bar = t.bar->0.pixels as int;
        let by = oy + rest(tile_px, 2) - tile_px / 20;
        let bx = ox + tile_px / 25;
        let th = if tile_px / 140 > 2 {
            tile_px / 140
        } else {
            2
        };
        let line = sheet.boxed(bx, bx + bar, by, by + th - 1, ACCENT@);
        let left = line.boxed(bx, bx + 1, rest(by, 6), by + 6, ACCENT@);
        let right = left.boxed(bx + bar, bx + bar + 1, rest(by, 6), by + 6, ACCENT@);
        lettered(
            right,
            font,
            t.bar->0.label@,
            bx,
            rest(by, 10 + GLYPH_H * small_scale(tile_px)),
            small_scale(tile_px),
            ACCENT@,
        )
    } else {
        sheet
    }
}

/// A sheet with one tile on it, the upper left corner of that at (ox, oy).
pub open spec fn tiled(
    sheet: ImageView,
    font: Font,
    t: Tile,
    ox: int,
    oy: int,
    tile_px: int,
) -> ImageView {
    let big = name_scale(tile_px);
    let small = small_scale(tile_px);
    let pictured = barred(
        blitted(sheet, t.image@, ox + 1, oy + 1),
        font,
        t,
        ox,
        oy,
        tile_px,
    );
    let named = lettered(
        pictured,
        font,
        cut_name(t.name@, name_room(font, t, tile_px)),
        ox + 10,
        oy + 8,
        big,
        TEXT@,
    );
    let measured = lettered(
        named,
        font,
        t.dims@,
        ox + 10,
        oy + 12 + GLYPH_H * big,
        small,
        TEXT_DIM@,
    );
    let counted = lettered(
        measured,
        font,
        count_text(t),
        ox + rest(tile_px, 12 + text_width(font, count_text(t), small)),
        oy + 8,
        small,
        GREEN@,
    );
    outlined(counted, ox, oy, ox + tile_px - 1, oy + tile_px - 1, BORDER@)
}

/// The places where a tile is drawn fit into numbers.
pub open spec fn tile_fits(font: Font, t: Tile, ox: int, oy: int, tile_px: int) -> bool {
    let big = name_scale(tile_px);
    let small = small_scale(tile_px);
    let name = cut_name(t.name@, name_room(font, t, tile_px));
    &&& t.image.well_formed()
    &&& 1 <= tile_px
    &&& ox + tile_px + tile_px / 25 + 6 <= usize::MAX
    &&& oy + tile_px + 6 <= usize::MAX
    &&& ox + 1 + t.image.w <= usize::MAX
    &&& oy + 1 + t.image.h <= usize::MAX
    &&& font.advance * big <= usize::MAX
    &&& text_width(font, count_text(t), small) + 32 <= usize::MAX
    &&& oy + 12 + GLYPH_H * big <= usize::MAX
    &&& 10 + GLYPH_H * small <= usize::MAX
    &&& text_fits(font, name.len() as int, ox + 10, oy + 8, big)
    &&& text_fits(font, t.dims@.len() as int, ox + 10, oy + 12 + GLYPH_H * big, small)
    &&& text_fits(
        font,
        count_text(t).len() as int,
        ox + rest(tile_px, 12 + text_width(font, count_text(t), small)),
        oy + 8,
        small,
    )
    &&& t.bar matches Some(b) ==> b.pixels < rest(tile_px, 2) ==> text_fits(
        font,
        b.label@.len() as int,
        ox + tile_px / 25,
        rest(oy + rest(tile_px, 2) - tile_px / 20, 10 + GLYPH_H * small),
        small,
    )
}

/// What is left of `a` when `b` is taken off.
fn left_over(a: usize, b: usize) -> (r: usize)
    ensures
        r == rest(a as int, b as int),
{
    if a >= b {
        a - b
    } else {
        0
    }
}

/// `n`, but one at least.
fn at_least_one(n: usize) -> (r: usize)
    ensures
        r == thickness(n as int),
{
    if n > 1 {
        n
    } else {
        1
    }
}

/// Cut a name to a number of characters.
fn cut(name: &str, room: usize) -> (r: String)
    ensures
        r@ == cut_name(name@, room as int),
{
    let chars = chars_of(name);
    if chars.len() > room {
        let keep: usize = if room > 1 {
            room - 1
        } else {
            room
        };
        let mut kept: Vec<char> = Vec::new();
        let mut i: usize = 0;
        while i < keep
            invariant
                i <= keep <= chars@.len(),
                kept@ == chars@.take(i as int),
            decreases keep - i,
        {
            kept.push(chars[i]);
            assert(kept@ =~= chars@.take(i + 1));
            i += 1;
        }
        if room > 1 {
            kept.push('~');
        }
        string_of(kept.as_slice())
    } else {
        string_of(chars.as_slice())
    }
}

/// Draw the scale bar of a tile.
fn draw_bar(sheet: &mut Image, font: &Font, t: &Tile, ox: usize, oy: usize, tile_px: usize)
    requires
        old(sheet).well_formed(),
        tile_fits(*font, *t, ox as int, oy as int, tile_px as int),
    ensures
        final(sheet).well_formed(),
        final(sheet)@ == barred(old(sheet)@, *font, *t, ox as int, oy as int, tile_px as int),
{
    if let Some(b) = &t.bar {
        let bar: usize = b.pixels;
        let thumb: usize = left_over(tile_px, 2);
        if bar > 4 && bar < thumb {
            let small: usize = at_least_one(tile_px / 190);
            let by: usize = oy + thumb - tile_px / 20;
            let bx: usize = ox + tile_px / 25;
            let th: usize = if tile_px / 140 > 2 {
                tile_px / 140
            } else {
                2
            };
            sheet.hline(bx, bx + bar, by, th, ACCENT);
            sheet.vline(bx, left_over(by, 6), by + 6, 2, ACCENT);
            sheet.vline(bx + bar, left_over(by, 6), by + 6, 2, ACCENT);
            sheet.text(
                bx,
                left_over(by, 10 + GLYPH_H * small),
                b.label.as_str(),
                small,
                ACCENT,
                font,
            );
        }
    }
}

/// Draw one tile.
fn draw_tile(sheet: &mut Image, font: &Font, t: &Tile, ox: usize, oy: usize, tile_px: usize)
    requires
        old(sheet).well_formed(),
        tile_fits(*font, *t, ox as int, oy as int, tile_px as int),
    ensures
        final(sheet).well_formed(),
        final(sheet)@ == tiled(old(sheet)@, *font, *t, ox as int, oy as int, tile_px as int),
{
    let big: usize = at_least_one(tile_px / 150);
    let small: usize = at_least_one(tile_px / 190);
    sheet.blit(&t.image, ox + 1, oy + 1);
    draw_bar(sheet, font, t, ox, oy, tile_px);
    let mut tris = with_thousands(t.triangles);
    tris.append(" tris");
    let ghost count = count_text(*t);
    assert(tris@ =~= count);
    let n: usize = chars_of(tris.as_str()).len();
    proof {
        lemma_width_fits(n as int, font.advance as int, small as int);
    }
    let tw: usize = n * font.advance * small;
    let room: usize = left_over(tile_px, tw + 32) / at_least_one(font.advance * big);
    let name = cut(t.name.as_str(), room);
    sheet.text(ox + 10, oy + 8, name.as_str(), big, TEXT, font);
    sheet.text(ox + 10, oy + 12 + GLYPH_H * big, t.dims.as_str(), small, TEXT_DIM, font);
    sheet.text(ox + left_over(tile_px, 12 + tw), oy + 8, tris.as_str(), small, GREEN, font);
    sheet.rect_outline(ox, oy, ox + (tile_px - 1), oy + (tile_px - 1), BORDER);
}

/// A width that fits has parts that fit.
proof fn lemma_width_fits(n: int, advance: int, scale: int)
    requires
        0 <= n,
        0 <= advance,
        1 <= scale,
    ensures
        0 <= n * advance <= n * advance * scale,
{
    assert(0 <= n * advance) by (nonlinear_arith)
        requires
            0 <= n,
            0 <= advance,
    ;
    let w = n * advance;
    assert(w <= w * scale) by (nonlinear_arith)
        requires
            0 <= w,
            1 <= scale,
    ;
}

/// How many columns a sheet has.
pub open spec fn columns(cols: int) -> int {
    thickness(cols)
}

/// How many rows tiles fill.
pub open spec fn rows(tiles: int, cols: int) -> int {
    (tiles + columns(cols) - 1) / columns(cols)
}

/// A sheet with the first `n` tiles on it, laid out row by row.
pub open spec fn sheet_of(
    blank: ImageView,
    font: Font,
    tiles: Seq<Tile>,
    cols: int,
    tile_px: int,
    n: int,
) -> ImageView
    decreases n,
{
    if n <= 0 {
        blank
    } else {
        let i = n - 1;
        tiled(
            sheet_of(blank, font, tiles, cols, tile_px, i),
            font,
            tiles[i],
            (i % columns(cols)) * tile_px,
            (i / columns(cols)) * tile_px,
            tile_px,
        )
    }
}

/// The sheet and its tiles fit into numbers.
pub open spec fn sheet_fits(font: Font, tiles: Seq<Tile>, cols: int, tile_px: int) -> bool {
    &&& (columns(cols) * tile_px) * (thickness(rows(tiles.len() as int, cols)) * tile_px) * 4
        <= usize::MAX
    &&& columns(cols) * tile_px <= usize::MAX
    &&& thickness(rows(tiles.len() as int, cols)) * tile_px <= usize::MAX
    &&& tiles.len() + columns(cols) <= usize::MAX
    &&& forall|i: int|
        0 <= i < tiles.len() ==> tile_fits(
            font,
            #[trigger] tiles[i],
            (i % columns(cols)) * tile_px,
            (i / columns(cols)) * tile_px,
            tile_px,
        )
}

/// Lay tiles out in a grid contact sheet: rendering, part name, bounding-box
/// dimensions, triangle count and scale bar.
pub fn contact_sheet(tiles: &[Tile], cols: usize, tile_px: usize, font: &Font) -> (r: Image)
    requires
        sheet_fits(*font, tiles@, cols as int, tile_px as int),
    ensures
        r.well_formed(),
        r@ == sheet_of(
            ImageView::filled(
                (columns(cols as int) * tile_px) as nat,
                (thickness(rows(tiles@.len() as int, cols as int)) * tile_px) as nat,
                SHEET_BG@,
            ),
            *font,
            tiles@,
            cols as int,
            tile_px as int,
            tiles@.len() as int,
        ),
{
    let per_row: usize = at_least_one(cols);
    let count: usize = (tiles.len() + (per_row - 1)) / per_row;
    let ghost r0 = rows(tiles@.len() as int, cols as int);
    assert(count == r0);
    assert(0 <= columns(cols as int) * tile_px && 0 <= thickness(r0) * tile_px) by (nonlinear_arith)
        requires
            1 <= columns(cols as int),
            1 <= thickness(r0),
            0 <= tile_px,
    ;
    let mut sheet = Image::new(per_row * tile_px, at_least_one(count) * tile_px, SHEET_BG);
    let ghost blank = sheet@;
    let mut i: usize = 0;
    while i < tiles.len()
        invariant
            i <= tiles@.len(),
            per_row == columns(cols as int),
            1 <= per_row,
            sheet_fits(*font, tiles@, cols as int, tile_px as int),
            sheet.well_formed(),
            sheet@ == sheet_of(blank, *font, tiles@, cols as int, tile_px as int, i as int),
        decreases tiles@.len() - i,
    {
        let row: usize = i / per_row;
        let col: usize = i % per_row;
        assert(tile_fits(
            *font,
            tiles@[i as int],
            (i as int % columns(cols as int)) * tile_px,
            (i as int / columns(cols as int)) * tile_px,
            tile_px as int,
        ));
        assert(0 <= col * tile_px && 0 <= row * tile_px) by (nonlinear_arith)
            requires
                0 <= col,
                0 <= row,
                0 <= tile_px,
        ;
        draw_tile(&mut sheet, font, &tiles[i], col * tile_px, row * tile_px, tile_px);
        i += 1;
    }
    sheet
}

} // verus!
