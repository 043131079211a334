use solid_diff::anim::{
    canvas_size, flatten, quantize, same_size, spin_poses, Pose, SpinOptions, Sweep,
};
use solid_diff::font::{Font, Glyph};
use solid_diff::iso::{mix, Image, BORDER, SHEET_BG};
use solid_diff::sheet::{contact_sheet, with_thousands, ScaleBar, Tile};
use solid_diff::splat::{pick_triangle, sample_count, Canvas, Rng};

fn font() -> Font {
    Font {
        advance: 6,
        glyphs: vec![
            Glyph {
                ch: 'I',
                columns: [0x00, 0x41, 0x7f, 0x41, 0x00],
            },
            Glyph {
                ch: ' ',
                columns: [0; 5],
            },
        ],
        fallback: [0x7f, 0x41, 0x41, 0x41, 0x7f],
    }
}

fn pixel(img: &Image, x: usize, y: usize) -> [u8; 4] {
    let i = (y * img.w + x) * 4;
    [img.px[i], img.px[i + 1], img.px[i + 2], img.px[i + 3]]
}

const RED: [u8; 4] = [255, 0, 0, 255];
const BLUE: [u8; 4] = [0, 0, 255, 255];
const CLEAR: [u8; 4] = [0, 0, 0, 0];

#[test]
fn contact_sheet_lays_out_a_grid() {
    let mut picture = Image::new(40, 40, CLEAR);
    picture.hline(10, 30, 10, 20, RED);
    let tiles: Vec<Tile> = (0..3)
        .map(|i| Tile {
            name: format!("part{i}"),
            image: Image {
                w: picture.w,
                h: picture.h,
                px: picture.px.clone(),
            },
            triangles: 12,
            dims: "100.0 x 100.0 x 100.0 cm".to_string(),
            bar: Some(ScaleBar {
                pixels: 20,
                label: "50.0 cm".to_string(),
            }),
        })
        .collect();
    let sheet = contact_sheet(&tiles, 2, 100, &font());
    assert_eq!(sheet.w, 200);
    assert_eq!(sheet.h, 200); // 3 tiles over 2 columns = 2 rows
                              // Tile borders sit on the outer edge; just inside is background.
    let at = |x: usize, y: usize| &sheet.px[(y * sheet.w + x) * 4..][..4];
    assert_eq!(at(0, 0), BORDER, "tile edge should be the border colour");
    assert_eq!(at(3, 3), SHEET_BG, "just inside a tile is background");
    // The unused fourth cell stays empty background all the way through.
    assert_eq!(at(150, 150), SHEET_BG, "empty cell should stay blank");
    // ...while an occupied cell has something drawn in it.
    let drawn = (0..100)
        .flat_map(|y| (0..100).map(move |x| (x, y)))
        .any(|(x, y)| at(x, y) != SHEET_BG);
    assert!(drawn, "first tile should have content");
}

#[test]
fn an_empty_sheet_is_one_blank_row() {
    let sheet = contact_sheet(&[], 3, 10, &font());
    assert_eq!((sheet.w, sheet.h), (30, 10));
    assert!(sheet.px.chunks(4).all(|p| p == SHEET_BG));
    let narrow = contact_sheet(&[], 0, 10, &font());
    assert_eq!(narrow.w, 10);
}

#[test]
fn thousands_are_separated() {
    assert_eq!(with_thousands(1234567), "1,234,567");
    assert_eq!(with_thousands(0), "0");
    assert_eq!(with_thousands(999), "999");
    assert_eq!(with_thousands(1000), "1,000");
    assert_eq!(with_thousands(100000), "100,000");
}

#[test]
fn pixels_outside_an_image_are_ignored() {
    let mut img = Image::new(3, 2, CLEAR);
    img.set(2, 1, RED);
    img.set(3, 0, RED);
    img.set(0, 2, RED);
    assert_eq!(pixel(&img, 2, 1), RED);
    assert_eq!(img.px.chunks(4).filter(|p| *p == RED).count(), 1);
}

#[test]
fn lines_have_ends_and_thickness() {
    let mut img = Image::new(6, 6, CLEAR);
    img.hline(1, 3, 2, 2, RED);
    for (x, y) in [(1, 2), (3, 2), (1, 3), (3, 3)] {
        assert_eq!(pixel(&img, x, y), RED);
    }
    for (x, y) in [(0, 2), (4, 2), (2, 1), (2, 4)] {
        assert_eq!(pixel(&img, x, y), CLEAR);
    }
    let mut img = Image::new(6, 6, CLEAR);
    img.vline(2, 1, 4, 1, BLUE);
    assert_eq!(img.px.chunks(4).filter(|p| *p == BLUE).count(), 4);
    assert_eq!(pixel(&img, 2, 4), BLUE);
    let mut img = Image::new(6, 6, CLEAR);
    img.rect_outline(1, 1, 4, 4, RED);
    assert_eq!(img.px.chunks(4).filter(|p| *p == RED).count(), 12);
    assert_eq!(pixel(&img, 2, 2), CLEAR);
    // What lies outside is cut off, as far out as it can be.
    let mut img = Image::new(6, 6, CLEAR);
    img.rect_outline(4, 4, usize::MAX, usize::MAX, RED);
    assert_eq!(img.px.chunks(4).filter(|p| *p == RED).count(), 3);
    img.hline(0, 5, usize::MAX, 1, BLUE);
    img.vline(usize::MAX, 0, 5, 0, BLUE);
    assert_eq!(img.px.chunks(4).filter(|p| *p == BLUE).count(), 0);
}

#[test]
fn blitting_composites_over_what_is_there() {
    let mut img = Image::new(4, 4, BLUE);
    img.blit(&Image::new(2, 2, RED), 1, 1);
    assert_eq!(pixel(&img, 1, 1), RED);
    assert_eq!(pixel(&img, 3, 3), BLUE);
    img.blit(&Image::new(2, 2, CLEAR), 1, 1);
    assert_eq!(pixel(&img, 1, 1), RED);
    img.blit(&Image::new(1, 1, [255, 0, 0, 51]), 3, 3);
    assert_eq!(pixel(&img, 3, 3), [51, 0, 204, 255]);
    // What hangs over the edge is cut off.
    img.blit(&Image::new(2, 2, RED), 3, 3);
    assert_eq!(pixel(&img, 3, 3), RED);
}

#[test]
fn colours_are_mixed_by_alpha() {
    assert_eq!(mix(255, 0, 255), 255);
    assert_eq!(mix(255, 0, 0), 0);
    assert_eq!(mix(200, 100, 51), 120);
    assert_eq!(mix(10, 20, 128), ((10 * 128 + 20 * 127) / 255) as u8);
}

#[test]
fn letters_are_drawn_column_by_column() {
    let mut img = Image::new(20, 10, CLEAR);
    img.text(1, 1, "I", 1, RED, &font());
    // Column bits run from the top down; the stem is the third column.
    for y in 0..7 {
        assert_eq!(pixel(&img, 3, 1 + y), RED);
    }
    assert_eq!(pixel(&img, 2, 1), RED);
    assert_eq!(pixel(&img, 2, 7), RED);
    assert_eq!(pixel(&img, 2, 4), CLEAR);
    // A character without a glyph is the fallback box, one advance further.
    let mut two = Image::new(20, 10, CLEAR);
    two.text(1, 1, " ?", 1, RED, &font());
    assert_eq!(pixel(&two, 3, 4), CLEAR);
    assert_eq!(pixel(&two, 7, 4), RED);
    assert_eq!(pixel(&two, 8, 4), CLEAR);
    // Twice the scale, twice the size.
    let mut big = Image::new(20, 20, CLEAR);
    big.text(0, 0, "I", 2, RED, &font());
    assert_eq!(pixel(&big, 4, 6), RED);
    assert_eq!(pixel(&big, 5, 7), RED);
}

#[test]
fn a_png_file_holds_the_pixels() {
    let mut img = Image::new(3, 2, CLEAR);
    img.set(1, 0, [10, 20, 30, 40]);
    let file = img.png().unwrap();
    assert_eq!(&file[..8], &[0x89, b'P', b'N', b'G', 13, 10, 26, 10]);
    let decoder = png::Decoder::new(&file[..]);
    let mut reader = decoder.read_info().unwrap();
    let mut buf = vec![0; reader.output_buffer_size()];
    let info = reader.next_frame(&mut buf).unwrap();
    assert_eq!((info.width, info.height), (3, 2));
    assert_eq!(&buf[..info.buffer_size()], &img.px[..]);
    assert!(Image::new(0, 5, CLEAR).png().is_none());
}

#[test]
fn nearest_point_shows() {
    let mut c = Canvas::new(8);
    c.splat(3, 3, 1.0f64.to_bits(), RED);
    c.splat(3, 3, 2.0f64.to_bits(), BLUE);
    c.splat(3, 3, (-5.0f64).to_bits(), RED);
    // A point covers two by two pixels.
    assert_eq!(pixel(&c.img, 3, 3), BLUE);
    assert_eq!(pixel(&c.img, 4, 4), BLUE);
    assert_eq!(pixel(&c.img, 2, 3), CLEAR);
    // Off the edge nothing happens.
    c.splat(-1, -1, 9.0f64.to_bits(), RED);
    c.splat(100, 100, 9.0f64.to_bits(), RED);
    assert_eq!(c.img.px.chunks(4).filter(|p| *p == RED).count(), 0);
    // At the edge what fits is drawn.
    c.splat(7, 0, 9.0f64.to_bits(), RED);
    assert_eq!(c.img.px.chunks(4).filter(|p| *p == RED).count(), 2);
}

#[test]
fn random_numbers_repeat_for_a_seed() {
    let mut a = Rng::new(1);
    let mut b = Rng::new(1);
    let first: Vec<u32> = (0..3).map(|_| a.next_u32()).collect();
    let second: Vec<u32> = (0..3).map(|_| b.next_u32()).collect();
    assert_eq!(first, second);
    assert_eq!(first, vec![3837872008, 3119193125, 924079821]);
}

#[test]
fn points_are_counted_by_resolution() {
    assert_eq!(sample_count(10, 10), 60_000);
    assert_eq!(sample_count(200, 12), 240_000);
    assert_eq!(sample_count(10, 50_000), 200_000);
    assert_eq!(sample_count(5_000, 12), 12_000_000);
}

#[test]
fn triangles_are_picked_by_area() {
    let cum: Vec<u64> = [0.0f64, 1.0, 3.0, 6.0].iter().map(|x| x.to_bits()).collect();
    assert_eq!(pick_triangle(&cum, 0.5f64.to_bits()), 0);
    assert_eq!(pick_triangle(&cum, 1.0f64.to_bits()), 1);
    assert_eq!(pick_triangle(&cum, 5.9f64.to_bits()), 2);
    assert_eq!(pick_triangle(&cum, 6.0f64.to_bits()), 2);
    assert_eq!(pick_triangle(&cum, 7.0f64.to_bits()), 2);
    assert_eq!(pick_triangle(&cum, (-1.0f64).to_bits()), 0);
}

#[test]
fn sweeps_leave_out_their_closing_frame() {
    let opts = SpinOptions {
        az_frames: 2,
        el_frames: 3,
        delay_cs: 5,
    };
    let poses = spin_poses(&opts);
    let want: Vec<Pose> = vec![
        (Sweep::Azimuth, 0, 2),
        (Sweep::Azimuth, 1, 2),
        (Sweep::Elevation, 0, 3),
        (Sweep::Elevation, 1, 3),
        (Sweep::Elevation, 2, 3),
    ]
    .into_iter()
    .map(|(sweep, part, whole)| Pose { sweep, part, whole })
    .collect();
    assert_eq!(poses, want);
    let d = SpinOptions::default();
    assert_eq!((d.az_frames, d.el_frames, d.delay_cs), (48, 48, 5));
    assert_eq!(spin_poses(&d).len(), 96);
}

#[test]
fn frames_are_flattened_onto_the_backdrop() {
    let mut img = Image::new(2, 1, CLEAR);
    img.px[4..8].copy_from_slice(&[200, 100, 50, 255]);
    assert_eq!(flatten(&img), vec![26, 27, 38, 255, 200, 100, 50, 255]);
    let half = Image::new(1, 1, [255, 255, 255, 128]);
    assert_eq!(
        flatten(&half),
        vec![
            ((255 * 128 + 26 * 127) / 255) as u8,
            ((255 * 128 + 27 * 127) / 255) as u8,
            ((255 * 128 + 38 * 127) / 255) as u8,
            255
        ]
    );
}

#[test]
fn frames_are_quantised_on_their_own() {
    let mut img = Image::new(2, 2, RED);
    img.set(1, 1, BLUE);
    let q = quantize(&img);
    // Colours in order: blue (0, 0, 255) before red (255, 0, 0).
    assert_eq!(q.palette, vec![0, 0, 255, 255, 0, 0]);
    assert_eq!(q.indices, vec![1, 1, 1, 0]);
    assert_eq!(q.transparent, None);
    // A transparent frame is flattened first, so nothing stays transparent.
    let clear = quantize(&Image::new(1, 1, CLEAR));
    assert_eq!(clear.palette, vec![26, 27, 38]);
    assert_eq!(clear.transparent, None);
}

#[test]
fn the_first_frame_sets_the_canvas() {
    assert_eq!(canvas_size(&[]), None);
    let frames = vec![Image::new(3, 2, RED), Image::new(3, 2, BLUE)];
    assert_eq!(canvas_size(&frames), Some((3, 2)));
    assert!(same_size(&frames));
    let odd = vec![Image::new(3, 2, RED), Image::new(2, 3, BLUE)];
    assert!(!same_size(&odd));
}
