//! Whole renderings: a camera and a light round the random numbers and the
//! z-buffer of the library.

use solid_diff::iso::{Image, BASE_COLOR};
use solid_diff::mesh::Mesh;
use solid_diff::sheet::with_thousands;
use solid_diff::splat::{pick_triangle, sample_count, Canvas, Rng};

type P3 = [f64; 3];

fn p3(b: [u64; 3]) -> P3 {
    b.map(f64::from_bits)
}

fn bits(xs: &[f64]) -> Vec<u64> {
    xs.iter().map(|x| x.to_bits()).collect()
}

fn sub(a: P3, b: P3) -> P3 {
    [a[0] - b[0], a[1] - b[1], a[2] - b[2]]
}

fn dot(a: P3, b: P3) -> f64 {
    a[0] * b[0] + a[1] * b[1] + a[2] * b[2]
}

fn cross(a: P3, b: P3) -> P3 {
    [
        a[1] * b[2] - a[2] * b[1],
        a[2] * b[0] - a[0] * b[2],
        a[0] * b[1] - a[1] * b[0],
    ]
}

fn norm(a: P3) -> f64 {
    dot(a, a).sqrt()
}

fn corners(mesh: &Mesh, t: &[u32; 3]) -> [P3; 3] {
    t.map(|i| p3(mesh.vertices[i as usize]))
}

fn bounds(mesh: &Mesh) -> (P3, P3) {
    let mut lo = [f64::INFINITY; 3];
    let mut hi = [f64::NEG_INFINITY; 3];
    for v in &mesh.vertices {
        let v = p3(*v);
        for i in 0..3 {
            lo[i] = lo[i].min(v[i]);
            hi[i] = hi[i].max(v[i]);
        }
    }
    (lo, hi)
}

#[derive(Clone)]
struct IsoOptions {
    /// Azimuth in degrees (rotation about the vertical axis).
    az: f64,
    /// Elevation in degrees.
    el: f64,
    /// Sample count; `None` picks one from the pixel and triangle counts.
    samples: Option<usize>,
    size: u32,
    /// Fraction of the image left empty around the part.
    margin: f64,
    base_color: [u8; 3],
    /// Use each face's own colour (from the file) instead of `base_color`.
    face_colors: bool,
    /// Override the fitted bounding box, so that several renders keep to one
    /// scale.
    frame: Option<(P3, P3)>,
}

impl Default for IsoOptions {
    fn default() -> Self {
        IsoOptions {
            az: -35.0,
            el: 25.0,
            samples: None,
            size: 1000,
            margin: 0.06,
            base_color: BASE_COLOR,
            face_colors: false,
            frame: None,
        }
    }
}

/// Camera rotation: azimuth about Z, then elevation, with the model's Z mapped
/// to the view's Y so parts stand upright.
fn camera(az_deg: f64, el_deg: f64) -> [P3; 3] {
    let (a, e) = (az_deg.to_radians(), el_deg.to_radians());
    let (ca, sa, ce, se) = (a.cos(), a.sin(), e.cos(), e.sin());
    [
        [ca, sa, 0.0],
        [-se * sa, se * ca, ce],
        [ce * sa, -ce * ca, se],
    ]
}

fn apply(m: &[P3; 3], v: P3) -> P3 {
    [dot(m[0], v), dot(m[1], v), dot(m[2], v)]
}

/// A number in the unit interval.
fn draw(rng: &mut Rng) -> f64 {
    rng.next_u32() as f64 / u32::MAX as f64
}

/// Render a mesh in the isometric point-splat style onto a transparent image.
fn render_iso(mesh: &Mesh, opts: &IsoOptions) -> Image {
    render_iso_scaled(mesh, opts).0
}

/// As [`render_iso`], also returning the projection scale in pixels per model
/// unit -- what a scale bar needs.
fn render_iso_scaled(mesh: &Mesh, opts: &IsoOptions) -> (Image, f64) {
    let size = opts.size.max(16) as usize;
    assert!(size <= 1 << 24, "image too large");
    let mut canvas = Canvas::new(size);

    // Per-triangle unit normal and area (the sampling weight).
    let n_tri = mesh.triangles.len();
    let mut normals = Vec::with_capacity(n_tri);
    let mut cum = Vec::with_capacity(n_tri + 1);
    let mut total = 0.0f64;
    cum.push(0.0);
    for t in &mesh.triangles {
        let [a, b, c] = corners(mesh, t);
        let fnv = cross(sub(b, a), sub(c, a));
        let area = norm(fnv);
        normals.push(if area > 1e-300 {
            [fnv[0] / area, fnv[1] / area, fnv[2] / area]
        } else {
            [0.0, 0.0, 1.0]
        });
        total += area * 0.5;
        cum.push(total);
    }
    if n_tri == 0 || total <= 0.0 {
        return (canvas.img, 1.0);
    }
    assert!(total.is_finite(), "a triangle without a finite area");
    let cum = bits(&cum);

    let rc = camera(opts.az, opts.el);
    let (lo, hi) = opts.frame.unwrap_or_else(|| bounds(mesh));
    let centre = [
        (lo[0] + hi[0]) / 2.0,
        (lo[1] + hi[1]) / 2.0,
        (lo[2] + hi[2]) / 2.0,
    ];
    let margin = opts.margin.clamp(0.0, 0.45);
    let usable = size as f64 * (1.0 - 2.0 * margin);
    let (px_per_unit, cx, cy) = if opts.frame.is_some() {
        // A caller that supplied a frame wants successive renders to line up,
        // and a silhouette fit cannot do that: a shape's projected width
        // changes as it turns. Fit the bounding sphere of the frame instead --
        // its radius is the same from every direction.
        let r = (0..3)
            .map(|i| (hi[i] - lo[i]) * 0.5)
            .fold(0.0f64, |a, b| a + b * b)
            .sqrt()
            .max(1e-30);
        (usable / (2.0 * r), 0.0, 0.0)
    } else {
        // Fit the projected silhouette: a shape can be much wider on screen
        // than along any one axis.
        let (mut xmin, mut xmax) = (f64::INFINITY, f64::NEG_INFINITY);
        let (mut ymin, mut ymax) = (f64::INFINITY, f64::NEG_INFINITY);
        for v in &mesh.vertices {
            let p = apply(&rc, sub(p3(*v), centre));
            xmin = xmin.min(p[0]);
            xmax = xmax.max(p[0]);
            ymin = ymin.min(p[1]);
            ymax = ymax.max(p[1]);
        }
        let extent = (xmax - xmin).max(ymax - ymin).max(1e-30);
        (usable / extent, (xmin + xmax) / 2.0, (ymin + ymax) / 2.0)
    };
    let light = {
        let l = [-0.4, 0.55, 0.8];
        let n = norm(l);
        [l[0] / n, l[1] / n, l[2] / n]
    };

    let n_samples = opts.samples.unwrap_or_else(|| sample_count(size, n_tri));
    let mut rng = Rng::new(0x5EED);
    let half = size as f64 / 2.0;
    for _ in 0..n_samples {
        // Pick a triangle with probability proportional to its area.
        let target = draw(&mut rng) * total;
        let ti = pick_triangle(&cum, target.to_bits());
        // Uniform point in the triangle (fold the unit square onto it).
        let (mut u, mut v) = (draw(&mut rng), draw(&mut rng));
        if u + v > 1.0 {
            u = 1.0 - u;
            v = 1.0 - v;
        }
        let [a, b, c] = corners(mesh, &mesh.triangles[ti]);
        let p = [
            a[0] + u * (b[0] - a[0]) + v * (c[0] - a[0]) - centre[0],
            a[1] + u * (b[1] - a[1]) + v * (c[1] - a[1]) - centre[1],
            a[2] + u * (b[2] - a[2]) + v * (c[2] - a[2]) - centre[2],
        ];
        let sv = apply(&rc, p);
        let x = ((sv[0] - cx) * px_per_unit + half) as isize;
        let y = (-(sv[1] - cy) * px_per_unit + half) as isize;
        let nv = apply(&rc, normals[ti]);
        // Two-sided Lambert: back faces of an open shell light like front ones.
        let inten = 0.22 + 0.78 * dot(nv, light).abs().clamp(0.0, 1.0);
        let own = mesh.colors.get(&mesh.face_ids[ti]);
        let rgb = match own {
            Some(c) if opts.face_colors => p3(*c).map(|c| (c * 255.0) as u8),
            _ => opts.base_color,
        };
        let lit = rgb.map(|c| (c as f64 * inten).clamp(0.0, 255.0) as u8);
        canvas.splat(x, y, sv[2].to_bits(), [lit[0], lit[1], lit[2], 255]);
    }
    (canvas.img, px_per_unit)
}

/// Round to 1, 2 or 5 times a power of ten -- a readable scale-bar length.
fn nice_number(x: f64) -> f64 {
    if x <= 0.0 || !x.is_finite() {
        return 1.0;
    }
    let e = x.log10().floor();
    let f = x / 10f64.powf(e);
    let m = if f >= 5.0 {
        5.0
    } else if f >= 2.0 {
        2.0
    } else {
        1.0
    };
    m * 10f64.powf(e)
}

/// Format a length in metres with a sensible unit.
fn fmt_len(m: f64) -> String {
    let mm = m * 1000.0;
    if mm < 10.0 {
        format!("{mm:.1} mm")
    } else if mm < 1000.0 {
        format!("{:.1} cm", mm / 10.0)
    } else {
        format!("{:.2} m", mm / 1000.0)
    }
}

fn unit_cube() -> Mesh {
    let mut m = Mesh {
        vertices: [
            [0.0, 0.0, 0.0],
            [1.0, 0.0, 0.0],
            [1.0, 1.0, 0.0],
            [0.0, 1.0, 0.0],
            [0.0, 0.0, 1.0],
            [1.0, 0.0, 1.0],
            [1.0, 1.0, 1.0],
            [0.0, 1.0, 1.0],
        ]
        .iter()
        .map(|v: &P3| v.map(f64::to_bits))
        .collect(),
        ..Default::default()
    };
    let faces = [
        [0, 2, 1],
        [0, 3, 2],
        [4, 5, 6],
        [4, 6, 7],
        [0, 1, 5],
        [0, 5, 4],
        [2, 3, 7],
        [2, 7, 6],
        [1, 2, 6],
        [1, 6, 5],
        [0, 4, 7],
        [0, 7, 3],
    ];
    for f in faces {
        m.triangles.push([f[0], f[1], f[2]]);
        m.face_ids.push(1);
    }
    m
}

#[test]
fn renders_a_solid_silhouette_on_transparent_background() {
    let m = unit_cube();
    let img = render_iso(
        &m,
        &IsoOptions {
            size: 120,
            ..Default::default()
        },
    );
    assert_eq!(img.w, 120);
    let opaque = img.px.chunks(4).filter(|p| p[3] == 255).count();
    let total = img.w * img.h;
    // A cube's isometric silhouette is a hexagon: it should fill a good
    // part of the frame, but nothing like all of it (which would mean the
    // fit had let the geometry spill past the edges).
    assert!(
        opaque > total / 5 && opaque < total * 3 / 4,
        "coverage {opaque}/{total}"
    );
    // Corners stay transparent.
    for (x, y) in [(0, 0), (119, 0), (0, 119), (119, 119)] {
        let i = (y * img.w + x) * 4;
        assert_eq!(img.px[i + 3], 0, "corner ({x},{y}) should be clear");
    }
}

#[test]
fn shading_is_two_sided_and_within_range() {
    // Every painted pixel must be the base hue scaled into [0.22, 1.0].
    let img = render_iso(
        &unit_cube(),
        &IsoOptions {
            size: 80,
            ..Default::default()
        },
    );
    let mut seen_dark = false;
    let mut seen_light = false;
    for p in img.px.chunks(4).filter(|p| p[3] == 255) {
        let ratio = p[2] as f64 / BASE_COLOR[2] as f64;
        assert!(
            (0.20..=1.01).contains(&ratio),
            "intensity {ratio} out of range"
        );
        // hue preserved: channels stay in the base ratio
        let r_exp = (BASE_COLOR[0] as f64 * ratio).round();
        assert!((p[0] as f64 - r_exp).abs() <= 2.0);
        if ratio < 0.6 {
            seen_dark = true;
        }
        if ratio > 0.8 {
            seen_light = true;
        }
    }
    assert!(seen_dark && seen_light, "expected a range of face shades");
}

#[test]
fn z_buffer_keeps_the_near_face() {
    // Two parallel plates; the near one is coloured, and with face_colors
    // on, the visible pixels must all come from it.
    let mut m = Mesh::default();
    for (i, z) in [0.0f64, 1.0].iter().enumerate() {
        let b = m.vertices.len() as u32;
        m.vertices.push([-1.0, -1.0, *z].map(f64::to_bits));
        m.vertices.push([1.0, -1.0, *z].map(f64::to_bits));
        m.vertices.push([1.0, 1.0, *z].map(f64::to_bits));
        m.vertices.push([-1.0, 1.0, *z].map(f64::to_bits));
        m.triangles.push([b, b + 1, b + 2]);
        m.triangles.push([b, b + 2, b + 3]);
        m.face_ids.push(i as i16);
        m.face_ids.push(i as i16);
    }
    m.colors.insert(0, [1.0f64, 0.0, 0.0].map(f64::to_bits)); // far plate, z = 0
    m.colors.insert(1, [0.0f64, 1.0, 0.0].map(f64::to_bits)); // near plate, z = 1
    let img = render_iso(
        &m,
        &IsoOptions {
            az: 0.0,
            el: 90.0, // look straight down the model's +Z
            size: 64,
            face_colors: true,
            ..Default::default()
        },
    );
    let (mut red, mut green) = (0, 0);
    for p in img.px.chunks(4).filter(|p| p[3] == 255) {
        if p[0] > p[1] {
            red += 1;
        } else if p[1] > p[0] {
            green += 1;
        }
    }
    assert!(green > 0, "near plate should be visible");
    // The 2x2 splat spreads a pixel past each silhouette edge, so the far
    // plate can fringe the outline; it must not show through the interior.
    assert!(
        red * 50 < green,
        "far plate should be occluded except for splat fringe (red {red}, green {green})"
    );
}

#[test]
fn nice_numbers_and_length_formatting() {
    assert_eq!(nice_number(0.0123), 0.01);
    assert_eq!(nice_number(0.027), 0.02);
    assert_eq!(nice_number(0.06), 0.05);
    assert_eq!(fmt_len(0.005), "5.0 mm");
    assert_eq!(fmt_len(0.05), "5.0 cm");
    assert_eq!(fmt_len(2.0), "2.00 m");
    assert_eq!(with_thousands(1234567), "1,234,567");
}
