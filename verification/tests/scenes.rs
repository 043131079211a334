//! Whole scenes: a camera and lights round the paint order, the feature edges
//! and the fragments of the library. All meshes here are built by hand.

use std::collections::HashMap;

use solid_diff::bsp::{traverse_bsp, Builder, Poly, Sign};
use solid_diff::mesh::Mesh;
use solid_diff::render::{
    base_color, depth_order, feature_edges, meeting_triangles, uses_bsp, Bend, Order, SvgPoint,
    SvgStyle,
};
use solid_diff::value::NodeId;

type P3 = [f64; 3];

fn p3(b: [u64; 3]) -> P3 {
    b.map(f64::from_bits)
}

fn bits(xs: &[f64]) -> Vec<u64> {
    xs.iter().map(|x| x.to_bits()).collect()
}

fn sub(a: P3, b: P3) -> P3 {
    [a[0] - b[0], a[1] - b[1], a[2] - b[2]]
}

fn dot(a: P3, b: P3) -> f64 {
    a[0] * b[0] + a[1] * b[1] + a[2] * b[2]
}

fn cross(a: P3, b: P3) -> P3 {
    [
        a[1] * b[2] - a[2] * b[1],
        a[2] * b[0] - a[0] * b[2],
        a[0] * b[1] - a[1] * b[0],
    ]
}

fn norm(a: P3) -> f64 {
    dot(a, a).sqrt()
}

fn unit(a: P3) -> P3 {
    let n = norm(a);
    [a[0] / n, a[1] / n, a[2] / n]
}

fn corners(mesh: &Mesh, t: &[u32; 3]) -> [P3; 3] {
    t.map(|i| p3(mesh.vertices[i as usize]))
}

const KEY_LIGHT: P3 = [0.45, 0.5, 0.75];
const FILL_LIGHT: P3 = [-0.6, -0.2, 0.35];
const FEATURE_ANGLE_DEG: f64 = 28.0;
/// Interior tint mixed into back faces.
const INTERIOR_TINT: [f64; 3] = [0.25, 0.10, 0.30];

#[derive(Clone)]
struct RenderOptions {
    alpha: f64,
    elev: f64,
    azim: f64,
    /// Perspective field of view in degrees; `None` for orthographic.
    fov: Option<f64>,
    size: f64,
    title: Option<String>,
    order: Order,
    edges: bool,
    /// Per-face colour override, keyed by FACE node id (the diff hook).
    color_map: HashMap<NodeId, [u64; 3]>,
}

impl Default for RenderOptions {
    fn default() -> Self {
        RenderOptions {
            alpha: 0.55,
            elev: 28.0,
            azim: -55.0,
            fov: None,
            size: 520.0,
            title: None,
            order: Order::Auto,
            edges: true,
            color_map: HashMap::new(),
        }
    }
}

/// View matrix whose rows are the camera's right/up/forward axes in world
/// space. Camera space is x right, y up, z *away from the eye* (into the
/// scene), so larger z means farther away.
fn view_matrix(elev_deg: f64, azim_deg: f64) -> [P3; 3] {
    let (e, a) = (elev_deg.to_radians(), azim_deg.to_radians());
    let fwd = [-(e.cos() * a.cos()), -(e.cos() * a.sin()), -e.sin()];
    let mut right = cross(fwd, [0.0, 0.0, 1.0]);
    if norm(right) < 1e-9 {
        right = [1.0, 0.0, 0.0];
    }
    right = unit(right);
    let up = cross(right, fwd);
    [right, up, fwd]
}

fn apply(m: &[P3; 3], v: P3) -> P3 {
    [dot(m[0], v), dot(m[1], v), dot(m[2], v)]
}

/// What a polygon is shaded by; fragments of it share it.
struct Facet {
    /// Unit normal from the camera-space cross product. The camera basis is
    /// left-handed, so this is the *negated* rotated world normal: it points
    /// towards the eye when `normal[2] > 0`.
    normal: P3,
    /// Base rgb.
    color: [f64; 3],
}

/// Polygons over camera-space points.
struct Scene {
    points: Vec<P3>,
    facets: Vec<Facet>,
    polys: Vec<Poly>,
}

impl Scene {
    fn mean_z(&self, p: &Poly) -> f64 {
        p.pts.iter().map(|i| self.points[*i as usize][2]).sum::<f64>() / p.pts.len() as f64
    }
}

/// Per-triangle pairs of corners lying on sharp or open edges.
fn marks(mesh: &Mesh) -> Vec<Vec<(usize, usize)>> {
    let normals: Vec<P3> = mesh
        .triangles
        .iter()
        .map(|t| {
            let [a, b, c] = corners(mesh, t);
            let n = cross(sub(b, a), sub(c, a));
            let l = norm(n).max(1e-30);
            [n[0] / l, n[1] / l, n[2] / l]
        })
        .collect();
    let cos_lim = FEATURE_ANGLE_DEG.to_radians().cos();
    let bends: Vec<Bend> = meeting_triangles(&mesh.triangles)
        .into_iter()
        .map(|met| match met {
            Some((t0, t1)) => {
                let c = dot(normals[t0], normals[t1]);
                if c < cos_lim {
                    Bend::Sharp
                } else if c < 0.9995 {
                    Bend::Slight
                } else {
                    Bend::Flat
                }
            }
            None => Bend::Flat,
        })
        .collect();
    feature_edges(&mesh.triangles, &mesh.face_ids, &bends)
}

/// One polygon per non-degenerate triangle, over the camera-space vertices.
fn build_scene(mesh: &Mesh, opts: &RenderOptions) -> Scene {
    let m = view_matrix(opts.elev, opts.azim);
    let points: Vec<P3> = mesh.vertices.iter().map(|v| apply(&m, p3(*v))).collect();
    let mut marks = if opts.edges {
        marks(mesh)
    } else {
        vec![Vec::new(); mesh.triangles.len()]
    };
    let mut facets = Vec::new();
    let mut polys = Vec::new();
    for (ti, tri) in mesh.triangles.iter().enumerate() {
        let [a, b, c] = tri.map(|i| points[i as usize]);
        let nrm = cross(sub(b, a), sub(c, a));
        let ln = norm(nrm);
        if ln < 1e-30 {
            continue;
        }
        polys.push(Poly {
            pts: tri.to_vec(),
            source: facets.len(),
            edges: std::mem::take(&mut marks[ti]),
        });
        facets.push(Facet {
            normal: [nrm[0] / ln, nrm[1] / ln, nrm[2] / ln],
            color: p3(base_color(&opts.color_map, &mesh.colors, mesh.face_ids[ti])),
        });
    }
    Scene {
        points,
        facets,
        polys,
    }
}

/// Side of the plane `pn.x = pd` on which each point of a polygon lies, and
/// where its edges cross the plane.
fn sides(points: &mut Vec<P3>, poly: &Poly, pn: P3, pd: f64, eps: f64) -> (Vec<Sign>, Vec<u32>) {
    let at: Vec<P3> = poly.pts.iter().map(|i| points[*i as usize]).collect();
    let d: Vec<f64> = at.iter().map(|p| dot(*p, pn) - pd).collect();
    let signs: Vec<Sign> = d
        .iter()
        .map(|d| {
            if *d > eps {
                Sign::Front
            } else if *d < -eps {
                Sign::Back
            } else {
                Sign::On
            }
        })
        .collect();
    let n = at.len();
    let mut cuts = vec![0u32; n];
    for i in 0..n {
        let j = (i + 1) % n;
        let (di, dj) = (d[i], d[j]);
        if (di > eps && dj < -eps) || (di < -eps && dj > eps) {
            let t = di / (di - dj);
            let seg = sub(at[j], at[i]);
            cuts[i] = points.len() as u32;
            points.push([
                at[i][0] + t * seg[0],
                at[i][1] + t * seg[1],
                at[i][2] + t * seg[2],
            ]);
        }
    }
    (signs, cuts)
}

/// Exact (BSP) or approximate (centroid depth) back-to-front paint order.
fn order_polys(scene: &mut Scene, vertices: usize, opts: &RenderOptions) -> Vec<Poly> {
    // scene scale: max |coordinate - mean| over all vertices and axes
    let n = vertices as f64;
    let mut mean = [0.0f64; 3];
    for p in &scene.points[..vertices] {
        for k in 0..3 {
            mean[k] += p[k] / n;
        }
    }
    let mut scene_scale = 0.0f64;
    for p in &scene.points[..vertices] {
        for k in 0..3 {
            scene_scale = scene_scale.max((p[k] - mean[k]).abs());
        }
    }
    if scene_scale == 0.0 {
        scene_scale = 1.0;
    }

    let polys = std::mem::take(&mut scene.polys);
    if !uses_bsp(opts.order, polys.len()) {
        let depths: Vec<f64> = polys
            .iter()
            .map(|p| scene.mean_z(p))
            .map(|z| if z.is_nan() { 0.0 } else { z })
            .collect();
        return depth_order(&bits(&depths))
            .into_iter()
            .map(|i| polys[i].clone())
            .collect();
    }
    let eps = 1e-9 * scene_scale;
    let mut normals: Vec<P3> = Vec::new();
    let mut builder = Builder::new(polys);
    while let Some(task) = builder.take() {
        let pn = scene.facets[task.splitter.source].normal;
        let pd = dot(pn, scene.points[task.splitter.pts[0] as usize]);
        if normals.len() <= task.node {
            normals.resize(task.node + 1, [0.0, 0.0, 1.0]);
        }
        normals[task.node] = pn;
        let (signs, cuts): (Vec<Vec<Sign>>, Vec<Vec<u32>>) = task
            .others
            .iter()
            .map(|p| sides(&mut scene.points, p, pn, pd, eps))
            .unzip();
        builder.give(task, &signs, &cuts);
    }
    normals.resize(builder.nodes.len(), [0.0, 0.0, 1.0]);
    // The eye looks along +z: it lies in the halfspace the normal points into
    // when the normal has a negative z.
    let toward: Vec<bool> = normals.iter().map(|n| n[2] < 0.0).collect();
    traverse_bsp(&builder.nodes, &toward)
}

/// A number that always shows a fraction (`1.0` stays `1.0`).
fn fraction(x: f64) -> String {
    if x.fract() == 0.0 && x.abs() < 1e15 {
        format!("{x:.1}")
    } else {
        format!("{x}")
    }
}

/// The eye and the reference distance of a perspective view.
fn perspective(points: &[P3], fov: Option<f64>) -> Option<(f64, f64)> {
    let f = fov.filter(|f| *f != 0.0 && f.is_finite())?;
    let mut lo = [f64::INFINITY; 2];
    let mut hi = [f64::NEG_INFINITY; 2];
    let mut zmin = f64::INFINITY;
    let mut zsum = 0.0;
    for p in points {
        for k in 0..2 {
            lo[k] = lo[k].min(p[k]);
            hi[k] = hi[k].max(p[k]);
        }
        zmin = zmin.min(p[2]);
        zsum += p[2];
    }
    let span = (hi[0] - lo[0]).max(hi[1] - lo[1]);
    let eye_z = zmin - span / (2.0 * (f.to_radians() / 2.0).tan());
    let refd = 1.0 / (zsum / points.len() as f64 - eye_z);
    Some((eye_z, refd))
}

/// Shaded colour of a facet, under lights given in camera space.
fn shade(facet: &Facet, key: P3, fill: P3) -> [i32; 3] {
    // A face pointing at the eye has normal[2] > 0 in this left-handed frame,
    // and with nl oriented towards the eye `-nl.key` is exactly the diffuse
    // term `n_world.key_world`.
    let facing = facet.normal[2] > 0.0;
    let nl = if facing {
        facet.normal
    } else {
        [-facet.normal[0], -facet.normal[1], -facet.normal[2]]
    };
    let shade = 0.30 + 0.55 * (-dot(nl, key)).max(0.0) + 0.15 * (-dot(nl, fill)).max(0.0);
    let mut rgb = facet.color.map(|c| c * shade);
    if !facing {
        for k in 0..3 {
            rgb[k] = rgb[k] * 0.55 + INTERIOR_TINT[k] * 0.45;
        }
    }
    rgb.map(|c| ((255.0 * c.min(1.0)) as i32).clamp(0, 255))
}

/// Render one mesh to an SVG `<g>` fragment of `size`x`size` px.
fn render_mesh_svg(mesh: &Mesh, opts: &RenderOptions) -> String {
    let size = opts.size;
    let stroke_alpha = (opts.alpha + 0.25).min(1.0);
    let style = SvgStyle {
        title_x: format!("{:.0}", size / 2.0),
        fill: fraction(opts.alpha),
        outline: format!("{:.2}", opts.alpha * 0.25),
        feature: format!("{:.2}", stroke_alpha * 0.55),
    };
    let mut scene = build_scene(mesh, opts);
    let vertices = scene.points.len();
    let ordered = if scene.polys.is_empty() {
        Vec::new()
    } else {
        order_polys(&mut scene, vertices, opts)
    };

    let eye = perspective(&scene.points[..vertices], opts.fov);
    let project = |p: P3| -> [f64; 2] {
        match eye {
            Some((eye_z, refd)) => {
                let s = (1.0 / (p[2] - eye_z)) / refd;
                [p[0] * s, p[1] * s]
            }
            None => [p[0], p[1]],
        }
    };
    let flat: Vec<Vec<[f64; 2]>> = ordered
        .iter()
        .map(|p| {
            p.pts
                .iter()
                .map(|i| project(scene.points[*i as usize]))
                .collect()
        })
        .collect();

    // fit to the cell
    let mut lo = [f64::INFINITY; 2];
    let mut hi = [f64::NEG_INFINITY; 2];
    for q in flat.iter().flatten() {
        for k in 0..2 {
            lo[k] = lo[k].min(q[k]);
            hi[k] = hi[k].max(q[k]);
        }
    }
    let mut span = (hi[0] - lo[0]).max(hi[1] - lo[1]);
    if span == 0.0 {
        span = 1.0;
    }
    let pad = 0.06 * span;
    let scale = size / (span + 2.0 * pad);
    let off_x = pad + (span - (hi[0] - lo[0])) / 2.0;
    let off_y = pad + (span - (hi[1] - lo[1])) / 2.0;

    // lights, in camera space
    let m = view_matrix(opts.elev, opts.azim);
    let key = apply(&m, unit(KEY_LIGHT));
    let fill = apply(&m, unit(FILL_LIGHT));

    let polys: Vec<solid_diff::render::SvgPoly> = ordered
        .into_iter()
        .zip(&flat)
        .map(|(p, q)| solid_diff::render::SvgPoly {
            points: q
                .iter()
                .map(|q| SvgPoint {
                    x: format!("{:.1}", (q[0] - lo[0] + off_x) * scale),
                    y: format!("{:.1}", size - (q[1] - lo[1] + off_y) * scale),
                })
                .collect(),
            rgb: shade(&scene.facets[p.source], key, fill),
            edges: p.edges,
        })
        .collect();
    solid_diff::render::render_mesh_svg(
        opts.title.as_deref(),
        mesh.triangles.len(),
        &polys,
        &style,
    )
}

/// Mean camera-space depth of each fragment, in paint order.
fn paint_order_depths(mesh: &Mesh, opts: &RenderOptions) -> Vec<f64> {
    let mut scene = build_scene(mesh, opts);
    let vertices = scene.points.len();
    let ordered = order_polys(&mut scene, vertices, opts);
    ordered.iter().map(|p| scene.mean_z(p)).collect()
}

fn mesh_of(
    vertices: &[[f64; 3]],
    triangles: &[[u32; 3]],
    face_ids: &[NodeId],
    colors: &[(NodeId, [f64; 3])],
) -> Mesh {
    Mesh {
        vertices: vertices.iter().map(|v| v.map(f64::to_bits)).collect(),
        triangles: triangles.to_vec(),
        face_ids: face_ids.to_vec(),
        colors: colors.iter().map(|(f, c)| (*f, c.map(f64::to_bits))).collect(),
        warnings: Vec::new(),
    }
}

#[derive(Debug)]
struct SvgPoly {
    pts: Vec<(f64, f64)>,
    fill: (i32, i32, i32),
}

impl SvgPoly {
    fn min_x(&self) -> f64 {
        self.pts.iter().fold(f64::INFINITY, |a, p| a.min(p.0))
    }
    fn max_x(&self) -> f64 {
        self.pts.iter().fold(f64::NEG_INFINITY, |a, p| a.max(p.0))
    }
    /// Which channel is the largest -- a cheap colour identity for the tests.
    fn dominant(&self) -> usize {
        let c = [self.fill.0, self.fill.1, self.fill.2];
        (0..3).max_by_key(|&i| c[i]).unwrap()
    }
}

fn attr<'a>(tag: &'a str, name: &str) -> &'a str {
    let key = format!("{name}=\"");
    let i = tag
        .find(&key)
        .unwrap_or_else(|| panic!("attribute {name} missing in {tag}"))
        + key.len();
    let rest = &tag[i..];
    &rest[..rest.find('"').unwrap()]
}

/// Every `<polygon>` in document (= paint) order.
fn polys_of(svg: &str) -> Vec<SvgPoly> {
    svg.split("<polygon ")
        .skip(1)
        .map(|chunk| {
            let tag = &chunk[..chunk.find("/>").unwrap()];
            let pts = attr(tag, "points")
                .split_whitespace()
                .map(|p| {
                    let (x, y) = p.split_once(',').unwrap();
                    (x.parse::<f64>().unwrap(), y.parse::<f64>().unwrap())
                })
                .collect();
            let rgb = attr(tag, "fill");
            let inner = rgb.trim_start_matches("rgb(").trim_end_matches(')');
            let v: Vec<i32> = inner.split(',').map(|c| c.parse().unwrap()).collect();
            SvgPoly {
                pts,
                fill: (v[0], v[1], v[2]),
            }
        })
        .collect()
}

fn count(svg: &str, needle: &str) -> usize {
    svg.matches(needle).count()
}

/// Axis-aligned unit cube centred on the origin: 12 triangles, 6 face ids.
fn cube() -> Mesh {
    let v = [
        [-0.5, -0.5, -0.5],
        [0.5, -0.5, -0.5],
        [0.5, 0.5, -0.5],
        [-0.5, 0.5, -0.5],
        [-0.5, -0.5, 0.5],
        [0.5, -0.5, 0.5],
        [0.5, 0.5, 0.5],
        [-0.5, 0.5, 0.5],
    ];
    let t = [
        [0, 3, 2],
        [0, 2, 1], // -z
        [4, 5, 6],
        [4, 6, 7], // +z
        [0, 1, 5],
        [0, 5, 4], // -y
        [2, 3, 7],
        [2, 7, 6], // +y
        [0, 4, 7],
        [0, 7, 3], // -x
        [1, 2, 6],
        [1, 6, 5], // +x
    ];
    let ids: Vec<NodeId> = (0..6).flat_map(|f| [f, f]).collect();
    mesh_of(&v, &t, &ids, &[(0, [1.0, 0.2, 0.2]), (3, [0.2, 1.0, 0.2])])
}

// ---- basics ----

#[test]
fn cube_emits_one_polygon_per_triangle_and_all_sharp_edges() {
    let opts = RenderOptions {
        title: Some("cube".into()),
        ..Default::default()
    };
    let svg = render_mesh_svg(&cube(), &opts);
    let polys = polys_of(&svg);
    // A cube's triangles never straddle a cube-face plane, so the BSP splits
    // nothing: 12 in, 12 out.
    assert_eq!(polys.len(), 12, "{svg}");
    // 12 cube edges are 90-degree dihedrals (sharp), each marked on both of
    // its triangles; the 6 face diagonals are coplanar and same-face, so not.
    assert_eq!(count(&svg, "<line "), 24);
    assert!(svg.starts_with("<g>") && svg.ends_with("</g>"));
    assert!(svg.contains(">cube</text>") && svg.contains("#c0caf5"));
    assert!(!svg.contains("<rect"), "no background rect on dark pages");

    // Everything lands inside the cell, and the fit touches the 6% padding on
    // the longer axis (the shorter one is centred).
    let size = opts.size;
    let mut lo = [f64::INFINITY; 2];
    let mut hi = [f64::NEG_INFINITY; 2];
    for p in &polys {
        for (x, y) in &p.pts {
            assert!(*x >= -0.1 && *x <= size + 0.1, "x out of cell: {x}");
            assert!(*y >= -0.1 && *y <= size + 0.1, "y out of cell: {y}");
            for (k, c) in [*x, *y].iter().enumerate() {
                lo[k] = lo[k].min(*c);
                hi[k] = hi[k].max(*c);
            }
        }
    }
    let pad_px = size * 0.06 / 1.12;
    let long = (hi[0] - lo[0]).max(hi[1] - lo[1]);
    assert!(
        (long - (size - 2.0 * pad_px)).abs() < 0.3,
        "long axis {long} should fill the cell minus 2x{pad_px}"
    );
    for k in 0..2 {
        assert!(lo[k] >= pad_px - 0.2 && hi[k] <= size - pad_px + 0.2);
        // centred: equal slack either side
        assert!(((lo[k] - 0.0) - (size - hi[k])).abs() < 0.3, "axis {k} not centred");
    }
}

#[test]
fn cube_paints_back_faces_before_front_faces() {
    let opts = RenderOptions::default();
    let d = paint_order_depths(&cube(), &opts);
    assert_eq!(d.len(), 12);
    // Camera z grows away from the eye: the 6 far triangles come first.
    let far_min = d[..6].iter().cloned().fold(f64::INFINITY, f64::min);
    let near_max = d[6..].iter().cloned().fold(f64::NEG_INFINITY, f64::max);
    assert!(far_min > 0.0 && near_max < 0.0, "paint order depths: {d:?}");
}

#[test]
fn colors_come_from_map_then_mesh_then_default() {
    // Face 0 is red in the mesh, face 3 green, faces 1/2/4/5 default blue.
    let plain = polys_of(&render_mesh_svg(&cube(), &RenderOptions::default()));
    let doms: Vec<usize> = plain.iter().map(|p| p.dominant()).collect();
    assert_eq!(doms.iter().filter(|d| **d == 0).count(), 2, "red face");
    assert_eq!(doms.iter().filter(|d| **d == 1).count(), 2, "green face");
    assert_eq!(doms.iter().filter(|d| **d == 2).count(), 8, "blue default");

    // The diff hook overrides everything.
    let mut color_map = HashMap::new();
    for f in 0..6 {
        color_map.insert(f as NodeId, [1.0f64, 0.0, 0.0].map(f64::to_bits));
    }
    let over = polys_of(&render_mesh_svg(
        &cube(),
        &RenderOptions {
            color_map,
            ..Default::default()
        },
    ));
    assert!(over.iter().all(|p| p.fill.1 <= p.fill.0 && p.fill.2 <= p.fill.0));
}

#[test]
fn back_faces_get_the_interior_tint_and_front_faces_are_lit() {
    let tri = |flip: bool| {
        mesh_of(
            &[[0.0, 0.0, 0.0], [1.0, 0.0, 0.0], [0.0, 1.0, 0.0]],
            &[if flip { [0, 2, 1] } else { [0, 1, 2] }],
            &[7],
            &[(7, [0.5, 0.5, 0.5])],
        )
    };
    // Camera overhead (elev 90) looking straight down.
    let opts = RenderOptions {
        elev: 90.0,
        azim: 0.0,
        ..Default::default()
    };
    // Winding [0,2,1] -> world normal -z -> points away from the eye: tinted
    // rgb*0.55 + [0.25,0.10,0.30]*0.45, so blue > red > green, and dark.
    let back = polys_of(&render_mesh_svg(&tri(true), &opts))[0].fill;
    assert!(back.2 > back.0 && back.0 > back.1, "tint {back:?}");

    // Winding [0,1,2] -> world normal +z -> faces the eye: grey (untinted) and
    // brighter, because the key light also comes from above.
    let front = polys_of(&render_mesh_svg(&tri(false), &opts))[0].fill;
    assert_eq!(front.0, front.1);
    assert_eq!(front.1, front.2);
    assert!(front.0 > back.0, "lit front {front:?} vs shadowed back {back:?}");
}

// ---- the key ordering proof ----

/// Triangle A pierces triangle B. B lies in the plane of constant depth
/// (world x = 0 with elev=0/azim=0, so camera z = -x), so the BSP must cut A
/// into a far half and a near half and paint them either side of B.
fn piercing_pair() -> Mesh {
    mesh_of(
        &[
            // A: spans x = -1 .. +1, i.e. far .. near
            [-1.0, -1.0, 0.0],
            [1.0, 1.0, 0.0],
            [0.0, 0.0, 1.5],
            // B: flat at x = 0
            [0.0, -1.5, -1.0],
            [0.0, 1.5, -1.0],
            [0.0, 0.0, 1.2],
        ],
        &[[0, 1, 2], [3, 4, 5]],
        &[10, 20],
        &[(10, [1.0, 0.1, 0.1]), (20, [0.1, 1.0, 0.1])],
    )
}

#[test]
fn bsp_splits_piercing_triangles_and_paints_far_fragment_first() {
    let opts = RenderOptions {
        elev: 0.0,
        azim: 0.0,
        order: Order::Bsp,
        edges: false,
        ..Default::default()
    };
    let svg = render_mesh_svg(&piercing_pair(), &opts);
    let polys = polys_of(&svg);
    // 2 triangles in, 3 fragments out: A was split by B's plane.
    assert_eq!(polys.len(), 3, "{svg}");

    // Paint order must be A-far, B, A-near.
    assert_eq!(polys[0].dominant(), 0, "first fragment is A (red)");
    assert_eq!(polys[1].dominant(), 1, "middle is B (green)");
    assert_eq!(polys[2].dominant(), 0, "last fragment is A (red)");

    // A's far half carries the world vertex (-1,-1,0) -> screen left, its near
    // half the vertex (1,1,0) -> screen right. So the far half is painted
    // first: back-to-front, not front-to-back.
    let (far, near) = (&polys[0], &polys[2]);
    assert!(
        far.min_x() < near.min_x() && far.max_x() < near.max_x(),
        "far fragment should be the left (x<0) one: {far:?} {near:?}"
    );
    assert!(far.min_x() < opts.size / 2.0 && near.max_x() > opts.size / 2.0);

    // And the depths agree: strictly decreasing (farthest painted first).
    let d = paint_order_depths(&piercing_pair(), &opts);
    assert_eq!(d.len(), 3);
    assert!(d[0] > d[1] && d[1] > d[2], "depths not back-to-front: {d:?}");
    assert!(d[0] > 0.0 && d[2] < 0.0);
}

#[test]
fn depth_sort_paints_the_far_triangle_first() {
    // Two disjoint triangles: red near the eye (x=+1), green far (x=-1).
    let m = mesh_of(
        &[
            [1.0, 0.0, 0.0],
            [1.0, 1.0, 0.0],
            [1.0, 0.0, 1.0],
            [-1.0, 0.0, 0.0],
            [-1.0, 1.0, 0.0],
            [-1.0, 0.0, 1.0],
        ],
        &[[0, 1, 2], [3, 4, 5]],
        &[1, 2],
        &[(1, [1.0, 0.0, 0.0]), (2, [0.0, 1.0, 0.0])],
    );
    for order in [Order::Depth, Order::Bsp] {
        let opts = RenderOptions {
            elev: 0.0,
            azim: 0.0,
            order,
            edges: false,
            ..Default::default()
        };
        let polys = polys_of(&render_mesh_svg(&m, &opts));
        assert_eq!(polys.len(), 2);
        assert_eq!(polys[0].dominant(), 1, "far (green) first with {order:?}");
        assert_eq!(polys[1].dominant(), 0, "near (red) last with {order:?}");
        let d = paint_order_depths(&m, &opts);
        assert!(d[0] > d[1], "{order:?} depths {d:?}");
    }
}

#[test]
fn bsp_handles_a_deep_chain_without_recursion() {
    // 2000 parallel triangles, ordered so that the median element picked as
    // splitter is always the extreme of what is left: the tree degenerates
    // into a 2000-deep chain. A recursive build or traversal would blow the
    // stack here; the iterative one must not.
    const N: usize = 2000;
    let mut positions: Vec<usize> = (0..N).collect();
    let mut rank_at = vec![0usize; N];
    let mut k = 0;
    while !positions.is_empty() {
        let mid = positions.len() / 2;
        let pos = positions.remove(mid);
        rank_at[pos] = k;
        k += 1;
    }
    let mut v = Vec::new();
    let mut t = Vec::new();
    let mut ids = Vec::new();
    for (i, &rank) in rank_at.iter().enumerate() {
        let x = rank as f64; // depth: camera z = -x, so rank 0 is farthest
        let b = (i * 3) as u32;
        v.push([x, -1.0, -1.0]);
        v.push([x, 1.0, -1.0]);
        v.push([x, 0.0, 1.0]);
        t.push([b, b + 1, b + 2]);
        ids.push((i % 30) as NodeId);
    }
    let m = mesh_of(&v, &t, &ids, &[]);
    let opts = RenderOptions {
        elev: 0.0,
        azim: 0.0,
        order: Order::Bsp,
        edges: false,
        ..Default::default()
    };
    let d = paint_order_depths(&m, &opts);
    assert_eq!(d.len(), N);
    // Exact back-to-front: depths are 0, -1, -2, ... (camera z = -x).
    for (i, z) in d.iter().enumerate() {
        assert!((z + i as f64).abs() < 1e-9, "at {i}: {z}");
    }
}

// ---- feature edges ----

#[test]
fn open_boundary_edges_are_stroked() {
    // Lone triangle: all three edges belong to one triangle only.
    let m = mesh_of(
        &[[0.0, 0.0, 0.0], [1.0, 0.0, 0.0], [0.0, 1.0, 0.0]],
        &[[0, 1, 2]],
        &[1],
        &[],
    );
    let svg = render_mesh_svg(&m, &RenderOptions::default());
    assert_eq!(count(&svg, "<line "), 3, "{svg}");
    assert!(svg.contains("stroke=\"#e8ecff\""));
    assert!(svg.contains("stroke-width=\"0.8\""));

    // Two triangles making a square: the shared diagonal is coplanar and on
    // the same face, so only the 4 boundary edges are stroked.
    let sq = mesh_of(
        &[
            [0.0, 0.0, 0.0],
            [1.0, 0.0, 0.0],
            [1.0, 1.0, 0.0],
            [0.0, 1.0, 0.0],
        ],
        &[[0, 1, 2], [0, 2, 3]],
        &[1, 1],
        &[],
    );
    assert_eq!(count(&render_mesh_svg(&sq, &RenderOptions::default()), "<line "), 4);
}

#[test]
fn coplanar_face_boundaries_and_sharp_dihedrals() {
    // Same geometry, two different FACE ids: coplanar (dot >= 0.9995) so the
    // shared edge stays unmarked -> still just the 4 open edges.
    let flat = mesh_of(
        &[
            [0.0, 0.0, 0.0],
            [1.0, 0.0, 0.0],
            [1.0, 1.0, 0.0],
            [0.0, 1.0, 0.0],
        ],
        &[[0, 1, 2], [0, 2, 3]],
        &[1, 2],
        &[],
    );
    assert_eq!(
        count(&render_mesh_svg(&flat, &RenderOptions::default()), "<line "),
        4
    );

    // Fold the second triangle 90 degrees: the shared edge is now sharp and is
    // stroked once per owning triangle, on top of the 4 open edges.
    let bent = mesh_of(
        &[
            [0.0, 0.0, 0.0],
            [1.0, 0.0, 0.0],
            [1.0, 1.0, 0.0],
            [0.0, 0.0, 1.0],
        ],
        &[[0, 1, 2], [0, 3, 1]],
        &[1, 1],
        &[],
    );
    assert_eq!(
        count(&render_mesh_svg(&bent, &RenderOptions::default()), "<line "),
        6
    );

    // A 10-degree fold is under the 28-degree threshold: not a feature edge.
    let a = 10f64.to_radians();
    let gentle = mesh_of(
        &[
            [0.0, 0.0, 0.0],
            [1.0, 0.0, 0.0],
            [1.0, 1.0, 0.0],
            [0.0, -a.cos(), a.sin()],
        ],
        &[[0, 1, 2], [0, 3, 1]],
        &[1, 1],
        &[],
    );
    assert_eq!(
        count(&render_mesh_svg(&gentle, &RenderOptions::default()), "<line "),
        4
    );

    // edges: false suppresses all of them.
    let svg = render_mesh_svg(
        &cube(),
        &RenderOptions {
            edges: false,
            ..Default::default()
        },
    );
    assert_eq!(count(&svg, "<line "), 0);
}

#[test]
fn feature_edges_survive_bsp_splitting() {
    // The piercing pair with edges on: A and B are both open-boundary
    // triangles, so every surviving edge whose endpoints outlive the split is
    // stroked, and every stroked endpoint must be a vertex of its polygon.
    let opts = RenderOptions {
        elev: 0.0,
        azim: 0.0,
        order: Order::Bsp,
        ..Default::default()
    };
    let svg = render_mesh_svg(&piercing_pair(), &opts);
    assert!(count(&svg, "<line ") >= 5, "{svg}");
    // Group the lines with the polygon they follow and check containment.
    let mut current: Option<Vec<(f64, f64)>> = None;
    for chunk in svg.split('\n') {
        if chunk.starts_with("<polygon ") {
            current = Some(polys_of(chunk).remove(0).pts);
        } else if chunk.starts_with("<line ") {
            let pts = current.as_ref().expect("line before any polygon");
            for (xa, ya) in [("x1", "y1"), ("x2", "y2")] {
                let p = (
                    attr(chunk, xa).parse::<f64>().unwrap(),
                    attr(chunk, ya).parse::<f64>().unwrap(),
                );
                assert!(
                    pts.iter().any(|q| (q.0 - p.0).abs() < 0.11 && (q.1 - p.1).abs() < 0.11),
                    "edge endpoint {p:?} is not a vertex of {pts:?}"
                );
            }
        }
    }
}

// ---- projection, options, document ----

#[test]
fn perspective_differs_from_orthographic() {
    let ortho = render_mesh_svg(&cube(), &RenderOptions::default());
    let persp = render_mesh_svg(
        &cube(),
        &RenderOptions {
            fov: Some(45.0),
            ..Default::default()
        },
    );
    assert_eq!(polys_of(&persp).len(), 12);
    assert_ne!(ortho, persp, "fov should change the projection");
    // Under perspective the near corner projects further out than the far one.
    let p = polys_of(&persp);
    let spread = |v: &[SvgPoly]| {
        v.iter().fold(f64::NEG_INFINITY, |a, q| a.max(q.max_x()))
            - v.iter().fold(f64::INFINITY, |a, q| a.min(q.min_x()))
    };
    assert!(spread(&p) > 0.0);
    // Still fits the cell.
    for q in &p {
        for (x, y) in &q.pts {
            assert!(*x >= -0.1 && *x <= 520.1 && *y >= -0.1 && *y <= 520.1);
        }
    }
}

#[test]
fn alpha_and_size_options() {
    let svg = render_mesh_svg(
        &cube(),
        &RenderOptions {
            alpha: 0.8,
            size: 100.0,
            ..Default::default()
        },
    );
    assert!(svg.contains("fill-opacity=\"0.8\""));
    assert!(svg.contains("stroke-opacity=\"0.20\""), "0.8*0.25");
    // edge strokes: min(1, 0.8+0.25)=1.0 -> 1.0*0.55
    assert!(svg.contains("stroke-opacity=\"0.55\""));
    for p in polys_of(&svg) {
        for (x, y) in p.pts {
            assert!((-0.1..=100.1).contains(&x) && (-0.1..=100.1).contains(&y));
        }
    }
}

#[test]
fn auto_order_falls_back_to_depth_sort_on_big_meshes() {
    // 80x80 grid of quads = 12800 triangles, past the 12000 BSP budget.
    const N: usize = 80;
    let mut v = Vec::new();
    for i in 0..=N {
        for j in 0..=N {
            let (x, y) = (i as f64, j as f64);
            v.push([x, y, ((x * 0.7).sin() + (y * 0.5).cos()) * 2.0]);
        }
    }
    let idx = |i: usize, j: usize| (i * (N + 1) + j) as u32;
    let mut t = Vec::new();
    let mut ids = Vec::new();
    for i in 0..N {
        for j in 0..N {
            t.push([idx(i, j), idx(i + 1, j), idx(i + 1, j + 1)]);
            t.push([idx(i, j), idx(i + 1, j + 1), idx(i, j + 1)]);
            ids.push((i % 17) as NodeId);
            ids.push((i % 17) as NodeId);
        }
    }
    let m = mesh_of(&v, &t, &ids, &[]);
    assert_eq!(m.triangles.len(), 12800);

    let start = std::time::Instant::now();
    let svg = render_mesh_svg(
        &m,
        &RenderOptions {
            edges: false,
            ..Default::default()
        },
    );
    let elapsed = start.elapsed();
    // Depth sort: one polygon per triangle, nothing split.
    assert_eq!(count(&svg, "<polygon "), 12800);
    assert!(elapsed.as_secs() < 20, "auto fallback too slow: {elapsed:?}");

    let d = paint_order_depths(
        &m,
        &RenderOptions {
            edges: false,
            ..Default::default()
        },
    );
    assert_eq!(d.len(), 12800);
    assert!(
        d.windows(2).all(|w| w[0] >= w[1]),
        "depth sort must be back-to-front"
    );
}
