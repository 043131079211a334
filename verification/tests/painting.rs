use std::collections::HashMap;

use solid_diff::bsp::{split_poly, traverse_bsp, BspNode, Builder, Poly, Sign};
use solid_diff::render::{
    base_color, cell_of, default_cols, depth_order, escape_xml, failed_fragment, feature_edges,
    meeting_triangles, page_size, render_mesh_svg, svg_document, uses_bsp, Bend, Order, SvgPoint,
    SvgPoly, SvgStyle, BASE_RGB, BSP_BUDGET,
};

fn at(x: &str, y: &str) -> SvgPoint {
    SvgPoint {
        x: x.to_string(),
        y: y.to_string(),
    }
}

fn style() -> SvgStyle {
    SvgStyle {
        title_x: "260".to_string(),
        fill: "0.55".to_string(),
        outline: "0.2".to_string(),
        feature: "0.9".to_string(),
    }
}

fn count(s: &str, needle: &str) -> usize {
    s.matches(needle).count()
}

#[test]
fn empty_mesh_renders_a_notice() {
    let svg = render_mesh_svg(Some("nothing"), 0, &[], &style());
    assert!(svg.contains("empty mesh: nothing"), "{svg}");
    assert_eq!(count(&svg, "<polygon"), 0);
}

#[test]
fn svg_document_grid_layout() {
    let frags: Vec<String> = (0..3).map(|i| format!("<g>{i}</g>")).collect();
    let doc = svg_document(
        &frags,
        &[at("0", "0"), at("100", "0"), at("0", "100")],
        "200",
        "200",
    );
    assert!(doc.starts_with("<svg xmlns=\"http://www.w3.org/2000/svg\""));
    assert!(doc.contains("width=\"200\" height=\"200\""));
    assert!(doc.contains("viewBox=\"0 0 200 200\""));
    assert!(doc.contains("<g transform=\"translate(0,0)\"><g>0</g></g>"));
    assert!(doc.contains("<g transform=\"translate(100,0)\"><g>1</g></g>"));
    assert!(doc.contains("<g transform=\"translate(0,100)\"><g>2</g></g>"));
    assert!(doc.trim_end().ends_with("</svg>"));
    assert!(!doc.contains("<rect"));
    // Where fragments go.
    assert_eq!(page_size(3, 2), (2, 2));
    assert_eq!(
        (0..3).map(|i| cell_of(i, 2)).collect::<Vec<_>>(),
        vec![(0, 0), (1, 0), (0, 1)]
    );
    // 3 fragments, 4 columns -> one row.
    assert_eq!(page_size(3, 4), (4, 1));
    // Without columns there is one.
    assert_eq!(page_size(3, 0), (1, 3));
    assert_eq!(page_size(0, 4), (4, 0));
    assert_eq!(page_size(usize::MAX, 1), (1, usize::MAX));
    assert_eq!(page_size(usize::MAX, usize::MAX), (usize::MAX, 1));
    assert_eq!(page_size(1, usize::MAX), (usize::MAX, 1));
    assert_eq!(cell_of(2, 0), (0, 2));
}

#[test]
fn polygons_are_painted_in_order_with_their_edges() {
    let poly = |r: i32, edges: Vec<(usize, usize)>| SvgPoly {
        points: vec![at("0.00", "0.00"), at("1.00", "0.00"), at("0.00", "1.00")],
        rgb: [r, 20, 30],
        edges,
    };
    let svg = render_mesh_svg(
        Some("a<b & c>d"),
        2,
        &[poly(1, vec![(0, 1)]), poly(2, vec![])],
        &style(),
    );
    assert!(svg.starts_with("<g>\n<text x=\"260\" y=\"16\""), "{svg}");
    assert!(svg.contains("a&lt;b &amp; c&gt;d</text>"));
    assert_eq!(count(&svg, "<polygon points=\"0.00,0.00 1.00,0.00 0.00,1.00\""), 2);
    assert_eq!(count(&svg, "<line "), 1);
    assert!(svg.find("rgb(1,20,30)").unwrap() < svg.find("rgb(2,20,30)").unwrap());
    assert!(svg.ends_with("\n</g>"));
    assert_eq!(render_mesh_svg(None, 5, &[], &style()), "<g></g>");
}

#[test]
fn markup_is_escaped() {
    assert_eq!(escape_xml("<a> & \"b\""), "&lt;a&gt; &amp; \"b\"");
    assert_eq!(escape_xml(""), "");
}

#[test]
fn failures_are_told_on_the_page() {
    let f = failed_fragment("260", "part");
    assert!(f.starts_with("<g><text x=\"260\" y=\"260\""));
    assert!(f.ends_with(">part: failed</text></g>"));
}

#[test]
fn sheets_are_as_wide_as_high() {
    let got: Vec<usize> = [0, 1, 2, 4, 5, 9, 10, 100, 101]
        .iter()
        .map(|n| default_cols(*n))
        .collect();
    assert_eq!(got, vec![1, 1, 2, 2, 3, 3, 4, 10, 11]);
}

#[test]
fn big_meshes_are_sorted_by_depth() {
    assert!(uses_bsp(Order::Auto, BSP_BUDGET));
    assert!(!uses_bsp(Order::Auto, BSP_BUDGET + 1));
    assert!(uses_bsp(Order::Bsp, 1_000_000));
    assert!(!uses_bsp(Order::Depth, 1));
}

#[test]
fn the_far_triangle_is_painted_first() {
    let depths: Vec<u64> = [1.0f64, 5.0, -2.0, 5.0, 0.0]
        .iter()
        .map(|d| d.to_bits())
        .collect();
    // Of two equally far ones the earlier comes first.
    assert_eq!(depth_order(&depths), vec![1, 3, 0, 4, 2]);
    assert!(depth_order(&[]).is_empty());
}

#[test]
fn colours_come_from_overrides_then_the_mesh() {
    let over: HashMap<i16, [u64; 3]> = [(1, [1, 2, 3])].into_iter().collect();
    let own: HashMap<i16, [u64; 3]> = [(1, [7, 8, 9]), (2, [4, 5, 6])].into_iter().collect();
    assert_eq!(base_color(&over, &own, 1), [1, 2, 3]);
    assert_eq!(base_color(&over, &own, 2), [4, 5, 6]);
    assert_eq!(base_color(&over, &own, 3), BASE_RGB);
    assert_eq!(
        BASE_RGB,
        [0.48f64.to_bits(), 0.64f64.to_bits(), 0.97f64.to_bits()]
    );
}

#[test]
fn edges_are_stroked_where_the_surface_bends_or_ends() {
    // Two triangles of one face that share the edge 1-2.
    let tris = vec![[0, 1, 2], [2, 1, 3]];
    assert_eq!(
        meeting_triangles(&tris),
        vec![None, Some((0, 1)), None, None, None, None]
    );
    // Flat: only the open boundary is stroked.
    let flat = feature_edges(&tris, &vec![1, 1], &vec![Bend::Flat; 6]);
    assert_eq!(flat[0].len(), 2);
    assert_eq!(flat[1].len(), 2);
    // Sharp: the shared edge too, on both triangles.
    let sharp = feature_edges(&tris, &vec![1, 1], &vec![Bend::Sharp; 6]);
    assert_eq!(sharp[0].len(), 3);
    assert_eq!(sharp[1].len(), 3);
    // A slight bend counts only where two faces meet.
    let slight = feature_edges(&tris, &vec![1, 1], &vec![Bend::Slight; 6]);
    assert_eq!(slight[0].len(), 2);
    let faces = feature_edges(&tris, &vec![1, 2], &vec![Bend::Slight; 6]);
    assert_eq!(faces[0].len(), 3);
}

fn poly(pts: Vec<u32>, source: usize, edges: Vec<(usize, usize)>) -> Poly {
    Poly { pts, source, edges }
}

#[test]
fn a_polygon_is_cut_in_two() {
    let p = poly(vec![10, 11, 12], 4, vec![(0, 1), (1, 2)]);
    let signs = vec![Sign::Front, Sign::Front, Sign::Back];
    let cuts = vec![0, 20, 21];
    let (front, back) = split_poly(&p, &signs, &cuts);
    let front = front.unwrap();
    assert_eq!(front.pts, vec![10, 11, 20, 21]);
    assert_eq!(front.edges, vec![(0, 1)]);
    assert_eq!(front.source, 4);
    let back = back.unwrap();
    assert_eq!(back.pts, vec![20, 12, 21]);
    assert!(back.edges.is_empty());
    // What has no three points is nothing.
    let (front, back) = split_poly(&p, &vec![Sign::On, Sign::On, Sign::Back], &cuts);
    assert!(front.is_none());
    assert_eq!(back.unwrap().pts, vec![10, 11, 12]);
}

#[test]
fn a_tree_is_built_without_recursion() {
    let polys: Vec<Poly> = (0..3)
        .map(|i| poly(vec![3 * i, 3 * i + 1, 3 * i + 2], i as usize, vec![]))
        .collect();
    let mut b = Builder::new(polys);
    let task = b.take().unwrap();
    // The one in the middle divides the others.
    assert_eq!(task.splitter.source, 1);
    assert_eq!(task.others.len(), 2);
    b.give(
        task,
        &vec![vec![Sign::Front; 3], vec![Sign::Back; 3]],
        &vec![vec![0; 3]; 2],
    );
    while let Some(t) = b.take() {
        assert!(t.others.is_empty());
        b.give(t, &vec![], &vec![]);
    }
    assert_eq!(b.nodes.len(), 3);
    let far_first = traverse_bsp(&b.nodes, &[true; 3]);
    let sources: Vec<usize> = far_first.iter().map(|p| p.source).collect();
    assert_eq!(sources, vec![2, 1, 0]);
    let near_first = traverse_bsp(&b.nodes, &[false; 3]);
    let sources: Vec<usize> = near_first.iter().map(|p| p.source).collect();
    assert_eq!(sources, vec![0, 1, 2]);
}

#[test]
fn deep_trees_are_walked_whole() {
    let n = 20_000;
    let nodes: Vec<BspNode> = (0..n)
        .map(|i| BspNode {
            coplanar: vec![poly(vec![0, 1, 2], i, vec![])],
            front: if i + 1 < n { Some(i + 1) } else { None },
            back: None,
        })
        .collect();
    let out = traverse_bsp(&nodes, &vec![true; n]);
    assert_eq!(out.len(), n);
    assert_eq!(out[0].source, 0);
    assert_eq!(out[n - 1].source, n - 1);
    assert!(traverse_bsp(&[], &[]).is_empty());
}
