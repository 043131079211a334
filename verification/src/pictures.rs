//! What holds of every picture and every file of triangles: the order in which
//! polygons are painted and how they are cut, which edges are stroked, what stands
//! in every pixel, and what the written files say.

use vstd::prelude::*;

use crate::anim::{flat_byte, sweep_poses, Sweep};
use crate::bsp::{
    forward, kept_edges, kept_part, kept_place, kept_points, lot_of, on_side, painted,
    poly_views, BspNode, Lot, PolyView, Sign,
};
use crate::double::{nan, rank};
use crate::edges::{edge, lemma_users_among, users, Tri};
use crate::files::{all_bytes, facets_bytes, four_bytes, stl_bytes, vertex_lines, Coords};
use crate::font::{has_dot, Font};
use crate::iso::{
    blitted, composed, dotted, in_dot, inked, lettered, mixed, outlined, Image, ImageView, BORDER,
};
use crate::mesh::{inside_out, obj_line, obj_lines, turned, Enclosure};
use crate::render::{
    escaped, in_depth_order, local_edge, marks_among, meeting_at, points_text, polys_text, stroked,
    Bend, SvgPoint, SvgPoly, SvgStyle,
};
use crate::sheet::{columns, cut_name, grouped, sheet_of, thousands, tiled, Tile};
use crate::splat::{splatted_color, splatted_depth, turned_right, Canvas};
use crate::text::{decimal, signed_decimal};
use crate::trim::rewound;
use crate::value::NodeId;

verus! {

// ---- painting ----

/// Of a plane that divides, what lies on the side away from the eye is painted
/// first, then what lies in the plane, and last what lies on the side of the eye,
/// so that nothing near is painted over by what is far.
pub proof fn lemma_far_sides_are_painted_first(nodes: Seq<BspNode>, toward: Seq<bool>, i: usize)
    requires
        forward(nodes),
        i < nodes.len(),
    ensures
        ({
            let n = nodes[i as int];
            let all = painted(nodes, toward, Some(i));
            let near = painted(
                nodes,
                toward,
                if toward[i as int] {
                    n.front
                } else {
                    n.back
                },
            );
            let far = painted(
                nodes,
                toward,
                if toward[i as int] {
                    n.back
                } else {
                    n.front
                },
            );
            let m = n.coplanar@.len();
            &&& all.len() == far.len() + m + near.len()
            &&& all.take(far.len() as int) == far
            &&& all.subrange(far.len() as int, (far.len() + m) as int) == poly_views(n.coplanar@)
            &&& all.skip((far.len() + m) as int) == near
        }),
{
    let n = nodes[i as int];
    let all = painted(nodes, toward, Some(i));
    let (first, second) = if toward[i as int] {
        (n.back, n.front)
    } else {
        (n.front, n.back)
    };
    let far = painted(nodes, toward, first);
    let near = painted(nodes, toward, second);
    let m = n.coplanar@.len();
    assert(all == far + poly_views(n.coplanar@) + near);
    assert(all.take(far.len() as int) =~= far);
    assert(all.subrange(far.len() as int, (far.len() + m) as int) =~= poly_views(n.coplanar@));
    assert(all.skip((far.len() + m) as int) =~= near);
}

/// What a part of a cut polygon has from place `i` on: the point there unless it
/// lies on the other side, and behind it the cut of the side to the next point
/// where the two lie on opposite sides.
pub open spec fn kept_at(
    pts: Seq<u32>,
    signs: Seq<Sign>,
    cuts: Seq<u32>,
    away: Sign,
    i: int,
) -> Seq<u32> {
    let next = if i + 1 < pts.len() {
        i + 1
    } else {
        0
    };
    let across = signs[i] == Sign::Front && signs[next] == Sign::Back || signs[i] == Sign::Back
        && signs[next] == Sign::Front;
    if signs[i] == away {
        if across {
            seq![cuts[i]]
        } else {
            Seq::empty()
        }
    } else {
        if across {
            seq![pts[i], cuts[i]]
        } else {
            seq![pts[i]]
        }
    }
}

/// A part of a cut polygon has its points in the order of the polygon.
pub proof fn lemma_parts_keep_the_order_of_points(
    pts: Seq<u32>,
    signs: Seq<Sign>,
    cuts: Seq<u32>,
    away: Sign,
    n: int,
)
    requires
        0 <= n <= pts.len(),
    ensures
        kept_points(pts, signs, cuts, away, n) == Seq::new(
            n as nat,
            |i: int| kept_at(pts, signs, cuts, away, i),
        ).fold_left(Seq::<u32>::empty(), |a: Seq<u32>, b: Seq<u32>| a + b),
    decreases n,
{
    let parts = Seq::new(n as nat, |i: int| kept_at(pts, signs, cuts, away, i));
    if n > 0 {
        lemma_parts_keep_the_order_of_points(pts, signs, cuts, away, n - 1);
        assert(parts.drop_last() =~= Seq::new(
            (n - 1) as nat,
            |i: int| kept_at(pts, signs, cuts, away, i),
        ));
        if n < pts.len() {
            vstd::arithmetic::div_mod::lemma_small_mod(n as nat, pts.len());
        } else {
            vstd::arithmetic::div_mod::lemma_mod_self_0(n);
        }
        let before = kept_points(pts, signs, cuts, away, n - 1);
        assert(parts.last() == kept_at(pts, signs, cuts, away, n - 1));
        assert(kept_points(pts, signs, cuts, away, n) =~= before + kept_at(
            pts,
            signs,
            cuts,
            away,
            n - 1,
        ));
    }
}

proof fn lemma_kept_grow(
    pts: Seq<u32>,
    signs: Seq<Sign>,
    cuts: Seq<u32>,
    away: Sign,
    i: int,
    n: int,
)
    requires
        0 <= i < n <= pts.len(),
        signs[i] != away,
    ensures
        kept_points(pts, signs, cuts, away, i).len() < kept_points(pts, signs, cuts, away, n).len(),
        kept_points(pts, signs, cuts, away, n)[kept_points(
            pts,
            signs,
            cuts,
            away,
            i,
        ).len() as int] == pts[i],
    decreases n,
{
    if i < n - 1 {
        lemma_kept_grow(pts, signs, cuts, away, i, n - 1);
    }
}

/// The edges to stroke that a part of a cut polygon keeps go from and to the same
/// points as those of the polygon, and it comes from the same triangle. A part
/// with fewer than three points is none.
pub proof fn lemma_parts_keep_their_edges(
    p: PolyView,
    signs: Seq<Sign>,
    cuts: Seq<u32>,
    away: Sign,
)
    requires
        p.pts.len() <= 0x7fffffff,
    ensures
        match kept_part(p, signs, cuts, away) {
            Some(part) => {
                &&& part.pts.len() >= 3
                &&& part.source == p.source
                &&& part.edges.len() <= p.edges.len()
                &&& forall|k: int|
                    0 <= k < part.edges.len() ==> exists|j: int|
                        0 <= j < p.edges.len() && same_ends(
                            part,
                            #[trigger] part.edges[k],
                            p,
                            #[trigger] p.edges[j],
                        )
            },
            None => kept_points(p.pts, signs, cuts, away, p.pts.len() as int).len() < 3,
        },
{
    if let Some(part) = kept_part(p, signs, cuts, away) {
        lemma_length(p.pts, signs, cuts, away, p.pts.len() as int);
        lemma_edges(p, signs, cuts, away, part, p.edges);
    }
}

/// Two edges go from and to the same points.
pub open spec fn same_ends(a: PolyView, x: (usize, usize), b: PolyView, y: (usize, usize)) -> bool {
    &&& x.0 < a.pts.len() && x.1 < a.pts.len()
    &&& y.0 < b.pts.len() && y.1 < b.pts.len()
    &&& a.pts[x.0 as int] == b.pts[y.0 as int]
    &&& a.pts[x.1 as int] == b.pts[y.1 as int]
}

proof fn lemma_length(pts: Seq<u32>, signs: Seq<Sign>, cuts: Seq<u32>, away: Sign, n: int)
    requires
        0 <= n,
    ensures
        kept_points(pts, signs, cuts, away, n).len() <= 2 * n,
    decreases n,
{
    if n > 0 {
        lemma_length(pts, signs, cuts, away, n - 1);
    }
}

proof fn lemma_edges(
    p: PolyView,
    signs: Seq<Sign>,
    cuts: Seq<u32>,
    away: Sign,
    part: PolyView,
    edges: Seq<(usize, usize)>,
)
    requires
        p.pts.len() <= 0x7fffffff,
        part.pts == kept_points(p.pts, signs, cuts, away, p.pts.len() as int),
    ensures
        kept_edges(p.pts, signs, cuts, away, edges).len() <= edges.len(),
        forall|k: int|
            0 <= k < kept_edges(p.pts, signs, cuts, away, edges).len() ==> exists|j: int|
                0 <= j < edges.len() && same_ends(
                    part,
                    #[trigger] kept_edges(p.pts, signs, cuts, away, edges)[k],
                    p,
                    #[trigger] edges[j],
                ),
    decreases edges.len(),
{
    if edges.len() > 0 {
        let few = edges.drop_last();
        lemma_edges(p, signs, cuts, away, part, few);
        let before = kept_edges(p.pts, signs, cuts, away, few);
        let all = kept_edges(p.pts, signs, cuts, away, edges);
        let e = edges.last();
        let n = p.pts.len() as int;
        assert forall|k: int| 0 <= k < all.len() implies exists|j: int|
            0 <= j < edges.len() && same_ends(part, #[trigger] all[k], p, #[trigger] edges[j]) by {
            if k < before.len() {
                let j = choose|j: int|
                    0 <= j < few.len() && same_ends(part, #[trigger] before[k], p, #[trigger] few[j]);
                assert(all[k] == before[k]);
                assert(same_ends(part, all[k], p, edges[j]));
            } else {
                let x = kept_place(p.pts, signs, cuts, away, e.0 as int)->0;
                let y = kept_place(p.pts, signs, cuts, away, e.1 as int)->0;
                lemma_kept_grow(p.pts, signs, cuts, away, e.0 as int, n);
                lemma_kept_grow(p.pts, signs, cuts, away, e.1 as int, n);
                lemma_length(p.pts, signs, cuts, away, e.0 as int);
                lemma_length(p.pts, signs, cuts, away, e.1 as int);
                assert(all[k] == (x, y));
                assert(same_ends(part, all[k], p, edges[edges.len() - 1]));
            }
        }
    }
}

/// A polygon none of whose points lies behind a plane goes to the front of it as
/// it is, and nothing of it goes behind; likewise the other way round. One with
/// points on both sides is cut.
pub proof fn lemma_polygons_go_where_they_lie(
    p: PolyView,
    signs: Seq<Sign>,
    cuts: Seq<u32>,
    f: int,
    b: int,
)
    ensures
        0 <= f < signs.len() && signs[f] == Sign::Front && (forall|i: int|
            0 <= i < signs.len() ==> #[trigger] signs[i] != Sign::Back) ==> {
            &&& on_side(p, signs, cuts, Sign::Back) == seq![p]
            &&& on_side(p, signs, cuts, Sign::Front).len() == 0
        },
        0 <= b < signs.len() && signs[b] == Sign::Back && (forall|i: int|
            0 <= i < signs.len() ==> #[trigger] signs[i] != Sign::Front) ==> {
            &&& on_side(p, signs, cuts, Sign::Front) == seq![p]
            &&& on_side(p, signs, cuts, Sign::Back).len() == 0
        },
        0 <= f < signs.len() && signs[f] == Sign::Front && 0 <= b < signs.len() && signs[b]
            == Sign::Back ==> lot_of(signs) == Lot::Cut,
        (forall|i: int| 0 <= i < signs.len() ==> #[trigger] signs[i] == Sign::On) ==> lot_of(signs)
            == Lot::Coplanar,
{
}

// ---- feature edges ----

/// The mark is an edge of the triangle that deserves a stroke: nothing lies beyond
/// it, or the two triangles at it meet at a sharp angle, or at a slight one
/// between two faces.
pub open spec fn deserved(
    tris: Seq<Tri>,
    faces: Seq<NodeId>,
    bends: Seq<Bend>,
    t: int,
    mark: (usize, usize),
) -> bool {
    mark.0 < 3 && mark.1 < 3 && exists|c: int, m: int|
        {
            &&& 0 <= c < 3 * tris.len()
            &&& c / 3 == t
            &&& 0 <= m < 3 * tris.len()
            &&& #[trigger] edge(tris, c) == #[trigger] edge(tris, m)
            &&& (tris[t]@[mark.0 as int], tris[t]@[mark.1 as int]) == edge(tris, c)
            &&& {
                let u = users(tris, edge(tris, c));
                ||| u.len() == 1
                ||| u.len() == 2 && bends[m] == Bend::Sharp
                ||| u.len() == 2 && bends[m] == Bend::Slight && faces[u[0] / 3] != faces[u[1] / 3]
            }
        }
}

proof fn lemma_local(tris: Seq<Tri>, c: int)
    requires
        0 <= c < 3 * tris.len(),
    ensures
        local_edge(tris, c).0 < 3,
        local_edge(tris, c).1 < 3,
        tris[c / 3]@[local_edge(tris, c).0 as int] == edge(tris, c).0,
        tris[c / 3]@[local_edge(tris, c).1 as int] == edge(tris, c).1,
{
    let t = tris[c / 3];
    assert(c % 3 == 0 || c % 3 == 1 || c % 3 == 2);
    assert((c % 3 + 1) % 3 == if c % 3 == 2 {
        0int
    } else {
        c % 3 + 1
    });
}

/// Every edge that is marked deserves it.
pub proof fn lemma_marks_are_deserved(
    tris: Seq<Tri>,
    faces: Seq<NodeId>,
    bends: Seq<Bend>,
    m: int,
    t: int,
    k: int,
)
    requires
        0 <= m <= 3 * tris.len(),
        0 <= t < tris.len(),
        0 <= k < marks_among(tris, faces, bends, m)[t].len(),
    ensures
        marks_among(tris, faces, bends, m).len() == tris.len(),
        deserved(tris, faces, bends, t, marks_among(tris, faces, bends, m)[t][k]),
    decreases m,
{
    lemma_marks_length(tris, faces, bends, m);
    if m > 0 {
        lemma_marks_length(tris, faces, bends, m - 1);
        let c = m - 1;
        let before = marks_among(tris, faces, bends, m - 1);
        let after = marks_among(tris, faces, bends, m);
        let e = edge(tris, c);
        let u = users(tris, e);
        lemma_users_among(tris, (3 * tris.len()) as nat, e);
        if k < before[t].len() {
            lemma_marks_are_deserved(tris, faces, bends, m - 1, t, k);
            assert(after[t][k] == before[t][k]);
        } else {
            assert(stroked(tris, faces, bends, c));
            let a = u[0];
            lemma_local(tris, a);
            if u.len() == 2 {
                lemma_local(tris, u[1]);
            }
            let by = if a / 3 == t && k == before[t].len() {
                a
            } else {
                u[1]
            };
            assert(by / 3 == t);
            assert(edge(tris, by) == e);
            assert(after[t][k] == local_edge(tris, by));
            assert(deserved(tris, faces, bends, t, after[t][k])) by {
                assert(edge(tris, by) == edge(tris, c));
            }
        }
    }
}

proof fn lemma_marks_length(tris: Seq<Tri>, faces: Seq<NodeId>, bends: Seq<Bend>, m: int)
    requires
        m <= 3 * tris.len(),
    ensures
        marks_among(tris, faces, bends, m).len() == tris.len(),
    decreases m,
{
    if m > 0 {
        lemma_marks_length(tris, faces, bends, m - 1);
        lemma_users_among(tris, (3 * tris.len()) as nat, edge(tris, m - 1));
    }
}

// ---- texts of pictures ----

/// Escaping goes character by character: the three that markup is made of become
/// names, and all others stay.
pub proof fn lemma_markup_is_escaped(s: Seq<char>, c: char)
    ensures
        escaped(s.push(c)) == escaped(s) + (if c == '&' {
            "&amp;"@
        } else if c == '<' {
            "&lt;"@
        } else if c == '>' {
            "&gt;"@
        } else {
            seq![c]
        }),
        escaped(Seq::empty()) == Seq::<char>::empty(),
{
    assert(s.push(c).drop_last() =~= s);
}

/// No bracket of markup is left in what was escaped.
pub proof fn lemma_no_bracket_is_left(s: Seq<char>, i: int)
    requires
        0 <= i < escaped(s).len(),
    ensures
        escaped(s)[i] != '<' && escaped(s)[i] != '>',
    decreases s.len(),
{
    if s.len() > 0 {
        let before = escaped(s.drop_last());
        if i < before.len() {
            lemma_no_bracket_is_left(s.drop_last(), i);
        } else {
            reveal_strlit("&amp;");
            reveal_strlit("&lt;");
            reveal_strlit("&gt;");
        }
    }
}

/// The corners of a polygon are listed in their order, as pairs with a comma, and
/// with spaces between the pairs.
pub proof fn lemma_corners_are_listed(points: Seq<SvgPoint>, p: SvgPoint)
    ensures
        points_text(points.push(p)) == (if points.len() == 0 {
            Seq::empty()
        } else {
            points_text(points) + seq![' ']
        }) + (p.x@ + seq![','] + p.y@),
{
    assert(points.push(p).drop_last() =~= points);
    reveal_strlit(" ");
    reveal_strlit(",");
    assert(" "@ =~= seq![' ']);
    assert(","@ =~= seq![',']);
    let head = if points.len() == 0 {
        Seq::<char>::empty()
    } else {
        points_text(points) + seq![' ']
    };
    assert(head + p.x@ + seq![','] + p.y@ =~= head + (p.x@ + seq![','] + p.y@));
}

/// Polygons are written in the order in which they are painted.
pub proof fn lemma_polygons_are_written_in_order(
    a: Seq<SvgPoly>,
    b: Seq<SvgPoly>,
    style: SvgStyle,
)
    ensures
        polys_text(a + b, style) == polys_text(a, style) + polys_text(b, style),
    decreases b.len(),
{
    if b.len() > 0 {
        lemma_polygons_are_written_in_order(a, b.drop_last(), style);
        assert((a + b).drop_last() =~= a + b.drop_last());
        let last = crate::render::poly_text(b.last(), style);
        assert(polys_text(a, style) + (polys_text(b.drop_last(), style) + last) =~= (polys_text(
            a,
            style,
        ) + polys_text(b.drop_last(), style)) + last);
    } else {
        assert(a + b =~= a);
        assert(polys_text(a, style) + Seq::<char>::empty() =~= polys_text(a, style));
    }
}

// ---- pixels ----

/// A pixel is four bytes: those of the rows above it and of the pixels left of it
/// come before.
pub proof fn lemma_pixels_lie_row_by_row(img: Image, x: int, y: int)
    requires
        img.well_formed(),
        0 <= x < img.w,
        0 <= y < img.h,
    ensures
        img@.at(x, y).len() == 4,
        forall|k: int|
            0 <= k < 4 ==> #[trigger] img@.at(x, y)[k] == img.px@[4 * (img.w * y + x) + k],
{
    vstd::arithmetic::mul::lemma_mul_is_commutative(img.w as int, y);
}

/// A box is painted over the pixels inside it and no others.
pub proof fn lemma_boxes_cover_their_inside(
    img: ImageView,
    x0: int,
    x1: int,
    y0: int,
    y1: int,
    c: Seq<u8>,
    x: int,
    y: int,
)
    requires
        0 <= x < img.w,
        0 <= y < img.h,
    ensures
        img.boxed(x0, x1, y0, y1, c).at(x, y) == if x0 <= x && x <= x1 && y0 <= y && y <= y1 {
            c
        } else {
            img.at(x, y)
        },
{
}

/// An outline is painted over the border of its rectangle and no other pixel.
pub proof fn lemma_outlines_cover_their_border(
    img: ImageView,
    x0: int,
    y0: int,
    x1: int,
    y1: int,
    c: Seq<u8>,
    x: int,
    y: int,
)
    requires
        0 <= x < img.w,
        0 <= y < img.h,
        x0 <= x1,
        y0 <= y1,
    ensures
        ({
            let within = x0 <= x && x <= x1 && y0 <= y && y <= y1;
            let border = x == x0 || x == x1 || y == y0 || y == y1;
            outlined(img, x0, y0, x1, y1, c).at(x, y) == if within && border {
                c
            } else {
                img.at(x, y)
            }
        }),
{
}

/// Opaque paint hides what is under it, paint that is fully transparent leaves it,
/// and any other lies between the two.
pub proof fn lemma_paint_is_mixed_by_its_opacity(over: u8, under: u8, a: u8)
    ensures
        mixed(over, under, 255) == over,
        mixed(over, under, 0) == under,
        over <= under ==> over <= mixed(over, under, a) <= under,
        under <= over ==> under <= mixed(over, under, a) <= over,
{
    let n = over * a + under * (255 - a);
    assert(over * 255 + under * (255 - 255) == 255 * over) by (nonlinear_arith);
    assert(over * 0 + under * (255 - 0) == 255 * under) by (nonlinear_arith);
    if over <= under {
        assert(255 * over <= n <= 255 * under) by (nonlinear_arith)
            requires
                over <= under,
                0 <= a <= 255,
                n == over * a + under * (255 - a),
        ;
    } else {
        assert(255 * under <= n <= 255 * over) by (nonlinear_arith)
            requires
                under <= over,
                0 <= a <= 255,
                n == over * a + under * (255 - a),
        ;
    }
}

/// A picture that is laid over another shows at its place, pixel by pixel: where
/// it is opaque as it is, where it is transparent not at all.
pub proof fn lemma_pictures_are_laid_over(
    img: ImageView,
    src: ImageView,
    ox: int,
    oy: int,
    x: int,
    y: int,
)
    requires
        0 <= x < img.w,
        0 <= y < img.h,
        0 <= x - ox < src.w && 0 <= y - oy < src.h ==> src.at(x - ox, y - oy).len() == 4,
    ensures
        !(0 <= x - ox < src.w && 0 <= y - oy < src.h) ==> blitted(img, src, ox, oy).at(x, y)
            == img.at(x, y),
        0 <= x - ox < src.w && 0 <= y - oy < src.h ==> {
            let p = src.at(x - ox, y - oy);
            let r = blitted(img, src, ox, oy).at(x, y);
            &&& p[3] == 0 ==> r == img.at(x, y)
            &&& p[3] == 255 ==> r == p
        },
{
    if 0 <= x - ox < src.w && 0 <= y - oy < src.h {
        let p = src.at(x - ox, y - oy);
        let q = img.at(x, y);
        if p[3] == 255 {
            lemma_paint_is_mixed_by_its_opacity(p[0], q[0], 255);
            lemma_paint_is_mixed_by_its_opacity(p[1], q[1], 255);
            lemma_paint_is_mixed_by_its_opacity(p[2], q[2], 255);
            assert(composed(p, q) =~= p);
        }
    }
}

/// The lowest bit of a column is its topmost dot.
pub proof fn lemma_dots_go_from_the_lowest_bit()
    ensures
        forall|row: int| 0 <= row < 8 ==> #[trigger] has_dot(255, row),
        forall|row: int| 0 <= row < 8 ==> !#[trigger] has_dot(0, row),
        has_dot(1, 0) && !has_dot(1, 1) && !has_dot(1, 6),
        has_dot(64, 6) && !has_dot(64, 0) && !has_dot(64, 5),
{
    assert forall|row: int| 0 <= row < 8 implies #[trigger] has_dot(255, row) by {
        let k = row as u8;
        assert(255u8 & (1u8 << k) != 0) by (bit_vector)
            requires
                k < 8,
        ;
    }
    assert forall|row: int| 0 <= row < 8 implies !#[trigger] has_dot(0, row) by {
        let k = row as u8;
        assert(0u8 & (1u8 << k) == 0) by (bit_vector);
    }
    assert(1u8 & (1u8 << 0u8) != 0 && 1u8 & (1u8 << 1u8) == 0 && 1u8 & (1u8 << 6u8) == 0)
        by (bit_vector);
    assert(64u8 & (1u8 << 6u8) != 0 && 64u8 & (1u8 << 0u8) == 0 && 64u8 & (1u8 << 5u8) == 0)
        by (bit_vector);
}

/// A frame of a film has no transparent pixel: an opaque one is as it was, and one
/// that was fully transparent shows the backdrop.
pub proof fn lemma_frames_are_opaque(px: Seq<u8>, p: int)
    requires
        0 <= p,
        4 * p + 3 < px.len(),
    ensures
        flat_byte(px, 4 * p + 3) == 255,
        px[4 * p + 3] == 255 ==> forall|k: int|
            0 <= k < 3 ==> #[trigger] flat_byte(px, 4 * p + k) == px[4 * p + k],
        px[4 * p + 3] == 0 ==> flat_byte(px, 4 * p) == 26 && flat_byte(px, 4 * p + 1) == 27
            && flat_byte(px, 4 * p + 2) == 38,
{
    assert((4 * p) % 4 == 0 && (4 * p + 1) % 4 == 1 && (4 * p + 2) % 4 == 2 && (4 * p + 3) % 4
        == 3);
    lemma_paint_is_mixed_by_its_opacity(px[4 * p], 26, 0);
    lemma_paint_is_mixed_by_its_opacity(px[4 * p + 1], 27, 0);
    lemma_paint_is_mixed_by_its_opacity(px[4 * p + 2], 38, 0);
    assert forall|k: int| 0 <= k < 3 && px[4 * p + 3] == 255 implies #[trigger] flat_byte(
        px,
        4 * p + k,
    ) == px[4 * p + k] by {
        assert((4 * p + k) % 4 == k);
    }
}

// ---- numbers and names on sheets ----

proof fn lemma_grouped(digits: Seq<char>, n: int)
    requires
        0 < n <= digits.len(),
    ensures
        grouped(digits, n).len() == n + (digits.len() - 1) / 3 - (digits.len() - n) / 3,
        grouped(digits, n).last() == digits[n - 1],
    decreases n,
{
    let l = digits.len() as int;
    if n > 1 {
        lemma_grouped(digits, n - 1);
        assert((l - n) / 3 == if (l - (n - 1)) % 3 == 0 {
            (l - (n - 1)) / 3 - 1
        } else {
            (l - (n - 1)) / 3
        });
    } else {
        assert(grouped(digits, 0).len() == 0);
    }
}

proof fn lemma_grouped_prefix(digits: Seq<char>, i: int, n: int)
    requires
        0 <= i <= n <= digits.len(),
    ensures
        grouped(digits, i).is_prefix_of(grouped(digits, n)),
    decreases n,
{
    if i < n {
        lemma_grouped_prefix(digits, i, n - 1);
    }
}

/// A number is written with a comma before every three digits from the right: the
/// digits stand in their order, each behind as many commas as there are whole
/// groups between it and the first.
pub proof fn lemma_thousands_are_grouped(n: nat, i: int)
    requires
        0 <= i < decimal(n).len(),
    ensures
        ({
            let d = decimal(n);
            let l = d.len() as int;
            let at = i + (l - 1) / 3 - (l - 1 - i) / 3;
            &&& thousands(n).len() == l + (l - 1) / 3
            &&& 0 <= at < thousands(n).len()
            &&& thousands(n)[at] == d[i]
            &&& i > 0 && (l - i) % 3 == 0 ==> thousands(n)[at - 1] == ','
        }),
{
    let d = decimal(n);
    let l = d.len() as int;
    lemma_grouped(d, l);
    lemma_grouped(d, i + 1);
    lemma_grouped_prefix(d, i + 1, l);
    if i > 0 {
        lemma_grouped(d, i);
        lemma_grouped_prefix(d, i, i + 1);
    }
    let part = grouped(d, i + 1);
    let at = i + (l - 1) / 3 - (l - 1 - i) / 3;
    assert(part.len() == at + 1);
    assert(thousands(n)[at] == part[at]);
    if i > 0 && (l - i) % 3 == 0 {
        assert(part[at - 1] == ',');
        assert(thousands(n)[at - 1] == part[at - 1]);
    }
}

/// A name that fits stands as it is; a longer one is cut to the room there is,
/// with a sign at the end where there is room for one.
pub proof fn lemma_names_are_cut_to_their_room(name: Seq<char>, room: int)
    requires
        0 <= room,
    ensures
        name.len() <= room ==> cut_name(name, room) == name,
        name.len() > room ==> {
            let c = cut_name(name, room);
            &&& c.len() == room
            &&& room > 1 ==> c.last() == '~' && c.drop_last() == name.take(room - 1)
            &&& room <= 1 ==> c == name.take(room)
        },
{
    if name.len() > room && room > 1 {
        assert(cut_name(name, room).drop_last() =~= name.take(room - 1));
    }
}

// ---- files of triangles ----

/// A triangle is written with the numbers of its corners counted from one, in
/// their order, behind a group line exactly where its face is another than that of
/// the triangle before it.
pub proof fn lemma_triangles_are_written(tris: Seq<Tri>, ids: Seq<NodeId>, n: nat)
    requires
        n < tris.len(),
        n < ids.len(),
    ensures
        ({
            let t = tris[n as int];
            let group = if n > 0 && ids[n - 1] == ids[n as int] {
                Seq::empty()
            } else {
                "g face_"@ + signed_decimal(ids[n as int] as int) + seq!['\n']
            };
            obj_lines(tris, ids, n + 1) == obj_lines(tris, ids, n) + (group + (seq!['f', ' ']
                + decimal((t@[0] + 1) as nat) + seq![' '] + decimal((t@[1] + 1) as nat) + seq![' ']
                + decimal((t@[2] + 1) as nat) + seq!['\n']))
        }),
        obj_lines(tris, ids, 0) == Seq::<char>::empty(),
{
    reveal_strlit("f ");
    reveal_strlit(" ");
    reveal_strlit("\n");
    assert("f "@ =~= seq!['f', ' ']);
    assert(" "@ =~= seq![' ']);
    assert("\n"@ =~= seq!['\n']);
    let t = tris[n as int];
    let last = if n > 0 {
        Some(ids[n - 1])
    } else {
        None
    };
    let group = if n > 0 && ids[n - 1] == ids[n as int] {
        Seq::empty()
    } else {
        "g face_"@ + signed_decimal(ids[n as int] as int) + seq!['\n']
    };
    assert(obj_line(t, ids[n as int], last) =~= group + (seq!['f', ' '] + decimal(
        (t@[0] + 1) as nat,
    ) + seq![' '] + decimal((t@[1] + 1) as nat) + seq![' '] + decimal((t@[2] + 1) as nat) + seq![
        '\n',
    ]));
}

/// Vertices are written one to a line, in their order, with their three
/// coordinates in theirs.
pub proof fn lemma_vertices_are_written(vertices: Seq<Coords>, v: Coords)
    ensures
        vertex_lines(vertices.push(v)) == vertex_lines(vertices) + (seq!['v', ' '] + v.x@ + seq![
            ' ',
        ] + v.y@ + seq![' '] + v.z@ + seq!['\n']),
        vertex_lines(Seq::empty()) == Seq::<char>::empty(),
{
    reveal_strlit("v ");
    reveal_strlit(" ");
    reveal_strlit("\n");
    assert("v "@ =~= seq!['v', ' ']);
    assert(" "@ =~= seq![' ']);
    assert("\n"@ =~= seq!['\n']);
    assert(vertices.push(v).drop_last() =~= vertices);
}

proof fn lemma_all_bytes(reals: Seq<u32>, i: int)
    requires
        0 <= i < reals.len(),
    ensures
        all_bytes(reals).len() == 4 * reals.len(),
        all_bytes(reals).subrange(4 * i, 4 * i + 4) == four_bytes(reals[i]),
    decreases reals.len(),
{
    let few = reals.drop_last();
    lemma_all_bytes_length(few);
    if i < few.len() {
        lemma_all_bytes(few, i);
        assert(all_bytes(reals).subrange(4 * i, 4 * i + 4) =~= all_bytes(few).subrange(
            4 * i,
            4 * i + 4,
        ));
    } else {
        assert(all_bytes(reals).subrange(4 * i, 4 * i + 4) =~= four_bytes(reals[i]));
    }
}

proof fn lemma_all_bytes_length(reals: Seq<u32>)
    ensures
        all_bytes(reals).len() == 4 * reals.len(),
    decreases reals.len(),
{
    if reals.len() > 0 {
        lemma_all_bytes_length(reals.drop_last());
    }
}

proof fn lemma_facets(facets: Seq<[u32; 12]>, f: int, i: int)
    requires
        0 <= f < facets.len(),
        0 <= i < 12,
    ensures
        facets_bytes(facets).len() == 50 * facets.len(),
        facets_bytes(facets).subrange(50 * f + 4 * i, 50 * f + 4 * i + 4) == four_bytes(
            facets[f]@[i],
        ),
    decreases facets.len(),
{
    let few = facets.drop_last();
    let last = facets.last()@;
    lemma_facets_length(few);
    lemma_facets_length(facets);
    lemma_all_bytes_length(last);
    if f < few.len() {
        lemma_facets(few, f, i);
        assert(facets_bytes(facets).subrange(50 * f + 4 * i, 50 * f + 4 * i + 4)
            =~= facets_bytes(few).subrange(50 * f + 4 * i, 50 * f + 4 * i + 4));
    } else {
        lemma_all_bytes(last, i);
        assert(facets_bytes(facets).subrange(50 * f + 4 * i, 50 * f + 4 * i + 4) =~= all_bytes(
            last,
        ).subrange(4 * i, 4 * i + 4));
    }
}

proof fn lemma_facets_length(facets: Seq<[u32; 12]>)
    ensures
        facets_bytes(facets).len() == 50 * facets.len(),
    decreases facets.len(),
{
    if facets.len() > 0 {
        lemma_facets_length(facets.drop_last());
        lemma_all_bytes_length(facets.last()@);
    }
}

/// A number in four bytes, the lowest first.
pub open spec fn little_endian(b: Seq<u8>, at: int) -> int {
    b[at] + 256 * b[at + 1] + 65536 * b[at + 2] + 16777216 * b[at + 3]
}

/// An STL file holds behind its header how many facets there are, and then the
/// twelve numbers of each in their order, fifty bytes to a facet.
pub proof fn lemma_facets_are_written(facets: Seq<[u32; 12]>, f: int, i: int)
    requires
        facets.len() <= u32::MAX,
        0 <= f < facets.len(),
        0 <= i < 12,
    ensures
        stl_bytes(facets).len() == 84 + 50 * facets.len(),
        little_endian(stl_bytes(facets), 80) == facets.len(),
        little_endian(stl_bytes(facets), 84 + 50 * f + 4 * i) == facets[f]@[i],
{
    let all = stl_bytes(facets);
    let body = facets_bytes(facets);
    lemma_facets(facets, f, i);
    assert(crate::files::stl_header().len() == 80);
    let n = facets.len() as u32;
    assert(all.subrange(80, 84) =~= four_bytes(n));
    lemma_four(all, 80, n);
    let at = 50 * f + 4 * i;
    assert(all.subrange(84 + at, 84 + at + 4) =~= body.subrange(at, at + 4));
    lemma_four(all, 84 + at, facets[f]@[i]);
}

proof fn lemma_four(b: Seq<u8>, at: int, n: u32)
    requires
        0 <= at,
        at + 4 <= b.len(),
        b.subrange(at, at + 4) == four_bytes(n),
    ensures
        little_endian(b, at) == n,
{
    let s = b.subrange(at, at + 4);
    assert(s[0] == b[at] && s[1] == b[at + 1] && s[2] == b[at + 2] && s[3] == b[at + 3]);
}

// ---- points and letters ----

/// A number that is turned right by some bits has at every place the bit that
/// stood that much higher, and what leaves at the bottom comes in at the top.
pub proof fn lemma_turning_right(x: u32, by: u32, i: u32)
    requires
        by < 32,
        i < 32,
    ensures
        i + by < 32 ==> (turned_right(x, by) >> i) & 1 == (x >> ((i + by) as u32)) & 1,
        i + by >= 32 ==> (turned_right(x, by) >> i) & 1 == (x >> ((i + by - 32) as u32)) & 1,
{
    if by > 0 {
        let back = (32 - by) as u32;
        let r = (x >> by) | (x << back);
        if i + by < 32 {
            let j = (i + by) as u32;
            assert((r >> i) & 1 == (x >> j) & 1) by (bit_vector)
                requires
                    0 < by < 32,
                    back == 32 - by,
                    r == (x >> by) | (x << back),
                    i + by < 32,
                    j == i + by,
            ;
        } else {
            let j = (i + by - 32) as u32;
            assert((r >> i) & 1 == (x >> j) & 1) by (bit_vector)
                requires
                    0 < by < 32,
                    back == 32 - by,
                    r == (x >> by) | (x << back),
                    i < 32,
                    i + by >= 32,
                    j == i + by - 32,
            ;
        }
    }
}

/// A point that is splatted on a canvas shows in the four pixels right of and
/// below its place where nothing lies nearer, and changes no other pixel. One
/// whose place is off the canvas changes nothing.
pub proof fn lemma_points_show_where_they_are_nearest(
    canvas: Canvas,
    x: int,
    y: int,
    depth: u64,
    c: Seq<u8>,
    a: int,
    b: int,
)
    requires
        !nan(depth),
        !nan(canvas.z(a, b)),
    ensures
        ({
            let there = 0 <= x < canvas.img.w && 0 <= y < canvas.img.h && (a == x || a == x + 1)
                && (b == y || b == y + 1);
            let nearer = rank(depth) > rank(canvas.z(a, b));
            &&& there && nearer ==> splatted_depth(canvas, x, y, depth, a, b) == depth
                && splatted_color(canvas, x, y, depth, c, a, b) == c
            &&& !(there && nearer) ==> splatted_depth(canvas, x, y, depth, a, b) == canvas.z(a, b)
                && splatted_color(canvas, x, y, depth, c, a, b) == canvas.img@.at(a, b)
        }),
{
}

/// Polygons in depth order come with falling depth, those of the same depth in
/// the order in which they were.
pub proof fn lemma_depths_fall(depths: Seq<u64>, places: Seq<usize>, i: int, k: int)
    requires
        in_depth_order(depths, places),
        0 <= i < k < places.len(),
    ensures
        rank(depths[places[i] as int]) >= rank(depths[places[k] as int]),
        rank(depths[places[i] as int]) == rank(depths[places[k] as int]) ==> places[i] < places[k],
{
}

/// A dot of a letter is painted as a square of its scale, as many dots right of
/// the beginning as its letter and its column say, and as many below as its row.
pub proof fn lemma_letters_are_painted_dot_by_dot(
    img: ImageView,
    font: Font,
    text: Seq<char>,
    x: int,
    y: int,
    scale: int,
    c: Seq<u8>,
    i: int,
    col: int,
    row: int,
    dx: int,
    dy: int,
)
    requires
        scale >= 1,
        0 <= i < text.len(),
        0 <= col < 5,
        0 <= row < 7,
        has_dot(font.columns(text[i])[col], row),
        0 <= dx < scale,
        0 <= dy < scale,
        0 <= x + (i * font.advance + col) * scale + dx < img.w,
        0 <= y + row * scale + dy < img.h,
    ensures
        lettered(img, font, text, x, y, scale, c).at(
            x + (i * font.advance + col) * scale + dx,
            y + row * scale + dy,
        ) == c,
{
    let a = x + (i * font.advance + col) * scale + dx;
    let b = y + row * scale + dy;
    assert(dotted(font, text, i, col, row));
    assert(in_dot(x, y, scale, font.advance as int, i, col, row, a, b));
    assert(inked(font, text, x, y, scale, a, b));
}

/// No pixel above or below the seven rows of dots is painted.
pub proof fn lemma_letters_stay_in_their_line(
    img: ImageView,
    font: Font,
    text: Seq<char>,
    x: int,
    y: int,
    scale: int,
    c: Seq<u8>,
    a: int,
    b: int,
)
    requires
        scale >= 1,
        0 <= a < img.w,
        0 <= b < img.h,
        b < y || b >= y + 7 * scale,
    ensures
        lettered(img, font, text, x, y, scale, c).at(a, b) == img.at(a, b),
{
    if inked(font, text, x, y, scale, a, b) {
        let (i, col, row) = choose|i: int, col: int, row: int| #[trigger]
            dotted(font, text, i, col, row) && in_dot(
                x,
                y,
                scale,
                font.advance as int,
                i,
                col,
                row,
                a,
                b,
            );
        assert(0 <= row * scale && row * scale + scale <= 7 * scale) by (nonlinear_arith)
            requires
                0 <= row < 7,
                scale >= 1,
        ;
    }
}

/// The poses of a sweep go round once in equal steps, beginning where it starts.
pub proof fn lemma_sweeps_go_round_once(sweep: Sweep, whole: usize, i: int)
    requires
        0 <= i < whole,
    ensures
        sweep_poses(sweep, whole).len() == whole,
        sweep_poses(sweep, whole)[i].sweep == sweep,
        sweep_poses(sweep, whole)[i].part == i,
        sweep_poses(sweep, whole)[i].whole == whole,
{
}

proof fn lemma_sheets_keep_their_size(
    blank: ImageView,
    font: Font,
    tiles: Seq<Tile>,
    cols: int,
    tile_px: int,
    n: int,
)
    ensures
        sheet_of(blank, font, tiles, cols, tile_px, n).w == blank.w,
        sheet_of(blank, font, tiles, cols, tile_px, n).h == blank.h,
    decreases n,
{
    if n > 0 {
        lemma_sheets_keep_their_size(blank, font, tiles, cols, tile_px, n - 1);
    }
}

/// A tile is put right of the one before it, or at the beginning of the next row
/// where its row is full, with a border round its square.
pub proof fn lemma_tiles_stand_row_by_row(
    blank: ImageView,
    font: Font,
    tiles: Seq<Tile>,
    cols: int,
    tile_px: int,
    row: int,
    col: int,
    dx: int,
    dy: int,
)
    requires
        0 <= col < cols,
        0 <= row,
        0 <= dx < tile_px,
        0 <= dy < tile_px,
        dx == 0 || dx == tile_px - 1 || dy == 0 || dy == tile_px - 1,
        col * tile_px + dx < blank.w,
        row * tile_px + dy < blank.h,
    ensures
        sheet_of(blank, font, tiles, cols, tile_px, row * cols + col + 1).at(
            col * tile_px + dx,
            row * tile_px + dy,
        ) == BORDER@,
{
    let i = row * cols + col;
    assert(i >= 0 && i % cols == col && i / cols == row) by {
        vstd::arithmetic::div_mod::lemma_fundamental_div_mod_converse(i, cols, row, col);
        assert(row * cols >= 0) by (nonlinear_arith)
            requires
                row >= 0,
                cols > 0,
        ;
    }
    assert(col * tile_px >= 0 && row * tile_px >= 0) by (nonlinear_arith)
        requires
            row >= 0,
            col >= 0,
            tile_px > 0,
    ;
    lemma_sheets_keep_their_size(blank, font, tiles, cols, tile_px, i);
    let whole = sheet_of(blank, font, tiles, cols, tile_px, i + 1);
    assert(columns(cols) == cols);
    assert(whole == tiled(
        sheet_of(blank, font, tiles, cols, tile_px, i),
        font,
        tiles[i],
        col * tile_px,
        row * tile_px,
        tile_px,
    ));
}

// ---- triangles ----

/// A triangle that is rewound keeps its first corner and runs along every edge the
/// other way.
pub proof fn lemma_rewinding_turns_every_edge(t: [usize; 3], i: int)
    requires
        0 <= i < 3,
    ensures
        rewound(t).len() == 3,
        rewound(t)[0] == t@[0],
        rewound(t)[i] == t@[(3 - i) % 3],
        rewound(t)[(i + 1) % 3] == t@[(2 - i) % 3],
{
}

/// Two faces meet at an edge where they alone use it; the pair is told at the first
/// corner of the two.
pub proof fn lemma_faces_meet_where_they_alone_use_an_edge(tris: Seq<Tri>, a: int, b: int, c: int)
    requires
        0 <= a < b < 3 * tris.len(),
        3 * tris.len() <= usize::MAX,
        edge(tris, a) == edge(tris, b),
        0 <= c < 3 * tris.len(),
        edge(tris, c) == edge(tris, a),
    ensures
        c != a && c != b ==> meeting_at(tris, a) is None,
        meeting_at(tris, b) is None,
        (forall|k: int|
            0 <= k < 3 * tris.len() && #[trigger] edge(tris, k) == edge(tris, a) ==> k == a || k
                == b) ==> meeting_at(tris, a) == Some(((a / 3) as usize, (b / 3) as usize)),
{
    let e = edge(tris, a);
    let u = users(tris, e);
    lemma_users_among(tris, (3 * tris.len()) as nat, e);
    assert(u.contains(a) && u.contains(b) && u.contains(c));
    let i = choose|i: int| 0 <= i < u.len() && u[i] == a;
    let j = choose|j: int| 0 <= j < u.len() && u[j] == b;
    let k = choose|k: int| 0 <= k < u.len() && u[k] == c;
    if i >= j {
        assert(u[j] <= u[i]);
    }
    if c != a && c != b {
        assert(u.len() >= 3);
    }
    if forall|k: int|
        0 <= k < 3 * tris.len() && #[trigger] edge(tris, k) == e ==> k == a || k == b {
        if u.len() > 2 {
            assert(u[0] < u[1] && u[1] < u[2]);
            assert(edge(tris, u[0]) == e && edge(tris, u[1]) == e && edge(tris, u[2]) == e);
        }
        assert(u.len() == 2 && i == 0 && j == 1);
    }
}

/// A triangle that is turned over keeps its first corner and runs round the other
/// way, and turned over again it is as it was.
pub proof fn lemma_turning_over_reverses(t: Tri, u: Tri)
    requires
        u@ == turned(t),
    ensures
        u@[0] == t@[0] && u@[1] == t@[2] && u@[2] == t@[1],
        turned(u) == t@,
{
    assert(turned(u) =~= t@);
}

/// A piece is inside out where it encloses a volume, is all but closed, and its
/// volume comes out positive inside an odd number of other pieces or negative
/// otherwise. A piece with an open edge to every ten triangles is left alone.
pub proof fn lemma_inside_out_goes_by_the_volume(size: nat, gaps: nat, positive: bool, nested: bool)
    ensures
        gaps == 0 && size > 0 ==> inside_out(size, gaps, Enclosure::Solid { positive, nested }) == (
        positive == nested),
        10 * gaps >= size && gaps > 0 ==> !inside_out(
            size,
            gaps,
            Enclosure::Solid { positive, nested },
        ),
        !inside_out(size, gaps, Enclosure::Flat),
        10 * gaps < size ==> inside_out(size, gaps, Enclosure::Solid { positive: true, nested: true }),
        10 * gaps < size ==> !inside_out(
            size,
            gaps,
            Enclosure::Solid { positive: true, nested: false },
        ),
        10 * gaps < size ==> inside_out(
            size,
            gaps,
            Enclosure::Solid { positive: false, nested: false },
        ),
{
}

} // verus!
