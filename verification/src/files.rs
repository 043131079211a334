//! Meshes as files: OBJ text and binary STL.

use vstd::prelude::*;

use crate::mesh::{obj_lines, Mesh};

verus! {

// ---- OBJ ----

/// The texts of the coordinates of one vertex.
pub struct Coords {
    pub x: String,
    pub y: String,
    pub z: String,
}

/// The line of a vertex.
pub open spec fn vertex_line(v: Coords) -> Seq<char> {
    "v "@ + v.x@ + " "@ + v.y@ + " "@ + v.z@ + "\n"@
}

/// The lines of vertices.
pub open spec fn vertex_lines(vertices: Seq<Coords>) -> Seq<char>
    decreases vertices.len(),
{
    if vertices.len() == 0 {
        Seq::empty()
    } else {
        vertex_lines(vertices.drop_last()) + vertex_line(vertices.last())
    }
}

/// The triangles that a mesh tells the face of.
pub open spec fn told(mesh: Mesh) -> nat {
    if mesh.triangles@.len() < mesh.face_ids@.len() {
        mesh.triangles@.len()
    } else {
        mesh.face_ids@.len()
    }
}

/// A mesh as an OBJ file, by the texts of its coordinates.
pub fn obj_file(mesh: &Mesh, vertices: &[Coords]) -> (r: String)
    ensures
        r@ == "# solid-diff brep2mesh\n"@ + vertex_lines(vertices@) + obj_lines(
            mesh.triangles@,
            mesh.face_ids@,
            told(*mesh),
        ),
{
    let mut s = "# solid-diff brep2mesh\n".to_owned();
    let ghost head = s@;
    let mut i: usize = 0;
    assert(vertices@.take(0) =~= Seq::<Coords>::empty());
    assert(s@ =~= head + vertex_lines(vertices@.take(0)));
    while i < vertices.len()
        invariant
            i <= vertices@.len(),
            s@ == head + vertex_lines(vertices@.take(i as int)),
        decreases vertices@.len() - i,
    {
        let ghost before = s@;
        s.append("v ");
        s.append(vertices[i].x.as_str());
        s.append(" ");
        s.append(vertices[i].y.as_str());
        s.append(" ");
        s.append(vertices[i].z.as_str());
        s.append("\n");
        proof {
            let v = vertices@[i as int];
            assert(s@ =~= before + vertex_line(v));
            assert(vertices@.take(i + 1).drop_last() =~= vertices@.take(i as int));
            assert(vertices@.take(i + 1).last() == v);
            assert(s@ =~= head + vertex_lines(vertices@.take(i + 1)));
        }
        i += 1;
    }
    assert(vertices@.take(i as int) =~= vertices@);
    s.append(mesh.obj_faces().as_str());
    s
}

// ---- STL ----

/// A number as two bytes, the lowest first.
pub open spec fn two_bytes(n: u16) -> Seq<u8> {
    seq![(n % 256) as u8, (n / 256) as u8]
}

/// A number as four bytes, the lowest first.
pub open spec fn four_bytes(n: u32) -> Seq<u8> {
    seq![
        (n % 256) as u8,
        (n / 256 % 256) as u8,
        (n / 65536 % 256) as u8,
        (n / 16777216) as u8,
    ]
}

/// What a header of an STL file begins with.
pub const STL_TAG: [u8; 20] = [
    115, 111, 108, 105, 100, 45, 100, 105, 102, 102, 32, 98, 114, 101, 112, 50, 109, 101, 115, 104,
];

/// How long the header of an STL file is.
pub const STL_HEADER: usize = 80;

/// The header of an STL file: the tag, and zeros.
pub open spec fn stl_header() -> Seq<u8> {
    STL_TAG@ + Seq::new(60, |i: int| 0u8)
}

/// Numbers of single precision as bytes.
pub open spec fn all_bytes(reals: Seq<u32>) -> Seq<u8>
    decreases reals.len(),
{
    if reals.len() == 0 {
        Seq::empty()
    } else {
        all_bytes(reals.drop_last()) + four_bytes(reals.last())
    }
}

/// One facet of an STL file: a normal and three corners, and an attribute of
/// zero.
pub open spec fn facet_bytes(facet: Seq<u32>) -> Seq<u8> {
    all_bytes(facet) + two_bytes(0)
}

/// The facets of an STL file.
pub open spec fn facets_bytes(facets: Seq<[u32; 12]>) -> Seq<u8>
    decreases facets.len(),
{
    if facets.len() == 0 {
        Seq::empty()
    } else {
        facets_bytes(facets.drop_last()) + facet_bytes(facets.last()@)
    }
}

/// A binary STL file.
pub open spec fn stl_bytes(facets: Seq<[u32; 12]>) -> Seq<u8> {
    stl_header() + four_bytes(facets.len() as u32) + facets_bytes(facets)
}

fn push_four(out: &mut Vec<u8>, n: u32)
    ensures
        final(out)@ == old(out)@ + four_bytes(n),
{
    let ghost before = out@;
    out.push((n % 256) as u8);
    out.push((n / 256 % 256) as u8);
    out.push((n / 65536 % 256) as u8);
    out.push((n / 16777216) as u8);
    assert(out@ =~= before + four_bytes(n));
}

fn push_facet(out: &mut Vec<u8>, facet: &[u32; 12])
    ensures
        final(out)@ == old(out)@ + facet_bytes(facet@),
{
    let ghost before = out@;
    let mut k: usize = 0;
    assert(facet@.take(0) =~= Seq::<u32>::empty());
    assert(out@ =~= before + all_bytes(facet@.take(0)));
    while k < 12
        invariant
            k <= 12,
            out@ == before + all_bytes(facet@.take(k as int)),
        decreases 12 - k,
    {
        let ghost now = out@;
        push_four(out, facet[k]);
        assert(facet@.take(k + 1).drop_last() =~= facet@.take(k as int));
        assert(facet@.take(k + 1).last() == facet@[k as int]);
        assert(out@ =~= before + all_bytes(facet@.take(k + 1)));
        k += 1;
    }
    assert(facet@.take(12) =~= facet@);
    out.push(0);
    out.push(0);
    assert(out@ =~= before + facet_bytes(facet@));
}

/// A binary STL file of facets: a normal and three corners each, as numbers of
/// single precision by their bits. The count wraps where there are more facets
/// than it can tell.
pub fn stl_file(facets: &[[u32; 12]]) -> (r: Vec<u8>)
    ensures
        r@ == stl_bytes(facets@),
{
    let mut out: Vec<u8> = Vec::new();
    let mut i: usize = 0;
    while i < STL_HEADER
        invariant
            i <= STL_HEADER,
            out@ == stl_header().take(i as int),
        decreases STL_HEADER - i,
    {
        if i < 20 {
            out.push(STL_TAG[i]);
        } else {
            out.push(0);
        }
        assert(out@ =~= stl_header().take(i + 1));
        i += 1;
    }
    assert(out@ =~= stl_header());
    push_four(&mut out, facets.len() as u32);
    let ghost head = out@;
    let mut f: usize = 0;
    assert(facets@.take(0) =~= Seq::<[u32; 12]>::empty());
    assert(out@ =~= head + facets_bytes(facets@.take(0)));
    while f < facets.len()
        invariant
            f <= facets@.len(),
            out@ == head + facets_bytes(facets@.take(f as int)),
        decreases facets@.len() - f,
    {
        push_facet(&mut out, &facets[f]);
        assert(facets@.take(f + 1).drop_last() =~= facets@.take(f as int));
        assert(facets@.take(f + 1).last() == facets@[f as int]);
        assert(out@ =~= head + facets_bytes(facets@.take(f + 1)));
        f += 1;
    }
    assert(facets@.take(f as int) =~= facets@);
    out
}

// ---- laws ----

proof fn lemma_bytes_of_reals(reals: Seq<u32>)
    ensures
        all_bytes(reals).len() == 4 * reals.len(),
    decreases reals.len(),
{
    if reals.len() > 0 {
        lemma_bytes_of_reals(reals.drop_last());
    }
}

/// A facet takes fifty bytes behind a header of eighty-four.
pub proof fn lemma_stl_size(facets: Seq<[u32; 12]>)
    ensures
        stl_bytes(facets).len() == 84 + 50 * facets.len(),
    decreases facets.len(),
{
    if facets.len() > 0 {
        lemma_stl_size(facets.drop_last());
        lemma_bytes_of_reals(facets.last()@);
    }
}

/// The number that four bytes stand for.
pub open spec fn number_of_four(b: Seq<u8>) -> int {
    b[0] + 256 * b[1] + 65536 * b[2] + 16777216 * b[3]
}

/// The bytes of a number give it back.
pub proof fn lemma_four_bytes_read_back(n: u32)
    ensures
        number_of_four(four_bytes(n)) == n,
{
}

} // verus!
