# solid-diff

Reads SolidWorks part files (2015 and later), extracts the embedded Parasolid
B-rep, meshes it, renders it, writes it as STEP, and compares revisions face by
face.

The library under `src/` is verified with Verus: what each function returns or
changes is stated in its contract and proved. The program under `app/` is
ordinary Rust around it: arguments, files, the HTTP server, and everything that
is floating-point arithmetic.

## Layout

| path | what |
|---|---|
| `src/container.rs`, `src/sections.rs`, `src/inflate.rs` | chunk container, zlib carving, transmit sniffing |
| `src/xt/` | Parasolid XT decoder: schema, reader, node records |
| `src/graph.rs`, `src/topology.rs`, `src/value.rs` | node graph: chains, attributes, colours, identities |
| `src/part.rs`, `src/scan.rs`, `src/pdm.rs` | bodies of a part, reports of it, revisions in a backup |
| `src/geometry.rs`, `src/nurbs.rs` | what the file says of its curves and surfaces |
| `src/sample.rs`, `src/grid.rs`, `src/trim.rs`, `src/weld.rs` | shared edge samples, inside or outside, trimming, welding |
| `src/mesh.rs`, `src/edges.rs`, `src/orient.rs`, `src/winding.rs`, `src/settled.rs`, `src/files.rs` | meshes: edges, winding, pieces, OBJ and STL |
| `src/bsp.rs`, `src/render.rs` | paint order, feature edges, SVG |
| `src/iso.rs`, `src/splat.rs`, `src/sheet.rs`, `src/font.rs`, `src/anim.rs` | images, z-buffer, contact sheets, turntables |
| `src/diff.rs`, `src/verdicts.rs` | comparing two revisions |
| `src/step/` | STEP export |
| `src/frames.rs` | verdicts on rendered frames |
| `app/` | the `solid-diff` program |
| `tests/` | tests of the library |

Doubles stand in the library as their bits; `src/double.rs` orders them.

## The program

    solid-diff scan    part.SLDPRT --streams
    solid-diff extract part.SLDPRT -o out/
    solid-diff mesh    part.SLDPRT -o part.obj --stl part.stl --stats
    solid-diff render  *.SLDPRT -o sheet.svg --size 360
    solid-diff iso     *.SLDPRT -o sheet.png --size 420
    solid-diff spin    part.SLDPRT -o spin.gif
    solid-diff diff    old.SLDPRT new.SLDPRT -o diff.png
    solid-diff step    part.SLDPRT -o part.step
    solid-diff changes vault/ 2026-06-01
    solid-diff frames  --images renders/ --out verdicts/

The text of the base schema is read at run time (`--schema`, by default
`assets/sch_13006.s_t`).
