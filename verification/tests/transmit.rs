use std::collections::HashMap;

use solid_diff::graph::Graph;
use solid_diff::sections::carve_zlib;
use solid_diff::value::{Node, Value};
use solid_diff::xt::reader::Reader;
use solid_diff::xt::schema::{base_schema, base_schema_name, parse_base_schema, BaseSchema, FieldType};
use solid_diff::xt::{parse_transmit, read_document, resolve_node_schema, Types};

const SCHEMA: &str = "**PARASOLID SCHEMA\nKEY=SCH_13006_1\n\
13 POINT; A point; 1 4 0 \n\
owner; p; 1 1 0 \n\
pvec; v; 1 0 0 \n\
tag; d; 1 0 1 \n\
hidden; d; 0 0 1 \n\
14 FACE; A face; 1 2 0 \n\
sense; c; 1 0 1 \n\
next; p; 1 1 0 \n\
17 NAMES; Names; 1 1 1 \n\
string; c; 1 0 1 \n\
18 KNOT_SET; Knots; 1 1 1 \n\
knots; f; 1 0 1 \n\
88 TAG_VALUES; Not known; 1 1 1 \n\
values; t; 1 0 1 \n\
89 SECRET; Never sent; 0 1 0 \n\
values; d; 1 0 1 \n\
90 MIXED; All sorts; 1 7 0 \n\
flag; l; 1 0 1 \n\
byte; u; 1 0 1 \n\
short; n; 1 0 1 \n\
wide; w; 1 0 3 \n\
range; i; 1 0 1 \n\
extent; b; 1 0 1 \n\
pair; p; 1 0 2 \n";

fn schema() -> BaseSchema {
    base_schema(SCHEMA)
}

fn text(s: &str) -> Vec<u8> {
    let mut v = (s.len() as i32).to_be_bytes().to_vec();
    v.extend_from_slice(s.as_bytes());
    v
}

fn short_text(s: &str) -> Vec<u8> {
    let mut v = vec![s.len() as u8];
    v.extend_from_slice(s.as_bytes());
    v
}

fn header() -> Vec<u8> {
    let mut v = b"PS".to_vec();
    v.extend(text(": TRANSMIT FILE created by modeller version 2900085"));
    v.extend(text("SCH_2900085_29000_13006_1"));
    v.extend(200i16.to_be_bytes());
    v.extend(2i16.to_be_bytes());
    v.extend([0, 0]);
    v
}

fn end() -> Vec<u8> {
    let mut v = 1i16.to_be_bytes().to_vec();
    v.extend(0i16.to_be_bytes());
    v
}

fn point(first: bool, id: i16, owner: i16, at: [f64; 3], tag: i32) -> Vec<u8> {
    let mut v = 13i16.to_be_bytes().to_vec();
    if first {
        v.push(255);
    }
    v.extend(id.to_be_bytes());
    v.extend(owner.to_be_bytes());
    for x in at {
        v.extend(x.to_be_bytes());
    }
    v.extend(tag.to_be_bytes());
    v
}

fn whole(parts: &[Vec<u8>]) -> Vec<u8> {
    let mut v = header();
    for p in parts {
        v.extend_from_slice(p);
    }
    v.extend(end());
    v
}

fn bits(v: [f64; 3]) -> [u64; 3] {
    [v[0].to_bits(), v[1].to_bits(), v[2].to_bits()]
}

fn fault(blob: &[u8]) -> String {
    match parse_transmit(blob, &schema()) {
        Ok(_) => panic!("this should not be read"),
        Err(e) => e.0,
    }
}

#[test]
fn schema_text_is_read() {
    let s = parse_base_schema(SCHEMA);
    assert_eq!(s.len(), 5);
    // A field with an unknown code drops its type, and so does a type that is
    // not transmitted.
    assert!(!s.contains_key(&88));
    assert!(!s.contains_key(&89));
    let p = &s[&13];
    assert_eq!(p.node_name, "POINT");
    assert_eq!(p.description, "A point");
    assert!(!p.variable);
    let names: Vec<&str> = p.fields.iter().map(|f| f.name.as_str()).collect();
    assert_eq!(names, vec!["owner", "pvec", "tag"]);
    assert_eq!(p.fields[1].field_type, FieldType::Vector);
    assert!(s[&17].variable);
    assert_eq!(s[&17].fields[0].field_type, FieldType::Char);
    assert_eq!(base_schema_name(SCHEMA), "13006_1");
    assert_eq!(base_schema_name("no key here"), "13006");
}

#[test]
fn field_codes() {
    assert_eq!(FieldType::from_code("u"), Some(FieldType::U8));
    assert_eq!(FieldType::from_code("h"), Some(FieldType::H));
    assert_eq!(FieldType::from_code("t"), None);
    assert_eq!(FieldType::from_code(""), None);
}

#[test]
fn nodes_are_read_by_the_base_schema() {
    let blob = whole(&[
        point(true, 5, 1, [0.5, -1.0, 2.0], 42),
        point(false, 6, 5, [0.0, 0.0, 0.0], -1),
    ]);
    let doc = match read_document(&blob, &schema()) {
        Ok(d) => d,
        Err(e) => panic!("{}", e.0),
    };
    assert_eq!(doc.schema_name, "SCH_2900085_29000_13006_1");
    assert_eq!((doc.schema_min_type, doc.schema_max_type), (2, 200));
    assert_eq!(doc.nodes.len(), 2);
    let n = &doc.nodes[0];
    assert_eq!((n.name.as_str(), n.id, n.node_type), ("POINT", 5, 13));
    assert_eq!(n.count, None);
    assert_eq!(n.ptr("owner"), None);
    assert_eq!(n.vec3("pvec"), Some(bits([0.5, -1.0, 2.0])));
    assert_eq!(n.i64("tag"), Some(42));
    assert_eq!(doc.nodes[1].ptr("owner"), Some(5));
    assert_eq!(doc.nodes[1].i64("tag"), Some(-1));
    assert!(doc.nodes[1].field("hidden").is_none());
}

#[test]
fn the_last_field_of_a_variable_node_repeats() {
    let mut knots = 18i16.to_be_bytes().to_vec();
    knots.push(255);
    knots.extend(3i32.to_be_bytes());
    knots.extend(7i16.to_be_bytes());
    for x in [0.0f64, 0.25, 1.0] {
        knots.extend(x.to_be_bytes());
    }
    let mut name = 17i16.to_be_bytes().to_vec();
    name.push(255);
    name.extend(5i32.to_be_bytes());
    name.extend(8i16.to_be_bytes());
    name.extend(b"hello");
    let nodes = parse_transmit(&whole(&[knots, name]), &schema()).unwrap();
    assert_eq!(nodes[0].count, Some(3));
    let want: Vec<u64> = [0.0f64, 0.25, 1.0].iter().map(|x| x.to_bits()).collect();
    assert_eq!(nodes[0].f64_vec("knots"), Some(want));
    assert_eq!(nodes[1].str("string"), Some("hello"));
    assert_eq!(nodes[1].count, Some(5));
}

#[test]
fn every_kind_of_field_is_read() {
    let mut n = 90i16.to_be_bytes().to_vec();
    n.push(255);
    n.extend(3i16.to_be_bytes());
    n.push(1);
    n.push(200);
    n.extend((-32764i16).to_be_bytes());
    for c in [0x0041u16, 0xD83D, 0xDE00] {
        n.extend(c.to_be_bytes());
    }
    for x in [1.0f64, 2.0] {
        n.extend(x.to_be_bytes());
    }
    for x in [1.0f64, 2.0, 3.0, 4.0, 5.0] {
        n.extend(x.to_be_bytes());
    }
    // The number that stands for none.
    n.extend(0xC2BC928F996E0000u64.to_be_bytes());
    n.extend(4i16.to_be_bytes());
    n.extend(1i16.to_be_bytes());
    let nodes = parse_transmit(&whole(&[n]), &schema()).unwrap();
    let f = |name: &str| nodes[0].field(name).unwrap();
    assert_eq!(*f("flag"), Value::Bool(true));
    assert_eq!(*f("byte"), Value::U8(200));
    // A field that holds nothing is as good as none.
    assert!(nodes[0].field("short").is_none());
    assert!(nodes[0].fields[2].1.is_null());
    assert_eq!(*f("wide"), Value::Utf16("A\u{1F600}".to_string()));
    assert_eq!(
        *f("range"),
        Value::Interval([1.0f64.to_bits(), 2.0f64.to_bits()])
    );
    let b = |x: f64| x.to_bits();
    assert_eq!(
        *f("extent"),
        Value::Box3([[b(1.0), b(2.0)], [b(3.0), b(4.0)], [b(5.0), 0x7ff8000000000000]])
    );
    assert_eq!(nodes[0].ptrs("pair"), vec![4]);
}

fn embedded(name: &str, class: i16, n: i16, code: &str, mark: Option<u8>) -> Vec<u8> {
    let mut v = short_text(name);
    v.extend(class.to_be_bytes());
    v.extend(n.to_be_bytes());
    if class == 0 {
        v.extend(short_text(code));
    }
    if let Some(m) = mark {
        v.push(m);
    }
    v
}

#[test]
fn a_delta_schema_edits_the_base_layout() {
    let mut n = 13i16.to_be_bytes().to_vec();
    n.push(4); // an edited layout
    n.push(b'C'); // owner
    n.push(b'D'); // no pvec
    n.push(b'I');
    n.extend(embedded("extra", 0, 3, "d", None)); // stored one too high
    n.push(b'C'); // tag
    n.push(b'A');
    n.extend(embedded("link", 9, 1, "", None));
    n.push(b'Z');
    n.extend(5i16.to_be_bytes()); // id
    n.extend(1i16.to_be_bytes()); // owner
    n.extend(10i32.to_be_bytes());
    n.extend(11i32.to_be_bytes()); // extra
    n.extend(12i32.to_be_bytes()); // tag
    n.extend(6i16.to_be_bytes()); // link
    let nodes = parse_transmit(&whole(&[n]), &schema()).unwrap();
    assert_eq!(nodes[0].i64_vec("extra"), Some(vec![10, 11]));
    assert_eq!(nodes[0].i64("tag"), Some(12));
    assert_eq!(nodes[0].ptr("link"), Some(6));
    assert!(nodes[0].field("pvec").is_none());
}

#[test]
fn a_type_may_bring_its_own_schema() {
    let mut n = 150i16.to_be_bytes().to_vec();
    n.push(2);
    n.extend(short_text("FANCY"));
    n.extend(short_text("Newer than the base"));
    n.extend(embedded("a", 0, 1, "d", None));
    n.extend(embedded("list", 0, 2, "n", Some(1)));
    n.extend(2i32.to_be_bytes()); // variable, because its last field is marked
    n.extend(9i16.to_be_bytes());
    n.extend(77i32.to_be_bytes());
    n.extend(3i16.to_be_bytes());
    n.extend(4i16.to_be_bytes());
    let nodes = parse_transmit(&whole(&[n]), &schema()).unwrap();
    assert_eq!(nodes[0].name, "FANCY");
    assert_eq!(nodes[0].count, Some(2));
    assert_eq!(nodes[0].i64("a"), Some(77));
    assert_eq!(nodes[0].i64_vec("list"), Some(vec![3, 4]));
}

#[test]
fn a_banner_is_skipped() {
    let blob = whole(&[point(true, 5, 1, [0.5, -1.0, 2.0], 42)]);
    let mut xb: Vec<u8> = Vec::new();
    xb.extend_from_slice(b"**PARASOLID !\"#$%&'()*+,-./:;<=>?@\n**PART1;FORMAT=binary;\n");
    xb.extend_from_slice(b"**END_OF_HEADER**\n");
    xb.extend_from_slice(&blob);
    let plain = parse_transmit(&blob, &schema()).unwrap();
    let from_xb = parse_transmit(&xb, &schema()).unwrap();
    assert_eq!(from_xb.len(), plain.len());
    for (a, b) in from_xb.iter().zip(plain.iter()) {
        assert_eq!(format!("{a:?}"), format!("{b:?}"), "node {} differs", a.id);
    }
}

#[test]
fn banners_that_do_not_end_are_refused() {
    assert_eq!(
        fault(b"**PARASOLID and nothing else"),
        "invalid file: missing **END_OF_HEADER** marker"
    );
    assert_eq!(
        fault(b"**PARASOLID\n**END_OF_HEADER** no line end"),
        "invalid file: missing newline after header marker"
    );
    assert_eq!(
        fault(b"**PARASOLID\n**END_OF_HEADER**\nXX"),
        "invalid file: only PS binary format is supported"
    );
}

#[test]
fn every_fault_has_its_words() {
    assert_eq!(
        fault(b"XY"),
        "invalid file: only PS binary format is supported"
    );
    assert_eq!(
        fault(b"PS"),
        "unexpected end of transmit: want 4 bytes at offset 2, 0 left"
    );
    let mut v = b"PS".to_vec();
    v.extend((-3i32).to_be_bytes());
    assert_eq!(fault(&v), "negative string length -3");
    let mut v = b"PS".to_vec();
    v.extend(1i32.to_be_bytes());
    v.push(0xC3);
    assert_eq!(fault(&v), "non-ASCII byte in char field");
    // Another schema.
    let mut v = b"PS".to_vec();
    v.extend(text("v"));
    v.extend(text("SCH_12345"));
    v.extend([0; 6]);
    assert_eq!(
        fault(&v),
        "file schema name 'SCH_12345' does not match expected base schema '13006_1'"
    );
    // Bytes behind the end.
    let mut v = whole(&[]);
    v.push(7);
    assert_eq!(
        fault(&v),
        "expected end of file after termination node (1 bytes left)"
    );
    // Node types.
    let mut v = header();
    v.extend(201i16.to_be_bytes());
    assert_eq!(fault(&v), "invalid node type 201; max allowed is 200");
    let mut v = header();
    v.extend(199i16.to_be_bytes());
    v.push(255);
    assert_eq!(
        fault(&v),
        "node type #199 missing from base schema and no embedded schema provided"
    );
    // Edits.
    let mut v = header();
    v.extend(17i16.to_be_bytes());
    v.extend([2, b'C', b'C']);
    assert_eq!(
        fault(&v),
        "delta-schema 'C' past end of base fields for node type 17"
    );
    let mut v = header();
    v.extend(17i16.to_be_bytes());
    v.extend([2, b'\'']);
    assert_eq!(fault(&v), "unknown delta-schema instruction: '\\''");
    let mut v = header();
    v.extend(17i16.to_be_bytes());
    v.extend([2, b'A']);
    v.extend(embedded("odd", 0, 1, "q", None));
    assert_eq!(fault(&v), "'q' is not a valid field type");
    // Values.
    let mut n = header();
    n.extend(90i16.to_be_bytes());
    n.push(255);
    n.extend(3i16.to_be_bytes());
    n.push(2);
    assert_eq!(fault(&n), "invalid boolean value: 2");
    let mut n = header();
    n.extend(90i16.to_be_bytes());
    n.push(255);
    n.extend(3i16.to_be_bytes());
    n.extend([0, 0, 0, 0]);
    for c in [0x0041u16, 0xD83D, 0x0041] {
        n.extend(c.to_be_bytes());
    }
    assert_eq!(
        fault(&n),
        "bad utf-16: invalid utf-16: lone surrogate found"
    );
}

#[test]
fn broken_transmits_are_errors() {
    let blob = whole(&[
        point(true, 5, 1, [0.5, -1.0, 2.0], 42),
        point(false, 6, 5, [0.0, 0.0, 0.0], -1),
    ]);
    for cut in 0..blob.len() {
        assert!(parse_transmit(&blob[..cut], &schema()).is_err());
    }
    for i in 0..blob.len() {
        let mut bad = blob.clone();
        bad[i] ^= 0xFF;
        let _ = parse_transmit(&bad, &schema());
    }
    // Carving ends on garbage that merely looks like zlib.
    let mut junk = vec![0x78u8, 0x9c];
    junk.extend(std::iter::repeat_n(0xABu8, 5000));
    let carved = carve_zlib(&junk);
    assert_eq!(carved.len(), 1);
    assert_eq!(carved[0].len(), 4999);
}

#[test]
fn schema_data_past_the_end_is_an_error() {
    let base = schema();
    let data = [90u8, 90, 90];
    for pos in [3, 4, 1000, usize::MAX] {
        for node_type in [13, 150] {
            let mut types = Types {
                base: &base.types,
                embedded: HashMap::new(),
            };
            let mut r = Reader { data: &data, pos };
            assert!(resolve_node_schema(&mut r, node_type, 1, &mut types).is_err());
            assert_eq!(r.pos, pos);
        }
    }
}

#[test]
fn nothing_follows_the_terminator() {
    let blob = whole(&[point(true, 5, 1, [0.5, -1.0, 2.0], 42)]);
    let doc = read_document(&blob, &schema()).unwrap();
    assert!(doc.schema_name.ends_with(&schema().name));
    for n in &doc.nodes {
        assert!(n.node_type != 1 && n.node_type <= doc.schema_max_type);
        assert_eq!(n.count, None, "points are of one length");
    }
    for tail in [&[0u8][..], &[0, 1, 0, 0], &blob] {
        let mut longer = blob.clone();
        longer.extend_from_slice(tail);
        assert!(read_document(&longer, &schema()).is_err());
    }
}

#[test]
fn a_reader_stays_where_it_was_when_bytes_run_out() {
    let data = [1u8, 2, 3];
    let mut r = Reader::new(&data);
    assert_eq!(r.remaining(), 3);
    assert!(r.take(4).is_err());
    assert_eq!(r.remaining(), 3);
    assert_eq!(r.take(2).unwrap(), &[1, 2]);
    assert_eq!(r.u8().unwrap(), 3);
    assert!(r.u8().is_err());
}

fn node(id: i16, name: &str, fields: Vec<(&str, Value)>) -> Node {
    Node {
        node_type: 0,
        name: name.to_string(),
        id,
        count: None,
        fields: fields
            .into_iter()
            .map(|(n, v)| (n.to_string(), v))
            .collect(),
    }
}

fn ptr(id: i16) -> Value {
    Value::Ptr(Some(id))
}

#[test]
fn chains_end_even_where_links_go_round() {
    let g = Graph::new(vec![
        node(1, "HALFEDGE", vec![("backward", ptr(2))]),
        node(2, "HALFEDGE", vec![("backward", ptr(3))]),
        node(3, "HALFEDGE", vec![("backward", ptr(1))]),
        node(4, "LOOP", vec![("halfedge", ptr(1)), ("next", ptr(9))]),
        node(5, "FACE", vec![("loop", ptr(4))]),
    ]);
    let ids: Vec<i16> = g.chain(Some(2), "backward").iter().map(|n| n.id).collect();
    assert_eq!(ids, vec![2, 3, 1]);
    let lp = g.get(4).unwrap();
    let ids: Vec<i16> = g.loop_halfedges(lp).iter().map(|n| n.id).collect();
    assert_eq!(ids, vec![1, 2, 3]);
    let loops: Vec<i16> = g
        .face_loops(g.get(5).unwrap())
        .iter()
        .map(|n| n.id)
        .collect();
    assert_eq!(loops, vec![4]);
    assert!(g.chain(None, "backward").is_empty());
    assert!(g.deref(lp, "next").is_none());
    assert_eq!(g.by_type("HALFEDGE").len(), 3);
    assert!(g.get(77).is_none());
}

#[test]
fn a_later_node_of_an_id_wins() {
    let g = Graph::new(vec![
        node(1, "FACE", vec![]),
        node(1, "EDGE", vec![]),
        node(2, "FACE", vec![]),
    ]);
    assert_eq!(g.get(1).unwrap().name, "EDGE");
    assert_eq!(g.by_type("FACE").len(), 1);
    // The order keeps the place of every node that was given.
    assert_eq!(g.by_type("EDGE").len(), 2);
}

fn attributed(name: &str, values: Vec<(&'static str, Value)>) -> Graph {
    let mut nodes = vec![
        node(1, "FACE", vec![("attributes_features", ptr(2))]),
        node(
            2,
            "ATTRIBUTE",
            vec![
                ("definition", ptr(3)),
                (
                    "fields",
                    Value::Array((0..values.len()).map(|i| ptr(10 + i as i16)).collect()),
                ),
            ],
        ),
        node(3, "ATTRIB_DEF", vec![("identifier", ptr(4))]),
        node(
            4,
            "ATT_DEF_ID",
            vec![("string", Value::Char(name.to_string()))],
        ),
    ];
    for (i, (kind, v)) in values.into_iter().enumerate() {
        nodes.push(node(10 + i as i16, kind, vec![("values", v)]));
    }
    Graph::new(nodes)
}

#[test]
fn face_colours_come_from_their_attribute() {
    let b = |x: f64| x.to_bits();
    let reals = Value::Array(vec![
        Value::F64(b(0.25)),
        Value::F64(b(0.5)),
        Value::F64(b(0.75)),
    ]);
    let g = attributed("SDL/TYSA_COLOUR", vec![("REAL_VALUES", reals)]);
    let face = g.get(1).unwrap();
    assert_eq!(g.face_color(face), Some(bits([0.25, 0.5, 0.75])));
    assert_eq!(g.attributes(face).len(), 1);
    assert_eq!(g.attributes(face)[0].name, "SDL/TYSA_COLOUR");
    let other = attributed("SDL/TYSA_DENSITY", vec![("REAL_VALUES", Value::F64(b(1.0)))]);
    assert_eq!(other.face_color(other.get(1).unwrap()), None);
}

#[test]
fn face_ids_tell_faces_apart() {
    let id = |tuple: Vec<i32>| {
        let items: Vec<Value> = tuple.into_iter().map(Value::I32).collect();
        let g = attributed("FACE_ID_1", vec![("INT_VALUES", Value::Array(items))]);
        g.face_stable_id(g.get(1).unwrap())
    };
    // The whole tuple counts: faces that share a feature differ in its end.
    assert_ne!(id(vec![7, 3, 1]), id(vec![7, 3, 2]));
    assert_eq!(id(vec![7, 3, 1]), id(vec![7, 3, 1]));
    // So does a difference in any other single place.
    assert_ne!(id(vec![7, 3, 1]), id(vec![8, 3, 1]));
    assert_ne!(id(vec![7, 3, 1]), id(vec![7, -3, 1]));
    // So do small entries in the last two places.
    assert_ne!(id(vec![7, 3, 1]), id(vec![7, 4, 2_000_000_000]));
    assert_eq!(id(vec![5]), Some(5));
    assert_eq!(id(vec![2, 3]), Some(2 * 0x100000001b3 + 3));
    assert_eq!(id(vec![]), None);
}

#[test]
fn model_points_are_those_of_points_and_centres() {
    let g = Graph::new(vec![
        node(1, "POINT", vec![("pvec", Value::Vec3(bits([1.0, 2.0, 3.0])))]),
        node(
            2,
            "SPHERE",
            vec![("centre", Value::Vec3(bits([4.0, 5.0, 6.0])))],
        ),
        node(3, "FACE", vec![]),
    ]);
    assert_eq!(
        g.model_points(),
        vec![bits([1.0, 2.0, 3.0]), bits([4.0, 5.0, 6.0])]
    );
}

#[test]
fn values_are_read_as_what_they_hold() {
    let b = |x: f64| x.to_bits();
    assert_eq!(Value::I32(3).as_f64(), Some(b(3.0)));
    assert_eq!(Value::F64(b(2.5)).as_f64(), Some(b(2.5)));
    assert_eq!(Value::F64(b(-2.9)).as_i64(), Some(-2));
    assert_eq!(Value::U8(7).as_i64(), Some(7));
    assert_eq!(Value::Null.as_i64(), None);
    assert_eq!(Value::Bool(true).as_bool(), Some(true));
    assert_eq!(Value::Char("x".to_string()).as_str(), Some("x"));
    assert_eq!(ptr(4).as_ptr(), Some(4));
    assert!(Value::Ptr(None).is_null());
    assert!(!ptr(4).is_null());
    let list = Value::Array(vec![Value::I16(1), Value::I16(2)]);
    assert_eq!(list.as_i64_vec(), Some(vec![1, 2]));
    assert_eq!(list.as_f64_vec(), Some(vec![b(1.0), b(2.0)]));
    assert_eq!(Value::Vec3(bits([1.0, 2.0, 3.0])).as_vec3(), Some(bits([1.0, 2.0, 3.0])));
    assert_eq!(list.clone(), list);
}
