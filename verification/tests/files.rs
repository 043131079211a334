use std::io::Write;

use solid_diff::container::{is_modern_swx, parse, rol_decode};
use solid_diff::frames::{
    needs_triage, part_name, sort_items, verdict, verdicts_batch, Item, Refusal, Tally, Verdict,
    VerdictReq, Verdicts,
};
use solid_diff::inflate::inflate_zlib_prefix;
use solid_diff::part::{body_graphs, file_graph, is_bare_transmit, transmit_graph};
use solid_diff::pdm::{is_part_file, read_core_props, revision};
use solid_diff::scan::{
    extracts, kind_name, largest_streams, summary_line, transmit_label, transmit_name, transmits,
    version_stream,
};
use solid_diff::sections::TransmitKind;
use solid_diff::xt::schema::{base_schema, BaseSchema};
use solid_diff::Error;

const KEY: u8 = 3;

fn schema() -> BaseSchema {
    base_schema("KEY=SCH_13006\n14 FACE; A face; 1 1 0 \nnext; p; 1 1 0 \n")
}

fn text(s: &str) -> Vec<u8> {
    let mut v = (s.len() as i32).to_be_bytes().to_vec();
    v.extend_from_slice(s.as_bytes());
    v
}

fn transmit(kind: &str, faces: i16) -> Vec<u8> {
    let mut v = b"PS".to_vec();
    v.extend(text(&format!(
        ": TRANSMIT FILE {kind}created by modeller version 2900085"
    )));
    v.extend(text("SCH_13006"));
    v.extend(200i16.to_be_bytes());
    v.extend(2i16.to_be_bytes());
    v.extend([0, 0]);
    for i in 0..faces {
        v.extend(14i16.to_be_bytes());
        if i == 0 {
            v.push(255);
        }
        v.extend((i + 2).to_be_bytes());
        v.extend(1i16.to_be_bytes());
    }
    v.extend(1i16.to_be_bytes());
    v.extend(0i16.to_be_bytes());
    v
}

fn zlib(data: &[u8]) -> Vec<u8> {
    let mut e = flate2::write::ZlibEncoder::new(Vec::new(), flate2::Compression::default());
    e.write_all(data).unwrap();
    e.finish().unwrap()
}

fn deflate(data: &[u8]) -> Vec<u8> {
    let mut e = flate2::write::DeflateEncoder::new(Vec::new(), flate2::Compression::default());
    e.write_all(data).unwrap();
    e.finish().unwrap()
}

fn encoded(name: &str) -> Vec<u8> {
    name.chars()
        .map(|c| {
            (0..=255u8)
                .find(|b| rol_decode(&[*b], KEY) == c.to_string())
                .unwrap()
        })
        .collect()
}

fn chunk(name: &str, payload: &[u8], inline: bool) -> Vec<u8> {
    let mut v = vec![0, 0, 0, 0];
    v.extend([0x14, 0x00, 0x06, 0x00, 0x08, 0x00]);
    v.extend([7, 0, 0, 0]); // section type and what follows it
    v.extend((if inline { 70000u32 } else { 5 }).to_le_bytes());
    let packed = if payload.is_empty() {
        Vec::new()
    } else {
        deflate(payload)
    };
    v.extend((packed.len() as u32).to_le_bytes());
    v.extend((payload.len() as u32).to_le_bytes());
    v.extend((name.len() as u32).to_le_bytes());
    v.extend(encoded(name));
    if inline {
        v.extend(packed);
    }
    v
}

fn file(chunks: &[Vec<u8>]) -> Vec<u8> {
    let mut v = vec![0; 7];
    v.push(KEY);
    for c in chunks {
        v.extend_from_slice(c);
    }
    v
}

fn part() -> Vec<u8> {
    let mut two = vec![9; 10];
    two.extend(zlib(&transmit("(partition) ", 1)));
    two.extend(zlib(&transmit("(deltas) ", 5)));
    file(&[
        chunk("_MO_VERSION_18000/History", &[1; 300], true),
        chunk("Contents/Config-0-GhostPartition", &zlib(&transmit("", 9)), true),
        chunk("Contents/Config-0-Partition", &two, true),
        chunk("Contents/Config-1-LocalBodies", &zlib(&transmit("", 3)), true),
        chunk("Contents/Elsewhere", b"not here", false),
        chunk("Contents/Config-0-Partition", b"a second one", true),
        chunk("Contents/Empty", b"", true),
    ])
}

#[test]
fn chunks_become_streams() {
    let f = parse(&part()).unwrap();
    assert_eq!(f.rol_key, KEY);
    assert_eq!(f.chunks.len(), 7);
    assert_eq!(f.chunks[0].section_type, 7);
    assert!(f.chunks[0].inline());
    assert!(!f.chunks[4].inline());
    let names: Vec<String> = f.streams().into_iter().map(|s| s.name).collect();
    assert_eq!(
        names,
        vec![
            "_MO_VERSION_18000/History",
            "Contents/Config-0-GhostPartition",
            "Contents/Config-0-Partition",
            "Contents/Config-1-LocalBodies",
            "Contents/Empty"
        ]
    );
    assert_eq!(f.streams()[0].data, vec![1; 300]);
    assert!(f.streams()[4].data.is_empty());
}

#[test]
fn cut_files_are_read_as_far_as_they_go() {
    let data = part();
    for cut in 0..data.len() {
        let head = &data[..cut];
        match parse(head) {
            Ok(f) => assert!(is_modern_swx(head) && f.chunks.len() <= 7),
            Err(e) => assert!(matches!(e, Error::NotModernSldprt)),
        }
    }
}

#[test]
fn bodies_are_ranked_by_their_faces() {
    let bodies = body_graphs(&part(), &schema()).unwrap();
    let found: Vec<(&str, usize)> = bodies
        .iter()
        .map(|b| (b.stream.as_str(), b.graph.by_type("FACE").len()))
        .collect();
    // No ghost partition, no deltas.
    assert_eq!(
        found,
        vec![
            ("Contents/Config-1-LocalBodies", 3),
            ("Contents/Config-0-Partition", 1)
        ]
    );
}

#[test]
fn transmits_without_geometry_are_no_bodies() {
    let stub = || zlib(&transmit("(partition) ", 0));
    let only = file(&[chunk("Contents/Config-0-Partition", &stub(), true)]);
    assert!(matches!(body_graphs(&only, &schema()), Err(Error::NoGeometry)));
    let both = file(&[
        chunk("Contents/Config-0-Partition", &stub(), true),
        chunk("Contents/Config-1-LocalBodies", &zlib(&transmit("", 1)), true),
    ]);
    let bodies = body_graphs(&both, &schema()).unwrap();
    assert_eq!(bodies.len(), 1);
    assert_eq!(bodies[0].stream, "Contents/Config-1-LocalBodies");
    // A lone node of another type has no shape; a wire of one edge has.
    let base = base_schema(
        "KEY=SCH_13006\n14 WORLD; All; 1 1 0 \nnext; p; 1 1 0 \n",
    );
    assert!(matches!(body_graphs(&both, &base), Err(Error::NoGeometry)));
    let base = base_schema(
        "KEY=SCH_13006\n14 EDGE; An edge; 1 1 0 \nnext; p; 1 1 0 \n",
    );
    assert_eq!(body_graphs(&both, &base).unwrap().len(), 1);
}

#[test]
fn files_without_bodies_say_so() {
    let empty = file(&[chunk("Contents/Nothing", &[1; 300], true)]);
    match body_graphs(&empty, &schema()) {
        Err(e) => assert_eq!(e.message(), "no embedded Parasolid geometry found"),
        Ok(_) => panic!("there is no body"),
    }
    match body_graphs(b"not a part file, but long enough to be one", &schema()) {
        Err(e) => assert_eq!(e.message(), "not a modern (2015+) SolidWorks file"),
        Ok(_) => panic!("this is no part"),
    }
    assert_eq!(Error::Io("gone".to_string()).message(), "io error: gone");
}

#[test]
fn bare_transmits_are_known_by_their_extension() {
    assert!(is_bare_transmit("x_b"));
    assert!(is_bare_transmit("X_B"));
    assert!(is_bare_transmit("Xb"));
    assert!(!is_bare_transmit("sldprt"));
    assert!(!is_bare_transmit(""));
    let blob = transmit("", 4);
    let g = file_graph("X_b", &blob, &schema()).unwrap();
    assert_eq!(g.by_type("FACE").len(), 4);
    let g = file_graph("SLDPRT", &part(), &schema()).unwrap();
    assert_eq!(g.by_type("FACE").len(), 3);
    match transmit_graph(b"XX", &schema()) {
        Err(Error::Parse(m)) => assert_eq!(
            Error::Parse(m).message(),
            "parse error: invalid file: only PS binary format is supported"
        ),
        _ => panic!("this is no transmit"),
    }
}

#[test]
fn a_scan_reports_every_transmit() {
    let f = parse(&part()).unwrap();
    let streams = f.streams();
    assert_eq!(
        summary_line(&f, streams.len()),
        "ROL key: 0x03; 7 chunks, 5 named streams"
    );
    assert_eq!(version_stream(&streams), Some(0));
    assert_eq!(version_stream(&streams[1..]), None);
    let found = transmits(&streams, &schema());
    let lines: Vec<String> = found.iter().map(|f| f.line()).collect();
    assert_eq!(lines.len(), 4);
    assert!(lines[0].starts_with("  parasolid Part in Contents/Config-0-GhostPartition: "));
    assert!(lines[0].ends_with(" bytes, 9 nodes, 9 faces"), "{}", lines[0]);
    assert_eq!(found[1].kind, TransmitKind::Partition);
    assert_eq!(found[2].kind, TransmitKind::Deltas);
    assert_eq!(found[2].bytes, transmit("(deltas) ", 5).len());
    let order = largest_streams(&streams);
    assert_eq!(order[0], 0, "300 bytes");
    assert_eq!(order[4], 4, "none");
    assert!(streams[order[1]].data.len() >= streams[order[2]].data.len());
}

#[test]
fn transmits_are_written_under_plain_names() {
    assert_eq!(
        transmit_label("Arm", "Contents/Config-0-Partition", TransmitKind::Partition),
        "Arm.Contents.Config-0-Partition.Partition.x_b"
    );
    assert_eq!(
        transmit_name("\u{c4}rm", "Contents/A", TransmitKind::Deltas),
        "\u{e4}rm.contents.a.deltas.x_b"
    );
    assert_eq!(kind_name(TransmitKind::Part), "Part");
}

#[test]
fn every_transmit_is_written_out() {
    let data = part();
    let streams = parse(&data).unwrap().streams();
    let found = transmits(&streams, &schema());
    let written = extracts("Arm", &streams);
    assert_eq!(written.len(), found.len());
    assert!(!written.is_empty());
    for (w, f) in written.iter().zip(&found) {
        assert_eq!(w.kind, f.kind);
        assert_eq!(w.data.len(), f.bytes);
        assert_eq!(w.name, transmit_name("Arm", &f.stream, f.kind));
    }
}

#[test]
fn a_zlib_prefix_ends_where_its_stream_ends() {
    let mut data = zlib(&[7; 5000]);
    let n = data.len();
    data.extend([1, 2, 3]);
    let (out, used) = inflate_zlib_prefix(&data).unwrap();
    assert_eq!(out, vec![7; 5000]);
    assert_eq!(used, n);
    // A stream that is cut keeps what was inflated.
    let noise: Vec<u8> = (0..70_000u32)
        .map(|i| (i.wrapping_mul(2654435761) >> 24) as u8)
        .collect();
    let packed = zlib(&noise);
    let (cut, _) = inflate_zlib_prefix(&packed[..packed.len() / 2]).unwrap();
    assert!(!cut.is_empty() && cut.len() < noise.len());
    assert_eq!(&noise[..cut.len()], &cut[..]);
    assert!(inflate_zlib_prefix(&[0xff; 20]).is_none());
}

#[test]
fn core_properties_come_from_their_stream() {
    let xml = b"<cp><dc:lastModifiedBy>Jo</dc:lastModifiedBy><dcterms:modified>2024-05-06T07:08:09Z</dcterms:modified></cp>";
    let f = file(&[chunk("docProps/core.xml", xml, true)]);
    let (modified, author) = read_core_props(&f);
    assert_eq!(modified.as_deref(), Some("2024-05-06T07:08:09Z"));
    assert_eq!(author.as_deref(), Some("Jo"));
    // Bytes that are no text are replaced, not refused.
    let mut odd = b"<dc:lastModifiedBy>".to_vec();
    odd.push(0xff);
    odd.extend_from_slice(b"</dc:lastModifiedBy>");
    let f = file(&[chunk("docProps/core.xml", &odd, true)]);
    assert_eq!(read_core_props(&f).1.as_deref(), Some("\u{fffd}"));
    assert_eq!(read_core_props(b"nothing"), (None, None));
}

#[test]
fn a_file_is_a_revision() {
    assert!(is_part_file("SLDPRT") && is_part_file("sldprt") && is_part_file("SldPrt"));
    assert!(!is_part_file("SLDASM") && !is_part_file(""));
    let xml = b"<dcterms:modified>2024-05-06</dcterms:modified>";
    let data = file(&[chunk("docProps/core.xml", xml, true)]);
    let r = revision("a/b__1f_v3.SLDPRT".to_string(), "b__1f_v3", Some(&data));
    assert_eq!((r.key.as_str(), r.version), ("b", 3));
    assert_eq!(r.path, "a/b__1f_v3.SLDPRT");
    assert_eq!(r.modified.as_deref(), Some("2024-05-06"));
    assert_eq!(r.author, None);
    // One that cannot be read has no date.
    let r = revision("x".to_string(), "x", None);
    assert_eq!((r.key.as_str(), r.version), ("x", 0));
    assert_eq!((r.modified, r.author), (None, None));
}

#[test]
fn part_names_lose_their_cache_key() {
    assert_eq!(part_name("Foo_Bar.1784948667.900"), "Foo_Bar");
    assert_eq!(part_name("Foo.2.Bar.900"), "Foo.2.Bar");
    assert_eq!(part_name("12345"), "12345");
    assert_eq!(part_name("12345.678"), "12345");
    assert_eq!(part_name("Foo.9a"), "Foo.9a");
    assert_eq!(part_name("Foo."), "Foo");
    assert_eq!(part_name(".900"), "");
    assert_eq!(part_name(""), "");
}

fn items() -> Vec<Item> {
    let item = |name: &str, file: &str| Item {
        name: name.to_string(),
        file: file.to_string(),
    };
    sort_items(vec![
        item("b", "1.png"),
        item("a", "2.png"),
        item("b", "3.png"),
        item("B", "4.png"),
    ])
}

#[test]
fn frames_are_sorted_by_name() {
    let files: Vec<String> = items().into_iter().map(|i| i.file).collect();
    assert_eq!(files, vec!["4.png", "2.png", "1.png", "3.png"]);
}

fn req(i: usize, status: &str) -> VerdictReq {
    VerdictReq {
        i,
        status: status.to_string(),
        note: "n".to_string(),
        at: 17,
    }
}

#[test]
fn verdicts_are_kept_by_part() {
    let mut v = Verdicts::new();
    let items = items();
    assert_eq!(
        verdict(&mut v, &items, &req(0, "bad")),
        Ok(Tally { done: 1, bad: 1 })
    );
    assert_eq!(
        verdict(&mut v, &items, &req(1, "ok")),
        Ok(Tally { done: 2, bad: 1 })
    );
    // A later "ok" retracts the flag.
    assert_eq!(
        verdict(&mut v, &items, &req(0, "ok")),
        Ok(Tally { done: 2, bad: 0 })
    );
    // Two frames of one part share a verdict.
    verdict(&mut v, &items, &req(2, "bad")).unwrap();
    assert_eq!(
        verdict(&mut v, &items, &req(3, "ok")),
        Ok(Tally { done: 3, bad: 0 })
    );
    assert_eq!(v.entries[0].0, "B");
    assert_eq!(v.entries[0].1.note, "n");
    assert_eq!(v.entries[0].1.at, 17);
    assert!(needs_triage("bad"));
    assert!(!needs_triage("ok"));
}

#[test]
fn bad_requests_are_turned_down() {
    let mut v = Verdicts::new();
    let items = items();
    assert_eq!(
        verdict(&mut v, &items, &req(0, "maybe")),
        Err(Refusal::BadRequest)
    );
    assert_eq!(verdict(&mut v, &items, &req(4, "ok")), Err(Refusal::NotFound));
    // The status is looked at first.
    assert_eq!(
        verdict(&mut v, &items, &req(4, "maybe")),
        Err(Refusal::BadRequest)
    );
    assert!(v.entries.is_empty());
    v.insert(
        "a",
        Verdict {
            status: "ok".to_string(),
            note: String::new(),
            at: 1,
        },
    );
    assert_eq!(v.tally(), Tally { done: 1, bad: 0 });
}

#[test]
fn a_batch_stops_at_the_first_it_turns_down() {
    let mut v = Verdicts::new();
    let items = items();
    let all = [req(0, "ok"), req(1, "bad"), req(9, "ok"), req(2, "ok")];
    assert_eq!(
        verdicts_batch(&mut v, &items, &all),
        Err(Refusal::NotFound)
    );
    assert_eq!(v.tally(), Tally { done: 2, bad: 1 });
    assert_eq!(
        verdicts_batch(&mut v, &items, &all[..2]),
        Ok(Tally { done: 2, bad: 1 })
    );
    assert_eq!(
        verdicts_batch(&mut v, &items, &[]),
        Ok(Tally { done: 2, bad: 1 })
    );
}
