use std::io::Write;

use solid_diff::sections::{carve_zlib, carve_zlib_offsets, transmit_kind, TransmitKind};

fn zlib(data: &[u8]) -> Vec<u8> {
    let mut e = flate2::write::ZlibEncoder::new(Vec::new(), flate2::Compression::default());
    e.write_all(data).unwrap();
    e.finish().unwrap()
}

#[test]
fn carves_back_to_back_blocks() {
    let a = vec![b'a'; 300];
    let b = vec![b'b'; 400];
    let mut data = vec![0u8; 5];
    data.extend_from_slice(&zlib(&a));
    data.extend_from_slice(&zlib(&b));
    data.extend_from_slice(&[0u8; 3]);
    let carved = carve_zlib(&data);
    assert_eq!(carved.len(), 2);
    assert_eq!(carved[0], a);
    assert_eq!(carved[1], b);
}

#[test]
fn skips_short_output() {
    let data = zlib(b"tiny");
    assert!(carve_zlib(&data).is_empty());
}

#[test]
fn banner_kinds() {
    let mk = |s: &str| {
        let mut v = b"PS".to_vec();
        v.extend_from_slice(s.as_bytes());
        v
    };
    assert_eq!(
        transmit_kind(&mk(
            ": TRANSMIT FILE (partition) created by modeller version 2900085"
        )),
        Some(TransmitKind::Partition)
    );
    assert_eq!(
        transmit_kind(&mk(
            ": TRANSMIT FILE (deltas) created by modeller version 2900085"
        )),
        Some(TransmitKind::Deltas)
    );
    assert_eq!(
        transmit_kind(&mk(": TRANSMIT FILE created by modeller version 2900085")),
        Some(TransmitKind::Part)
    );
    assert_eq!(
        transmit_kind(&mk(": SCHEMA FILE created by modeller version 1")),
        None
    );
    assert_eq!(
        transmit_kind(b"XX: TRANSMIT FILE created by modeller version 1"),
        None
    );
}

/// A byte string with no run or repeat to speak of, so that it does not shrink.
fn noise(n: usize) -> Vec<u8> {
    let mut x = 12345u32;
    (0..n)
        .map(|_| {
            x = x.wrapping_mul(1664525).wrapping_add(1013904223);
            (x >> 24) as u8
        })
        .collect()
}

#[test]
fn offsets_point_at_the_zlib_headers() {
    let a = noise(200);
    let b = noise(90);
    let mut data = vec![7u8; 9];
    data.extend_from_slice(&zlib(&a));
    let second = data.len();
    data.extend_from_slice(&zlib(&b));
    data.extend_from_slice(&[0u8; 4]);
    assert_eq!(carve_zlib_offsets(&data), vec![(9, a), (second, b)]);
}

#[test]
fn a_block_longer_than_the_decoder_buffer_is_whole() {
    let long = noise(200_000);
    let mut data = zlib(&long);
    data.extend_from_slice(&[0u8; 2]);
    assert_eq!(carve_zlib(&data), vec![long]);
}

#[test]
fn a_truncated_block_yields_what_was_decoded() {
    let a = noise(4000);
    let z = zlib(&a);
    let cut = carve_zlib(&z[..2000]);
    assert_eq!(cut.len(), 1);
    assert!(cut[0].len() >= 1900 && cut[0].len() < 4000);
    assert_eq!(cut[0][..], a[..cut[0].len()]);
}

#[test]
fn carving_terminates_on_junk_that_looks_like_zlib() {
    let mut junk = vec![0x78u8, 0x9c];
    junk.extend(std::iter::repeat(0xABu8).take(5000));
    let carved = carve_zlib(&junk);
    assert_eq!(carved.len(), 1);
    assert_eq!(carved[0].len(), 4999);
}

#[test]
fn a_transmit_begins_with_ps_and_has_a_digit_behind_its_banner() {
    let banner = b": TRANSMIT FILE created by modeller version ";
    let mut no_digit = b"PS".to_vec();
    no_digit.extend_from_slice(banner);
    assert_eq!(transmit_kind(&no_digit), None);
    no_digit.push(b'2');
    assert_eq!(transmit_kind(&no_digit), Some(TransmitKind::Part));
    let mut other = b"XX".to_vec();
    other.extend_from_slice(banner);
    other.push(b'2');
    assert_eq!(transmit_kind(&other), None);
    let mut late = b"PS".to_vec();
    late.extend_from_slice(&[b' '; 250]);
    late.extend_from_slice(b"TRANSMIT FILE created by modeller version 2");
    assert_eq!(transmit_kind(&late), None);
}
