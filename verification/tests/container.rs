use solid_diff::container::{is_modern_swx, rol_byte, OLE2_MAGIC, ZIP_MAGIC};

#[test]
fn rol_is_self_inverse() {
    for key in 0u8..8 {
        for b in 0u8..=255 {
            assert_eq!(rol_byte(rol_byte(b, key), 8 - (key & 7)), b);
        }
    }
}

#[test]
fn rejects_ole2_and_zip() {
    let mut ole = OLE2_MAGIC.to_vec();
    ole.extend_from_slice(&[0u8; 64]);
    assert!(!is_modern_swx(&ole));
    let mut zip = ZIP_MAGIC.to_vec();
    zip.extend_from_slice(&[0u8; 64]);
    assert!(!is_modern_swx(&zip));
    assert!(!is_modern_swx(&[0u8; 8]));
}
