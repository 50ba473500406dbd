use viewport_lib_io::error::IoError;
use viewport_lib_io::texture::{texture_from_bytes, ImageKind};

/// A 1x1 24-bit BMP whose one pixel is (R, G, B) = (0x30, 0x20, 0x10).
fn one_pixel_bmp() -> Vec<u8> {
    let mut b = Vec::new();
    b.extend_from_slice(b"BM");
    b.extend_from_slice(&58u32.to_le_bytes());
    b.extend_from_slice(&0u32.to_le_bytes());
    b.extend_from_slice(&54u32.to_le_bytes());
    b.extend_from_slice(&40u32.to_le_bytes());
    b.extend_from_slice(&1i32.to_le_bytes());
    b.extend_from_slice(&1i32.to_le_bytes());
    b.extend_from_slice(&1u16.to_le_bytes());
    b.extend_from_slice(&24u16.to_le_bytes());
    b.extend_from_slice(&0u32.to_le_bytes());
    b.extend_from_slice(&4u32.to_le_bytes());
    b.extend_from_slice(&2835u32.to_le_bytes());
    b.extend_from_slice(&2835u32.to_le_bytes());
    b.extend_from_slice(&0u32.to_le_bytes());
    b.extend_from_slice(&0u32.to_le_bytes());
    b.extend_from_slice(&[0x10, 0x20, 0x30, 0x00]);
    b
}

#[test]
fn bmp_bytes_decode_to_rgba8() {
    let t = texture_from_bytes(&one_pixel_bmp(), ImageKind::Bmp).unwrap();
    assert_eq!((t.width, t.height), (1, 1));
    assert_eq!(t.rgba, vec![0x30, 0x20, 0x10, 255]);
}

#[test]
fn exr_reader_follows_the_format_the_bytes_show() {
    let t = texture_from_bytes(&one_pixel_bmp(), ImageKind::Exr).unwrap();
    assert_eq!(t.rgba, vec![0x30, 0x20, 0x10, 255]);
}

#[test]
fn undecodable_bytes_give_the_decode_errors() {
    match texture_from_bytes(b"not an image", ImageKind::Bmp) {
        Err(IoError::Parse(m)) => assert!(m.starts_with("failed to decode image: ")),
        _ => panic!("expected a parse error"),
    }
    match texture_from_bytes(b"not an image", ImageKind::Exr) {
        Err(IoError::Parse(m)) => assert!(m.starts_with("failed to decode EXR image: ")),
        _ => panic!("expected a parse error"),
    }
}
