use makecss_core::bmp::encode_bmp;
use makecss_core::Canvas;

#[test]
fn encodes_a_small_canvas() {
    let canvas = Canvas { width: 2, height: 2, pixels: vec![0x112233, 0x445566, 0x778899, 0xaabbcc] };
    let b = encode_bmp(&canvas);
    // Header, then two rows of 8 bytes (6 of pixels, 2 of padding).
    assert_eq!(b.len(), 54 + 16);
    assert_eq!(&b[0..2], b"BM");
    assert_eq!(&b[2..6], &70u32.to_le_bytes());
    assert_eq!(&b[10..14], &54u32.to_le_bytes());
    assert_eq!(&b[14..18], &40u32.to_le_bytes());
    assert_eq!(&b[18..22], &2u32.to_le_bytes());
    assert_eq!(&b[22..26], &2u32.to_le_bytes());
    assert_eq!(&b[26..28], &1u16.to_le_bytes());
    assert_eq!(&b[28..30], &24u16.to_le_bytes());
    assert_eq!(&b[34..38], &16u32.to_le_bytes());
    assert_eq!(&b[38..42], &2835u32.to_le_bytes());
    // The bottom row comes first, each pixel as blue, green, red.
    assert_eq!(&b[54..62], &[0x99, 0x88, 0x77, 0xcc, 0xbb, 0xaa, 0, 0]);
    assert_eq!(&b[62..70], &[0x33, 0x22, 0x11, 0x66, 0x55, 0x44, 0, 0]);
}

#[test]
fn an_empty_canvas_is_a_header() {
    let canvas = Canvas { width: 0, height: 0, pixels: Vec::new() };
    let b = encode_bmp(&canvas);
    assert_eq!(b.len(), 54);
    assert_eq!(&b[2..6], &54u32.to_le_bytes());
}
