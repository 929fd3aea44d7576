use makecss_core::truetype::{be_i16, be_u16, be_u32, Outline, Scale, TtfFont};

fn u16b(v: u16) -> [u8; 2] {
    v.to_be_bytes()
}

/// A small font: three glyphs (none, a square, the square moved), 'A' mapped to the square.
fn font_bytes(with_glyf: bool) -> Vec<u8> {
    let mut head = vec![0u8; 54];
    head[18..20].copy_from_slice(&u16b(1000));
    let mut maxp = vec![0u8; 6];
    maxp[4..6].copy_from_slice(&u16b(3));
    let mut hhea = vec![0u8; 36];
    hhea[4..6].copy_from_slice(&u16b(800));
    hhea[6..8].copy_from_slice(&(-200i16).to_be_bytes());
    hhea[34..36].copy_from_slice(&u16b(2));
    let hmtx: Vec<u8> = [500u16, 0, 600, 0].iter().flat_map(|v| u16b(*v)).collect();
    let loca: Vec<u8> = [0u16, 0, 16, 25].iter().flat_map(|v| u16b(*v)).collect();
    let mut glyf: Vec<u8> = Vec::new();
    // The square: one contour of four on-curve points with word coordinates.
    glyf.extend_from_slice(&[0, 1, 0, 0, 0, 0, 0, 0, 0, 0, 0, 3, 0, 0, 0x09, 3]);
    for v in [0i16, 100, 0, -100, 0, 0, 100, 0] {
        glyf.extend_from_slice(&v.to_be_bytes());
    }
    // The composite: the square moved by (10, 20).
    glyf.extend_from_slice(&[0xff, 0xff, 0, 0, 0, 0, 0, 0, 0, 0, 0, 1, 0, 1, 0, 10, 0, 20]);
    let mut cmap: Vec<u8> = Vec::new();
    for v in [0u16, 1, 3, 1] {
        cmap.extend_from_slice(&u16b(v));
    }
    cmap.extend_from_slice(&12u32.to_be_bytes());
    for v in [4u16, 32, 0, 4, 0, 0, 0, 65, 0xffff, 0, 65, 0xffff, 0xffc0, 1, 0, 0] {
        cmap.extend_from_slice(&u16b(v));
    }
    let mut tables: Vec<(&[u8; 4], Vec<u8>)> = vec![
        (b"head", head),
        (b"maxp", maxp),
        (b"hhea", hhea),
        (b"hmtx", hmtx),
        (b"loca", loca),
        (b"cmap", cmap),
    ];
    if with_glyf {
        tables.push((b"glyf", glyf));
    }
    let mut out: Vec<u8> = vec![0, 1, 0, 0];
    out.extend_from_slice(&u16b(tables.len() as u16));
    out.extend_from_slice(&[0, 0, 0, 0, 0, 0]);
    let mut offset = 12 + 16 * tables.len();
    let mut body: Vec<u8> = Vec::new();
    for (tag, data) in &tables {
        out.extend_from_slice(&tag[..]);
        out.extend_from_slice(&[0, 0, 0, 0]);
        out.extend_from_slice(&(offset as u32).to_be_bytes());
        out.extend_from_slice(&(data.len() as u32).to_be_bytes());
        body.extend_from_slice(data);
        offset += data.len();
    }
    out.extend_from_slice(&body);
    out
}

#[test]
fn reads_big_endian_values() {
    let d = vec![1u8, 2, 0xff, 0xfe, 9];
    assert_eq!(be_u16(&d, 0), 258);
    assert_eq!(be_i16(&d, 2), -2);
    assert_eq!(be_u32(&d, 0), 0x0102fffe);
    assert_eq!(be_u16(&d, 4), 0);
    assert_eq!(be_u32(&d, 2), 0);
}

#[test]
fn reads_the_metrics_of_a_font() {
    let f = TtfFont::from_bytes(font_bytes(true)).expect("a complete font");
    assert_eq!(f.units_per_em, 1000);
    assert_eq!(f.ascender, 800);
    assert_eq!(f.descender, -200);
    assert_eq!(f.num_glyphs, 3);
    assert_eq!(f.num_h_metrics, 2);
    assert!(!f.loc_long);
}

#[test]
fn a_font_without_glyf_is_refused() {
    assert_eq!(
        TtfFont::from_bytes(font_bytes(false)).err(),
        Some("no glyf table (fonts with CFF outlines, .otf, are not supported)".to_string())
    );
    assert_eq!(TtfFont::from_bytes(Vec::new()).err(), Some("no head table".to_string()));
}

#[test]
fn maps_characters_to_glyphs() {
    let f = TtfFont::from_bytes(font_bytes(true)).unwrap();
    assert_eq!(f.glyph_index('A'), 1);
    assert_eq!(f.glyph_index('B'), 0);
    assert_eq!(f.glyph_index('\u{1F680}'), 0);
}

#[test]
fn advances_past_the_last_metric_repeat_it() {
    let f = TtfFont::from_bytes(font_bytes(true)).unwrap();
    assert_eq!(f.advance_width(0), 500);
    assert_eq!(f.advance_width(1), 600);
    assert_eq!(f.advance_width(2), 600);
}

#[test]
fn reads_simple_and_composite_outlines() {
    let f = TtfFont::from_bytes(font_bytes(true)).unwrap();
    match f.glyph_outline(1) {
        Outline::Simple(cs) => {
            assert_eq!(cs.len(), 1);
            let pts: Vec<(i64, i64, bool)> = cs[0].iter().map(|p| (p.x, p.y, p.on)).collect();
            assert_eq!(pts, vec![(0, 0, true), (100, 0, true), (100, 100, true), (0, 100, true)]);
        }
        _ => panic!("glyph 1 is simple"),
    }
    match f.glyph_outline(2) {
        Outline::Composite(parts) => {
            assert_eq!(parts.len(), 1);
            assert_eq!(parts[0].glyph, 1);
            assert_eq!((parts[0].dx, parts[0].dy), (10, 20));
            assert!(matches!(parts[0].scale, Scale::Identity));
        }
        _ => panic!("glyph 2 is composite"),
    }
    assert!(matches!(f.glyph_outline(0), Outline::Empty));
    assert!(matches!(f.glyph_outline(7), Outline::Empty));
}

#[test]
fn a_character_map_without_format_4_is_refused() {
    let mut d = font_bytes(true);
    // The subtable's format sits right after the cmap header and its one record.
    let cmap_at = d.windows(4).position(|w| w == b"cmap").unwrap();
    let off = u32::from_be_bytes([d[cmap_at + 8], d[cmap_at + 9], d[cmap_at + 10], d[cmap_at + 11]]) as usize;
    d[off + 12] = 0;
    d[off + 13] = 6;
    assert_eq!(
        TtfFont::from_bytes(d).err(),
        Some("no format 4 subtable in the character map".to_string())
    );
}
