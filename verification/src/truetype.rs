//! TrueType (`.ttf`) font files: the tables and outlines they hold.
//!
//! A glyph is stored as its outline: contours of points, each on the curve
//! or a control point that pulls it. This module reads what a font file
//! holds as integers in font units: the table directory, the metrics, the
//! character map (format 4, the basic multilingual plane), the horizontal
//! advances, and the outlines of simple glyphs and the parts of composite
//! ones. Scaling outlines to pixels and filling them is not done here.
//!
//! Every read past the end of the data gives 0, so no file makes it fail.

use vstd::prelude::*;

verus! {

// ---------------------------------------------------------------------------
// Big-endian reads.
// ---------------------------------------------------------------------------

/// The big-endian `u16` at `off`, or 0 past the end.
pub open spec fn be16(d: Seq<u8>, off: int) -> int {
    if off + 2 > d.len() {
        0
    } else {
        d[off] * 256 + d[off + 1]
    }
}

/// A 16-bit value read as two's complement.
pub open spec fn s16(v: int) -> int {
    if v >= 32768 {
        v - 65536
    } else {
        v
    }
}

/// The big-endian `u32` at `off`, or 0 past the end.
pub open spec fn be32(d: Seq<u8>, off: int) -> int {
    if off + 4 > d.len() {
        0
    } else {
        ((d[off] * 256 + d[off + 1]) * 256 + d[off + 2]) * 256 + d[off + 3]
    }
}

/// Reads a big-endian `u16`; 0 past the end.
pub fn be_u16(d: &Vec<u8>, off: usize) -> (r: u16)
    ensures
        r == be16(d@, off as int),
{
    if off > d.len() || d.len() - off < 2 {
        return 0;
    }
    (d[off] as u16) * 256 + (d[off + 1] as u16)
}

/// Reads a big-endian `i16`; 0 past the end.
pub fn be_i16(d: &Vec<u8>, off: usize) -> (r: i16)
    ensures
        r == s16(be16(d@, off as int)),
{
    let v = be_u16(d, off);
    if v >= 32768 {
        (v as i32 - 65536) as i16
    } else {
        v as i16
    }
}

/// Reads a big-endian `u32`; 0 past the end.
pub fn be_u32(d: &Vec<u8>, off: usize) -> (r: u32)
    ensures
        r == be32(d@, off as int),
{
    if off > d.len() || d.len() - off < 4 {
        return 0;
    }
    (((d[off] as u32) * 256 + (d[off + 1] as u32)) * 256 + (d[off + 2] as u32)) * 256 + (d[off
        + 3] as u32)
}

/// The byte at `p`, or 0 past the end.
pub open spec fn byte_at(d: Seq<u8>, p: int) -> int {
    if 0 <= p < d.len() {
        d[p] as int
    } else {
        0
    }
}

// ---------------------------------------------------------------------------
// The table directory.
// ---------------------------------------------------------------------------

/// Whether the four bytes at `rec` are the tag.
pub open spec fn tag_at(d: Seq<u8>, rec: int, tag: Seq<u8>) -> bool {
    rec + 4 <= d.len() && d.subrange(rec, rec + 4) == tag
}

/// The offset and length of the table with the tag, looking from record
/// `i` on among `n` records; nothing when the records run past the end.
pub open spec fn find_table(d: Seq<u8>, n: int, tag: Seq<u8>, i: int) -> Option<(int, int)>
    decreases n - i,
{
    if i >= n {
        None
    } else {
        let rec = 12 + i * 16;
        if rec + 16 > d.len() {
            None
        } else if tag_at(d, rec, tag) {
            Some((be32(d, rec + 8), be32(d, rec + 12)))
        } else {
            find_table(d, n, tag, i + 1)
        }
    }
}

/// Finds a table in the directory.
fn find(d: &Vec<u8>, tag: &[u8]) -> (r: Option<(u64, u64)>)
    requires
        tag@.len() == 4,
    ensures
        match r {
            Some((o, l)) => find_table(d@, be16(d@, 4), tag@, 0) == Some((o as int, l as int))
                && o <= u32::MAX && l <= u32::MAX,
            None => find_table(d@, be16(d@, 4), tag@, 0) is None,
        },
{
    let n = be_u16(d, 4) as usize;
    let mut i: usize = 0;
    while i < n
        invariant
            n == be16(d@, 4),
            i <= n,
            tag@.len() == 4,
            find_table(d@, n as int, tag@, 0) == find_table(d@, n as int, tag@, i as int),
        decreases n - i,
    {
        let rec = 12 + i * 16;
        if rec + 16 > d.len() {
            return None;
        }
        let same = d[rec] == tag[0] && d[rec + 1] == tag[1] && d[rec + 2] == tag[2] && d[rec + 3]
            == tag[3];
        assert(same == (d@.subrange(rec as int, rec + 4) =~= tag@));
        if same {
            return Some((be_u32(d, rec + 8) as u64, be_u32(d, rec + 12) as u64));
        }
        i += 1;
    }
    None
}

/// Reads a big-endian `u16` at a wide offset; 0 past the end.
pub fn rd16(d: &Vec<u8>, off: u64) -> (r: u16)
    ensures
        r == be16(d@, off as int),
{
    if off > d.len() as u64 {
        return 0;
    }
    be_u16(d, off as usize)
}

/// Reads a big-endian `i16` at a wide offset; 0 past the end.
pub fn rdi16(d: &Vec<u8>, off: u64) -> (r: i16)
    ensures
        r == s16(be16(d@, off as int)),
{
    if off > d.len() as u64 {
        return 0;
    }
    be_i16(d, off as usize)
}

/// Reads a big-endian `u32` at a wide offset; 0 past the end.
pub fn rd32(d: &Vec<u8>, off: u64) -> (r: u32)
    ensures
        r == be32(d@, off as int),
{
    if off > d.len() as u64 {
        return 0;
    }
    be_u32(d, off as usize)
}

/// The byte at a wide offset, or 0 past the end.
fn rd8(d: &Vec<u8>, off: u64) -> (r: u8)
    ensures
        r == byte_at(d@, off as int),
{
    if off >= d.len() as u64 {
        return 0;
    }
    d[off as usize]
}

// ---------------------------------------------------------------------------
// The character map.
// ---------------------------------------------------------------------------

/// The segments of a format 4 character map.
pub struct Cmap {
    pub seg_end: Vec<u16>,
    pub seg_start: Vec<u16>,
    pub id_delta: Vec<i16>,
    pub id_range_offset: Vec<u16>,
    /// Where the `idRangeOffset` array starts in the file.
    pub id_range_offset_pos: u64,
}

/// The mathematical value of a `Cmap`.
pub struct CmapV {
    pub seg_end: Seq<u16>,
    pub seg_start: Seq<u16>,
    pub id_delta: Seq<i16>,
    pub id_range_offset: Seq<u16>,
    pub id_range_offset_pos: int,
}

impl View for Cmap {
    type V = CmapV;

    open spec fn view(&self) -> CmapV {
        CmapV {
            seg_end: self.seg_end@,
            seg_start: self.seg_start@,
            id_delta: self.id_delta@,
            id_range_offset: self.id_range_offset@,
            id_range_offset_pos: self.id_range_offset_pos as int,
        }
    }
}

/// The format 4 subtable chosen among subtables `i..n` of the character map
/// at `off`: the first one for Windows BMP (3, 1) or Unicode (0, any),
/// else the first format 4 subtable seen (`best`).
pub open spec fn cmap_pick(d: Seq<u8>, off: int, n: int, i: int, best: Option<int>) -> Option<int>
    decreases n - i,
{
    if i >= n {
        best
    } else {
        let rec = off + 4 + i * 8;
        let platform = be16(d, rec);
        let encoding = be16(d, rec + 2);
        let sub = off + be32(d, rec + 4);
        if be16(d, sub) == 4 {
            if (platform == 3 && encoding == 1) || platform == 0 {
                Some(sub)
            } else {
                cmap_pick(
                    d,
                    off,
                    n,
                    i + 1,
                    if best is None {
                        Some(sub)
                    } else {
                        best
                    },
                )
            }
        } else {
            cmap_pick(d, off, n, i + 1, best)
        }
    }
}

/// The character map at `off`, if it has a format 4 subtable.
pub open spec fn spec_cmap(d: Seq<u8>, off: int) -> Option<CmapV> {
    match cmap_pick(d, off, be16(d, off + 2), 0, None) {
        None => None,
        Some(sub) => {
            let x2 = be16(d, sub + 6);
            let cnt = (x2 / 2) as nat;
            let eb = sub + 14;
            let sb = eb + x2 + 2;
            let db = sb + x2;
            let rb = db + x2;
            Some(
                CmapV {
                    seg_end: Seq::new(cnt, |i: int| be16(d, eb + i * 2) as u16),
                    seg_start: Seq::new(cnt, |i: int| be16(d, sb + i * 2) as u16),
                    id_delta: Seq::new(cnt, |i: int| s16(be16(d, db + i * 2)) as i16),
                    id_range_offset: Seq::new(cnt, |i: int| be16(d, rb + i * 2) as u16),
                    id_range_offset_pos: rb,
                },
            )
        },
    }
}

/// Whether the four arrays of a character map have one length.
pub open spec fn cmap_wf(c: CmapV) -> bool {
    c.seg_start.len() == c.seg_end.len() && c.id_delta.len() == c.seg_end.len()
        && c.id_range_offset.len() == c.seg_end.len()
}

/// Reads `count` big-endian `u16` values from `base` on.
fn read_u16s(d: &Vec<u8>, base: u64, count: u64) -> (r: Vec<u16>)
    requires
        base <= u32::MAX as int * 4,
        count <= 65536,
    ensures
        r@ == Seq::new(count as nat, |i: int| be16(d@, base + i * 2) as u16),
{
    let mut v: Vec<u16> = Vec::new();
    let mut i: u64 = 0;
    while i < count
        invariant
            i <= count <= 65536,
            base <= u32::MAX as int * 4,
            v@ == Seq::new(i as nat, |k: int| be16(d@, base + k * 2) as u16),
        decreases count - i,
    {
        v.push(rd16(d, base + i * 2));
        proof {
            assert(v@ =~= Seq::new((i + 1) as nat, |k: int| be16(d@, base + k * 2) as u16));
        }
        i += 1;
    }
    v
}

/// Reads `count` big-endian `i16` values from `base` on.
fn read_i16s(d: &Vec<u8>, base: u64, count: u64) -> (r: Vec<i16>)
    requires
        base <= u32::MAX as int * 4,
        count <= 65536,
    ensures
        r@ == Seq::new(count as nat, |i: int| s16(be16(d@, base + i * 2)) as i16),
{
    let mut v: Vec<i16> = Vec::new();
    let mut i: u64 = 0;
    while i < count
        invariant
            i <= count <= 65536,
            base <= u32::MAX as int * 4,
            v@ == Seq::new(i as nat, |k: int| s16(be16(d@, base + k * 2)) as i16),
        decreases count - i,
    {
        v.push(rdi16(d, base + i * 2));
        proof {
            assert(v@ =~= Seq::new((i + 1) as nat, |k: int| s16(be16(d@, base + k * 2)) as i16));
        }
        i += 1;
    }
    v
}

/// Reads the character map at `cmap_off`: its format 4 subtable for
/// Windows BMP or Unicode, else the first format 4 subtable. An error when
/// there is none.
pub fn parse_cmap(d: &Vec<u8>, cmap_off: u64) -> (r: Result<Cmap, String>)
    requires
        cmap_off <= u32::MAX,
    ensures
        match spec_cmap(d@, cmap_off as int) {
            None => r matches Err(e) && e@ == "no format 4 subtable in the character map"@,
            Some(c) => r matches Ok(m) && m@ == c,
        },
{
    let n = rd16(d, cmap_off + 2) as u64;
    let mut best: Option<u64> = None;
    let mut i: u64 = 0;
    let mut chosen: Option<u64> = None;
    while i < n
        invariant_except_break
            i <= n == be16(d@, cmap_off + 2),
            cmap_off <= u32::MAX,
            chosen is None,
            best matches Some(b) ==> b <= u32::MAX as int * 2,
            cmap_pick(d@, cmap_off as int, n as int, 0, None) == cmap_pick(
                d@,
                cmap_off as int,
                n as int,
                i as int,
                match best {
                    Some(b) => Some(b as int),
                    None => None,
                },
            ),
        ensures
            cmap_off <= u32::MAX,
            chosen matches Some(b) ==> b <= u32::MAX as int * 2,
            best matches Some(b) ==> b <= u32::MAX as int * 2,
            match chosen {
                Some(c) => cmap_pick(d@, cmap_off as int, n as int, 0, None) == Some(c as int),
                None => cmap_pick(d@, cmap_off as int, n as int, 0, None) == match best {
                    Some(b) => Some(b as int),
                    None => None,
                },
            },
        decreases n - i,
    {
        let rec = cmap_off + 4 + i * 8;
        let platform = rd16(d, rec);
        let encoding = rd16(d, rec + 2);
        let sub = cmap_off + rd32(d, rec + 4) as u64;
        if rd16(d, sub) == 4 {
            if (platform == 3 && encoding == 1) || platform == 0 {
                chosen = Some(sub);
                break;
            }
            if best.is_none() {
                best = Some(sub);
            }
        }
        i += 1;
    }
    let suboff = match chosen {
        Some(c) => c,
        None => match best {
            Some(b) => b,
            None => {
                return Err("no format 4 subtable in the character map".to_owned());
            },
        },
    };
    let x2 = rd16(d, suboff + 6) as u64;
    let cnt = x2 / 2;
    let eb = suboff + 14;
    let sb = eb + x2 + 2;
    let db = sb + x2;
    let rb = db + x2;
    let c = Cmap {
        seg_end: read_u16s(d, eb, cnt),
        seg_start: read_u16s(d, sb, cnt),
        id_delta: read_i16s(d, db, cnt),
        id_range_offset: read_u16s(d, rb, cnt),
        id_range_offset_pos: rb,
    };
    Ok(c)
}

// ---------------------------------------------------------------------------
// The font.
// ---------------------------------------------------------------------------

/// A TrueType font read from its file: the data and what was found in it.
pub struct TtfFont {
    pub data: Vec<u8>,
    /// Font units per em (1000 when the file says 0).
    pub units_per_em: u16,
    pub ascender: i16,
    pub descender: i16,
    pub line_gap: i16,
    pub num_glyphs: u16,
    /// Whether `loca` offsets take four bytes (else two, halved).
    pub loc_long: bool,
    pub loca_off: u64,
    pub glyf_off: u64,
    pub hmtx_off: u64,
    pub num_h_metrics: u16,
    pub cmap: Cmap,
}

/// The mathematical value of a `TtfFont`.
pub struct FontV {
    pub data: Seq<u8>,
    pub units_per_em: int,
    pub ascender: int,
    pub descender: int,
    pub line_gap: int,
    pub num_glyphs: int,
    pub loc_long: bool,
    pub loca_off: int,
    pub glyf_off: int,
    pub hmtx_off: int,
    pub num_h_metrics: int,
    pub cmap: CmapV,
}

impl View for TtfFont {
    type V = FontV;

    open spec fn view(&self) -> FontV {
        FontV {
            data: self.data@,
            units_per_em: self.units_per_em as int,
            ascender: self.ascender as int,
            descender: self.descender as int,
            line_gap: self.line_gap as int,
            num_glyphs: self.num_glyphs as int,
            loc_long: self.loc_long,
            loca_off: self.loca_off as int,
            glyf_off: self.glyf_off as int,
            hmtx_off: self.hmtx_off as int,
            num_h_metrics: self.num_h_metrics as int,
            cmap: self.cmap@,
        }
    }
}

/// The tag bytes of a table name.
pub open spec fn tag_head() -> Seq<u8> {
    seq![104u8, 101u8, 97u8, 100u8]
}

pub open spec fn tag_maxp() -> Seq<u8> {
    seq![109u8, 97u8, 120u8, 112u8]
}

pub open spec fn tag_hhea() -> Seq<u8> {
    seq![104u8, 104u8, 101u8, 97u8]
}

pub open spec fn tag_hmtx() -> Seq<u8> {
    seq![104u8, 109u8, 116u8, 120u8]
}

pub open spec fn tag_loca() -> Seq<u8> {
    seq![108u8, 111u8, 99u8, 97u8]
}

pub open spec fn tag_glyf() -> Seq<u8> {
    seq![103u8, 108u8, 121u8, 102u8]
}

pub open spec fn tag_cmap() -> Seq<u8> {
    seq![99u8, 109u8, 97u8, 112u8]
}

/// Where the table with the tag starts, if the directory lists it.
pub open spec fn table_off(d: Seq<u8>, tag: Seq<u8>) -> Option<int> {
    match find_table(d, be16(d, 4), tag, 0) {
        Some((o, _)) => Some(o),
        None => None,
    }
}

/// The font that a file holds: nothing when one of the `head`, `maxp`,
/// `hhea`, `hmtx`, `loca`, `glyf` and `cmap` tables is missing or the
/// character map has no format 4 subtable.
pub open spec fn spec_font(d: Seq<u8>) -> Option<FontV> {
    match (
        table_off(d, tag_head()),
        table_off(d, tag_maxp()),
        table_off(d, tag_hhea()),
        table_off(d, tag_hmtx()),
        table_off(d, tag_loca()),
        table_off(d, tag_glyf()),
        table_off(d, tag_cmap()),
    ) {
        (Some(head), Some(maxp), Some(hhea), Some(hmtx), Some(loca), Some(glyf), Some(cm)) => {
            match spec_cmap(d, cm) {
                Some(c) => Some(
                    FontV {
                        data: d,
                        units_per_em: if be16(d, head + 18) == 0 {
                            1000
                        } else {
                            be16(d, head + 18)
                        },
                        ascender: s16(be16(d, hhea + 4)),
                        descender: s16(be16(d, hhea + 6)),
                        line_gap: s16(be16(d, hhea + 8)),
                        num_glyphs: be16(d, maxp + 4),
                        loc_long: s16(be16(d, head + 50)) != 0,
                        loca_off: loca,
                        glyf_off: glyf,
                        hmtx_off: hmtx,
                        num_h_metrics: be16(d, hhea + 34),
                        cmap: c,
                    },
                ),
                None => None,
            }
        },
        _ => None,
    }
}

/// Finds a table's start; `None` when the directory does not list it.
fn table(d: &Vec<u8>, tag: &[u8]) -> (r: Option<u64>)
    requires
        tag@.len() == 4,
    ensures
        r matches Some(v) ==> v <= u32::MAX && table_off(d@, tag@) == Some(v as int),
        r is None <==> table_off(d@, tag@) is None,
{
    match find(d, tag) {
        Some((o, _)) => Some(o),
        None => None,
    }
}

/// What reading a font reports when it cannot: the first table it needs,
/// in the order `head`, `maxp`, `hhea`, `hmtx`, `loca`, `glyf`, `cmap`, that
/// the directory does not list; else the missing format 4 subtable.
pub open spec fn font_error(d: Seq<u8>) -> Seq<char> {
    if table_off(d, tag_head()) is None {
        "no head table"@
    } else if table_off(d, tag_maxp()) is None {
        "no maxp table"@
    } else if table_off(d, tag_hhea()) is None {
        "no hhea table"@
    } else if table_off(d, tag_hmtx()) is None {
        "no hmtx table"@
    } else if table_off(d, tag_loca()) is None {
        "no loca table"@
    } else if table_off(d, tag_glyf()) is None {
        "no glyf table (fonts with CFF outlines, .otf, are not supported)"@
    } else if table_off(d, tag_cmap()) is None {
        "no cmap table"@
    } else {
        "no format 4 subtable in the character map"@
    }
}

impl TtfFont {
    /// Whether the character map's arrays have one length.
    pub open spec fn wf(&self) -> bool {
        cmap_wf(self.cmap@)
    }

    /// Reads a font from the bytes of a `.ttf` file: its tables' places, its
    /// metrics and its character map. An error when a table it needs is
    /// missing (an OpenType font with CFF outlines has no `glyf`) or the
    /// character map has no format 4 subtable.
    pub fn from_bytes(data: Vec<u8>) -> (r: Result<TtfFont, String>)
        ensures
            match spec_font(data@) {
                Some(f) => r matches Ok(font) && font@ == f && font.wf(),
                None => r matches Err(e) && e@ == font_error(data@),
            },
    {
        let t_head: &[u8] = &[104u8, 101u8, 97u8, 100u8];
        let t_maxp: &[u8] = &[109u8, 97u8, 120u8, 112u8];
        let t_hhea: &[u8] = &[104u8, 104u8, 101u8, 97u8];
        let t_hmtx: &[u8] = &[104u8, 109u8, 116u8, 120u8];
        let t_loca: &[u8] = &[108u8, 111u8, 99u8, 97u8];
        let t_glyf: &[u8] = &[103u8, 108u8, 121u8, 102u8];
        let t_cmap: &[u8] = &[99u8, 109u8, 97u8, 112u8];
        assert(t_head@ =~= tag_head() && t_maxp@ =~= tag_maxp() && t_hhea@ =~= tag_hhea());
        assert(t_hmtx@ =~= tag_hmtx() && t_loca@ =~= tag_loca() && t_glyf@ =~= tag_glyf());
        assert(t_cmap@ =~= tag_cmap());
        let head = table(&data, t_head);
        let maxp = table(&data, t_maxp);
        let hhea = table(&data, t_hhea);
        let hmtx = table(&data, t_hmtx);
        let loca = table(&data, t_loca);
        let glyf = table(&data, t_glyf);
        let cmap_tab = table(&data, t_cmap);
        let head = match head {
            Some(o) => o,
            None => return Err("no head table".to_owned()),
        };
        let units = rd16(&data, head + 18);
        let loc_long = rdi16(&data, head + 50) != 0;
        let maxp = match maxp {
            Some(o) => o,
            None => return Err("no maxp table".to_owned()),
        };
        let num_glyphs = rd16(&data, maxp + 4);
        let hhea = match hhea {
            Some(o) => o,
            None => return Err("no hhea table".to_owned()),
        };
        let ascender = rdi16(&data, hhea + 4);
        let descender = rdi16(&data, hhea + 6);
        let line_gap = rdi16(&data, hhea + 8);
        let num_h_metrics = rd16(&data, hhea + 34);
        let hmtx = match hmtx {
            Some(o) => o,
            None => return Err("no hmtx table".to_owned()),
        };
        let loca = match loca {
            Some(o) => o,
            None => return Err("no loca table".to_owned()),
        };
        let glyf = match glyf {
            Some(o) => o,
            None => return Err("no glyf table (fonts with CFF outlines, .otf, are not supported)".to_owned()),
        };
        let cmap_tab = match cmap_tab {
            Some(o) => o,
            None => return Err("no cmap table".to_owned()),
        };
        let cmap = match parse_cmap(&data, cmap_tab) {
            Ok(c) => c,
            Err(e) => return Err(e),
        };
        Ok(
            TtfFont {
                data,
                units_per_em: if units == 0 {
                    1000
                } else {
                    units
                },
                ascender,
                descender,
                line_gap,
                num_glyphs,
                loc_long,
                loca_off: loca,
                glyf_off: glyf,
                hmtx_off: hmtx,
                num_h_metrics,
                cmap,
            },
        )
    }
}

/// The glyph of character code `c`, looking from segment `i` on: the first
/// segment whose end is at least `c` decides; the glyph is 0 when `c` is
/// before its start.
pub open spec fn seg_lookup(cm: CmapV, d: Seq<u8>, c: int, i: int) -> int
    decreases cm.seg_end.len() - i,
{
    if i < 0 || i >= cm.seg_end.len() {
        0
    } else if cm.seg_end[i] >= c {
        if cm.seg_start[i] > c {
            0
        } else if cm.id_range_offset[i] == 0 {
            (c + cm.id_delta[i]) % 65536
        } else {
            let addr = cm.id_range_offset_pos + i * 2 + cm.id_range_offset[i] + (c - cm.seg_start[i]) * 2;
            let g = be16(d, addr);
            if g == 0 {
                0
            } else {
                (g + cm.id_delta[i]) % 65536
            }
        }
    } else {
        seg_lookup(cm, d, c, i + 1)
    }
}

/// The glyph of a character: 0 (the missing glyph) outside the basic
/// multilingual plane or where the character map has none.
pub open spec fn spec_glyph_index(f: FontV, ch: char) -> int {
    if ch as int > 65535 {
        0
    } else {
        seg_lookup(f.cmap, f.data, ch as int, 0)
    }
}

/// Looking up from segment `j` reaches segment `i` when every segment in
/// between ends before `c`.
proof fn lemma_seg_lookup_skips(cm: CmapV, d: Seq<u8>, c: int, j: int, i: int)
    requires
        0 <= j <= i,
        i <= cm.seg_end.len(),
        forall|k: int| j <= k < i ==> (#[trigger] cm.seg_end[k]) < c,
    ensures
        seg_lookup(cm, d, c, j) == seg_lookup(cm, d, c, i),
    decreases i - j,
{
    if j < i {
        lemma_seg_lookup_skips(cm, d, c, j + 1, i);
    }
}

/// The glyph of a character in the format 4 map: take the first segment `i`
/// whose end is at least the character's code `c`. If `c` lies before the
/// segment's start there is none (0). With no range offset the glyph is
/// `c` plus the segment's delta, modulo 65536. Otherwise it is the 16-bit
/// big-endian value read at the address of the segment's range offset
/// itself (`id_range_offset_pos + 2 * i`), plus that offset, plus twice the
/// distance of `c` from the segment's start; when that value is not 0 the
/// delta is added to it, modulo 65536.
pub proof fn law_glyph_index(f: FontV, ch: char, i: int)
    requires
        (ch as int) <= 65535,
        0 <= i < f.cmap.seg_end.len(),
        f.cmap.seg_start.len() == f.cmap.seg_end.len(),
        f.cmap.id_delta.len() == f.cmap.seg_end.len(),
        f.cmap.id_range_offset.len() == f.cmap.seg_end.len(),
        forall|k: int| 0 <= k < i ==> (#[trigger] f.cmap.seg_end[k]) < (ch as int),
        f.cmap.seg_end[i] >= (ch as int),
    ensures
        ({
            let cm = f.cmap;
            let c = ch as int;
            spec_glyph_index(f, ch) == if cm.seg_start[i] > c {
                0
            } else if cm.id_range_offset[i] == 0 {
                (c + cm.id_delta[i]) % 65536
            } else {
                let g = be16(f.data, (cm.id_range_offset_pos + 2 * i) + cm.id_range_offset[i] + 2 * (c - cm.seg_start[i]));
                if g == 0 {
                    0
                } else {
                    (g + cm.id_delta[i]) % 65536
                }
            }
        }),
{
    lemma_seg_lookup_skips(f.cmap, f.data, ch as int, 0, i);
}

/// A 16-bit value lies in `0..=65535`.
proof fn lemma_be16_range(d: Seq<u8>, o: int)
    ensures
        0 <= be16(d, o) <= 65535,
{
    if o + 2 <= d.len() {
        assert(d[o] * 256 + d[o + 1] <= 65535) by (nonlinear_arith)
            requires
                d[o] <= 255,
                d[o + 1] <= 255,
        ;
        assert(0 <= d[o] * 256 + d[o + 1]) by (nonlinear_arith)
            requires
                0 <= d[o],
                0 <= d[o + 1],
        ;
    }
}

/// The range offsets of a character map read from a file lie at
/// `id_range_offset_pos`, two bytes each: offset `i` is the 16-bit value at
/// `id_range_offset_pos + 2 * i`.
pub proof fn law_range_offsets_in_place(d: Seq<u8>, off: int)
    ensures
        spec_cmap(d, off) matches Some(cm) ==> forall|i: int|
            0 <= i < cm.id_range_offset.len() ==> #[trigger] cm.id_range_offset[i] as int == be16(d, cm.id_range_offset_pos + 2 * i),
{
    if spec_cmap(d, off) is Some {
        let cm = spec_cmap(d, off)->0;
        assert forall|i: int| 0 <= i < cm.id_range_offset.len() implies #[trigger] cm.id_range_offset[i] as int == be16(d, cm.id_range_offset_pos + 2 * i) by {
            lemma_be16_range(d, cm.id_range_offset_pos + 2 * i);
        }
    }
}

/// The advance width of a glyph, in font units: glyphs past the last
/// horizontal metric take the last one's.
pub open spec fn spec_advance_width(f: FontV, gid: int) -> int {
    let i = if gid < f.num_h_metrics {
        gid
    } else if f.num_h_metrics >= 1 {
        f.num_h_metrics - 1
    } else {
        0
    };
    be16(f.data, f.hmtx_off + i * 4)
}

/// A value taken modulo 2^16.
fn wrap16(v: i32) -> (r: u16)
    ensures
        r == v as int % 65536,
{
    let m = v % 65536;
    let m2 = if m < 0 {
        m + 65536
    } else {
        m
    };
    proof {
        vstd::arithmetic::div_mod::lemma_fundamental_div_mod_converse(
            v as int,
            65536,
            if m < 0 {
                v as int / 65536
            } else {
                v as int / 65536
            },
            m2 as int,
        );
    }
    m2 as u16
}

impl TtfFont {
    /// The glyph of a character (0, the missing glyph, when there is none).
    pub fn glyph_index(&self, ch: char) -> (g: u16)
        requires
            self.wf(),
        ensures
            g == spec_glyph_index(self@, ch),
    {
        let c = ch as u32;
        assert(c as int == ch as int);
        if c > 65535 {
            return 0;
        }
        let c = c as u16;
        assert(spec_glyph_index(self@, ch) == seg_lookup(self.cmap@, self.data@, c as int, 0));
        let cm = &self.cmap;
        let n = cm.seg_end.len();
        let mut i: usize = 0;
        while i < n
            invariant
                i <= n == cm.seg_end@.len(),
                cmap_wf(cm@),
                c as int == ch as int,
                cm@ == self.cmap@,
                spec_glyph_index(self@, ch) == seg_lookup(self.cmap@, self.data@, c as int, 0),
                seg_lookup(cm@, self.data@, c as int, 0) == seg_lookup(cm@, self.data@, c as int, i as int),
            decreases n - i,
        {
            if cm.seg_end[i] >= c {
                assert(cm@.seg_end[i as int] >= c);
                if cm.seg_start[i] > c {
                    assert(seg_lookup(cm@, self.data@, c as int, i as int) == 0);
                    return 0;
                }
                if cm.id_range_offset[i] == 0 {
                    return wrap16(c as i32 + cm.id_delta[i] as i32);
                }
                let addr = cm.id_range_offset_pos as u128 + i as u128 * 2 + cm.id_range_offset[i] as u128
                    + (c - cm.seg_start[i]) as u128 * 2;
                let len = self.data.len();
                let g = if addr > u64::MAX as u128 {
                    assert(len <= u64::MAX);
                    0
                } else {
                    rd16(&self.data, addr as u64)
                };
                if g == 0 {
                    return 0;
                }
                return wrap16(g as i32 + cm.id_delta[i] as i32);
            }
            i += 1;
        }
        0
    }

    /// The advance width of a glyph, in font units.
    pub fn advance_width(&self, gid: u16) -> (w: u16)
        ensures
            w == spec_advance_width(self@, gid as int),
    {
        let i: u64 = if gid < self.num_h_metrics {
            gid as u64
        } else if self.num_h_metrics >= 1 {
            self.num_h_metrics as u64 - 1
        } else {
            0
        };
        let len = self.data.len();
        let off: u128 = self.hmtx_off as u128 + i as u128 * 4;
        if off > u64::MAX as u128 {
            assert(len <= u64::MAX);
            return 0;
        }
        rd16(&self.data, off as u64)
    }
}

// ---------------------------------------------------------------------------
// Glyph outlines.
// ---------------------------------------------------------------------------

/// A point of an outline, in font units: on the curve, or a control point.
#[derive(Debug, Clone, Copy)]
pub struct Point {
    pub x: i64,
    pub y: i64,
    pub on: bool,
}

/// The 2x2 transform of a part of a composite glyph, as F2Dot14 values
/// (value / 16384).
#[derive(Debug, Clone, Copy)]
pub enum Scale {
    /// No transform.
    Identity,
    /// One scale for both axes.
    Uniform(i16),
    /// A scale for each axis.
    Axes(i16, i16),
    /// A full matrix `(a, b, c, d)`: `x' = a x + c y`, `y' = b x + d y`.
    Matrix(i16, i16, i16, i16),
}

/// One part of a composite glyph: another glyph, moved and transformed.
#[derive(Debug, Clone, Copy)]
pub struct Component {
    pub flags: u16,
    pub glyph: u16,
    pub dx: i16,
    pub dy: i16,
    pub scale: Scale,
}

/// What the outline of a glyph is made of.
pub enum Outline {
    /// No outline (as for a space, or a glyph number past the last).
    Empty,
    /// Contours of points.
    Simple(Vec<Vec<Point>>),
    /// Parts taken from other glyphs.
    Composite(Vec<Component>),
}

/// The values of contours.
pub open spec fn contours_v(v: Seq<Vec<Point>>) -> Seq<Seq<Point>> {
    v.map_values(|c: Vec<Point>| c@)
}

/// The mathematical value of an outline.
pub enum OutlineV {
    Empty,
    Simple(Seq<Seq<Point>>),
    Composite(Seq<Component>),
}

impl View for Outline {
    type V = OutlineV;

    open spec fn view(&self) -> OutlineV {
        match self {
            Outline::Empty => OutlineV::Empty,
            Outline::Simple(c) => OutlineV::Simple(contours_v(c@)),
            Outline::Composite(p) => OutlineV::Composite(p@),
        }
    }
}

/// The flags of a simple glyph read from `p` until there are `np` of them
/// or the data ends: a flag with bit 3 set is followed by a count of
/// repeats.
pub open spec fn read_flags(d: Seq<u8>, p: int, np: int, acc: Seq<u8>) -> (Seq<u8>, int)
    decreases d.len() + 2 - p,
{
    if acc.len() >= np || p >= d.len() || p < 0 {
        (acc, p)
    } else {
        let f = d[p];
        let acc1 = acc.push(f);
        if f & 8u8 != 0 {
            let rep = byte_at(d, p + 1);
            let k = if rep < np - acc1.len() {
                rep
            } else {
                np - acc1.len()
            };
            read_flags(d, p + 2, np, acc1 + Seq::new(k as nat, |q: int| f))
        } else {
            read_flags(d, p + 1, np, acc1)
        }
    }
}

/// The coordinates along one axis, read from `p` for flags `i..`: bit
/// `short` marks a one-byte delta (its sign given by bit `same`); without
/// it, bit `same` marks an unchanged coordinate, else a two-byte delta.
pub open spec fn read_coords(
    d: Seq<u8>,
    flags: Seq<u8>,
    short: u8,
    same: u8,
    i: int,
    p: int,
    v: int,
    acc: Seq<int>,
) -> (Seq<int>, int)
    decreases flags.len() - i,
{
    if i < 0 || i >= flags.len() {
        (acc, p)
    } else {
        let f = flags[i];
        if f & short != 0 {
            let dv = byte_at(d, p);
            let nv = if f & same != 0 {
                v + dv
            } else {
                v - dv
            };
            read_coords(d, flags, short, same, i + 1, p + 1, nv, acc.push(nv))
        } else if f & same == 0 {
            let nv = v + s16(be16(d, p));
            read_coords(d, flags, short, same, i + 1, p + 2, nv, acc.push(nv))
        } else {
            read_coords(d, flags, short, same, i + 1, p, v, acc.push(v))
        }
    }
}

/// The points of one contour: indices `s..=e`.
pub open spec fn contour_points(xs: Seq<int>, ys: Seq<int>, flags: Seq<u8>, s: int, e: int) -> Seq<Point> {
    if e < s {
        Seq::empty()
    } else {
        Seq::new(
            (e - s + 1) as nat,
            |k: int| Point { x: xs[s + k] as i64, y: ys[s + k] as i64, on: flags[s + k] & 1u8 != 0 },
        )
    }
}

/// The contours of the first `k` end points, the next starting at `s`.
pub open spec fn group_contours(
    xs: Seq<int>,
    ys: Seq<int>,
    flags: Seq<u8>,
    ends: Seq<int>,
    np: int,
    k: int,
) -> (Seq<Seq<Point>>, int)
    decreases k,
{
    if k <= 0 {
        (Seq::empty(), 0)
    } else {
        let (cs, s) = group_contours(xs, ys, flags, ends, np, k - 1);
        let e = ends[k - 1];
        let last = if e < np - 1 {
            e
        } else {
            np - 1
        };
        let c = contour_points(xs, ys, flags, s, last);
        (
            if c.len() > 0 {
                cs.push(c)
            } else {
                cs
            },
            e + 1,
        )
    }
}

/// The contours of the simple glyph at `g` with `nc` contours.
pub open spec fn spec_simple(d: Seq<u8>, g: int, nc: int) -> Seq<Seq<Point>> {
    let ends = Seq::new(nc as nat, |k: int| be16(d, g + 10 + 2 * k));
    if nc <= 0 {
        Seq::empty()
    } else {
        let np = ends.last() + 1;
        let p1 = g + 10 + 2 * nc;
        let p2 = p1 + 2 + be16(d, p1);
        let (fl, p3) = read_flags(d, p2, np, Seq::empty());
        let flags = fl + Seq::new((np - fl.len()) as nat, |q: int| 0u8);
        let (xs, p4) = read_coords(d, flags, 2u8, 16u8, 0, p3, 0, Seq::empty());
        let (ys, _) = read_coords(d, flags, 4u8, 32u8, 0, p4, 0, Seq::empty());
        group_contours(xs, ys, flags, ends, np, nc).0
    }
}

/// The number of points of a list of contours.
pub open spec fn total_points(cs: Seq<Seq<Point>>) -> int
    decreases cs.len(),
{
    if cs.len() == 0 {
        0
    } else {
        total_points(cs.drop_last()) + cs.last().len()
    }
}

/// Grouping points at end points gives no empty contour; when the end
/// points rise and lie below `np`, the contours are one per end point and
/// hold exactly the points up to the last end point.
proof fn lemma_group_contours(xs: Seq<int>, ys: Seq<int>, flags: Seq<u8>, ends: Seq<int>, np: int, k: int)
    requires
        0 <= k <= ends.len(),
    ensures
        ({
            let (cs, st) = group_contours(xs, ys, flags, ends, np, k);
            &&& forall|i: int| 0 <= i < cs.len() ==> #[trigger] cs[i].len() > 0
            &&& ((forall|i: int, j: int| 0 <= i < j < k ==> ends[i] < ends[j])
                && (forall|i: int| 0 <= i < k ==> 0 <= #[trigger] ends[i] < np) && k > 0)
                ==> cs.len() == k && total_points(cs) == ends[k - 1] + 1 && st == ends[k - 1] + 1
        }),
    decreases k,
{
    if k > 0 {
        lemma_group_contours(xs, ys, flags, ends, np, k - 1);
        let (cs0, s0) = group_contours(xs, ys, flags, ends, np, k - 1);
        let e = ends[k - 1];
        let last = if e < np - 1 { e } else { np - 1 };
        let c = contour_points(xs, ys, flags, s0, last);
        let cs = if c.len() > 0 { cs0.push(c) } else { cs0 };
        assert(forall|i: int| 0 <= i < cs.len() ==> #[trigger] cs[i].len() > 0) by {
            assert forall|i: int| 0 <= i < cs.len() implies #[trigger] cs[i].len() > 0 by {
                if i < cs0.len() {
                    assert(cs[i] == cs0[i]);
                }
            }
        }
        if (forall|i: int, j: int| 0 <= i < j < k ==> ends[i] < ends[j])
            && (forall|i: int| 0 <= i < k ==> 0 <= #[trigger] ends[i] < np) {
            if k == 1 {
                assert(s0 == 0);
                assert(cs0.len() == 0);
                assert(total_points(cs0) == 0);
            } else {
                assert(forall|i: int, j: int| 0 <= i < j < k - 1 ==> ends[i] < ends[j]);
                assert(forall|i: int| 0 <= i < k - 1 ==> 0 <= #[trigger] ends[i] < np);
                assert(ends[k - 2] < ends[k - 1]);
                assert(0 <= ends[k - 2] < np);
                assert(cs0.len() == k - 1 && total_points(cs0) == ends[k - 2] + 1 && s0 == ends[k - 2] + 1);
            }
            assert(0 <= e < np);
            assert(last == e);
            assert(c.len() == e - s0 + 1);
            assert(cs == cs0.push(c));
            assert(cs.drop_last() =~= cs0);
            assert(total_points(cs) == total_points(cs0) + c.len());
        }
    }
}

/// The `k`-th end point of the simple glyph at `g`.
pub open spec fn end_point(d: Seq<u8>, g: int, k: int) -> int {
    be16(d, g + 10 + 2 * k)
}

/// The contours of a simple glyph are never empty; when its end points rise,
/// as the format asks, there is one contour per end point and together they
/// hold exactly the last end point plus one points.
pub proof fn law_simple_contours(d: Seq<u8>, g: int, nc: int)
    ensures
        forall|i: int| 0 <= i < spec_simple(d, g, nc).len() ==> #[trigger] spec_simple(d, g, nc)[i].len() > 0,
        (nc > 0 && forall|i: int, j: int| 0 <= i < j < nc ==> #[trigger] end_point(d, g, i) < #[trigger] end_point(d, g, j))
            ==> spec_simple(d, g, nc).len() == nc && total_points(spec_simple(d, g, nc)) == end_point(d, g, nc - 1) + 1,
{
    if nc > 0 {
        let ends = Seq::new(nc as nat, |k: int| be16(d, g + 10 + 2 * k));
        let np = ends.last() + 1;
        let p1 = g + 10 + 2 * nc;
        let p2 = p1 + 2 + be16(d, p1);
        let (fl, p3) = read_flags(d, p2, np, Seq::empty());
        let flags = fl + Seq::new((np - fl.len()) as nat, |q: int| 0u8);
        let (xs, p4) = read_coords(d, flags, 2u8, 16u8, 0, p3, 0, Seq::empty());
        let (ys, _) = read_coords(d, flags, 4u8, 32u8, 0, p4, 0, Seq::empty());
        lemma_group_contours(xs, ys, flags, ends, np, nc);
        if forall|i: int, j: int| 0 <= i < j < nc ==> #[trigger] end_point(d, g, i) < #[trigger] end_point(d, g, j) {
            assert forall|i: int, j: int| 0 <= i < j < nc implies ends[i] < ends[j] by {
                assert(end_point(d, g, i) < end_point(d, g, j));
            }
            assert forall|i: int| 0 <= i < nc implies 0 <= #[trigger] ends[i] < np by {
                if i < nc - 1 {
                    assert(end_point(d, g, i) < end_point(d, g, nc - 1));
                }
                assert(ends[i] == end_point(d, g, i));
            }
        }
    }
}

/// A font is read exactly when the `head`, `maxp`, `hhea`, `hmtx`, `loca`,
/// `glyf` and `cmap` tables are all listed and the character map has a
/// format 4 subtable.
pub proof fn law_font_needs_its_tables(d: Seq<u8>)
    ensures
        spec_font(d) is Some <==> {
            &&& table_off(d, tag_head()) is Some
            &&& table_off(d, tag_maxp()) is Some
            &&& table_off(d, tag_hhea()) is Some
            &&& table_off(d, tag_hmtx()) is Some
            &&& table_off(d, tag_loca()) is Some
            &&& table_off(d, tag_glyf()) is Some
            &&& table_off(d, tag_cmap()) matches Some(c) && spec_cmap(d, c) is Some
        },
{
}

/// The transform of a composite part, read at `p` under its flags, and the
/// position after it.
pub open spec fn spec_scale(d: Seq<u8>, flags: u16, p: int) -> (Scale, int) {
    if flags & 8u16 != 0 {
        (Scale::Uniform(s16(be16(d, p)) as i16), p + 2)
    } else if flags & 64u16 != 0 {
        (Scale::Axes(s16(be16(d, p)) as i16, s16(be16(d, p + 2)) as i16), p + 4)
    } else if flags & 128u16 != 0 {
        (
            Scale::Matrix(
                s16(be16(d, p)) as i16,
                s16(be16(d, p + 2)) as i16,
                s16(be16(d, p + 4)) as i16,
                s16(be16(d, p + 6)) as i16,
            ),
            p + 8,
        )
    } else {
        (Scale::Identity, p)
    }
}

/// A byte read as a signed `i8`.
pub open spec fn s8(v: int) -> int {
    if v >= 128 {
        v - 256
    } else {
        v
    }
}

/// The part of a composite glyph at `p`, and the position after it.
pub open spec fn spec_component(d: Seq<u8>, p: int) -> (Component, int) {
    let flags = be16(d, p) as u16;
    let glyph = be16(d, p + 2) as u16;
    let q = p + 4;
    let (dx, dy, q2) = if flags & 1u16 != 0 {
        (s16(be16(d, q)), s16(be16(d, q + 2)), q + 4)
    } else {
        (s8(byte_at(d, q)), s8(byte_at(d, q + 1)), q + 2)
    };
    let (sc, q3) = spec_scale(d, flags, q2);
    (Component { flags, glyph, dx: dx as i16, dy: dy as i16, scale: sc }, q3)
}

/// The parts of a composite glyph from `p` on: parts follow one another
/// while bit 5 of the flags is set.
pub open spec fn spec_components(d: Seq<u8>, p: int) -> Seq<Component>
    decreases d.len() + 16 - p,
{
    let (c, q) = spec_component(d, p);
    if c.flags & 32u16 != 0 && 0 <= p && p + 2 <= d.len() && q > p {
        seq![c] + spec_components(d, q)
    } else {
        seq![c]
    }
}

/// Where the data of glyph `gid` starts and ends in `glyf`.
pub open spec fn glyph_range(f: FontV, gid: int) -> (int, int) {
    if f.loc_long {
        (be32(f.data, f.loca_off + gid * 4), be32(f.data, f.loca_off + (gid + 1) * 4))
    } else {
        (be16(f.data, f.loca_off + gid * 2) * 2, be16(f.data, f.loca_off + (gid + 1) * 2) * 2)
    }
}

/// The outline of glyph `gid`.
pub open spec fn spec_outline(f: FontV, gid: int) -> OutlineV {
    let (start, end) = glyph_range(f, gid);
    if gid >= f.num_glyphs || start >= end {
        OutlineV::Empty
    } else {
        let g = f.glyf_off + start;
        let nc = s16(be16(f.data, g));
        if nc < 0 {
            OutlineV::Composite(spec_components(f.data, g + 10))
        } else {
            OutlineV::Simple(spec_simple(f.data, g, nc))
        }
    }
}

/// The values of coordinates.
pub open spec fn ints(v: Seq<i64>) -> Seq<int> {
    v.map_values(|x: i64| x as int)
}

/// Reads the flags of a simple glyph.
fn simple_flags(d: &Vec<u8>, p0: u64, np: u64) -> (r: (Vec<u8>, u64))
    requires
        p0 <= u64::MAX - 4,
        d@.len() <= isize::MAX,
        np <= 65536,
    ensures
        read_flags(d@, p0 as int, np as int, Seq::empty()) == (r.0@, r.1 as int),
        r.0@.len() <= np,
        r.1 <= d@.len() + 2 || r.1 == p0,
{
    let mut flags: Vec<u8> = Vec::new();
    let mut p = p0;
    let len = d.len() as u64;
    while (flags.len() as u64) < np && p < len
        invariant
            len == d@.len() <= isize::MAX,
            np <= 65536,
            flags@.len() <= np,
            p0 <= p,
            p <= len + 2 || p == p0,
            p0 <= u64::MAX - 4,
            read_flags(d@, p0 as int, np as int, Seq::empty()) == read_flags(d@, p as int, np as int, flags@),
        decreases len + 2 - p,
    {
        let f = d[p as usize];
        let ghost acc1 = flags@.push(f);
        flags.push(f);
        if f & 8u8 != 0 {
            let mut rep = rd8(d, p + 1);
            let ghost k: int = if rep < np - acc1.len() {
                rep as int
            } else {
                np - acc1.len()
            };
            let ghost start_rep = rep;
            while rep > 0 && (flags.len() as u64) < np
                invariant
                    np <= 65536,
                    acc1.len() <= flags@.len() <= np,
                    rep <= start_rep,
                    k == if start_rep < np - acc1.len() {
                        start_rep as int
                    } else {
                        np - acc1.len()
                    },
                    flags@ == acc1 + Seq::new((start_rep - rep) as nat, |q: int| f),
                    flags@.len() == acc1.len() + (start_rep - rep),
                decreases rep,
            {
                flags.push(f);
                rep -= 1;
                proof {
                    assert(flags@ =~= acc1 + Seq::new((start_rep - rep) as nat, |q: int| f));
                }
            }
            assert(flags@ =~= acc1 + Seq::new(k as nat, |q: int| f));
            p = p + 2;
        } else {
            p = p + 1;
        }
    }
    (flags, p)
}

/// Reads the coordinates along one axis of a simple glyph.
fn simple_coords(d: &Vec<u8>, flags: &Vec<u8>, short: u8, same: u8, p0: u64) -> (r: (Vec<i64>, u64))
    requires
        flags@.len() <= 65536,
        p0 <= u64::MAX - 4 * 65536 - 8,
    ensures
        read_coords(d@, flags@, short, same, 0, p0 as int, 0, Seq::empty()) == (ints(r.0@), r.1 as int),
        r.1 <= p0 + 2 * flags@.len(),
        forall|k: int| 0 <= k < r.0@.len() ==> -2147483648 <= #[trigger] r.0@[k] <= 2147483648,
        r.0@.len() == flags@.len(),
{
    let n = flags.len();
    let mut out: Vec<i64> = Vec::new();
    let mut p = p0;
    let mut v: i64 = 0;
    let mut i: usize = 0;
    assert(ints(out@) =~= Seq::<int>::empty());
    while i < n
        invariant
            i <= n == flags@.len() <= 65536,
            p0 <= p <= p0 + 2 * i,
            p0 <= u64::MAX - 4 * 65536 - 8,
            -32768 * i <= v <= 32768 * i,
            out@.len() == i,
            forall|k: int| 0 <= k < out@.len() ==> -2147483648 <= #[trigger] out@[k] <= 2147483648,
            read_coords(d@, flags@, short, same, 0, p0 as int, 0, Seq::empty()) == read_coords(
                d@,
                flags@,
                short,
                same,
                i as int,
                p as int,
                v as int,
                ints(out@),
            ),
        decreases n - i,
    {
        let f = flags[i];
        if f & short != 0 {
            let dv = rd8(d, p) as i64;
            v = if f & same != 0 {
                v + dv
            } else {
                v - dv
            };
            p = p + 1;
        } else if f & same == 0 {
            v = v + rdi16(d, p) as i64;
            p = p + 2;
        }
        let ghost before = ints(out@);
        out.push(v);
        proof {
            assert(ints(out@) =~= before.push(v as int));
            assert(-32768 * (i + 1) <= v <= 32768 * (i + 1));
            assert(32768 * (i + 1) <= 2147483648) by (nonlinear_arith)
                requires
                    i < 65536,
            ;
        }
        i += 1;
    }
    (out, p)
}

/// Groups the points into contours by their end indices.
fn group(xs: &Vec<i64>, ys: &Vec<i64>, flags: &Vec<u8>, ends: &Vec<u64>, np: u64) -> (r: Vec<Vec<Point>>)
    requires
        xs@.len() == np,
        ys@.len() == np,
        flags@.len() == np,
        1 <= np <= 65536,
        forall|k: int| 0 <= k < ends@.len() ==> #[trigger] ends@[k] <= 65535,
        forall|k: int| 0 <= k < xs@.len() ==> -2147483648 <= #[trigger] xs@[k] <= 2147483648,
        forall|k: int| 0 <= k < ys@.len() ==> -2147483648 <= #[trigger] ys@[k] <= 2147483648,
    ensures
        contours_v(r@) == group_contours(ints(xs@), ints(ys@), flags@, ints_u(ends@), np as int, ends@.len() as int).0,
{
    let m = ends.len();
    let mut cs: Vec<Vec<Point>> = Vec::new();
    let mut s: u64 = 0;
    let mut k: usize = 0;
    while k < m
        invariant
            k <= m == ends@.len(),
            xs@.len() == np,
            ys@.len() == np,
            flags@.len() == np,
            1 <= np <= 65536,
            forall|q: int| 0 <= q < ends@.len() ==> #[trigger] ends@[q] <= 65535,
            s <= 65536,
            (contours_v(cs@), s as int) == group_contours(ints(xs@), ints(ys@), flags@, ints_u(ends@), np as int, k as int),
        decreases m - k,
    {
        let e = ends[k];
        let last = if e < np - 1 {
            e
        } else {
            np - 1
        };
        let mut c: Vec<Point> = Vec::new();
        let mut i = s;
        while i <= last
            invariant
                s <= i,
                i <= last + 1 || i == s,
                last < np <= 65536,
                xs@.len() == np,
                ys@.len() == np,
                flags@.len() == np,
                c@.len() == i - s,
                forall|q: int| 0 <= q < c@.len() ==> #[trigger] c@[q] == (Point {
                    x: xs@[s + q],
                    y: ys@[s + q],
                    on: flags@[s + q] & 1u8 != 0,
                }),
            decreases last + 1 - i,
        {
            c.push(Point { x: xs[i as usize], y: ys[i as usize], on: flags[i as usize] & 1u8 != 0 });
            i += 1;
        }
        let ghost cv = contour_points(ints(xs@), ints(ys@), flags@, s as int, last as int);
        assert(c@ =~= cv);
        let ghost before = contours_v(cs@);
        if c.len() > 0 {
            cs.push(c);
            assert(contours_v(cs@) =~= before.push(cv));
        }
        s = e + 1;
        k += 1;
    }
    cs
}

/// The values of unsigned counts.
pub open spec fn ints_u(v: Seq<u64>) -> Seq<int> {
    v.map_values(|x: u64| x as int)
}

/// Reads the contours of the simple glyph at `g` with `nc` contours.
fn parse_simple(d: &Vec<u8>, g: u64, nc: u64) -> (r: Vec<Vec<Point>>)
    requires
        nc <= 32767,
        d@.len() <= isize::MAX,
        nc > 0 ==> g + 2 <= d@.len(),
    ensures
        contours_v(r@) == spec_simple(d@, g as int, nc as int),
{
    if nc == 0 {
        let r: Vec<Vec<Point>> = Vec::new();
        assert(contours_v(r@) =~= Seq::<Seq<Point>>::empty());
        return r;
    }
    let ghost ends_s = Seq::new(nc as nat, |k: int| be16(d@, g + 10 + 2 * k));
    let mut ends: Vec<u64> = Vec::new();
    let mut k: u64 = 0;
    while k < nc
        invariant
            k <= nc <= 32767,
            g + 2 <= d@.len() <= isize::MAX,
            ends_s == Seq::new(nc as nat, |q: int| be16(d@, g + 10 + 2 * q)),
            ints_u(ends@) == ends_s.take(k as int),
            forall|q: int| 0 <= q < ends@.len() ==> #[trigger] ends@[q] <= 65535,
        decreases nc - k,
    {
        let v = rd16(d, g + 10 + 2 * k) as u64;
        let ghost before = ints_u(ends@);
        ends.push(v);
        proof {
            assert(ints_u(ends@) =~= before.push(v as int));
            assert(ends_s.take(k + 1) =~= ends_s.take(k as int).push(ends_s[k as int]));
        }
        k += 1;
    }
    assert(ends_s.take(nc as int) =~= ends_s);
    let np = ends[(nc - 1) as usize] + 1;
    assert(np == ends_s.last() + 1);
    let p1 = g + 10 + 2 * nc;
    let p2 = p1 + 2 + rd16(d, p1) as u64;
    let (fl, p3) = simple_flags(d, p2, np);
    let mut flags = fl;
    let ghost flv = flags@;
    while (flags.len() as u64) < np
        invariant
            flv.len() <= flags@.len() <= np <= 65536,
            flags@ == flv + Seq::new((flags@.len() - flv.len()) as nat, |q: int| 0u8),
        decreases np - flags@.len(),
    {
        flags.push(0u8);
        proof {
            assert(flags@ =~= flv + Seq::new((flags@.len() - flv.len()) as nat, |q: int| 0u8));
        }
    }
    let (xs, p4) = simple_coords(d, &flags, 2u8, 16u8, p3);
    let (ys, _) = simple_coords(d, &flags, 4u8, 32u8, p4);
    group(&xs, &ys, &flags, &ends, np)
}

/// A byte read as a signed `i8`, widened.
fn signed_byte(b: u8) -> (r: i16)
    ensures
        r == s8(b as int),
{
    if b >= 128 {
        (b as i16) - 256
    } else {
        b as i16
    }
}

/// Reads the part of a composite glyph at `p`.
fn component_at(d: &Vec<u8>, p: u64) -> (r: (Component, u64))
    requires
        p <= u64::MAX - 32,
    ensures
        (r.0, r.1 as int) == spec_component(d@, p as int),
{
    let flags = rd16(d, p);
    let glyph = rd16(d, p + 2);
    let q = p + 4;
    let (dx, dy, q2) = if flags & 1u16 != 0 {
        (rdi16(d, q), rdi16(d, q + 2), q + 4)
    } else {
        (signed_byte(rd8(d, q)), signed_byte(rd8(d, q + 1)), q + 2)
    };
    let (scale, q3) = if flags & 8u16 != 0 {
        (Scale::Uniform(rdi16(d, q2)), q2 + 2)
    } else if flags & 64u16 != 0 {
        (Scale::Axes(rdi16(d, q2), rdi16(d, q2 + 2)), q2 + 4)
    } else if flags & 128u16 != 0 {
        (Scale::Matrix(rdi16(d, q2), rdi16(d, q2 + 2), rdi16(d, q2 + 4), rdi16(d, q2 + 6)), q2 + 8)
    } else {
        (Scale::Identity, q2)
    };
    (Component { flags, glyph, dx, dy, scale }, q3)
}

/// Reads the parts of a composite glyph from `p0` on.
fn parse_components(d: &Vec<u8>, p0: u64) -> (r: Vec<Component>)
    requires
        p0 <= d@.len() + 16,
        d@.len() <= isize::MAX,
    ensures
        r@ == spec_components(d@, p0 as int),
{
    let len = d.len() as u64;
    let mut out: Vec<Component> = Vec::new();
    let mut p = p0;
    loop
        invariant_except_break
            len == d@.len() <= isize::MAX,
            p <= len + 16,
            out@ + spec_components(d@, p as int) == spec_components(d@, p0 as int),
        ensures
            out@ == spec_components(d@, p0 as int),
        decreases len + 16 - p,
    {
        let (c, q) = component_at(d, p);
        let ghost before = out@;
        out.push(c);
        if c.flags & 32u16 != 0 && p + 2 <= len && q > p {
            assert(spec_components(d@, p as int) == seq![c] + spec_components(d@, q as int));
            assert(out@ + spec_components(d@, q as int) =~= before + spec_components(d@, p as int));
            p = q;
        } else {
            assert(out@ =~= before + spec_components(d@, p as int));
            break;
        }
    }
    out
}

/// Reads a big-endian `u16` at any offset; 0 past the end.
fn rd16_at(d: &Vec<u8>, off: u128) -> (r: u16)
    ensures
        r == be16(d@, off as int),
{
    let len = d.len();
    if off > u64::MAX as u128 {
        assert(len <= u64::MAX);
        return 0;
    }
    rd16(d, off as u64)
}

/// Reads a big-endian `u32` at any offset; 0 past the end.
fn rd32_at(d: &Vec<u8>, off: u128) -> (r: u32)
    ensures
        r == be32(d@, off as int),
{
    let len = d.len();
    if off > u64::MAX as u128 {
        assert(len <= u64::MAX);
        return 0;
    }
    rd32(d, off as u64)
}

impl TtfFont {
    /// The outline of a glyph: nothing for a glyph number past the last or
    /// a glyph without data, else its contours (a simple glyph) or its parts
    /// (a composite glyph).
    pub fn glyph_outline(&self, gid: u16) -> (r: Outline)
        requires
            self.data@.len() <= isize::MAX,
        ensures
            r@ == spec_outline(self@, gid as int),
    {
        let d = &self.data;
        let len = d.len();
        let (start, end): (u64, u64) = if self.loc_long {
            (
                rd32_at(d, self.loca_off as u128 + gid as u128 * 4) as u64,
                rd32_at(d, self.loca_off as u128 + (gid as u128 + 1) * 4) as u64,
            )
        } else {
            (
                rd16_at(d, self.loca_off as u128 + gid as u128 * 2) as u64 * 2,
                rd16_at(d, self.loca_off as u128 + (gid as u128 + 1) * 2) as u64 * 2,
            )
        };
        if gid >= self.num_glyphs || start >= end {
            return Outline::Empty;
        }
        let g: u128 = self.glyf_off as u128 + start as u128;
        if g + 2 > len as u128 {
            // Past the end: no contour count, hence no contour.
            let r: Vec<Vec<Point>> = Vec::new();
            assert(contours_v(r@) =~= Seq::<Seq<Point>>::empty());
            assert(be16(d@, g as int) == 0);
            return Outline::Simple(r);
        }
        let g = g as u64;
        let nc = rdi16(d, g);
        if nc < 0 {
            Outline::Composite(parse_components(d, g + 10))
        } else {
            Outline::Simple(parse_simple(d, g, nc as u64))
        }
    }
}

} // verus!
