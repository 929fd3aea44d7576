//! A canvas as the bytes of an uncompressed 24-bit BMP image: a 54-byte
//! header, then the rows from the bottom up, each pixel as blue, green and
//! red bytes, each row padded with zeros to a multiple of four bytes.

use vstd::prelude::*;

use crate::paint::Canvas;

verus! {

/// The four bytes of `v`, least significant first.
pub open spec fn le32(v: int) -> Seq<u8> {
    seq![(v % 256) as u8, ((v / 256) % 256) as u8, ((v / 65536) % 256) as u8, ((v / 16777216) % 256) as u8]
}

/// The two bytes of `v`, least significant first.
pub open spec fn le16(v: int) -> Seq<u8> {
    seq![(v % 256) as u8, ((v / 256) % 256) as u8]
}

/// The bytes of a row of `w` pixels: three per pixel, rounded up to a
/// multiple of four.
pub open spec fn row_size(w: int) -> int {
    ((w * 3 + 3) / 4) * 4
}

/// The 54-byte header of an image `w` by `h` pixels.
pub open spec fn bmp_header(w: int, h: int) -> Seq<u8> {
    let data = row_size(w) * h;
    seq![66u8, 77u8] + le32(54 + data) + le32(0) + le32(54) + le32(40) + le32(w) + le32(h) + le16(1) + le16(24)
        + le32(0) + le32(data) + le32(2835) + le32(2835) + le32(0) + le32(0)
}

/// A pixel `0x00RRGGBB` as its blue, green and red bytes.
pub open spec fn bgr(p: u32) -> Seq<u8> {
    seq![(p % 256) as u8, ((p / 256) % 256) as u8, ((p / 65536) % 256) as u8]
}

/// The first `x` pixels of row `y`, as bytes.
pub open spec fn row_pixels(px: Seq<u32>, w: int, y: int, x: int) -> Seq<u8>
    decreases x,
{
    if x <= 0 {
        Seq::empty()
    } else {
        row_pixels(px, w, y, x - 1) + bgr(px[y * w + x - 1])
    }
}

/// Row `y` as bytes, padded with zeros.
pub open spec fn bmp_row(px: Seq<u32>, w: int, y: int) -> Seq<u8> {
    row_pixels(px, w, y, w) + Seq::new((row_size(w) - 3 * w) as nat, |i: int| 0u8)
}

/// The bottom `k` rows of an image `h` high, from the bottom up.
pub open spec fn bmp_rows(px: Seq<u32>, w: int, h: int, k: int) -> Seq<u8>
    decreases k,
{
    if k <= 0 {
        Seq::empty()
    } else {
        bmp_rows(px, w, h, k - 1) + bmp_row(px, w, h - k)
    }
}

/// The bytes of the BMP image of a `w` by `h` grid of pixels.
pub open spec fn bmp_bytes(w: int, h: int, px: Seq<u32>) -> Seq<u8> {
    bmp_header(w, h) + bmp_rows(px, w, h, h)
}

/// Appends the four bytes of `v`, least significant first.
fn push_le32(out: &mut Vec<u8>, v: u32)
    ensures
        final(out)@ == old(out)@ + le32(v as int),
{
    out.push((v % 256) as u8);
    out.push(((v / 256) % 256) as u8);
    out.push(((v / 65536) % 256) as u8);
    out.push(((v / 16777216) % 256) as u8);
    assert(final(out)@ =~= old(out)@ + le32(v as int));
}

/// Appends the two bytes of `v`, least significant first.
fn push_le16(out: &mut Vec<u8>, v: u16)
    ensures
        final(out)@ == old(out)@ + le16(v as int),
{
    out.push((v % 256) as u8);
    out.push(((v / 256) % 256) as u8);
    assert(final(out)@ =~= old(out)@ + le16(v as int));
}

/// The canvas as the bytes of a 24-bit BMP image.
pub fn encode_bmp(canvas: &Canvas) -> (out: Vec<u8>)
    requires
        canvas.wf(),
        54 + row_size(canvas.width as int) * canvas.height <= 0x7fff_ffff,
    ensures
        out@ == bmp_bytes(canvas.width as int, canvas.height as int, canvas.pixels@),
{
    let w = canvas.width as u64;
    let h = canvas.height as u64;
    proof {
        assert(0 <= row_size(w as int) * h) by (nonlinear_arith)
            requires
                0 <= w,
                0 <= h,
        ;
        if h > 0 {
            assert(row_size(w as int) <= row_size(w as int) * h) by (nonlinear_arith)
                requires
                    1 <= h,
                    0 <= w,
            ;
        }
        assert(3 * w <= row_size(w as int));
    }
    let rs: u64 = if h > 0 {
        (w * 3 + 3) / 4 * 4
    } else {
        0
    };
    proof {
        if h > 0 {
            assert(rs == row_size(w as int));
        }
    }
    let data: u32 = if h > 0 {
        (rs * h) as u32
    } else {
        0
    };
    assert(data == row_size(w as int) * h) by {
        if h == 0 {
            assert(row_size(w as int) * h == 0) by (nonlinear_arith)
                requires
                    h == 0,
            ;
        }
    }
    let mut out: Vec<u8> = Vec::new();
    out.push(66u8);
    out.push(77u8);
    push_le32(&mut out, 54 + data);
    push_le32(&mut out, 0);
    push_le32(&mut out, 54);
    push_le32(&mut out, 40);
    push_le32(&mut out, canvas.width);
    push_le32(&mut out, canvas.height);
    push_le16(&mut out, 1);
    push_le16(&mut out, 24);
    push_le32(&mut out, 0);
    push_le32(&mut out, data);
    push_le32(&mut out, 2835);
    push_le32(&mut out, 2835);
    push_le32(&mut out, 0);
    push_le32(&mut out, 0);
    let count = canvas.pixels.len();
    let ghost px = canvas.pixels@;
    let ghost wi = w as int;
    let ghost hi = h as int;
    assert(out@ =~= bmp_header(wi, hi) + bmp_rows(px, wi, hi, 0));
    let mut k: u64 = 0;
    while k < h
        invariant
            k <= h == canvas.height,
            w == canvas.width,
            px == canvas.pixels@,
            px.len() == w * h,
            px.len() == count,
            wi == w,
            hi == h,
            h > 0 ==> rs == row_size(w as int),
            3 * w <= row_size(w as int),
            out@ == bmp_header(wi, hi) + bmp_rows(px, wi, hi, k as int),
        decreases h - k,
    {
        let y = h - 1 - k;
        let ghost before = out@;
        let mut x: u64 = 0;
        while x < w
            invariant
                x <= w == canvas.width,
                y < h == canvas.height,
                px == canvas.pixels@,
                px.len() == w * h,
                px.len() == count,
                wi == w,
                out@ == before + row_pixels(px, wi, y as int, x as int),
            decreases w - x,
        {
            proof {
                assert(y * w + x < w * h) by (nonlinear_arith)
                    requires
                        y < h,
                        x < w,
                ;
                assert(w * h <= usize::MAX);
                assert(y * w <= y * w + x);
            }
            let i = (y * w + x) as usize;
            let p = canvas.pixels[i];
            let ghost pre = out@;
            out.push((p % 256) as u8);
            out.push(((p / 256) % 256) as u8);
            out.push(((p / 65536) % 256) as u8);
            proof {
                assert(p == px[(y as int) * wi + x as int]);
                assert(out@ =~= pre + bgr(p));
                assert(row_pixels(px, wi, y as int, x as int + 1) == row_pixels(px, wi, y as int, x as int) + bgr(
                    px[(y as int) * wi + (x as int + 1) - 1],
                ));
            }
            assert(out@ =~= before + row_pixels(px, wi, y as int, x + 1));
            x = x + 1;
        }
        let pad = rs - 3 * w;
        let ghost mid = out@;
        let mut j: u64 = 0;
        while j < pad
            invariant
                j <= pad,
                out@ == mid + Seq::new(j as nat, |i: int| 0u8),
            decreases pad - j,
        {
            out.push(0u8);
            assert(out@ =~= mid + Seq::new((j + 1) as nat, |i: int| 0u8));
            j = j + 1;
        }
        proof {
            assert(pad == row_size(wi) - 3 * wi);
            assert(h - (k + 1) == y);
            assert(bmp_rows(px, wi, hi, k + 1) == bmp_rows(px, wi, hi, k as int) + bmp_row(px, wi, y as int));
            assert(mid == before + row_pixels(px, wi, y as int, wi));
            assert(out@ =~= before + bmp_row(px, wi, y as int));
        }
        assert(out@ =~= bmp_header(wi, hi) + bmp_rows(px, wi, hi, k + 1));
        k = k + 1;
    }
    out
}

} // verus!
