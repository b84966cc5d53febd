//! Decoders for the legacy binary image formats: the indexed-colour
//! raster format ("TIM") and the multi-image compressed container
//! ("CMP") that holds a count, a length table, and one LZSS-compressed
//! payload covering all sub-images back to back.
//!
//! Palette colours are 15-bit RGB plus a flag bit. An entry decodes to
//! fully transparent when the flag bit is set or when the whole 15-bit
//! colour value is zero; of the two historical readings of that rule,
//! this decoder deliberately applies both.

use vstd::prelude::*;
use crate::pixmap::{Pixmap, Rgba};
use crate::lzss;

verus! {

#[derive(Debug, Clone, Copy, PartialEq, Eq, Structural)]
pub enum TimError {
    /// The input ended before a declared field or block.
    Truncated,
    /// The magic/type bytes are not those of an indexed raster.
    NotATim,
    /// The pixel-type nibble and the palette-presence flag disagree.
    InconsistentHeader,
    /// Direct-colour rasters carry no palette; this pipeline never
    /// produces them and does not decode them.
    DirectColour,
    /// The palette block length does not match the pixel type.
    WrongSizedClut,
    /// The stored image dimensions describe an empty raster.
    BadDimensions,
}

#[derive(Debug, Clone, Copy, PartialEq, Eq, Structural)]
pub enum CmpError {
    /// The container ended before its count or length table.
    Truncated,
    /// The shared payload is not a well-formed LZSS stream.
    Compression,
    /// A declared sub-image length overruns the decompressed payload.
    BadLength,
    /// A sub-image failed to decode as an indexed raster.
    Tim(TimError),
}

/// Little-endian 16-bit value at byte offset `i`.
pub open spec fn spec_u16_le(bs: Seq<u8>, i: int) -> int {
    bs[i] + 0x100 * bs[i + 1]
}

/// Little-endian 32-bit value at byte offset `i`.
pub open spec fn spec_u32_le(bs: Seq<u8>, i: int) -> int {
    bs[i] + 0x100 * bs[i + 1] + 0x1_0000 * bs[i + 2] + 0x100_0000 * bs[i + 3]
}

fn read_u16_le(bs: &[u8], i: usize) -> (r: u16)
    requires
        i + 2 <= bs@.len(),
    ensures
        r == spec_u16_le(bs@, i as int),
{
    (bs[i] as u16) + 0x100 * (bs[i + 1] as u16)
}

fn read_u32_le(bs: &[u8], i: usize) -> (r: u32)
    requires
        i + 4 <= bs@.len(),
    ensures
        r == spec_u32_le(bs@, i as int),
{
    (bs[i] as u32) + 0x100 * (bs[i + 1] as u32) + 0x1_0000 * (bs[i + 2] as u32)
        + 0x100_0000 * (bs[i + 3] as u32)
}

/// One 5-bit source channel scaled to 8 bits.
pub open spec fn spec_chan5(bits: u16, sh: u16) -> u8 {
    ((((bits >> sh) & 0x1f) * 255) / 31) as u8
}

/// Decode one 16-bit palette entry: transparent when the flag bit is
/// set or the 15 colour bits are all zero, otherwise opaque RGB.
pub open spec fn spec_rgb15(bits: u16) -> Rgba {
    if (bits >> 15) & 1 == 1 || bits & 0x7fff == 0 {
        Rgba([0, 0, 0, 0])
    } else {
        Rgba([spec_chan5(bits, 0), spec_chan5(bits, 5), spec_chan5(bits, 10), 255])
    }
}

/// Decode one palette entry. A source value with its high (flag) bit
/// set always decodes with alpha exactly 0.
pub fn rgb15x1_to_rgba8(bits: u16) -> (r: Rgba)
    ensures
        r == spec_rgb15(bits),
        (bits >> 15) & 1 == 1 ==> r.0@[3] == 0,
{
    if (bits >> 15) & 1 == 1 || bits & 0x7fff == 0 {
        Rgba([0, 0, 0, 0])
    } else {
        let c0 = chan5(bits, 0);
        let c1 = chan5(bits, 5);
        let c2 = chan5(bits, 10);
        Rgba([c0, c1, c2, 255])
    }
}

fn chan5(bits: u16, sh: u16) -> (r: u8)
    requires
        sh <= 10,
    ensures
        r == spec_chan5(bits, sh),
{
    let v = (bits >> sh) & 0x1f;
    proof {
        assert(v <= 31) by (bit_vector) requires v == (bits >> sh) & 0x1f;
    }
    ((v * 255) / 31) as u8
}

/// The palette decoded from a palette block (entries start at byte 12).
pub open spec fn spec_palette(clut: Seq<u8>, n: int) -> Seq<Rgba> {
    Seq::new(n as nat, |i: int| spec_rgb15(spec_u16_le(clut, 12 + 2 * i) as u16))
}

/// The palette indices of the pixel block: two per byte in 4-bit mode
/// (low nibble first), one per byte in 8-bit mode.
pub open spec fn spec_indices(data: Seq<u8>, four_bit: bool) -> Seq<int> {
    if four_bit {
        Seq::new((2 * data.len()) as nat,
            |k: int| if k % 2 == 0 { (data[k / 2] & 0xf) as int } else { (data[k / 2] >> 4) as int })
    } else {
        Seq::new(data.len(), |k: int| data[k] as int)
    }
}

/// What an indexed raster's body (everything after the 8-byte file
/// header) decodes to: width, height, and row-major pixels.
pub open spec fn spec_from_indexed(bs: Seq<u8>, four_bit: bool)
    -> Result<(int, int, Seq<Rgba>), TimError>
{
    let pal_n: int = if four_bit { 16 } else { 256 };
    if bs.len() < 4 {
        Err(TimError::Truncated)
    } else if spec_u32_le(bs, 0) > bs.len() {
        Err(TimError::Truncated)
    } else if spec_u32_le(bs, 0) < 12 {
        Err(TimError::Truncated)
    } else if spec_u32_le(bs, 0) != 12 + 2 * pal_n {
        Err(TimError::WrongSizedClut)
    } else {
        let clut_len = spec_u32_le(bs, 0);
        let rest = bs.skip(clut_len);
        if rest.len() < 12 {
            Err(TimError::Truncated)
        } else if spec_u32_le(rest, 0) < 12 {
            Err(TimError::Truncated)
        } else if spec_u32_le(rest, 0) - 12 > rest.len() - 12 {
            Err(TimError::Truncated)
        } else {
            let data_len = spec_u32_le(rest, 0) - 12;
            let wide = spec_u16_le(rest, 8);
            let high = spec_u16_le(rest, 10);
            let w2 = if four_bit { wide * 4 } else { wide * 2 };
            if w2 < 1 || high < 1 || w2 * high > usize::MAX {
                Err(TimError::BadDimensions)
            } else {
                let data = rest.skip(12).take(data_len);
                let pal = spec_palette(bs.take(clut_len), pal_n);
                let raw = spec_indices(data, four_bit).map(|k: int, i: int| pal[i]);
                let px = if raw.len() >= w2 * high {
                    raw.take(w2 * high)
                } else {
                    raw + Seq::new((w2 * high - raw.len()) as nat, |j: int| Rgba([0, 0, 0, 0]))
                };
                Ok((w2, high, px))
            }
        }
    }
}

/// What a whole indexed raster file decodes to.
pub open spec fn spec_load_tim(tim: Seq<u8>) -> Result<(int, int, Seq<Rgba>), TimError> {
    if tim.len() < 8 {
        Err(TimError::Truncated)
    } else if tim[0] != 0x10 || tim[1] != 0x00 {
        Err(TimError::NotATim)
    } else {
        let pixel_type = tim[4] & 3;
        let got_clut = tim[4] & 8 != 0;
        if got_clut != (pixel_type < 2) {
            Err(TimError::InconsistentHeader)
        } else if !got_clut {
            Err(TimError::DirectColour)
        } else {
            spec_from_indexed(tim.skip(8), pixel_type == 0)
        }
    }
}

/// Decode one indexed raster file into an owned raster.
pub fn load_tim(tim: &[u8]) -> (r: Result<Pixmap, TimError>)
    ensures
        match r {
            Ok(pm) => {
                &&& spec_load_tim(tim@) is Ok
                &&& ({
                    let (w, h, px) = spec_load_tim(tim@).unwrap();
                    &&& pm.wf()
                    &&& pm.meta.wide == w
                    &&& pm.meta.high == h
                    &&& pm.meta.offset == 0
                    &&& pm.meta.pitch == w
                    &&& pm.pixels@ == px
                })
            },
            Err(e) => spec_load_tim(tim@) == Err::<(int, int, Seq<Rgba>), TimError>(e),
        },
{
    if tim.len() < 8 {
        return Err(TimError::Truncated);
    }
    if tim[0] != 0x10 || tim[1] != 0x00 {
        return Err(TimError::NotATim);
    }
    let pixel_type = tim[4] & 3;
    let got_clut = tim[4] & 8 != 0;
    if got_clut != (pixel_type < 2) {
        return Err(TimError::InconsistentHeader);
    }
    if !got_clut {
        return Err(TimError::DirectColour);
    }
    let bs = &tim[8..tim.len()];
    proof {
        assert(bs@ =~= tim@.skip(8));
    }
    from_indexed(bs, pixel_type == 0)
}

fn from_indexed(bs: &[u8], four_bit: bool) -> (r: Result<Pixmap, TimError>)
    ensures
        match r {
            Ok(pm) => {
                &&& spec_from_indexed(bs@, four_bit) is Ok
                &&& ({
                    let (w, h, px) = spec_from_indexed(bs@, four_bit).unwrap();
                    &&& pm.wf()
                    &&& pm.meta.wide == w
                    &&& pm.meta.high == h
                    &&& pm.meta.offset == 0
                    &&& pm.meta.pitch == w
                    &&& pm.pixels@ == px
                })
            },
            Err(e) => spec_from_indexed(bs@, four_bit)
                == Err::<(int, int, Seq<Rgba>), TimError>(e),
        },
{
    let pal_n: usize = if four_bit { 16 } else { 256 };
    if bs.len() < 4 {
        return Err(TimError::Truncated);
    }
    let clut_len32 = read_u32_le(bs, 0);
    if clut_len32 as u64 > bs.len() as u64 {
        return Err(TimError::Truncated);
    }
    let clut_len = clut_len32 as usize;
    if clut_len < 12 {
        return Err(TimError::Truncated);
    }
    if clut_len != 12 + 2 * pal_n {
        return Err(TimError::WrongSizedClut);
    }

    // decode the palette
    let mut pal: Vec<Rgba> = Vec::new();
    let mut i: usize = 0;
    let ghost clut = bs@.take(clut_len as int);
    while i < pal_n
        invariant
            i <= pal_n,
            clut_len == 12 + 2 * pal_n,
            clut_len <= bs@.len(),
            clut == bs@.take(clut_len as int),
            pal@.len() == i,
            forall|j: int| 0 <= j < i ==> pal@[j] == spec_palette(clut, pal_n as int)[j],
        decreases pal_n - i,
    {
        let e = read_u16_le(bs, 12 + 2 * i);
        proof {
            assert(spec_u16_le(bs@, 12 + 2 * i) == spec_u16_le(clut, 12 + 2 * i));
        }
        pal.push(rgb15x1_to_rgba8(e));
        i = i + 1;
    }

    // pixel block header
    let rest = &bs[clut_len..bs.len()];
    proof {
        assert(rest@ =~= bs@.skip(clut_len as int));
    }
    if rest.len() < 12 {
        return Err(TimError::Truncated);
    }
    let total32 = read_u32_le(rest, 0);
    if total32 < 12 {
        return Err(TimError::Truncated);
    }
    let data_len32 = total32 - 12;
    if data_len32 as u64 > (rest.len() - 12) as u64 {
        return Err(TimError::Truncated);
    }
    let data_len = data_len32 as usize;
    let wide = read_u16_le(rest, 8);
    let high = read_u16_le(rest, 10);
    let w2: u32 = if four_bit { (wide as u32) * 4 } else { (wide as u32) * 2 };
    if w2 < 1 || high < 1 {
        return Err(TimError::BadDimensions);
    }
    let len = match (w2 as usize).checked_mul(high as usize) {
        Some(v) => v,
        None => { return Err(TimError::BadDimensions); },
    };
    let data = &rest[12..12 + data_len];
    proof {
        assert(data@ =~= rest@.skip(12).take(data_len as int));
    }

    // decode the pixel block through the palette
    let ghost idx = spec_indices(data@, four_bit);
    let ghost pal_s = spec_palette(bs@.take(clut_len as int), pal_n as int);
    let ghost raw = idx.map(|k: int, i: int| pal_s[i]);
    let mut pixels: Vec<Rgba> = Vec::new();
    let mut k: usize = 0;
    if four_bit {
        while k < data.len()
            invariant
                four_bit,
                k <= data@.len(),
                idx == spec_indices(data@, four_bit),
                raw == idx.map(|k: int, i: int| pal_s[i]),
                pal@.len() == pal_n == 16,
                forall|j: int| 0 <= j < pal_n ==> pal@[j] == pal_s[j],
                pixels@.len() == 2 * k,
                forall|j: int| 0 <= j < 2 * k ==> pixels@[j] == raw[j],
            decreases data@.len() - k,
        {
            let b = data[k];
            let lo = (b & 0xf) as usize;
            let hi = (b >> 4) as usize;
            proof {
                assert(b & 0xf < 16 && (b >> 4) < 16) by (bit_vector);
            }
            pixels.push(pal[lo]);
            pixels.push(pal[hi]);
            k = k + 1;
        }
    } else {
        while k < data.len()
            invariant
                !four_bit,
                k <= data@.len(),
                idx == spec_indices(data@, four_bit),
                raw == idx.map(|k: int, i: int| pal_s[i]),
                pal@.len() == pal_n == 256,
                forall|j: int| 0 <= j < pal_n ==> pal@[j] == pal_s[j],
                pixels@.len() == k,
                forall|j: int| 0 <= j < k ==> pixels@[j] == raw[j],
            decreases data@.len() - k,
        {
            let b = data[k] as usize;
            pixels.push(pal[b]);
            k = k + 1;
        }
    }
    proof {
        assert(pixels@ =~= raw);
    }

    // pad or truncate to the declared dimensions
    pixels.resize(len, Rgba([0, 0, 0, 0]));
    let ghost px = if raw.len() >= (w2 as int) * (high as int) {
        raw.take((w2 as int) * (high as int))
    } else {
        raw + Seq::new(((w2 as int) * (high as int) - raw.len()) as nat,
            |j: int| Rgba([0, 0, 0, 0]))
    };
    proof {
        assert(pixels@ =~= px);
    }
    match Pixmap::new_from_pixels(pixels, 0, 1, w2 as i32, high as i32) {
        Some(pm) => Ok(pm),
        None => {
            proof {
                // a pixmap over [0, w2) x [0, high) with pitch w2 always
                // fits its buffer of length w2 * high
                assert((w2 as int) * ((high - 1) as int) + w2 == (w2 as int) * (high as int))
                    by (nonlinear_arith);
                assert((w2 as int) * ((high - 1) as int) >= 0) by (nonlinear_arith)
                    requires 1 <= w2, 1 <= high;
                assert(false);
            }
            Err(TimError::BadDimensions)
        },
    }
}

/// Split the decompressed payload into per-image segments by the
/// declared length table and decode each; a zero length is a valid
/// "no image" placeholder standing for a 1x1 transparent raster.
pub open spec fn spec_split_tims(tims: Seq<u8>, lens: Seq<int>)
    -> Result<Seq<(int, int, Seq<Rgba>)>, CmpError>
    decreases lens.len(),
{
    if lens.len() == 0 {
        Ok(Seq::empty())
    } else {
        let l = lens[0];
        if l > tims.len() {
            Err(CmpError::BadLength)
        } else {
            let first = if l == 0 {
                Ok((1int, 1int, seq![Rgba([0, 0, 0, 0])]))
            } else {
                spec_load_tim(tims.take(l))
            };
            match first {
                Err(e) => Err(CmpError::Tim(e)),
                Ok(im) => match spec_split_tims(tims.skip(l), lens.drop_first()) {
                    Err(e) => Err(e),
                    Ok(rest) => Ok(seq![im] + rest),
                },
            }
        }
    }
}

/// What a whole container decodes to: a little-endian image count, that
/// many little-endian 32-bit lengths, then one LZSS stream covering all
/// sub-images concatenated.
pub open spec fn spec_load_cmp(cmp: Seq<u8>) -> Result<Seq<(int, int, Seq<Rgba>)>, CmpError> {
    if cmp.len() < 4 {
        Err(CmpError::Truncated)
    } else {
        let n = spec_u32_le(cmp, 0);
        if cmp.len() - 4 < 4 * n {
            Err(CmpError::Truncated)
        } else {
            let lens = Seq::new(n as nat, |i: int| spec_u32_le(cmp, 4 + 4 * i));
            let data = cmp.skip(4 + 4 * n);
            match lzss::spec_expand(data) {
                None => Err(CmpError::Compression),
                Some(tims) => spec_split_tims(tims, lens),
            }
        }
    }
}

/// Does a raster agree with one decoded spec image?
pub open spec fn pixmap_matches(pm: Pixmap, im: (int, int, Seq<Rgba>)) -> bool {
    &&& pm.wf()
    &&& pm.meta.wide == im.0
    &&& pm.meta.high == im.1
    &&& pm.meta.offset == 0
    &&& pm.meta.pitch == im.0
    &&& pm.pixels@ == im.2
}

/// Decode a multi-image container into its rasters, in stored order.
#[verifier::rlimit(100)]
#[verifier::spinoff_prover]
pub fn load_cmp(cmp: &[u8]) -> (r: Result<Vec<Pixmap>, CmpError>)
    requires
        8 * cmp@.len() + 18 <= usize::MAX,
    ensures
        match (r, spec_load_cmp(cmp@)) {
            (Ok(v), Ok(s)) => v@.len() == s.len()
                && forall|i: int| 0 <= i < s.len() ==> pixmap_matches(#[trigger] v@[i], s[i]),
            (Err(e1), Err(e2)) => e1 == e2,
            _ => false,
        },
{
    if cmp.len() < 4 {
        return Err(CmpError::Truncated);
    }
    let n32 = read_u32_le(cmp, 0);
    let n = n32 as usize;
    let table = match n.checked_mul(4) {
        Some(v) => v,
        None => { return Err(CmpError::Truncated); },
    };
    if table > cmp.len() - 4 {
        return Err(CmpError::Truncated);
    }

    // the length table
    let mut lens: Vec<u32> = Vec::new();
    let mut i: usize = 0;
    let ghost lens_s = Seq::new(n as nat, |j: int| spec_u32_le(cmp@, 4 + 4 * j));
    while i < n
        invariant
            i <= n,
            4 + 4 * n <= cmp@.len(),
            cmp@.len() <= usize::MAX,
            lens@.len() == i,
            lens_s == Seq::new(n as nat, |j: int| spec_u32_le(cmp@, 4 + 4 * j)),
            forall|j: int| 0 <= j < i ==> lens@[j] == lens_s[j],
        decreases n - i,
    {
        lens.push(read_u32_le(cmp, 4 + 4 * i));
        i = i + 1;
    }

    // one shared LZSS stream covers every sub-image
    let data = &cmp[4 + table..cmp.len()];
    proof {
        assert(data@ =~= cmp@.skip(4 + 4 * (n as int)));
    }
    let tims = match lzss::expand(data) {
        Ok(v) => v,
        Err(_) => { return Err(CmpError::Compression); },
    };

    // split by the table and decode each segment
    let ghost tims_s = tims@;
    let mut out: Vec<Pixmap> = Vec::new();
    let mut start: usize = 0;
    let mut i: usize = 0;
    proof {
        assert(tims_s.skip(0) =~= tims_s);
        assert(lens_s.skip(0) =~= lens_s);
        match spec_split_tims(tims_s, lens_s) {
            Err(_) => {},
            Ok(rest) => {
                assert(Seq::new(0,
                    |j: int| (out@[j].meta.wide as int, out@[j].meta.high as int,
                        out@[j].pixels@)) + rest =~= rest);
            },
        }
    }
    while i < n
        invariant
            i <= n,
            n == lens@.len(),
            start <= tims_s.len(),
            tims_s == tims@,
            lens_s.len() == n,
            forall|j: int| 0 <= j < n ==> lens@[j] == lens_s[j],
            out@.len() == i,
            spec_load_cmp(cmp@) == match spec_split_tims(tims_s.skip(start as int),
                    lens_s.skip(i as int)) {
                Err(e) => Err::<Seq<(int, int, Seq<Rgba>)>, CmpError>(e),
                Ok(rest) => Ok(Seq::new(i as nat,
                        |j: int| (out@[j].meta.wide as int, out@[j].meta.high as int,
                            out@[j].pixels@)) + rest),
            },
            forall|j: int| 0 <= j < i ==> (#[trigger] out@[j]).wf()
                && out@[j].meta.offset == 0 && out@[j].meta.pitch == out@[j].meta.wide,
        decreases n - i,
    {
        let l32 = lens[i];
        let l = l32 as usize;
        let ghost rem = tims_s.skip(start as int);
        let ghost lrem = lens_s.skip(i as int);
        proof {
            assert(lrem[0] == lens_s[i as int]);
        }
        if l > tims.len() - start {
            proof {
                assert(spec_split_tims(rem, lrem) == Err::<Seq<(int, int, Seq<Rgba>)>,
                    CmpError>(CmpError::BadLength));
            }
            return Err(CmpError::BadLength);
        }
        let ghost out_old = out@;
        let pm = if l == 0 {
            Pixmap::new(1, 1, Rgba([0, 0, 0, 0]))
        } else {
            let seg = &tims[start..start + l];
            proof {
                assert(seg@ =~= rem.take(l as int));
            }
            match load_tim(seg) {
                Ok(pm) => pm,
                Err(e) => {
                    proof {
                        assert(spec_split_tims(rem, lrem)
                            == Err::<Seq<(int, int, Seq<Rgba>)>, CmpError>(CmpError::Tim(e)));
                    }
                    return Err(CmpError::Tim(e));
                },
            }
        };
        proof {
            if l == 0 {
                assert(pm.pixels@ =~= seq![Rgba([0, 0, 0, 0])]);
            }
        }
        out.push(pm);
        start = start + l;
        i = i + 1;
        proof {
            assert(tims_s.skip(start as int) =~= rem.skip(l as int));
            assert(lens_s.skip(i as int) =~= lrem.drop_first());
            let im = (pm.meta.wide as int, pm.meta.high as int, pm.pixels@);
            match spec_split_tims(tims_s.skip(start as int), lens_s.skip(i as int)) {
                Err(e) => {},
                Ok(rest) => {
                    assert(Seq::new((i - 1) as nat,
                            |j: int| (out_old[j].meta.wide as int, out_old[j].meta.high as int,
                                out_old[j].pixels@)) + (seq![im] + rest)
                        =~= Seq::new(i as nat,
                            |j: int| (out@[j].meta.wide as int, out@[j].meta.high as int,
                                out@[j].pixels@)) + rest);
                },
            }
        }
    }
    proof {
        assert(lens_s.skip(n as int) =~= Seq::<int>::empty());
        match spec_load_cmp(cmp@) {
            Ok(s) => {
                assert(s =~= Seq::new(n as nat,
                    |j: int| (out@[j].meta.wide as int, out@[j].meta.high as int,
                        out@[j].pixels@)) + Seq::<(int, int, Seq<Rgba>)>::empty());
            },
            Err(_) => {},
        }
    }
    Ok(out)
}

} // verus!
