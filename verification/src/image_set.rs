//! Build a stored image set from a compressed container: decode every
//! sub-image, optionally synthesize high-resolution composites by
//! tiling 16 source fragments into a 4x4 grid per an index-map table,
//! then encode all rasters back to back into one shared codec stream,
//! paired with the per-image dimensions needed to split it again.

use vstd::prelude::*;
use crate::formats::{self, CmpError};
use crate::pixmap::Rgba;
use crate::qoit;
use crate::bundle::ImageSet;
use crate::model::spec_u16_be;

verus! {

/// One index-map record: a 4x4 grid of big-endian fragment indices,
/// then the coarser mip grids this pipeline does not read.
pub const FRAG_RECORD: usize = 42;

#[derive(Debug, Clone, Copy, PartialEq, Eq, Structural)]
pub enum ImageSetError {
    /// The container failed to decode.
    Cmp(CmpError),
    /// The index map table is not a whole number of records.
    BadMapLength,
    /// An index map names a fragment outside the decoded set.
    FragIndex,
    /// A referenced fragment does not share the set's fragment size.
    FragDims,
    /// A composite needs at least one decoded fragment for its size.
    NoImages,
    /// A raster dimension does not fit the stored size field.
    TooLarge,
}

/// Fragment index `(fj, fi)` of record `m` in the index-map table.
pub open spec fn spec_frag_index(mapb: Seq<u8>, m: int, fj: int, fi: int) -> int {
    spec_u16_be(mapb, FRAG_RECORD * m + 8 * fj + 2 * fi)
}

/// A raster's pixels as codec pixels.
pub open spec fn spec_pix(s: Seq<Rgba>) -> Seq<qoit::Pixel> {
    s.map(|k: int, c: Rgba| c.0)
}

/// The pixels of composite `m`: a 4x4 grid of fragments, each of the
/// set's fragment size `d`, selected by the index map, row-major.
pub open spec fn spec_composed(
    s: Seq<(int, int, Seq<Rgba>)>, mapb: Seq<u8>, m: int,
) -> Seq<qoit::Pixel> {
    let d = s[0].0;
    Seq::new((16 * d * d) as nat, |k: int| {
        let x4 = k % (4 * d);
        let y4 = k / (4 * d);
        let fi = x4 / d;
        let fj = y4 / d;
        let x = x4 % d;
        let y = y4 % d;
        let f = spec_frag_index(mapb, m, fj, fi);
        s[f].2[y * d + x].0
    })
}

/// Encode a sequence of rasters back to back through one codec state:
/// the emitted bytes and the state left behind.
pub open spec fn spec_stream_fold(
    prev: qoit::Pixel, arr: Seq<qoit::Pixel>, run: int, imgs: Seq<Seq<qoit::Pixel>>,
) -> (Seq<u8>, qoit::Pixel, Seq<qoit::Pixel>, int)
    decreases imgs.len(),
{
    if imgs.len() == 0 {
        (Seq::empty(), prev, arr, run)
    } else {
        let t = qoit::spec_encode_some(prev, arr, run, imgs[0]);
        let rest = spec_stream_fold(t.1, t.2, t.3, imgs.drop_first());
        (t.0 + rest.0, rest.1, rest.2, rest.3)
    }
}

/// The shared codec stream for a sequence of rasters: every raster
/// encoded in order from a fresh state, with the final run flushed.
pub open spec fn spec_stream(imgs: Seq<Seq<qoit::Pixel>>) -> Seq<u8> {
    let t = spec_stream_fold([0u8, 0u8, 0u8, 255u8],
        Seq::new(64, |i: int| [0u8, 0u8, 0u8, 0u8]), 0, imgs);
    t.0 + qoit::spec_flush(t.3)
}

/// Encode every part into one stream.
#[verifier::rlimit(100)]
#[verifier::spinoff_prover]
#[verifier::loop_isolation(false)]
fn encode_stream(parts: &Vec<Vec<qoit::Pixel>>) -> (r: Vec<u8>)
    ensures
        r@ == spec_stream(parts@.map(|i: int, v: Vec<qoit::Pixel>| v@)),
{
    let ghost imgs = parts@.map(|i: int, v: Vec<qoit::Pixel>| v@);
    let mut state = qoit::State::new();
    let mut out: Vec<u8> = Vec::new();
    let mut i: usize = 0;
    proof {
        assert(imgs.skip(0) =~= imgs);
        let t = spec_stream_fold(state.prev, state.array@, state.run as int, imgs);
        assert(out@ + t.0 =~= t.0);
    }
    while i < parts.len()
        invariant
            i <= parts@.len(),
            imgs == parts@.map(|j: int, v: Vec<qoit::Pixel>| v@),
            state.wf(),
            state.run <= 61,
            ({
                let t = spec_stream_fold([0u8, 0u8, 0u8, 255u8],
                    Seq::new(64, |j: int| [0u8, 0u8, 0u8, 0u8]), 0, imgs);
                let t2 = spec_stream_fold(state.prev, state.array@, state.run as int,
                    imgs.skip(i as int));
                &&& t.0 == out@ + t2.0
                &&& t.1 == t2.1
                &&& t.2 == t2.2
                &&& t.3 == t2.3
            }),
        decreases parts@.len() - i,
    {
        let ghost pv = state.prev;
        let ghost av = state.array@;
        let ghost rv = state.run as int;
        let ghost out_old = out@;
        let ghost rem = imgs.skip(i as int);
        proof {
            assert(rem[0] == imgs[i as int]);
            assert(rem.drop_first() =~= imgs.skip(i + 1));
            assert(parts@[i as int]@ == imgs[i as int]);
        }
        match state.encode_some(&mut out, parts[i].as_slice()) {
            Ok(_) => {},
            Err(_) => {},
        }
        i = i + 1;
        proof {
            let t1 = qoit::spec_encode_some(pv, av, rv, rem[0]);
            let t2 = spec_stream_fold(state.prev, state.array@, state.run as int,
                imgs.skip(i as int));
            assert(out_old + (t1.0 + t2.0) =~= out@ + t2.0);
        }
    }
    proof {
        assert(imgs.skip(imgs.len() as int) =~= Seq::<Seq<qoit::Pixel>>::empty());
    }
    match state.encode_flush(&mut out) {
        Ok(_) => {},
        Err(_) => {},
    }
    out
}

/// A raster's pixel buffer as codec pixels.
fn convert_pixels(px: &Vec<Rgba>) -> (r: Vec<qoit::Pixel>)
    ensures
        r@ == spec_pix(px@),
{
    let mut out: Vec<qoit::Pixel> = Vec::new();
    let mut i: usize = 0;
    while i < px.len()
        invariant
            i <= px@.len(),
            out@.len() == i,
            forall|j: int| 0 <= j < i ==> out@[j] == spec_pix(px@)[j],
        decreases px@.len() - i,
    {
        out.push(px[i].0);
        i = i + 1;
    }
    proof {
        assert(out@ =~= spec_pix(px@));
    }
    out
}

/// Is every fragment index of every record inside the decoded set?
pub open spec fn spec_map_indices_ok(mapb: Seq<u8>, n_maps: int, n_images: int) -> bool {
    forall|m: int, fj: int, fi: int| 0 <= m < n_maps && 0 <= fj < 4 && 0 <= fi < 4
        ==> #[trigger] spec_frag_index(mapb, m, fj, fi) < n_images
}

/// Does every referenced fragment share the set's fragment size?
pub open spec fn spec_map_dims_ok(
    s: Seq<(int, int, Seq<Rgba>)>, mapb: Seq<u8>, n_maps: int,
) -> bool {
    forall|m: int, fj: int, fi: int| 0 <= m < n_maps && 0 <= fj < 4 && 0 <= fi < 4
        ==> {
            let f = #[trigger] spec_frag_index(mapb, m, fj, fi);
            s[f].0 == s[0].0 && s[f].1 == s[0].0
        }
}

/// Build the stored image set for a container: its per-image sizes and
/// the shared codec stream, composited through the index map when one
/// is given.
#[verifier::rlimit(100)]
#[verifier::spinoff_prover]
#[verifier::loop_isolation(false)]
pub fn build(cmp: &[u8], frag_map: Option<&[u8]>) -> (r: Result<ImageSet, ImageSetError>)
    requires
        8 * cmp@.len() + 18 <= usize::MAX,
    ensures
        ({
            let dec = formats::spec_load_cmp(cmp@);
            match r {
                Ok(iset) => dec is Ok && ({
                    let s = dec.unwrap();
                    match frag_map {
                        None => {
                            &&& forall|i: int| 0 <= i < s.len()
                                ==> (#[trigger] s[i]).0 <= 0xffff && s[i].1 <= 0xffff
                            &&& iset.sizes@.len() == s.len()
                            &&& forall|i: int| 0 <= i < s.len()
                                ==> #[trigger] iset.sizes@[i]
                                    == ((s[i].0 as u16, s[i].1 as u16))
                            &&& iset.qoi_stream@ == spec_stream(Seq::new(s.len(),
                                |i: int| spec_pix(s[i].2)))
                        },
                        Some(mapb) => {
                            let n_maps = mapb@.len() as int / (FRAG_RECORD as int);
                            &&& s.len() >= 1
                            &&& 4 * s[0].0 <= 0xffff
                            &&& (mapb@.len() as int) % (FRAG_RECORD as int) == 0
                            &&& spec_map_indices_ok(mapb@, n_maps, s.len() as int)
                            &&& spec_map_dims_ok(s, mapb@, n_maps)
                            &&& iset.sizes@.len() == n_maps
                            &&& forall|m: int| 0 <= m < n_maps
                                ==> #[trigger] iset.sizes@[m]
                                    == (((4 * s[0].0) as u16, (4 * s[0].0) as u16))
                            &&& iset.qoi_stream@ == spec_stream(Seq::new(n_maps as nat,
                                |m: int| spec_composed(s, mapb@, m)))
                        },
                    }
                }),
                Err(ImageSetError::Cmp(e)) => dec == Err::<Seq<(int, int, Seq<Rgba>)>,
                    CmpError>(e),
                Err(e) => dec is Ok && ({
                    let s = dec.unwrap();
                    match frag_map {
                        None => e == ImageSetError::TooLarge && exists|i: int|
                            0 <= i < s.len() && ((#[trigger] s[i]).0 > 0xffff
                                || s[i].1 > 0xffff),
                        Some(mapb) => {
                            let n_maps = mapb@.len() as int / (FRAG_RECORD as int);
                            ||| (e == ImageSetError::NoImages && s.len() == 0)
                            ||| (e == ImageSetError::TooLarge && s.len() >= 1
                                && 4 * s[0].0 > 0xffff)
                            ||| (e == ImageSetError::BadMapLength
                                && (mapb@.len() as int) % (FRAG_RECORD as int) != 0)
                            ||| (e == ImageSetError::FragIndex
                                && !spec_map_indices_ok(mapb@, n_maps, s.len() as int))
                            ||| (e == ImageSetError::FragDims
                                && !spec_map_dims_ok(s, mapb@, n_maps))
                        },
                    }
                }),
            }
        }),
{
    let images = match formats::load_cmp(cmp) {
        Ok(v) => v,
        Err(e) => { return Err(ImageSetError::Cmp(e)); },
    };
    let ghost s = formats::spec_load_cmp(cmp@).unwrap();
    let n = images.len();

    match frag_map {
        None => {
            let mut sizes: Vec<(u16, u16)> = Vec::new();
            let mut parts: Vec<Vec<qoit::Pixel>> = Vec::new();
            let mut i: usize = 0;
            while i < n
                invariant
                    i <= n,
                    n == images@.len(),
                    n == s.len(),
                    forall|j: int| 0 <= j < n
                        ==> formats::pixmap_matches(#[trigger] images@[j], s[j]),
                    sizes@.len() == i,
                    parts@.len() == i,
                    forall|j: int| 0 <= j < i ==> (#[trigger] s[j]).0 <= 0xffff
                        && s[j].1 <= 0xffff,
                    forall|j: int| 0 <= j < i
                        ==> #[trigger] sizes@[j] == ((s[j].0 as u16, s[j].1 as u16)),
                    forall|j: int| 0 <= j < i
                        ==> (#[trigger] parts@[j])@ == spec_pix(s[j].2),
                decreases n - i,
            {
                let pm = &images[i];
                let w = pm.wide();
                let h = pm.high();
                if w > 0xffff || h > 0xffff {
                    return Err(ImageSetError::TooLarge);
                }
                sizes.push((w as u16, h as u16));
                parts.push(convert_pixels(&pm.pixels));
                i = i + 1;
            }
            let stream = encode_stream(&parts);
            proof {
                assert(parts@.map(|j: int, v: Vec<qoit::Pixel>| v@)
                    =~= Seq::new(s.len(), |j: int| spec_pix(s[j].2)));
            }
            Ok(ImageSet { sizes, qoi_stream: stream })
        },
        Some(mapb) => {
            if n == 0 {
                return Err(ImageSetError::NoImages);
            }
            let d = images[0].wide();
            if d > 0x3fff {
                return Err(ImageSetError::TooLarge);
            }
            if mapb.len() % FRAG_RECORD != 0 {
                return Err(ImageSetError::BadMapLength);
            }
            let n_maps = mapb.len() / FRAG_RECORD;
            proof {
                vstd::arithmetic::div_mod::lemma_fundamental_div_mod(mapb@.len() as int,
                    FRAG_RECORD as int);
            }

            // every index in range, then every referenced size right
            let mut m: usize = 0;
            while m < n_maps
                invariant
                    m <= n_maps,
                    n == images@.len() == s.len(),
                    FRAG_RECORD * n_maps <= mapb@.len(),
                    forall|j: int| 0 <= j < n
                        ==> formats::pixmap_matches(#[trigger] images@[j], s[j]),
                    forall|m2: int, fj: int, fi: int| 0 <= m2 < m && 0 <= fj < 4
                        && 0 <= fi < 4
                        ==> #[trigger] spec_frag_index(mapb@, m2, fj, fi) < n,
                decreases n_maps - m,
            {
                let mut t: usize = 0;
                while t < 16
                    invariant
                        t <= 16,
                        m < n_maps,
                        n == images@.len() == s.len(),
                        FRAG_RECORD * n_maps <= mapb@.len(),
                        forall|m2: int, fj: int, fi: int| 0 <= m2 < m && 0 <= fj < 4
                            && 0 <= fi < 4
                            ==> #[trigger] spec_frag_index(mapb@, m2, fj, fi) < n,
                        forall|fj: int, fi: int| 0 <= fj < 4 && 0 <= fi < 4
                            && 4 * fj + fi < t
                            ==> #[trigger] spec_frag_index(mapb@, m as int, fj, fi) < n,
                    decreases 16 - t,
                {
                    let fj = t / 4;
                    let fi = t % 4;
                    proof {
                        assert(FRAG_RECORD * m + 8 * fj + 2 * fi + 2
                            <= FRAG_RECORD * n_maps) by (nonlinear_arith)
                            requires m < n_maps, fj < 4, fi < 4, fj == t / 4, fi == t % 4,
                                t < 16;
                    }
                    let f = read_map_u16(mapb, FRAG_RECORD * m + 8 * fj + 2 * fi);
                    if f as usize >= n {
                        proof {
                            assert(f as int == spec_frag_index(mapb@, m as int,
                                fj as int, fi as int));
                            assert(n_maps as int
                                == mapb@.len() as int / (FRAG_RECORD as int));
                            assert(!spec_map_indices_ok(mapb@, n_maps as int, n as int))
                                by {
                                if spec_map_indices_ok(mapb@, n_maps as int, n as int) {
                                    assert(spec_frag_index(mapb@, m as int, fj as int,
                                        fi as int) < n as int);
                                }
                            }
                        }
                        return Err(ImageSetError::FragIndex);
                    }
                    proof {
                        assert forall|fj2: int, fi2: int| 0 <= fj2 < 4 && 0 <= fi2 < 4
                            && 4 * fj2 + fi2 < t + 1
                            implies #[trigger] spec_frag_index(mapb@, m as int, fj2, fi2)
                                < n by {
                            if 4 * fj2 + fi2 == t {
                                assert(fj2 == fj && fi2 == fi);
                            }
                        }
                    }
                    t = t + 1;
                }
                m = m + 1;
            }
            let mut m: usize = 0;
            while m < n_maps
                invariant
                    m <= n_maps,
                    n == images@.len() == s.len(),
                    n >= 1,
                    d == s[0].0,
                    FRAG_RECORD * n_maps <= mapb@.len(),
                    forall|j: int| 0 <= j < n
                        ==> formats::pixmap_matches(#[trigger] images@[j], s[j]),
                    spec_map_indices_ok(mapb@, n_maps as int, n as int),
                    forall|m2: int, fj: int, fi: int| 0 <= m2 < m && 0 <= fj < 4
                        && 0 <= fi < 4
                        ==> ({
                            let f = #[trigger] spec_frag_index(mapb@, m2, fj, fi);
                            s[f].0 == s[0].0 && s[f].1 == s[0].0
                        }),
                decreases n_maps - m,
            {
                let mut t: usize = 0;
                while t < 16
                    invariant
                        t <= 16,
                        m < n_maps,
                        n == images@.len() == s.len(),
                        n >= 1,
                        d == s[0].0,
                        FRAG_RECORD * n_maps <= mapb@.len(),
                        forall|j: int| 0 <= j < n
                            ==> formats::pixmap_matches(#[trigger] images@[j], s[j]),
                        spec_map_indices_ok(mapb@, n_maps as int, n as int),
                        forall|m2: int, fj: int, fi: int| 0 <= m2 < m && 0 <= fj < 4
                            && 0 <= fi < 4
                            ==> ({
                                let f = #[trigger] spec_frag_index(mapb@, m2, fj, fi);
                                s[f].0 == s[0].0 && s[f].1 == s[0].0
                            }),
                        forall|fj: int, fi: int| 0 <= fj < 4 && 0 <= fi < 4
                            && 4 * fj + fi < t
                            ==> ({
                                let f = #[trigger] spec_frag_index(mapb@, m as int, fj, fi);
                                s[f].0 == s[0].0 && s[f].1 == s[0].0
                            }),
                    decreases 16 - t,
                {
                    let fj = t / 4;
                    let fi = t % 4;
                    proof {
                        assert(FRAG_RECORD * m + 8 * fj + 2 * fi + 2
                            <= FRAG_RECORD * n_maps) by (nonlinear_arith)
                            requires m < n_maps, fj < 4, fi < 4, fj == t / 4, fi == t % 4,
                                t < 16;
                    }
                    let f = read_map_u16(mapb, FRAG_RECORD * m + 8 * fj + 2 * fi) as usize;
                    proof {
                        assert(f as int == spec_frag_index(mapb@, m as int, fj as int,
                            fi as int));
                        assert(spec_frag_index(mapb@, m as int, fj as int, fi as int)
                            < n as int);
                    }
                    let pm = &images[f];
                    if pm.wide() != d || pm.high() != d {
                        proof {
                            assert(n_maps as int
                                == mapb@.len() as int / (FRAG_RECORD as int));
                            assert(!spec_map_dims_ok(s, mapb@, n_maps as int)) by {
                                if spec_map_dims_ok(s, mapb@, n_maps as int) {
                                    assert(({
                                        let f2 = spec_frag_index(mapb@, m as int,
                                            fj as int, fi as int);
                                        s[f2].0 == s[0].0 && s[f2].1 == s[0].0
                                    }));
                                }
                            }
                        }
                        return Err(ImageSetError::FragDims);
                    }
                    proof {
                        assert forall|fj2: int, fi2: int| 0 <= fj2 < 4 && 0 <= fi2 < 4
                            && 4 * fj2 + fi2 < t + 1
                            implies ({
                                let f2 = #[trigger] spec_frag_index(mapb@, m as int,
                                    fj2, fi2);
                                s[f2].0 == s[0].0 && s[f2].1 == s[0].0
                            }) by {
                            if 4 * fj2 + fi2 == t {
                                assert(fj2 == fj && fi2 == fi);
                            }
                        }
                    }
                    t = t + 1;
                }
                m = m + 1;
            }

            // synthesize the composites and encode them
            let side = 4 * d;
            let mut sizes: Vec<(u16, u16)> = Vec::new();
            let mut parts: Vec<Vec<qoit::Pixel>> = Vec::new();
            let mut m: usize = 0;
            while m < n_maps
                invariant
                    m <= n_maps,
                    n == images@.len() == s.len(),
                    n >= 1,
                    1 <= d <= 0x3fff,
                    side == 4 * d,
                    d == s[0].0,
                    FRAG_RECORD * n_maps <= mapb@.len(),
                    forall|j: int| 0 <= j < n
                        ==> formats::pixmap_matches(#[trigger] images@[j], s[j]),
                    spec_map_indices_ok(mapb@, n_maps as int, n as int),
                    spec_map_dims_ok(s, mapb@, n_maps as int),
                    sizes@.len() == m,
                    parts@.len() == m,
                    forall|m2: int| 0 <= m2 < m
                        ==> #[trigger] sizes@[m2] == (((4 * s[0].0) as u16,
                            (4 * s[0].0) as u16)),
                    forall|m2: int| 0 <= m2 < m
                        ==> (#[trigger] parts@[m2])@ == spec_composed(s, mapb@, m2),
                decreases n_maps - m,
            {
                let mut px: Vec<qoit::Pixel> = Vec::new();
                let mut y4: i32 = 0;
                while y4 < side
                    invariant
                        0 <= y4 <= side,
                        m < n_maps,
                        n == images@.len() == s.len(),
                        n >= 1,
                        1 <= d <= 0x3fff,
                        side == 4 * d,
                        d == s[0].0,
                        FRAG_RECORD * n_maps <= mapb@.len(),
                        forall|j: int| 0 <= j < n
                            ==> formats::pixmap_matches(#[trigger] images@[j], s[j]),
                        spec_map_indices_ok(mapb@, n_maps as int, n as int),
                        spec_map_dims_ok(s, mapb@, n_maps as int),
                        px@.len() == y4 * side,
                        forall|k: int| 0 <= k < px@.len()
                            ==> #[trigger] px@[k] == spec_composed(s, mapb@, m as int)[k],
                    decreases side - y4,
                {
                    let mut x4: i32 = 0;
                    proof {
                        assert((y4 + 1) * side <= side * side) by (nonlinear_arith)
                            requires 0 <= y4, y4 + 1 <= side;
                        assert(side * side <= 0x3fff * 4 * 0x3fff * 4) by (nonlinear_arith)
                            requires 0 <= side <= 4 * 0x3fff;
                    }
                    while x4 < side
                        invariant
                            0 <= x4 <= side,
                            0 <= y4 < side,
                            m < n_maps,
                            n == images@.len() == s.len(),
                            n >= 1,
                            1 <= d <= 0x3fff,
                            side == 4 * d,
                            d == s[0].0,
                            FRAG_RECORD * n_maps <= mapb@.len(),
                            forall|j: int| 0 <= j < n
                                ==> formats::pixmap_matches(#[trigger] images@[j], s[j]),
                            spec_map_indices_ok(mapb@, n_maps as int, n as int),
                            spec_map_dims_ok(s, mapb@, n_maps as int),
                            px@.len() == y4 * side + x4,
                            forall|k: int| 0 <= k < px@.len()
                                ==> #[trigger] px@[k]
                                    == spec_composed(s, mapb@, m as int)[k],
                        decreases side - x4,
                    {
                        let fi = x4 / d;
                        let fj = y4 / d;
                        let x = x4 % d;
                        let y = y4 % d;
                        proof {
                            assert(0 <= fi < 4 && 0 <= fj < 4) by (nonlinear_arith)
                                requires 0 <= x4 < 4 * d, 0 <= y4 < 4 * d, 1 <= d,
                                    fi == x4 / d, fj == y4 / d;
                            assert(FRAG_RECORD * m + 8 * (fj as int) + 2 * (fi as int) + 2
                                <= FRAG_RECORD * n_maps) by (nonlinear_arith)
                                requires m < n_maps, 0 <= fj < 4, 0 <= fi < 4;
                        }
                        let f = read_map_u16(mapb,
                            FRAG_RECORD * m + 8 * (fj as usize) + 2 * (fi as usize))
                            as usize;
                        proof {
                            assert(f as int == spec_frag_index(mapb@, m as int, fj as int,
                                fi as int));
                            assert(spec_frag_index(mapb@, m as int, fj as int, fi as int)
                                < n as int);
                            assert(({
                                let f2 = spec_frag_index(mapb@, m as int, fj as int,
                                    fi as int);
                                s[f2].0 == s[0].0 && s[f2].1 == s[0].0
                            }));
                        }
                        let pm = &images[f];
                        proof {
                            assert(0 <= y * d + x && y * d + x
                                < (s[f as int].0) * (s[f as int].1)) by (nonlinear_arith)
                                requires 0 <= x < d, 0 <= y < d, d == s[f as int].0,
                                    d == s[f as int].1;
                            assert((s[f as int].0) * (s[f as int].1)
                                <= s[f as int].2.len()) by {
                                assert(formats::pixmap_matches(images@[f as int],
                                    s[f as int]));
                                images@[f as int].meta.lemma_index_in_range(
                                    images@[f as int].meta.wide - 1,
                                    images@[f as int].meta.high - 1);
                                assert((d as int) * ((d - 1) as int) + d
                                    == (d as int) * (d as int)) by (nonlinear_arith);
                            }
                        }
                        proof {
                            assert((y as int) * (d as int) + (x as int)
                                < 0x4000 * 0x4000) by (nonlinear_arith)
                                requires 0 <= x < d, 0 <= y < d, d <= 0x3fff;
                        }
                        let idx = (y as usize) * (d as usize) + (x as usize);
                        let c = pm.pixels[idx];
                        px.push(c.0);
                        x4 = x4 + 1;
                        proof {
                            let k = (y4 as int) * (side as int) + (x4 - 1);
                            vstd::arithmetic::div_mod::lemma_fundamental_div_mod_converse(
                                k, side as int, y4 as int, x4 - 1);
                            assert(k < 16 * (d as int) * (d as int)) by (nonlinear_arith)
                                requires 0 <= y4 < side, 0 < x4 <= side, side == 4 * d,
                                    1 <= d, k == (y4 as int) * (side as int) + (x4 - 1);
                            assert(k % (4 * (d as int)) == x4 - 1);
                            assert(k / (4 * (d as int)) == y4 as int);
                            assert(f as int == spec_frag_index(mapb@, m as int, fj as int,
                                fi as int));
                            assert(formats::pixmap_matches(images@[f as int], s[f as int]));
                            assert(s[f as int].2 == images@[f as int].pixels@);
                            assert(px@[k] == spec_composed(s, mapb@, m as int)[k]);
                        }
                    }
                    y4 = y4 + 1;
                    proof {
                        assert((y4 - 1) * (side as int) + side == (y4 as int) * (side as int))
                            by (nonlinear_arith);
                    }
                }
                proof {
                    assert((side as int) * (side as int) == 16 * (d as int) * (d as int))
                        by (nonlinear_arith) requires side == 4 * d;
                    assert(px@ =~= spec_composed(s, mapb@, m as int));
                }
                sizes.push((side as u16, side as u16));
                parts.push(px);
                m = m + 1;
            }
            let stream = encode_stream(&parts);
            proof {
                assert(parts@.map(|j: int, v: Vec<qoit::Pixel>| v@)
                    =~= Seq::new((mapb@.len() as int / (FRAG_RECORD as int)) as nat,
                        |m2: int| spec_composed(s, mapb@, m2)));
            }
            Ok(ImageSet { sizes, qoi_stream: stream })
        },
    }
}

fn read_map_u16(bs: &[u8], i: usize) -> (r: u16)
    requires
        i + 2 <= bs@.len(),
    ensures
        r == spec_u16_be(bs@, i as int),
{
    0x100 * (bs[i] as u16) + (bs[i + 1] as u16)
}

} // verus!
