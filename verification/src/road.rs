//! Decoder for the track binaries: three parallel big-endian tables of
//! vertices (16-byte records), faces (20-byte records) and track
//! sections (156-byte records carrying previous/next/junction links, a
//! face range and flags).
//!
//! A section's centroid is the homogeneous average of the corners of
//! the faces in its range whose flags mark them as drivable surface. A
//! junction link is honoured only when the target section's flags mark
//! it as a junction entry; otherwise it is nulled to the sentinel.

use vstd::prelude::*;
use crate::util::UNorm8;
use crate::model::{spec_u16_be, spec_u32_be, spec_i32_be, spec_rgbx_chan};

verus! {

/// The "no link" sentinel for predecessor and successor links.
pub const NO_LINK: u32 = 0xffff_ffff;

/// A target section honours junction entry when this flag bit is set.
pub const JUNCTION_FLAG: u16 = 0x10;

/// Faces with this flag bit are the drivable surface.
pub const SURFACE_FLAG: u8 = 0x1;

pub const VERT_SIZE: usize = 16;

pub const FACE_SIZE: usize = 20;

pub const SECTION_SIZE: usize = 156;

#[derive(Debug, Clone, Copy, PartialEq, Eq, Structural)]
pub enum RoadError {
    /// The vertex table is not a whole number of records.
    BadVertLength,
    /// The face table is not a whole number of records.
    BadFaceLength,
    /// The section table is not a whole number of records.
    BadSectionLength,
    /// A section's face range runs outside the face table.
    FaceRange,
    /// A drivable face names a vertex outside the vertex table.
    VertRange,
    /// A junction link names a section outside the section table.
    JunctionRange,
}

/// One track section node: a centroid, a predecessor link, and up to
/// two successor links (straight continuation and junction branch).
#[derive(Debug, Clone, Copy, PartialEq, Eq)]
pub struct TrackNode {
    pub prev: u32,
    pub next: [u32; 2],
    pub center: [i64; 3],
}

/// The vertices the table holds, first three coordinates of each.
pub open spec fn spec_verts(trv: Seq<u8>) -> Seq<[i32; 3]> {
    Seq::new((trv.len() as int / VERT_SIZE as int) as nat, |i: int| [
        spec_i32_be(trv, VERT_SIZE * i),
        spec_i32_be(trv, VERT_SIZE * i + 4),
        spec_i32_be(trv, VERT_SIZE * i + 8),
    ])
}

pub open spec fn spec_face_verts(trf: Seq<u8>, i: int) -> [u16; 4] {
    [
        spec_u16_be(trf, FACE_SIZE * i) as u16,
        spec_u16_be(trf, FACE_SIZE * i + 2) as u16,
        spec_u16_be(trf, FACE_SIZE * i + 4) as u16,
        spec_u16_be(trf, FACE_SIZE * i + 6) as u16,
    ]
}

pub open spec fn spec_face_tex(trf: Seq<u8>, i: int) -> u8 {
    trf[FACE_SIZE * i + 14]
}

pub open spec fn spec_face_flags(trf: Seq<u8>, i: int) -> u8 {
    trf[FACE_SIZE * i + 15]
}

pub open spec fn spec_face_rgb(trf: Seq<u8>, i: int) -> [UNorm8; 3] {
    [
        spec_rgbx_chan(trf[FACE_SIZE * i + 16]),
        spec_rgbx_chan(trf[FACE_SIZE * i + 17]),
        spec_rgbx_chan(trf[FACE_SIZE * i + 18]),
    ]
}

pub open spec fn spec_section_junction(trs: Seq<u8>, i: int) -> int {
    spec_u32_be(trs, SECTION_SIZE * i)
}

pub open spec fn spec_section_prev(trs: Seq<u8>, i: int) -> int {
    spec_u32_be(trs, SECTION_SIZE * i + 4)
}

pub open spec fn spec_section_next(trs: Seq<u8>, i: int) -> int {
    spec_u32_be(trs, SECTION_SIZE * i + 8)
}

pub open spec fn spec_section_face_i0(trs: Seq<u8>, i: int) -> int {
    spec_u32_be(trs, SECTION_SIZE * i + 140)
}

pub open spec fn spec_section_n_faces(trs: Seq<u8>, i: int) -> int {
    spec_u16_be(trs, SECTION_SIZE * i + 144)
}

pub open spec fn spec_section_flags(trs: Seq<u8>, i: int) -> int {
    spec_u16_be(trs, SECTION_SIZE * i + 150)
}

/// The road model: the vertex pool and per-face attribute tables.
pub struct RoadModel {
    pub verts: Vec<[i32; 3]>,
    pub f_verts: Vec<[u16; 4]>,
    pub f_tex: Vec<u8>,
    pub f_flags: Vec<u8>,
    pub f_rgb: Vec<[UNorm8; 3]>,
}

pub type TrackGraph = Vec<TrackNode>;

/// Truncating division for a non-negative divisor.
pub open spec fn spec_tdiv(a: int, w: int) -> int {
    if a >= 0 {
        a / w
    } else {
        -((-a) / w)
    }
}

/// The homogeneous sum `[x, y, z, 1]` of every corner of the drivable
/// faces among the `k` faces starting at `i0`.
pub open spec fn spec_center_sum(
    verts: Seq<[i32; 3]>, trf: Seq<u8>, i0: int, k: int,
) -> (int, int, int, int)
    decreases k,
{
    if k <= 0 {
        (0, 0, 0, 0)
    } else {
        let rest = spec_center_sum(verts, trf, i0, k - 1);
        let i = i0 + k - 1;
        if spec_face_flags(trf, i) & SURFACE_FLAG == 0 {
            rest
        } else {
            let vs = spec_face_verts(trf, i);
            let p0 = verts[vs[0] as int];
            let p1 = verts[vs[1] as int];
            let p2 = verts[vs[2] as int];
            let p3 = verts[vs[3] as int];
            (rest.0 + p0[0] + p1[0] + p2[0] + p3[0],
             rest.1 + p0[1] + p1[1] + p2[1] + p3[1],
             rest.2 + p0[2] + p1[2] + p2[2] + p3[2],
             rest.3 + 4)
        }
    }
}

/// A section's centroid: the perspective divide of the homogeneous sum
/// over its drivable faces, or the origin when it has none.
pub open spec fn spec_center(verts: Seq<[i32; 3]>, trf: Seq<u8>, i0: int, k: int) -> [i64; 3] {
    let s = spec_center_sum(verts, trf, i0, k);
    if s.3 == 0 {
        [0i64, 0i64, 0i64]
    } else {
        [spec_tdiv(s.0, s.3) as i64, spec_tdiv(s.1, s.3) as i64, spec_tdiv(s.2, s.3) as i64]
    }
}

/// Is every vertex index of every drivable face in section range
/// `[i0, i0 + k)` inside the vertex table?
pub open spec fn spec_faces_vert_ok(verts: Seq<[i32; 3]>, trf: Seq<u8>, i0: int, k: int) -> bool {
    forall|i: int| i0 <= i < i0 + k
        && (spec_face_flags(trf, i) & SURFACE_FLAG) != 0
        ==> (spec_face_verts(trf, i)[0] < verts.len()
            && spec_face_verts(trf, i)[1] < verts.len()
            && spec_face_verts(trf, i)[2] < verts.len()
            && (#[trigger] spec_face_verts(trf, i))[3] < verts.len())
}

/// What one section decodes to, given the tables.
pub open spec fn spec_node(
    trs: Seq<u8>, verts: Seq<[i32; 3]>, trf: Seq<u8>, n_faces: int, n_sections: int, i: int,
) -> Result<TrackNode, RoadError> {
    let i0 = spec_section_face_i0(trs, i);
    let nf = spec_section_n_faces(trs, i);
    if i0 + nf > n_faces {
        Err(RoadError::FaceRange)
    } else if !spec_faces_vert_ok(verts, trf, i0, nf) {
        Err(RoadError::VertRange)
    } else {
        let junc = spec_section_junction(trs, i);
        if junc != NO_LINK && junc >= n_sections {
            Err(RoadError::JunctionRange)
        } else {
            let jout: int = if junc != NO_LINK
                && (spec_section_flags(trs, junc) as u16) & JUNCTION_FLAG != 0 { junc }
                else { NO_LINK as int };
            Ok(TrackNode {
                prev: spec_section_prev(trs, i) as u32,
                next: [spec_section_next(trs, i) as u32, jout as u32],
                center: spec_center(verts, trf, i0, nf),
            })
        }
    }
}

/// What the whole section table decodes to: the first bad section's
/// error, or every node in order.
pub open spec fn spec_graph_from(
    trs: Seq<u8>, verts: Seq<[i32; 3]>, trf: Seq<u8>, n_faces: int, n_sections: int, i: int,
) -> Result<Seq<TrackNode>, RoadError>
    decreases n_sections - i,
{
    if i >= n_sections {
        Ok(Seq::empty())
    } else {
        match spec_node(trs, verts, trf, n_faces, n_sections, i) {
            Err(e) => Err(e),
            Ok(node) => match spec_graph_from(trs, verts, trf, n_faces, n_sections, i + 1) {
                Err(e) => Err(e),
                Ok(rest) => Ok(seq![node] + rest),
            },
        }
    }
}

pub open spec fn spec_graph(trs: Seq<u8>, verts: Seq<[i32; 3]>, trf: Seq<u8>)
    -> Result<Seq<TrackNode>, RoadError>
{
    spec_graph_from(trs, verts, trf, trf.len() as int / (FACE_SIZE as int),
        trs.len() as int / (SECTION_SIZE as int), 0)
}

fn read_u16_be(bs: &[u8], i: usize) -> (r: u16)
    requires
        i + 2 <= bs@.len(),
    ensures
        r == spec_u16_be(bs@, i as int),
{
    0x100 * (bs[i] as u16) + (bs[i + 1] as u16)
}

fn read_u32_be(bs: &[u8], i: usize) -> (r: u32)
    requires
        i + 4 <= bs@.len(),
    ensures
        r == spec_u32_be(bs@, i as int),
{
    0x100_0000 * (bs[i] as u32) + 0x1_0000 * (bs[i + 1] as u32)
        + 0x100 * (bs[i + 2] as u32) + (bs[i + 3] as u32)
}

fn read_i32_be(bs: &[u8], i: usize) -> (r: i32)
    requires
        i + 4 <= bs@.len(),
    ensures
        r == spec_i32_be(bs@, i as int),
{
    let v = read_u32_be(bs, i);
    proof {
        assert(v == spec_u32_be(bs@, i as int) as u32);
    }
    v as i32
}

/// Decode the vertex and face tables into a road model.
#[verifier::rlimit(100)]
#[verifier::spinoff_prover]
#[verifier::loop_isolation(false)]
pub fn make_model(trv: &[u8], trf: &[u8]) -> (r: Result<RoadModel, RoadError>)
    requires
        trv@.len() + 64 <= usize::MAX,
        trf@.len() + 64 <= usize::MAX,
    ensures
        match r {
            Ok(m) => {
                &&& (trv@.len() as int) % (VERT_SIZE as int) == 0
                &&& (trf@.len() as int) % (FACE_SIZE as int) == 0
                &&& m.verts@ == spec_verts(trv@)
                &&& m.f_verts@.len() == (trf@.len() as int) / (FACE_SIZE as int)
                &&& m.f_tex@.len() == m.f_verts@.len()
                &&& m.f_flags@.len() == m.f_verts@.len()
                &&& m.f_rgb@.len() == m.f_verts@.len()
                &&& forall|i: int| 0 <= i < m.f_verts@.len()
                    ==> #[trigger] m.f_verts@[i] == spec_face_verts(trf@, i)
                        && m.f_tex@[i] == spec_face_tex(trf@, i)
                        && m.f_flags@[i] == spec_face_flags(trf@, i)
                        && m.f_rgb@[i] == spec_face_rgb(trf@, i)
            },
            Err(e) => ((trv@.len() as int) % (VERT_SIZE as int) != 0 && e == RoadError::BadVertLength)
                || ((trv@.len() as int) % (VERT_SIZE as int) == 0
                    && (trf@.len() as int) % (FACE_SIZE as int) != 0 && e == RoadError::BadFaceLength),
        },
{
    if trv.len() % VERT_SIZE != 0 {
        return Err(RoadError::BadVertLength);
    }
    if trf.len() % FACE_SIZE != 0 {
        return Err(RoadError::BadFaceLength);
    }
    let n_v = trv.len() / VERT_SIZE;
    let n_f = trf.len() / FACE_SIZE;
    proof {
        vstd::arithmetic::div_mod::lemma_fundamental_div_mod(trv@.len() as int,
            VERT_SIZE as int);
        vstd::arithmetic::div_mod::lemma_fundamental_div_mod(trf@.len() as int,
            FACE_SIZE as int);
    }
    let mut verts: Vec<[i32; 3]> = Vec::new();
    let mut i: usize = 0;
    while i < n_v
        invariant
            i <= n_v,
            verts@.len() == i,
            forall|j: int| 0 <= j < i ==> verts@[j] == spec_verts(trv@)[j],
        decreases n_v - i,
    {
        proof {
            assert(VERT_SIZE * (i + 1) <= VERT_SIZE * n_v) by (nonlinear_arith)
                requires i + 1 <= n_v;
        }
        let b = VERT_SIZE * i;
        verts.push([read_i32_be(trv, b), read_i32_be(trv, b + 4), read_i32_be(trv, b + 8)]);
        i = i + 1;
    }
    proof {
        assert(verts@ =~= spec_verts(trv@));
    }
    let mut f_verts: Vec<[u16; 4]> = Vec::new();
    let mut f_tex: Vec<u8> = Vec::new();
    let mut f_flags: Vec<u8> = Vec::new();
    let mut f_rgb: Vec<[UNorm8; 3]> = Vec::new();
    let mut i: usize = 0;
    while i < n_f
        invariant
            i <= n_f,
            f_verts@.len() == i,
            f_tex@.len() == i,
            f_flags@.len() == i,
            f_rgb@.len() == i,
            forall|j: int| 0 <= j < i ==> #[trigger] f_verts@[j] == spec_face_verts(trf@, j)
                && f_tex@[j] == spec_face_tex(trf@, j)
                && f_flags@[j] == spec_face_flags(trf@, j)
                && f_rgb@[j] == spec_face_rgb(trf@, j),
        decreases n_f - i,
    {
        proof {
            assert(FACE_SIZE * (i + 1) <= FACE_SIZE * n_f) by (nonlinear_arith)
                requires i + 1 <= n_f;
        }
        let b = FACE_SIZE * i;
        f_verts.push([read_u16_be(trf, b), read_u16_be(trf, b + 2), read_u16_be(trf, b + 4),
            read_u16_be(trf, b + 6)]);
        f_tex.push(trf[b + 14]);
        f_flags.push(trf[b + 15]);
        f_rgb.push([rgbx(trf[b + 16]), rgbx(trf[b + 17]), rgbx(trf[b + 18])]);
        i = i + 1;
    }
    Ok(RoadModel { verts, f_verts, f_tex, f_flags, f_rgb })
}

fn rgbx(b: u8) -> (r: UNorm8)
    ensures
        r == spec_rgbx_chan(b),
{
    if b > 127 {
        UNorm8(254)
    } else {
        UNorm8(2 * b)
    }
}

/// Decode the section table into the track graph, validating face
/// ranges, vertex indices and junction targets against the tables.
#[verifier::rlimit(100)]
#[verifier::spinoff_prover]
#[verifier::loop_isolation(false)]
pub fn make_graph(trs: &[u8], verts: &Vec<[i32; 3]>, trf: &[u8])
    -> (r: Result<TrackGraph, RoadError>)
    requires
        trs@.len() + 200 <= usize::MAX,
        trf@.len() + 64 <= usize::MAX,
        (trs@.len() as int) % (SECTION_SIZE as int) == 0,
        verts@.len() <= u16::MAX + 1,
    ensures
        match r {
            Ok(g) => spec_graph(trs@, verts@, trf@)
                == Ok::<Seq<TrackNode>, RoadError>(g@),
            Err(e) => spec_graph(trs@, verts@, trf@)
                == Err::<Seq<TrackNode>, RoadError>(e),
        },
{
    let n_s = trs.len() / SECTION_SIZE;
    let n_f = trf.len() / FACE_SIZE;
    proof {
        vstd::arithmetic::div_mod::lemma_fundamental_div_mod(trs@.len() as int,
            SECTION_SIZE as int);
        vstd::arithmetic::div_mod::lemma_fundamental_div_mod(trf@.len() as int,
            FACE_SIZE as int);
    }
    let mut nodes: Vec<TrackNode> = Vec::new();
    let mut i: usize = 0;
    proof {
        match spec_graph_from(trs@, verts@, trf@, n_f as int, n_s as int, 0) {
            Err(_) => {},
            Ok(rest) => {
                assert(nodes@ + rest =~= rest);
            },
        }
    }
    while i < n_s
        invariant
            i <= n_s,
            nodes@.len() == i,
            spec_graph(trs@, verts@, trf@)
                == (match spec_graph_from(trs@, verts@, trf@, n_f as int, n_s as int,
                        i as int) {
                    Err(e) => Err::<Seq<TrackNode>, RoadError>(e),
                    Ok(rest) => Ok(nodes@ + rest),
                }),
        decreases n_s - i,
    {
        proof {
            assert(SECTION_SIZE * (i + 1) <= SECTION_SIZE * n_s) by (nonlinear_arith)
                requires i + 1 <= n_s;
        }
        let sb = SECTION_SIZE * i;
        let i0_32 = read_u32_be(trs, sb + 140);
        let nf16 = read_u16_be(trs, sb + 144);
        let i0 = i0_32 as usize;
        let nf = nf16 as usize;
        if i0 > n_f || n_f - i0 < nf {
            return Err(RoadError::FaceRange);
        }

        // homogeneous sum over the drivable faces of the range
        let mut sx: i64 = 0;
        let mut sy: i64 = 0;
        let mut sz: i64 = 0;
        let mut w: i64 = 0;
        let mut k: usize = 0;
        while k < nf
            invariant
                k <= nf,
                i0 + nf <= n_f,
                (sx as int, sy as int, sz as int, w as int)
                    == spec_center_sum(verts@, trf@, i0 as int, k as int),
                spec_faces_vert_ok(verts@, trf@, i0 as int, k as int),
                0 <= w <= 4 * k,
                -(4 * (k as int) * 0x8000_0000) <= sx <= 4 * (k as int) * 0x7fff_ffff,
                -(4 * (k as int) * 0x8000_0000) <= sy <= 4 * (k as int) * 0x7fff_ffff,
                -(4 * (k as int) * 0x8000_0000) <= sz <= 4 * (k as int) * 0x7fff_ffff,
            decreases nf - k,
        {
            proof {
                assert(FACE_SIZE * (i0 + k) + FACE_SIZE <= FACE_SIZE * n_f)
                    by (nonlinear_arith)
                    requires i0 + k + 1 <= n_f;
                assert(4 * ((k + 1) as int) * 0x8000_0000
                    == 4 * (k as int) * 0x8000_0000 + 4 * 0x8000_0000) by (nonlinear_arith);
                assert(4 * ((k + 1) as int) * 0x7fff_ffff
                    == 4 * (k as int) * 0x7fff_ffff + 4 * 0x7fff_ffff) by (nonlinear_arith);
            }
            let fb = FACE_SIZE * (i0 + k);
            let flags = trf[fb + 15];
            if flags & SURFACE_FLAG != 0 {
                let v0 = read_u16_be(trf, fb) as usize;
                let v1 = read_u16_be(trf, fb + 2) as usize;
                let v2 = read_u16_be(trf, fb + 4) as usize;
                let v3 = read_u16_be(trf, fb + 6) as usize;
                if v0 >= verts.len() || v1 >= verts.len() || v2 >= verts.len()
                    || v3 >= verts.len() {
                    proof {
                        let wi = i0 + k as int;
                        assert(spec_face_flags(trf@, wi) == flags);
                        assert(spec_face_verts(trf@, wi)[0] == v0);
                        assert(spec_face_verts(trf@, wi)[1] == v1);
                        assert(spec_face_verts(trf@, wi)[2] == v2);
                        assert(spec_face_verts(trf@, wi)[3] == v3);
                        assert(!spec_faces_vert_ok(verts@, trf@, i0 as int, nf as int));
                    }
                    return Err(RoadError::VertRange);
                }
                let p0 = verts[v0];
                let p1 = verts[v1];
                let p2 = verts[v2];
                let p3 = verts[v3];
                sx = sx + p0[0] as i64 + p1[0] as i64 + p2[0] as i64 + p3[0] as i64;
                sy = sy + p0[1] as i64 + p1[1] as i64 + p2[1] as i64 + p3[1] as i64;
                sz = sz + p0[2] as i64 + p1[2] as i64 + p2[2] as i64 + p3[2] as i64;
                w = w + 4;
            }
            k = k + 1;
        }
        let center: [i64; 3] = if w == 0 {
            [0, 0, 0]
        } else {
            [tdiv(sx, w), tdiv(sy, w), tdiv(sz, w)]
        };
        proof {
            assert(center == spec_center(verts@, trf@, i0 as int, nf as int));
        }

        // junction links are honoured only into flagged targets
        let junc = read_u32_be(trs, sb);
        let jout: u32;
        if junc != NO_LINK {
            if junc as usize >= n_s {
                return Err(RoadError::JunctionRange);
            }
            proof {
                assert(SECTION_SIZE * ((junc as usize) as int) + SECTION_SIZE
                    <= SECTION_SIZE * (n_s as int)) by (nonlinear_arith)
                    requires (junc as usize) < n_s;
            }
            let jflags = read_u16_be(trs, SECTION_SIZE * (junc as usize) + 150);
            if jflags & JUNCTION_FLAG != 0 {
                jout = junc;
            } else {
                jout = NO_LINK;
            }
        } else {
            jout = NO_LINK;
        }
        let node = TrackNode {
            prev: read_u32_be(trs, sb + 4),
            next: [read_u32_be(trs, sb + 8), jout],
            center,
        };
        let ghost old_nodes = nodes@;
        proof {
            assert(Ok::<TrackNode, RoadError>(node)
                == spec_node(trs@, verts@, trf@, n_f as int, n_s as int, i as int));
        }
        nodes.push(node);
        i = i + 1;
        proof {
            match spec_graph_from(trs@, verts@, trf@, n_f as int, n_s as int, i as int) {
                Err(_) => {},
                Ok(rest) => {
                    assert(old_nodes + (seq![node] + rest) =~= nodes@ + rest);
                },
            }
        }
    }
    proof {
        assert(nodes@ + Seq::<TrackNode>::empty() =~= nodes@);
    }
    Ok(nodes)
}

/// Truncating signed division, matching `spec_tdiv`.
fn tdiv(a: i64, w: i64) -> (r: i64)
    requires
        1 <= w,
        -0x4000_0000_0000_0000 <= a <= 0x4000_0000_0000_0000,
    ensures
        r == spec_tdiv(a as int, w as int),
{
    if a >= 0 {
        a / w
    } else {
        -((-a) / w)
    }
}

/// Where in the decode of the three tables the first error arises.
pub open spec fn spec_road_err(trv: Seq<u8>, trf: Seq<u8>, trs: Seq<u8>) -> Option<RoadError> {
    if (trv.len() as int) % (VERT_SIZE as int) != 0 {
        Some(RoadError::BadVertLength)
    } else if (trf.len() as int) % (FACE_SIZE as int) != 0 {
        Some(RoadError::BadFaceLength)
    } else if (trs.len() as int) % (SECTION_SIZE as int) != 0 {
        Some(RoadError::BadSectionLength)
    } else {
        match spec_graph(trs, spec_verts(trv), trf) {
            Err(e) => Some(e),
            Ok(_) => None,
        }
    }
}

/// Decode the three track tables into the road model and track graph.
pub fn make_road(trv: &[u8], trf: &[u8], trs: &[u8])
    -> (r: Result<(RoadModel, TrackGraph), RoadError>)
    requires
        trv@.len() + 64 <= usize::MAX,
        trf@.len() + 64 <= usize::MAX,
        trs@.len() + 200 <= usize::MAX,
        (trv@.len() as int) / (VERT_SIZE as int) <= u16::MAX + 1,
    ensures
        match r {
            Ok(v) => {
                &&& spec_road_err(trv@, trf@, trs@) is None
                &&& v.0.verts@ == spec_verts(trv@)
                &&& v.0.f_verts@.len() == (trf@.len() as int) / (FACE_SIZE as int)
                &&& forall|i: int| 0 <= i < v.0.f_verts@.len()
                    ==> #[trigger] v.0.f_verts@[i] == spec_face_verts(trf@, i)
                        && v.0.f_tex@[i] == spec_face_tex(trf@, i)
                        && v.0.f_flags@[i] == spec_face_flags(trf@, i)
                        && v.0.f_rgb@[i] == spec_face_rgb(trf@, i)
                &&& spec_graph(trs@, spec_verts(trv@), trf@)
                    == Ok::<Seq<TrackNode>, RoadError>(v.1@)
            },
            Err(e) => spec_road_err(trv@, trf@, trs@) == Some(e),
        },
{
    let model = match make_model(trv, trf) {
        Ok(m) => m,
        Err(e) => { return Err(e); },
    };
    if trs.len() % SECTION_SIZE != 0 {
        return Err(RoadError::BadSectionLength);
    }
    proof {
        vstd::arithmetic::div_mod::lemma_fundamental_div_mod(trv@.len() as int,
            VERT_SIZE as int);
    }
    let graph = match make_graph(trs, &model.verts, trf) {
        Ok(g) => g,
        Err(e) => { return Err(e); },
    };
    Ok((model, graph))
}

proof fn lemma_graph_from_nodes(
    trs: Seq<u8>, verts: Seq<[i32; 3]>, trf: Seq<u8>, n_faces: int, n_sections: int, i: int,
    g: Seq<TrackNode>,
)
    requires
        0 <= i <= n_sections,
        spec_graph_from(trs, verts, trf, n_faces, n_sections, i)
            == Ok::<Seq<TrackNode>, RoadError>(g),
    ensures
        g.len() == n_sections - i,
        forall|j: int| 0 <= j < g.len()
            ==> Ok::<TrackNode, RoadError>(#[trigger] g[j])
                == spec_node(trs, verts, trf, n_faces, n_sections, i + j),
    decreases n_sections - i,
{
    if i < n_sections {
        match spec_node(trs, verts, trf, n_faces, n_sections, i) {
            Err(_) => {},
            Ok(node) => {
                match spec_graph_from(trs, verts, trf, n_faces, n_sections, i + 1) {
                    Err(_) => {},
                    Ok(rest) => {
                        lemma_graph_from_nodes(trs, verts, trf, n_faces, n_sections,
                            i + 1, rest);
                        assert(g =~= seq![node] + rest);
                        assert(forall|j: int| 1 <= j < g.len() ==> g[j] == rest[j - 1]);
                    },
                }
            },
        }
    }
}

/// Track graph well-formedness, junction half: in a decoded graph,
/// every junction link that is not the sentinel names a section inside
/// the table whose flags mark it as a legitimate junction entry.
pub proof fn lemma_junctions_validated(
    trs: Seq<u8>, verts: Seq<[i32; 3]>, trf: Seq<u8>, g: Seq<TrackNode>,
)
    requires
        spec_graph(trs, verts, trf) == Ok::<Seq<TrackNode>, RoadError>(g),
    ensures
        g.len() == trs.len() as int / (SECTION_SIZE as int),
        forall|i: int| 0 <= i < g.len() && (#[trigger] g[i]).next[1] != NO_LINK
            ==> g[i].next[1] < g.len()
                && (spec_section_flags(trs, g[i].next[1] as int) as u16)
                    & JUNCTION_FLAG != 0,
{
    let n_sections = trs.len() as int / (SECTION_SIZE as int);
    let n_faces = trf.len() as int / (FACE_SIZE as int);
    lemma_graph_from_nodes(trs, verts, trf, n_faces, n_sections, 0, g);
    assert forall|i: int| 0 <= i < g.len() && (#[trigger] g[i]).next[1] != NO_LINK
        implies g[i].next[1] < g.len()
            && (spec_section_flags(trs, g[i].next[1] as int) as u16) & JUNCTION_FLAG != 0 by {
        assert(Ok::<TrackNode, RoadError>(g[i])
            == spec_node(trs, verts, trf, n_faces, n_sections, i));
    }
}

/// The section reached after `k` hops along the straight-continuation
/// link, starting from section 0.
pub open spec fn spec_iter_next(g: Seq<TrackNode>, k: nat) -> int
    decreases k,
{
    if k == 0 {
        0
    } else {
        g[spec_iter_next(g, (k - 1) as nat)].next[0] as int
    }
}

/// Is section `j` reached within one lap of the straight-continuation
/// walk from section 0?
pub open spec fn spec_reachable(g: Seq<TrackNode>, j: int) -> bool {
    exists|k: nat| k < g.len() && #[trigger] spec_iter_next(g, k) == j
}

/// Track graph well-formedness, loop half: the straight-continuation
/// walk from section 0 stays inside the graph and visits every section
/// within one lap.
pub open spec fn spec_closed_loop(g: Seq<TrackNode>) -> bool {
    &&& g.len() > 0
    &&& forall|k: nat| k <= g.len() ==> 0 <= #[trigger] spec_iter_next(g, k) < g.len()
    &&& forall|j: int| 0 <= j < g.len() ==> #[trigger] spec_reachable(g, j)
}

/// Check that every section is reachable from section 0 by following
/// the straight-continuation link alone.
#[verifier::rlimit(100)]
#[verifier::spinoff_prover]
#[verifier::loop_isolation(false)]
pub fn graph_is_closed_loop(g: &TrackGraph) -> (r: bool)
    ensures
        r == spec_closed_loop(g@),
{
    let n = g.len();
    if n == 0 {
        return false;
    }
    let mut visited: Vec<bool> = Vec::new();
    let mut t: usize = 0;
    while t < n
        invariant
            t <= n,
            visited@.len() == t,
            forall|j: int| 0 <= j < t ==> !visited@[j],
        decreases n - t,
    {
        visited.push(false);
        t = t + 1;
    }
    let mut cur: usize = 0;
    let mut k: usize = 0;
    while k < n
        invariant
            k <= n,
            n == g@.len(),
            cur < n,
            visited@.len() == n,
            cur == spec_iter_next(g@, k as nat),
            forall|t2: nat| t2 <= k ==> 0 <= #[trigger] spec_iter_next(g@, t2) < n,
            forall|j: int| 0 <= j < n ==> ((#[trigger] visited@[j]) <==> exists|t2: nat|
                t2 < k && #[trigger] spec_iter_next(g@, t2) == j),
        decreases n - k,
    {
        proof {
            if !visited@[cur as int] {
                assert(exists|t2: nat| t2 < k + 1 && #[trigger] spec_iter_next(g@, t2)
                    == cur) by {
                    assert(spec_iter_next(g@, k as nat) == cur);
                }
            }
        }
        visited[cur] = true;
        proof {
            assert forall|j: int| 0 <= j < n
                implies ((#[trigger] visited@[j]) <==> exists|t2: nat| t2 < k + 1
                    && #[trigger] spec_iter_next(g@, t2) == j) by {
                if j == cur {
                    assert(spec_iter_next(g@, k as nat) == j);
                } else {
                    if visited@[j] {
                        let w = choose|t2: nat| t2 < k && spec_iter_next(g@, t2) == j;
                        assert(w < k + 1 && spec_iter_next(g@, w) == j);
                    } else {
                        if exists|t2: nat| t2 < k + 1 && spec_iter_next(g@, t2) == j {
                            let w = choose|t2: nat| t2 < k + 1
                                && spec_iter_next(g@, t2) == j;
                            assert(w == k || w < k);
                        }
                    }
                }
            }
        }
        let nxt = g[cur].next[0];
        if nxt as usize >= n {
            proof {
                assert(spec_iter_next(g@, (k + 1) as nat) == nxt as int);
                assert(!spec_closed_loop(g@));
            }
            return false;
        }
        cur = nxt as usize;
        k = k + 1;
    }
    let mut j: usize = 0;
    while j < n
        invariant
            j <= n,
            n == g@.len(),
            visited@.len() == n,
            forall|t2: nat| t2 <= n ==> 0 <= #[trigger] spec_iter_next(g@, t2) < n,
            forall|j2: int| 0 <= j2 < n ==> ((#[trigger] visited@[j2]) <==> exists|t2: nat|
                t2 < n && #[trigger] spec_iter_next(g@, t2) == j2),
            forall|j2: int| 0 <= j2 < j ==> visited@[j2],
        decreases n - j,
    {
        if !visited[j] {
            proof {
                assert(!spec_closed_loop(g@)) by {
                    if spec_closed_loop(g@) {
                        assert(spec_reachable(g@, j as int));
                        let w = choose|t2: nat| t2 < g@.len()
                            && #[trigger] spec_iter_next(g@, t2) == j;
                        assert(visited@[j as int]);
                    }
                }
            }
            return false;
        }
        j = j + 1;
    }
    proof {
        assert(g@.len() > 0);
        assert(forall|k2: nat| k2 <= g@.len() ==> 0 <= #[trigger] spec_iter_next(g@, k2)
            < g@.len());
        assert forall|j2: int| 0 <= j2 < g@.len()
            implies #[trigger] spec_reachable(g@, j2) by {
            assert(visited@[j2]);
        }
        assert(spec_closed_loop(g@));
    }
    true
}

} // verus!
