//! Decoder for the scene/model binary format: a sequence of objects,
//! each a fixed 144-byte header, then signed 16-bit vertex records,
//! then primitive records whose shape depends on a type+flags code
//! read inline. Records are consumed strictly in order from a cursor;
//! the format cannot be random-accessed.
//!
//! Quad primitives are split into two triangles with a fixed diagonal
//! winding at decode time.

use vstd::prelude::*;
use crate::util::UNorm8;
use crate::bundle::SceneObject;

verus! {

#[derive(Debug, Clone, Copy, PartialEq, Eq, Structural)]
pub enum ModelError {
    /// A record ran past the end of the input.
    Underrun,
    /// A primitive type code outside the known set.
    BadPrimType(u16),
    /// A known primitive type this pipeline has no geometry for.
    UnsupportedPrim(u16),
    /// Vertex or face counts overflow the index width.
    TooLarge,
    /// A face names a vertex outside its object's vertex pool.
    BadVertIndex,
}

/// Big-endian 16-bit value at byte offset `i`.
pub open spec fn spec_u16_be(bs: Seq<u8>, i: int) -> int {
    0x100 * bs[i] + bs[i + 1]
}

/// Big-endian 32-bit value at byte offset `i`.
pub open spec fn spec_u32_be(bs: Seq<u8>, i: int) -> int {
    0x100_0000 * bs[i] + 0x1_0000 * bs[i + 1] + 0x100 * bs[i + 2] + bs[i + 3]
}

/// Big-endian signed 16-bit value at byte offset `i`: the unsigned
/// value reinterpreted as two's complement.
pub open spec fn spec_i16_be(bs: Seq<u8>, i: int) -> i16 {
    (spec_u16_be(bs, i) as u16) as i16
}

/// Big-endian signed 32-bit value at byte offset `i`: the unsigned
/// value reinterpreted as two's complement.
pub open spec fn spec_i32_be(bs: Seq<u8>, i: int) -> i32 {
    (spec_u32_be(bs, i) as u32) as i32
}

fn read_u16_be(bs: &[u8], i: usize) -> (r: u16)
    requires
        i + 2 <= bs@.len(),
    ensures
        r == spec_u16_be(bs@, i as int),
{
    0x100 * (bs[i] as u16) + (bs[i + 1] as u16)
}

fn read_i16_be(bs: &[u8], i: usize) -> (r: i16)
    requires
        i + 2 <= bs@.len(),
    ensures
        r == spec_i16_be(bs@, i as int),
{
    let v = read_u16_be(bs, i);
    proof {
        assert(v == spec_u16_be(bs@, i as int) as u16);
    }
    v as i16
}

fn read_i32_be(bs: &[u8], i: usize) -> (r: i32)
    requires
        i + 4 <= bs@.len(),
    ensures
        r == spec_i32_be(bs@, i as int),
{
    let v: u32 = 0x100_0000 * (bs[i] as u32) + 0x1_0000 * (bs[i + 1] as u32)
        + 0x100 * (bs[i + 2] as u32) + (bs[i + 3] as u32);
    proof {
        assert(v == spec_u32_be(bs@, i as int) as u32);
    }
    v as i32
}

/// A 15-bit-range colour channel widened to a fraction of one: the
/// source byte is clamped to 7 bits and doubled.
pub open spec fn spec_rgbx_chan(b: u8) -> UNorm8 {
    if b > 127 {
        UNorm8(254)
    } else {
        UNorm8((2 * b) as u8)
    }
}

fn rgbx_chan(b: u8) -> (r: UNorm8)
    ensures
        r == spec_rgbx_chan(b),
{
    if b > 127 {
        UNorm8(254)
    } else {
        UNorm8(2 * b)
    }
}

/// One decoded triangle: object-local vertex indices, a colour per
/// corner, a per-corner sub-texel UV offset, and a texture index.
#[derive(Debug, Clone, Copy, PartialEq, Eq)]
pub struct ModelFace {
    pub vis: [u16; 3],
    pub rgb: [[UNorm8; 3]; 3],
    pub ruv: [[u8; 2]; 3],
    pub tex: u16,
}

/// Every decoded object of a scene file, flattened: shared vertex and
/// face pools, and per-object ranges into the face pool.
pub struct ModelSet {
    pub verts: Vec<[i32; 3]>,
    pub faces: Vec<ModelFace>,
    pub objects: Vec<SceneObject>,
}

/// Sprite records are recognised and skipped by this decoder; the
/// collection stays empty until a sprite-producing pipeline needs it.
pub struct Sprites {
    pub xyz: Vec<[i32; 3]>,
    pub wh: Vec<[u16; 2]>,
    pub tex: Vec<u16>,
}

pub struct Scene {
    pub mset: ModelSet,
    pub sprites: Sprites,
}

/// The primitive type+flags codes of the legacy format.
#[derive(Debug, Clone, Copy, PartialEq, Eq, Structural)]
pub enum RawPrimType {
    Pad,
    Poly { quad: bool, textured: bool, smooth: bool },
    Lines,
    Tspr,
    Bspr,
    Spline,
    DirLight,
    PointLight,
    SpotLight,
}

impl RawPrimType {
    /// The primitive a 16-bit type code denotes, if any.
    pub open spec fn spec_parse(raw: u16) -> Result<RawPrimType, ModelError> {
        if raw == 0 {
            Ok(RawPrimType::Pad)
        } else if 1 <= raw <= 8 {
            let bits = (raw - 1) as u16;
            Ok(RawPrimType::Poly {
                quad: bits & 2 != 0,
                textured: bits & 1 != 0,
                smooth: bits & 4 != 0,
            })
        } else if raw == 9 {
            Ok(RawPrimType::Lines)
        } else if raw == 10 {
            Ok(RawPrimType::Tspr)
        } else if raw == 11 {
            Ok(RawPrimType::Bspr)
        } else if raw == 20 {
            Ok(RawPrimType::Spline)
        } else if raw == 21 {
            Ok(RawPrimType::DirLight)
        } else if raw == 22 {
            Ok(RawPrimType::PointLight)
        } else if raw == 23 {
            Ok(RawPrimType::SpotLight)
        } else {
            Err(ModelError::BadPrimType(raw))
        }
    }

    pub fn parse(raw: u16) -> (r: Result<RawPrimType, ModelError>)
        ensures
            r == RawPrimType::spec_parse(raw),
    {
        if raw == 0 {
            Ok(RawPrimType::Pad)
        } else if 1 <= raw && raw <= 8 {
            let bits = raw - 1;
            Ok(RawPrimType::Poly {
                quad: bits & 2 != 0,
                textured: bits & 1 != 0,
                smooth: bits & 4 != 0,
            })
        } else if raw == 9 {
            Ok(RawPrimType::Lines)
        } else if raw == 10 {
            Ok(RawPrimType::Tspr)
        } else if raw == 11 {
            Ok(RawPrimType::Bspr)
        } else if raw == 20 {
            Ok(RawPrimType::Spline)
        } else if raw == 21 {
            Ok(RawPrimType::DirLight)
        } else if raw == 22 {
            Ok(RawPrimType::PointLight)
        } else if raw == 23 {
            Ok(RawPrimType::SpotLight)
        } else {
            Err(ModelError::BadPrimType(raw))
        }
    }
}

/// One object as parsed from the file, before flattening: its
/// position, its local vertex pool, its faces (with object-local
/// vertex indices), and the cursor position after it.
pub struct ObjData {
    pub xyz: [i32; 3],
    pub verts: Seq<[i32; 3]>,
    pub faces: Seq<ModelFace>,
    pub end: int,
}

/// A whole scene, flattened: shared pools plus per-object face ranges.
pub struct SceneData {
    pub verts: Seq<[i32; 3]>,
    pub faces: Seq<ModelFace>,
    pub objects: Seq<SceneObject>,
}

/// Vertex index `i` of a primitive whose index list starts at `p1`.
pub open spec fn spec_vis(bs: Seq<u8>, p1: int, i: int) -> u16 {
    spec_u16_be(bs, p1 + 2 * i) as u16
}

/// UV offset `i` of a primitive; zero for untextured primitives.
pub open spec fn spec_ruv(bs: Seq<u8>, ruv_base: int, textured: bool, i: int) -> [u8; 2] {
    if textured {
        [bs[ruv_base + 2 * i], bs[ruv_base + 2 * i + 1]]
    } else {
        [0u8, 0u8]
    }
}

/// Colour `j` of a primitive whose colour records start at `rgb_base`.
pub open spec fn spec_rgb(bs: Seq<u8>, rgb_base: int, j: int) -> [UNorm8; 3] {
    [
        spec_rgbx_chan(bs[rgb_base + 4 * j]),
        spec_rgbx_chan(bs[rgb_base + 4 * j + 1]),
        spec_rgbx_chan(bs[rgb_base + 4 * j + 2]),
    ]
}

/// The triangle built from primitive corners `a`, `b`, `c`. Flat
/// primitives repeat their single colour; smooth ones colour each
/// corner.
pub open spec fn spec_face(
    bs: Seq<u8>, p1: int, ruv_base: int, textured: bool, rgb_base: int, n_sm: int, tex: u16,
    a: int, b: int, c: int,
) -> ModelFace {
    ModelFace {
        vis: [spec_vis(bs, p1, a), spec_vis(bs, p1, b), spec_vis(bs, p1, c)],
        rgb: [
            spec_rgb(bs, rgb_base, a % n_sm),
            spec_rgb(bs, rgb_base, b % n_sm),
            spec_rgb(bs, rgb_base, c % n_sm),
        ],
        ruv: [
            spec_ruv(bs, ruv_base, textured, a),
            spec_ruv(bs, ruv_base, textured, b),
            spec_ruv(bs, ruv_base, textured, c),
        ],
        tex,
    }
}

/// Parse `k` primitive records starting at `pos`: the triangles they
/// decode to and the cursor position after them. Primitive kinds this
/// pipeline has no geometry for are skipped when the format defines
/// their size (pads, sprites) and rejected otherwise.
#[verifier::opaque]
pub open spec fn spec_parse_prims(bs: Seq<u8>, pos: int, k: int)
    -> Result<(Seq<ModelFace>, int), ModelError>
    decreases k,
{
    if k <= 0 {
        Ok((Seq::empty(), pos))
    } else if pos < 0 || pos + 4 > bs.len() {
        Err(ModelError::Underrun)
    } else {
        let ty_raw = spec_u16_be(bs, pos) as u16;
        match RawPrimType::spec_parse(ty_raw) {
            Err(e) => Err(e),
            Ok(ty) => match ty {
                RawPrimType::Pad => {
                    if pos + 18 > bs.len() {
                        Err(ModelError::Underrun)
                    } else {
                        match spec_parse_prims(bs, pos + 18, k - 1) {
                            Err(e) => Err(e),
                            Ok((rest, pend)) => Ok((rest, pend)),
                        }
                    }
                },
                RawPrimType::Tspr | RawPrimType::Bspr => {
                    if pos + 16 > bs.len() {
                        Err(ModelError::Underrun)
                    } else {
                        match spec_parse_prims(bs, pos + 16, k - 1) {
                            Err(e) => Err(e),
                            Ok((rest, pend)) => Ok((rest, pend)),
                        }
                    }
                },
                RawPrimType::Poly { quad, textured, smooth } => {
                    let n_vs: int = if quad { 4 } else { 3 };
                    let n_sm: int = if smooth { n_vs } else { 1 };
                    let p1 = pos + 4;
                    let p2 = p1 + 2 * n_vs;
                    let p3 = if textured { p2 + 6 + 2 * n_vs } else { p2 };
                    let p4 = if !(quad && !textured) { p3 + 2 } else { p3 };
                    let p5 = p4 + 4 * n_sm;
                    if p5 > bs.len() {
                        Err(ModelError::Underrun)
                    } else {
                        let tex = if textured { spec_u16_be(bs, p2) as u16 } else { 0xffffu16 };
                        let ruv_base = p2 + 6;
                        let f1 = spec_face(bs, p1, ruv_base, textured, p4, n_sm, tex, 2, 1, 0);
                        let faces = if quad {
                            seq![f1, spec_face(bs, p1, ruv_base, textured, p4, n_sm, tex,
                                2, 3, 1)]
                        } else {
                            seq![f1]
                        };
                        match spec_parse_prims(bs, p5, k - 1) {
                            Err(e) => Err(e),
                            Ok((rest, pend)) => Ok((faces + rest, pend)),
                        }
                    }
                },
                _ => Err(ModelError::UnsupportedPrim(ty_raw)),
            },
        }
    }
}

/// Parse one object record at `pos`: a 144-byte header, `n_verts`
/// signed 16-bit vertex records, then `n_prims` primitive records.
#[verifier::opaque]
pub open spec fn spec_parse_object(bs: Seq<u8>, pos: int) -> Result<ObjData, ModelError> {
    if pos + 144 > bs.len() {
        Err(ModelError::Underrun)
    } else {
        let n_verts = spec_u16_be(bs, pos + 16);
        let n_prims = spec_u16_be(bs, pos + 32);
        let xyz = [
            spec_i32_be(bs, pos + 116) as i32,
            spec_i32_be(bs, pos + 120) as i32,
            spec_i32_be(bs, pos + 124) as i32,
        ];
        let vbase = pos + 144;
        if vbase + 8 * n_verts > bs.len() {
            Err(ModelError::Underrun)
        } else {
            let verts = Seq::new(n_verts as nat, |i: int| [
                spec_i16_be(bs, vbase + 8 * i) as i32,
                spec_i16_be(bs, vbase + 8 * i + 2) as i32,
                spec_i16_be(bs, vbase + 8 * i + 4) as i32,
            ]);
            match spec_parse_prims(bs, vbase + 8 * n_verts, n_prims) {
                Err(e) => Err(e),
                Ok((faces, end)) => Ok(ObjData { xyz, verts, faces, end }),
            }
        }
    }
}

/// One face with its vertex indices rebased by `v0`, or `None` when an
/// index would no longer fit its width.
pub open spec fn spec_shift_face(f: ModelFace, v0: int) -> Option<ModelFace> {
    if f.vis[0] + v0 > u16::MAX || f.vis[1] + v0 > u16::MAX || f.vis[2] + v0 > u16::MAX {
        None
    } else {
        Some(ModelFace {
            vis: [(f.vis[0] + v0) as u16, (f.vis[1] + v0) as u16, (f.vis[2] + v0) as u16],
            ..f
        })
    }
}

/// Put one parsed object in front of an already-flattened scene: its
/// vertices and faces come first, and everything behind it is rebased.
pub open spec fn spec_combine(o: ObjData, rest: SceneData) -> Result<SceneData, ModelError> {
    let v0 = o.verts.len() as int;
    let f0 = o.faces.len() as int;
    if f0 > u32::MAX {
        Err(ModelError::TooLarge)
    } else if exists|i: int| 0 <= i < o.faces.len()
        && ((#[trigger] o.faces[i]).vis[0] >= v0 || o.faces[i].vis[1] >= v0
            || o.faces[i].vis[2] >= v0) {
        Err(ModelError::BadVertIndex)
    } else if exists|i: int| 0 <= i < rest.faces.len()
        && spec_shift_face(#[trigger] rest.faces[i], v0) is None {
        Err(ModelError::TooLarge)
    } else if exists|i: int| 0 <= i < rest.objects.len()
        && (#[trigger] rest.objects[i]).start + f0 > u32::MAX {
        Err(ModelError::TooLarge)
    } else {
        Ok(SceneData {
            verts: o.verts + rest.verts,
            faces: o.faces + rest.faces.map(|i: int, f: ModelFace|
                spec_shift_face(f, v0).unwrap()),
            objects: seq![SceneObject { xyz: o.xyz, start: 0, count: o.faces.len() as u32 }]
                + rest.objects.map(|i: int, so: SceneObject|
                    SceneObject { start: (so.start + f0) as u32, ..so }),
        })
    }
}

/// Parse every object from `pos` to the end of the input and flatten
/// them front to back.
#[verifier::opaque]
pub open spec fn spec_parse_from(bs: Seq<u8>, pos: int) -> Result<SceneData, ModelError>
    decreases bs.len() - pos,
{
    if pos >= bs.len() {
        Ok(SceneData { verts: Seq::empty(), faces: Seq::empty(), objects: Seq::empty() })
    } else {
        match spec_parse_object(bs, pos) {
            Err(e) => Err(e),
            Ok(o) => {
                if o.end <= pos || o.end > bs.len() {
                    Err(ModelError::Underrun)
                } else {
                    match spec_parse_from(bs, o.end) {
                        Err(e) => Err(e),
                        Ok(rest) => spec_combine(o, rest),
                    }
                }
            },
        }
    }
}

/// What a whole scene file decodes to.
pub open spec fn spec_parse_scene(bs: Seq<u8>) -> Result<SceneData, ModelError> {
    spec_parse_from(bs, 0)
}

proof fn lemma_prims_done(bs: Seq<u8>, pos: int)
    ensures
        spec_parse_prims(bs, pos, 0) == Ok::<(Seq<ModelFace>, int), ModelError>((
            Seq::empty(), pos)),
{
    reveal(spec_parse_prims);
}

proof fn lemma_prims_underrun(bs: Seq<u8>, pos: int, k: int)
    requires
        k >= 1,
        0 <= pos,
        pos + 4 > bs.len(),
    ensures
        spec_parse_prims(bs, pos, k) == Err::<(Seq<ModelFace>, int), ModelError>(
            ModelError::Underrun),
{
    reveal(spec_parse_prims);
}

proof fn lemma_prims_bad(bs: Seq<u8>, pos: int, k: int)
    requires
        k >= 1,
        0 <= pos,
        pos + 4 <= bs.len(),
        RawPrimType::spec_parse(spec_u16_be(bs, pos) as u16) is Err,
    ensures
        spec_parse_prims(bs, pos, k) == Err::<(Seq<ModelFace>, int), ModelError>(
            RawPrimType::spec_parse(spec_u16_be(bs, pos) as u16).unwrap_err()),
{
    reveal(spec_parse_prims);
}

proof fn lemma_prims_skip(bs: Seq<u8>, pos: int, k: int, size: int)
    requires
        k >= 1,
        0 <= pos,
        pos + 4 <= bs.len(),
        ({
            let ty = RawPrimType::spec_parse(spec_u16_be(bs, pos) as u16);
            ||| (ty == Ok::<RawPrimType, ModelError>(RawPrimType::Pad) && size == 18)
            ||| (ty == Ok::<RawPrimType, ModelError>(RawPrimType::Tspr) && size == 16)
            ||| (ty == Ok::<RawPrimType, ModelError>(RawPrimType::Bspr) && size == 16)
        }),
    ensures
        pos + size > bs.len() ==> spec_parse_prims(bs, pos, k)
            == Err::<(Seq<ModelFace>, int), ModelError>(ModelError::Underrun),
        pos + size <= bs.len() ==> spec_parse_prims(bs, pos, k)
            == spec_parse_prims(bs, pos + size, k - 1),
{
    reveal(spec_parse_prims);
}

proof fn lemma_prims_unsupported(bs: Seq<u8>, pos: int, k: int)
    requires
        k >= 1,
        0 <= pos,
        pos + 4 <= bs.len(),
        ({
            let ty = RawPrimType::spec_parse(spec_u16_be(bs, pos) as u16);
            ||| ty == Ok::<RawPrimType, ModelError>(RawPrimType::Lines)
            ||| ty == Ok::<RawPrimType, ModelError>(RawPrimType::Spline)
            ||| ty == Ok::<RawPrimType, ModelError>(RawPrimType::DirLight)
            ||| ty == Ok::<RawPrimType, ModelError>(RawPrimType::PointLight)
            ||| ty == Ok::<RawPrimType, ModelError>(RawPrimType::SpotLight)
        }),
    ensures
        spec_parse_prims(bs, pos, k) == Err::<(Seq<ModelFace>, int), ModelError>(
            ModelError::UnsupportedPrim(spec_u16_be(bs, pos) as u16)),
{
    reveal(spec_parse_prims);
}

proof fn lemma_prims_poly(bs: Seq<u8>, pos: int, k: int, quad: bool, textured: bool,
    smooth: bool)
    requires
        k >= 1,
        0 <= pos,
        pos + 4 <= bs.len(),
        RawPrimType::spec_parse(spec_u16_be(bs, pos) as u16)
            == Ok::<RawPrimType, ModelError>(RawPrimType::Poly { quad, textured, smooth }),
    ensures
        spec_parse_prims(bs, pos, k) == ({
            let n_vs: int = if quad { 4 } else { 3 };
            let n_sm: int = if smooth { n_vs } else { 1 };
            let p1 = pos + 4;
            let p2 = p1 + 2 * n_vs;
            let p3 = if textured { p2 + 6 + 2 * n_vs } else { p2 };
            let p4 = if !(quad && !textured) { p3 + 2 } else { p3 };
            let p5 = p4 + 4 * n_sm;
            if p5 > bs.len() {
                Err(ModelError::Underrun)
            } else {
                let tex = if textured { spec_u16_be(bs, p2) as u16 } else { 0xffffu16 };
                let ruv_base = p2 + 6;
                let f1 = spec_face(bs, p1, ruv_base, textured, p4, n_sm, tex, 2, 1, 0);
                let faces = if quad {
                    seq![f1, spec_face(bs, p1, ruv_base, textured, p4, n_sm, tex, 2, 3, 1)]
                } else {
                    seq![f1]
                };
                match spec_parse_prims(bs, p5, k - 1) {
                    Err(e) => Err(e),
                    Ok((rest, pend)) => Ok((faces + rest, pend)),
                }
            }
        }),
{
    reveal(spec_parse_prims);
}

proof fn lemma_object_unfold(bs: Seq<u8>, pos: int)
    ensures
        spec_parse_object(bs, pos) == ({
            if pos + 144 > bs.len() {
                Err(ModelError::Underrun)
            } else {
                let n_verts = spec_u16_be(bs, pos + 16);
                let n_prims = spec_u16_be(bs, pos + 32);
                let xyz = [
                    spec_i32_be(bs, pos + 116) as i32,
                    spec_i32_be(bs, pos + 120) as i32,
                    spec_i32_be(bs, pos + 124) as i32,
                ];
                let vbase = pos + 144;
                if vbase + 8 * n_verts > bs.len() {
                    Err(ModelError::Underrun)
                } else {
                    let verts = Seq::new(n_verts as nat, |i: int| [
                        spec_i16_be(bs, vbase + 8 * i) as i32,
                        spec_i16_be(bs, vbase + 8 * i + 2) as i32,
                        spec_i16_be(bs, vbase + 8 * i + 4) as i32,
                    ]);
                    match spec_parse_prims(bs, vbase + 8 * n_verts, n_prims) {
                        Err(e) => Err(e),
                        Ok((faces, end)) => Ok(ObjData { xyz, verts, faces, end }),
                    }
                }
            }
        }),
{
    reveal(spec_parse_object);
}

proof fn lemma_from_done(bs: Seq<u8>, pos: int)
    requires
        pos >= bs.len(),
    ensures
        spec_parse_from(bs, pos) == Ok::<SceneData, ModelError>(SceneData {
            verts: Seq::empty(), faces: Seq::empty(), objects: Seq::empty() }),
{
    reveal(spec_parse_from);
}

proof fn lemma_from_step(bs: Seq<u8>, pos: int)
    requires
        0 <= pos < bs.len(),
    ensures
        spec_parse_from(bs, pos) == (match spec_parse_object(bs, pos) {
            Err(e) => Err(e),
            Ok(o) => {
                if o.end <= pos || o.end > bs.len() {
                    Err(ModelError::Underrun)
                } else {
                    match spec_parse_from(bs, o.end) {
                        Err(e) => Err(e),
                        Ok(rest) => spec_combine(o, rest),
                    }
                }
            },
        }),
{
    reveal(spec_parse_from);
}

/// Flatten a sequence of parsed objects in front of an already-
/// flattened tail.
pub open spec fn spec_combine_all(objs: Seq<ObjData>, rest: Result<SceneData, ModelError>)
    -> Result<SceneData, ModelError>
    decreases objs.len(),
{
    if objs.len() == 0 {
        rest
    } else {
        match spec_combine_all(objs.drop_first(), rest) {
            Err(e) => Err(e),
            Ok(s) => spec_combine(objs[0], s),
        }
    }
}

proof fn lemma_combine_all_push(objs: Seq<ObjData>, o: ObjData,
    rest: Result<SceneData, ModelError>)
    ensures
        spec_combine_all(objs.push(o), rest) == spec_combine_all(objs,
            match rest {
                Err(e) => Err(e),
                Ok(s) => spec_combine(o, s),
            }),
    decreases objs.len(),
{
    reveal_with_fuel(spec_combine_all, 3);
    if objs.len() == 0 {
        assert(objs.push(o).drop_first() =~= Seq::<ObjData>::empty());
        assert(objs.push(o)[0] == o);
    } else {
        lemma_combine_all_push(objs.drop_first(), o, rest);
        assert(objs.push(o).drop_first() =~= objs.drop_first().push(o));
        assert(objs.push(o)[0] == objs[0]);
    }
}

proof fn lemma_from_indices(bs: Seq<u8>, pos: int)
    requires
        0 <= pos,
        spec_parse_from(bs, pos) is Ok,
    ensures
        ({
            let d = spec_parse_from(bs, pos).unwrap();
            forall|j: int| 0 <= j < d.faces.len()
                ==> (#[trigger] d.faces[j]).vis[0] < d.verts.len()
                    && d.faces[j].vis[1] < d.verts.len()
                    && d.faces[j].vis[2] < d.verts.len()
        }),
    decreases bs.len() - pos,
{
    reveal(spec_parse_from);
    if pos < bs.len() {
        let o = spec_parse_object(bs, pos).unwrap();
        lemma_from_indices(bs, o.end);
        let rest = spec_parse_from(bs, o.end).unwrap();
        let d = spec_parse_from(bs, pos).unwrap();
        let v0 = o.verts.len() as int;
        let mapped = rest.faces.map(|i: int, f: ModelFace| spec_shift_face(f, v0).unwrap());
        assert forall|j: int| 0 <= j < d.faces.len()
            implies (#[trigger] d.faces[j]).vis[0] < d.verts.len()
                && d.faces[j].vis[1] < d.verts.len()
                && d.faces[j].vis[2] < d.verts.len() by {
            if j < o.faces.len() {
                assert(d.faces[j] == o.faces[j]);
            } else {
                let t = j - o.faces.len();
                assert(d.faces[j] == mapped[t]);
                assert(spec_shift_face(rest.faces[t], v0) is Some);
                assert(rest.faces[t].vis[0] < rest.verts.len()
                    && rest.faces[t].vis[1] < rest.verts.len()
                    && rest.faces[t].vis[2] < rest.verts.len());
            }
        }
    }
}

/// Decoded scenes index their own pool: every face of a decoded scene
/// names vertices inside the flattened vertex pool, so consumers can
/// index it without further checks.
pub proof fn lemma_scene_vert_indices(bs: Seq<u8>)
    requires
        spec_parse_scene(bs) is Ok,
    ensures
        ({
            let d = spec_parse_scene(bs).unwrap();
            forall|j: int| 0 <= j < d.faces.len()
                ==> (#[trigger] d.faces[j]).vis[0] < d.verts.len()
                    && d.faces[j].vis[1] < d.verts.len()
                    && d.faces[j].vis[2] < d.verts.len()
        }),
{
    lemma_from_indices(bs, 0);
}

/// One object as decoded from the file, before flattening.
struct ObjRec {
    xyz: [i32; 3],
    verts: Vec<[i32; 3]>,
    faces: Vec<ModelFace>,
}

/// Does a decoded object agree with its parsed form?
spec fn obj_rec_matches(r: ObjRec, o: ObjData) -> bool {
    &&& r.xyz == o.xyz
    &&& r.verts@ == o.verts
    &&& r.faces@ == o.faces
}

fn read_rgb(bs: &[u8], base: usize) -> (r: [UNorm8; 3])
    requires
        base + 3 <= bs@.len(),
    ensures
        r == spec_rgb(bs@, base as int, 0),
{
    [rgbx_chan(bs[base]), rgbx_chan(bs[base + 1]), rgbx_chan(bs[base + 2])]
}

fn read_ruv(bs: &[u8], ruv_base: usize, textured: bool, i: usize) -> (r: [u8; 2])
    requires
        bs@.len() + 200 <= usize::MAX,
        textured ==> ruv_base + 2 * i + 2 <= bs@.len(),
    ensures
        r == spec_ruv(bs@, ruv_base as int, textured, i as int),
{
    if textured {
        [bs[ruv_base + 2 * i], bs[ruv_base + 2 * i + 1]]
    } else {
        [0, 0]
    }
}

/// Decode `k` primitive records starting at `pos`.
#[verifier::rlimit(100)]
#[verifier::spinoff_prover]
fn parse_prims(bs: &[u8], pos: usize, k: usize) -> (r: Result<(Vec<ModelFace>, usize),
    ModelError>)
    requires
        pos <= bs@.len(),
        bs@.len() + 200 <= usize::MAX,
    ensures
        match r {
            Ok(v) => spec_parse_prims(bs@, pos as int, k as int)
                == Ok::<(Seq<ModelFace>, int), ModelError>((v.0@, v.1 as int))
                && pos <= v.1 <= bs@.len(),
            Err(e) => spec_parse_prims(bs@, pos as int, k as int)
                == Err::<(Seq<ModelFace>, int), ModelError>(e),
        },
{
    let mut faces: Vec<ModelFace> = Vec::new();
    let mut cur: usize = pos;
    let mut i: usize = 0;
    proof {
        match spec_parse_prims(bs@, pos as int, k as int) {
            Err(_) => {},
            Ok((rest, pend)) => {
                assert(faces@ + rest =~= rest);
            },
        }
    }
    while i < k
        invariant
            i <= k,
            pos <= cur <= bs@.len(),
            bs@.len() + 200 <= usize::MAX,
            spec_parse_prims(bs@, pos as int, k as int)
                == (match spec_parse_prims(bs@, cur as int, (k - i) as int) {
                    Err(e) => Err::<(Seq<ModelFace>, int), ModelError>(e),
                    Ok((rest, pend)) => Ok((faces@ + rest, pend)),
                }),
        decreases k - i,
    {
        if bs.len() - cur < 4 {
            proof { lemma_prims_underrun(bs@, cur as int, (k - i) as int); }
            return Err(ModelError::Underrun);
        }
        let ty_raw = read_u16_be(bs, cur);
        let ty = match RawPrimType::parse(ty_raw) {
            Ok(t) => t,
            Err(e) => {
                proof { lemma_prims_bad(bs@, cur as int, (k - i) as int); }
                return Err(e);
            },
        };
        match ty {
            RawPrimType::Pad => {
                proof { lemma_prims_skip(bs@, cur as int, (k - i) as int, 18); }
                if bs.len() - cur < 18 {
                    return Err(ModelError::Underrun);
                }
                cur = cur + 18;
            },
            RawPrimType::Tspr | RawPrimType::Bspr => {
                proof { lemma_prims_skip(bs@, cur as int, (k - i) as int, 16); }
                if bs.len() - cur < 16 {
                    return Err(ModelError::Underrun);
                }
                cur = cur + 16;
            },
            RawPrimType::Poly { quad, textured, smooth } => {
                proof {
                    lemma_prims_poly(bs@, cur as int, (k - i) as int, quad, textured, smooth);
                }
                let n_vs: usize = if quad { 4 } else { 3 };
                let n_sm: usize = if smooth { n_vs } else { 1 };
                let p1 = cur + 4;
                let p2 = p1 + 2 * n_vs;
                let p3 = if textured { p2 + 6 + 2 * n_vs } else { p2 };
                let p4 = if !(quad && !textured) { p3 + 2 } else { p3 };
                let p5 = p4 + 4 * n_sm;
                if p5 > bs.len() {
                    return Err(ModelError::Underrun);
                }
                let tex = if textured { read_u16_be(bs, p2) } else { 0xffff };
                let ruv_base = p2 + 6;
                let ghost old_faces = faces@;
                let f1 = ModelFace {
                    vis: [read_u16_be(bs, p1 + 4), read_u16_be(bs, p1 + 2),
                        read_u16_be(bs, p1)],
                    rgb: [read_rgb(bs, p4 + 4 * (2 % n_sm)), read_rgb(bs, p4 + 4 * (1 % n_sm)),
                        read_rgb(bs, p4)],
                    ruv: [read_ruv(bs, ruv_base, textured, 2),
                        read_ruv(bs, ruv_base, textured, 1),
                        read_ruv(bs, ruv_base, textured, 0)],
                    tex,
                };
                proof {
                    assert(f1 == spec_face(bs@, p1 as int, ruv_base as int, textured,
                        p4 as int, n_sm as int, tex, 2, 1, 0));
                }
                faces.push(f1);
                if quad {
                    let f2 = ModelFace {
                        vis: [read_u16_be(bs, p1 + 4), read_u16_be(bs, p1 + 6),
                            read_u16_be(bs, p1 + 2)],
                        rgb: [read_rgb(bs, p4 + 4 * (2 % n_sm)),
                            read_rgb(bs, p4 + 4 * (3 % n_sm)),
                            read_rgb(bs, p4 + 4 * (1 % n_sm))],
                        ruv: [read_ruv(bs, ruv_base, textured, 2),
                            read_ruv(bs, ruv_base, textured, 3),
                            read_ruv(bs, ruv_base, textured, 1)],
                        tex,
                    };
                    proof {
                        assert(f2 == spec_face(bs@, p1 as int, ruv_base as int, textured,
                            p4 as int, n_sm as int, tex, 2, 3, 1));
                    }
                    faces.push(f2);
                }
                proof {
                    let fseq = if quad {
                        seq![spec_face(bs@, p1 as int, ruv_base as int, textured, p4 as int,
                                n_sm as int, tex, 2, 1, 0),
                            spec_face(bs@, p1 as int, ruv_base as int, textured, p4 as int,
                                n_sm as int, tex, 2, 3, 1)]
                    } else {
                        seq![spec_face(bs@, p1 as int, ruv_base as int, textured, p4 as int,
                            n_sm as int, tex, 2, 1, 0)]
                    };
                    assert(faces@ =~= old_faces + fseq);
                    match spec_parse_prims(bs@, p5 as int, (k - i - 1) as int) {
                        Err(_) => {},
                        Ok((rest, pend)) => {
                            assert(old_faces + (fseq + rest) =~= faces@ + rest);
                        },
                    }
                }
                cur = p5;
            },
            _ => {
                proof { lemma_prims_unsupported(bs@, cur as int, (k - i) as int); }
                return Err(ModelError::UnsupportedPrim(ty_raw));
            },
        }
        i = i + 1;
    }
    proof {
        lemma_prims_done(bs@, cur as int);
        assert(faces@ + Seq::<ModelFace>::empty() =~= faces@);
    }
    Ok((faces, cur))
}

/// Decode one object record at `pos`.
fn parse_object(bs: &[u8], pos: usize) -> (r: Result<(ObjRec, usize), ModelError>)
    requires
        pos <= bs@.len(),
        bs@.len() + 200 <= usize::MAX,
    ensures
        match r {
            Ok(v) => spec_parse_object(bs@, pos as int) is Ok
                && obj_rec_matches(v.0, spec_parse_object(bs@, pos as int).unwrap())
                && spec_parse_object(bs@, pos as int).unwrap().end == v.1
                && pos + 144 <= v.1 <= bs@.len(),
            Err(e) => spec_parse_object(bs@, pos as int)
                == Err::<ObjData, ModelError>(e),
        },
{
    proof { lemma_object_unfold(bs@, pos as int); }
    if bs.len() - pos < 144 {
        return Err(ModelError::Underrun);
    }
    let n_verts = read_u16_be(bs, pos + 16) as usize;
    let n_prims = read_u16_be(bs, pos + 32) as usize;
    let xyz = [read_i32_be(bs, pos + 116), read_i32_be(bs, pos + 120),
        read_i32_be(bs, pos + 124)];
    let vbase = pos + 144;
    if (bs.len() - vbase) / 8 < n_verts {
        proof {
            assert(vbase + 8 * n_verts > bs@.len()) by {
                vstd::arithmetic::div_mod::lemma_fundamental_div_mod(
                    (bs@.len() - vbase) as int, 8);
            }
        }
        return Err(ModelError::Underrun);
    }
    proof {
        assert(vbase + 8 * n_verts <= bs@.len()) by {
            vstd::arithmetic::div_mod::lemma_fundamental_div_mod(
                (bs@.len() - vbase) as int, 8);
        }
    }
    let ghost vs = Seq::new(n_verts as nat, |i: int| [
        spec_i16_be(bs@, vbase + 8 * i) as i32,
        spec_i16_be(bs@, vbase + 8 * i + 2) as i32,
        spec_i16_be(bs@, vbase + 8 * i + 4) as i32,
    ]);
    let mut verts: Vec<[i32; 3]> = Vec::new();
    let mut i: usize = 0;
    while i < n_verts
        invariant
            i <= n_verts,
            bs@.len() + 200 <= usize::MAX,
            vbase + 8 * n_verts <= bs@.len(),
            vs == Seq::new(n_verts as nat, |j: int| [
                spec_i16_be(bs@, vbase + 8 * j) as i32,
                spec_i16_be(bs@, vbase + 8 * j + 2) as i32,
                spec_i16_be(bs@, vbase + 8 * j + 4) as i32,
            ]),
            verts@.len() == i,
            forall|j: int| 0 <= j < i ==> verts@[j] == vs[j],
        decreases n_verts - i,
    {
        proof {
            assert(8 * i + 8 <= 8 * n_verts) by (nonlinear_arith) requires i < n_verts;
        }
        let b = vbase + 8 * i;
        verts.push([read_i16_be(bs, b) as i32, read_i16_be(bs, b + 2) as i32,
            read_i16_be(bs, b + 4) as i32]);
        i = i + 1;
    }
    proof {
        assert(verts@ =~= vs);
    }
    let (faces, end) = match parse_prims(bs, vbase + 8 * n_verts, n_prims) {
        Ok(v) => v,
        Err(e) => { return Err(e); },
    };
    Ok((ObjRec { xyz, verts, faces }, end))
}

proof fn lemma_combine_all_err(objs: Seq<ObjData>, e: ModelError)
    ensures
        spec_combine_all(objs, Err(e)) == Err::<SceneData, ModelError>(e),
    decreases objs.len(),
{
    reveal_with_fuel(spec_combine_all, 2);
    if objs.len() > 0 {
        lemma_combine_all_err(objs.drop_first(), e);
    }
}

proof fn lemma_combine_all_split(objs: Seq<ObjData>, m: int, rest: Result<SceneData, ModelError>)
    requires
        0 <= m <= objs.len(),
    ensures
        spec_combine_all(objs, rest) == spec_combine_all(objs.take(m),
            spec_combine_all(objs.skip(m), rest)),
    decreases objs.len() - m,
{
    if m == objs.len() {
        assert(objs.take(m) =~= objs);
        assert(objs.skip(m) =~= Seq::<ObjData>::empty());
    } else {
        lemma_combine_all_split(objs, m + 1, rest);
        lemma_combine_all_push(objs.take(m), objs[m], spec_combine_all(objs.skip(m + 1), rest));
        assert(objs.take(m + 1) =~= objs.take(m).push(objs[m]));
        assert(objs.skip(m).drop_first() =~= objs.skip(m + 1));
        assert(objs.skip(m)[0] == objs[m]);
    }
}

/// Decode a whole scene file: every object, flattened into shared
/// vertex and face pools with per-object face ranges. Exactly the
/// well-formed inputs decode; any record running past the end of the
/// input, an unknown or geometry-less primitive type, a face naming a
/// vertex outside its object's pool, or an index overflowing its width
/// is a fatal error.
#[verifier::rlimit(100)]
#[verifier::spinoff_prover]
#[verifier::loop_isolation(false)]
pub fn build_scene(prm: &[u8]) -> (r: Result<Scene, ModelError>)
    requires
        prm@.len() + 200 <= usize::MAX,
    ensures
        match r {
            Ok(scene) => spec_parse_scene(prm@) is Ok && ({
                let d = spec_parse_scene(prm@).unwrap();
                &&& scene.mset.verts@ == d.verts
                &&& scene.mset.faces@ == d.faces
                &&& scene.mset.objects@ == d.objects
                &&& scene.sprites.xyz@.len() == 0
                &&& scene.sprites.wh@.len() == 0
                &&& scene.sprites.tex@.len() == 0
            }),
            Err(e) => spec_parse_scene(prm@) == Err::<SceneData, ModelError>(e),
        },
{
    let ghost empty_scene = SceneData {
        verts: Seq::empty(), faces: Seq::empty(), objects: Seq::empty() };

    // first pass: decode each object record in order
    let mut recs: Vec<ObjRec> = Vec::new();
    let ghost mut parsed: Seq<ObjData> = Seq::empty();
    let mut pos: usize = 0;
    while pos < prm.len()
        invariant
            pos <= prm@.len(),
            prm@.len() + 200 <= usize::MAX,
            recs@.len() == parsed.len(),
            forall|j: int| 0 <= j < parsed.len() ==> obj_rec_matches(#[trigger] recs@[j],
                parsed[j]),
            spec_parse_scene(prm@) == spec_combine_all(parsed,
                spec_parse_from(prm@, pos as int)),
        decreases prm@.len() - pos,
    {
        proof { lemma_from_step(prm@, pos as int); }
        let (rec, end) = match parse_object(prm, pos) {
            Ok(v) => v,
            Err(e) => {
                proof { lemma_combine_all_err(parsed, e); }
                return Err(e);
            },
        };
        let ghost o = spec_parse_object(prm@, pos as int).unwrap();
        proof {
            lemma_combine_all_push(parsed, o, spec_parse_from(prm@, end as int));
        }
        recs.push(rec);
        proof {
            parsed = parsed.push(o);
        }
        pos = end;
    }
    proof {
        lemma_from_done(prm@, pos as int);
    }

    // second pass: flatten back to front, rebasing indices
    let mut verts: Vec<[i32; 3]> = Vec::new();
    let mut faces: Vec<ModelFace> = Vec::new();
    let mut objects: Vec<SceneObject> = Vec::new();
    let mut i: usize = recs.len();
    proof {
        assert(parsed.skip(i as int) =~= Seq::<ObjData>::empty());
        assert(verts@ =~= empty_scene.verts);
        assert(faces@ =~= empty_scene.faces);
        assert(objects@ =~= empty_scene.objects);
    }
    while i > 0
        invariant
            i <= recs@.len(),
            recs@.len() == parsed.len(),
            forall|j: int| 0 <= j < parsed.len() ==> obj_rec_matches(#[trigger] recs@[j],
                parsed[j]),
            spec_parse_scene(prm@) == spec_combine_all(parsed, Ok(empty_scene)),
            empty_scene == (SceneData {
                verts: Seq::<[i32; 3]>::empty(), faces: Seq::<ModelFace>::empty(),
                objects: Seq::<SceneObject>::empty() }),
            spec_combine_all(parsed.skip(i as int), Ok(empty_scene))
                == Ok::<SceneData, ModelError>(SceneData {
                    verts: verts@, faces: faces@, objects: objects@ }),
        decreases i,
    {
        i = i - 1;
        let ghost cur = SceneData { verts: verts@, faces: faces@, objects: objects@ };
        let ghost o = parsed[i as int];
        proof {
            assert(parsed.skip(i as int).drop_first() =~= parsed.skip(i as int + 1));
            assert(parsed.skip(i as int)[0] == o);
        }
        let rec = &recs[i];
        let f0 = rec.faces.len();
        let v0 = rec.verts.len();
        if f0 > (u32::MAX as usize) {
            proof {
                lemma_combine_all_split(parsed, i as int, Ok(empty_scene));
                lemma_combine_all_err(parsed.take(i as int), ModelError::TooLarge);
            }
            return Err(ModelError::TooLarge);
        }

        // faces: this object's own, each checked against its own vertex
        // pool, then the tail's, rebased
        let mut nf: Vec<ModelFace> = Vec::new();
        let mut j: usize = 0;
        while j < rec.faces.len()
            invariant
                j <= rec.faces@.len(),
                v0 == o.verts.len(),
                obj_rec_matches(*rec, o),
                nf@ =~= rec.faces@.take(j as int),
                forall|t: int| 0 <= t < j ==> (#[trigger] o.faces[t]).vis[0] < v0
                    && o.faces[t].vis[1] < v0 && o.faces[t].vis[2] < v0,
            decreases rec.faces@.len() - j,
        {
            let f = rec.faces[j];
            if f.vis[0] as usize >= v0 || f.vis[1] as usize >= v0
                || f.vis[2] as usize >= v0 {
                proof {
                    assert((#[trigger] o.faces[j as int]).vis[0] >= v0
                        || o.faces[j as int].vis[1] >= v0
                        || o.faces[j as int].vis[2] >= v0);
                    lemma_combine_all_split(parsed, i as int, Ok(empty_scene));
                    lemma_combine_all_err(parsed.take(i as int), ModelError::BadVertIndex);
                }
                return Err(ModelError::BadVertIndex);
            }
            nf.push(f);
            proof {
                assert(nf@ =~= rec.faces@.take(j as int + 1));
            }
            j = j + 1;
        }
        proof {
            assert(nf@ =~= rec.faces@);
        }
        let mut j: usize = 0;
        while j < faces.len()
            invariant
                j <= faces@.len(),
                cur.faces == faces@,
                v0 == o.verts.len(),
                nf@.len() == o.faces.len() + j,
                nf@.take(o.faces.len() as int) == o.faces,
                forall|t: int| 0 <= t < j ==> spec_shift_face(#[trigger] cur.faces[t],
                    v0 as int) is Some,
                forall|t: int| 0 <= t < j ==> nf@[o.faces.len() + t]
                    == spec_shift_face(#[trigger] cur.faces[t], v0 as int).unwrap(),
                obj_rec_matches(*rec, o),
            decreases faces@.len() - j,
        {
            let f = faces[j];
            let a = f.vis[0] as usize;
            let b = f.vis[1] as usize;
            let c = f.vis[2] as usize;
            if v0 > (u16::MAX as usize) - a || v0 > (u16::MAX as usize) - b
                || v0 > (u16::MAX as usize) - c {
                proof {
                    assert(spec_shift_face(cur.faces[j as int], v0 as int) is None);
                    lemma_combine_all_split(parsed, i as int, Ok(empty_scene));
                    lemma_combine_all_err(parsed.take(i as int), ModelError::TooLarge);
                }
                return Err(ModelError::TooLarge);
            }
            let nfface = ModelFace {
                vis: [(a + v0) as u16, (b + v0) as u16, (c + v0) as u16],
                rgb: f.rgb,
                ruv: f.ruv,
                tex: f.tex,
            };
            proof {
                assert(nfface == spec_shift_face(cur.faces[j as int], v0 as int).unwrap());
                assert(nf@.push(nfface).take(o.faces.len() as int) =~= o.faces);
            }
            nf.push(nfface);
            j = j + 1;
        }

        // objects: this object first, then the tail's, rebased
        let mut no: Vec<SceneObject> = Vec::new();
        no.push(SceneObject { xyz: rec.xyz, start: 0, count: f0 as u32 });
        let mut j: usize = 0;
        while j < objects.len()
            invariant
                j <= objects@.len(),
                cur.objects == objects@,
                f0 == o.faces.len(),
                f0 <= u32::MAX,
                no@.len() == 1 + j,
                no@[0] == (SceneObject { xyz: o.xyz, start: 0, count: f0 as u32 }),
                forall|t: int| 0 <= t < j ==> (#[trigger] cur.objects[t]).start + f0
                    <= u32::MAX,
                forall|t: int| 0 <= t < j ==> no@[1 + t] == (SceneObject {
                    start: ((#[trigger] cur.objects[t]).start + f0) as u32,
                    ..cur.objects[t] }),
                obj_rec_matches(*rec, o),
            decreases objects@.len() - j,
        {
            let so = objects[j];
            if so.start as usize > (u32::MAX as usize) - f0 {
                proof {
                    lemma_combine_all_split(parsed, i as int, Ok(empty_scene));
                    lemma_combine_all_err(parsed.take(i as int), ModelError::TooLarge);
                }
                return Err(ModelError::TooLarge);
            }
            no.push(SceneObject { xyz: so.xyz, start: so.start + f0 as u32, count: so.count });
            j = j + 1;
        }

        // vertices: this object's own, then the tail's
        let mut nv: Vec<[i32; 3]> = Vec::new();
        let mut j: usize = 0;
        while j < rec.verts.len()
            invariant
                j <= rec.verts@.len(),
                nv@ =~= rec.verts@.take(j as int),
            decreases rec.verts@.len() - j,
        {
            nv.push(rec.verts[j]);
            proof {
                assert(nv@ =~= rec.verts@.take(j as int + 1));
            }
            j = j + 1;
        }
        proof {
            assert(nv@ =~= rec.verts@);
        }
        let mut j: usize = 0;
        while j < verts.len()
            invariant
                j <= verts@.len(),
                cur.verts == verts@,
                nv@.len() == o.verts.len() + j,
                nv@.take(o.verts.len() as int) == o.verts,
                forall|t: int| 0 <= t < j ==> nv@[o.verts.len() + t] == cur.verts[t],
                obj_rec_matches(*rec, o),
            decreases verts@.len() - j,
        {
            proof {
                assert(nv@.push(verts@[j as int]).take(o.verts.len() as int) =~= o.verts);
            }
            nv.push(verts[j]);
            j = j + 1;
        }

        verts = nv;
        faces = nf;
        objects = no;
        proof {
            let combined = spec_combine(o, cur);
            assert(verts@ =~= o.verts + cur.verts);
            assert(faces@ =~= o.faces + cur.faces.map(|t: int, f: ModelFace|
                spec_shift_face(f, o.verts.len() as int).unwrap()));
            assert(objects@ =~= seq![SceneObject { xyz: o.xyz, start: 0,
                    count: o.faces.len() as u32 }]
                + cur.objects.map(|t: int, so: SceneObject|
                    SceneObject { start: (so.start + o.faces.len()) as u32, ..so }));
            assert(combined == Ok::<SceneData, ModelError>(SceneData {
                verts: verts@, faces: faces@, objects: objects@ }));
        }
    }
    proof {
        assert(parsed.skip(0) =~= parsed);
    }
    Ok(Scene {
        mset: ModelSet { verts, faces, objects },
        sprites: Sprites { xyz: Vec::new(), wh: Vec::new(), tex: Vec::new() },
    })
}

/// Decode a scene file, keeping only the flattened model set.
pub fn build(prm: &[u8]) -> (r: Result<ModelSet, ModelError>)
    requires
        prm@.len() + 200 <= usize::MAX,
    ensures
        match r {
            Ok(mset) => spec_parse_scene(prm@) is Ok && ({
                let d = spec_parse_scene(prm@).unwrap();
                &&& mset.verts@ == d.verts
                &&& mset.faces@ == d.faces
                &&& mset.objects@ == d.objects
            }),
            Err(e) => spec_parse_scene(prm@) == Err::<SceneData, ModelError>(e),
        },
{
    match build_scene(prm) {
        Ok(scene) => Ok(scene.mset),
        Err(e) => Err(e),
    }
}

} // verus!
