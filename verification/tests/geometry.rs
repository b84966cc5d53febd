use bundle::model::{build, build_scene, ModelError, RawPrimType};
use bundle::road::{make_road, make_graph, graph_is_closed_loop, RoadError, NO_LINK};
use bundle::util::UNorm8;

/// One scene object: a 144-byte header, vertex records, then the given
/// primitive records.
fn scene_object(verts: &[[i16; 3]], prims: &[u8], pos: [i32; 3]) -> Vec<u8> {
    let mut out = vec![0u8; 144];
    out[16..18].copy_from_slice(&(verts.len() as u16).to_be_bytes());
    let n_prims = count_prims(prims);
    out[32..34].copy_from_slice(&n_prims.to_be_bytes());
    out[116..120].copy_from_slice(&pos[0].to_be_bytes());
    out[120..124].copy_from_slice(&pos[1].to_be_bytes());
    out[124..128].copy_from_slice(&pos[2].to_be_bytes());
    for v in verts {
        out.extend_from_slice(&v[0].to_be_bytes());
        out.extend_from_slice(&v[1].to_be_bytes());
        out.extend_from_slice(&v[2].to_be_bytes());
        out.extend_from_slice(&0i16.to_be_bytes());
    }
    out.extend_from_slice(prims);
    out
}

/// The caller encodes primitive records by hand; count them by tag.
fn count_prims(prims: &[u8]) -> u16 {
    // every record in these fixtures is either a 16-byte flat triangle
    // (tag 1), an 18-byte pad (tag 0), or a 16-byte sprite (tag 10/11)
    let mut n = 0u16;
    let mut i = 0;
    while i < prims.len() {
        let tag = u16::from_be_bytes([prims[i], prims[i + 1]]);
        i += match tag {
            0 => 18,
            1 => 16,
            2 => 28,
            3 => 16,
            10 | 11 => 16,
            _ => panic!("fixture uses an unexpected primitive tag"),
        };
        n += 1;
    }
    n
}

/// A flat untextured triangle over the given vertex indices.
fn tri_prim(vis: [u16; 3], rgb: [u8; 3]) -> Vec<u8> {
    let mut out = Vec::new();
    out.extend_from_slice(&1u16.to_be_bytes());
    out.extend_from_slice(&0u16.to_be_bytes());
    for v in vis {
        out.extend_from_slice(&v.to_be_bytes());
    }
    out.extend_from_slice(&[0, 0]); // alignment
    out.extend_from_slice(&[rgb[0], rgb[1], rgb[2], 0]);
    out
}

#[test]
fn scene_flat_triangle() {
    let prim = tri_prim([0, 1, 2], [10, 60, 200]);
    let obj = scene_object(&[[1, 2, 3], [4, 5, 6], [-7, -8, -9]], &prim, [100, -200, 300]);
    let scene = build_scene(&obj).unwrap();
    assert_eq!(scene.mset.verts, vec![[1, 2, 3], [4, 5, 6], [-7, -8, -9]]);
    assert_eq!(scene.mset.faces.len(), 1);
    let face = scene.mset.faces[0];
    // the face winds through the index list back to front
    assert_eq!(face.vis, [2, 1, 0]);
    // flat shading repeats the one colour, clamped to 7 bits and doubled
    assert_eq!(face.rgb, [[UNorm8(20), UNorm8(120), UNorm8(254)]; 3]);
    assert_eq!(face.ruv, [[0, 0]; 3]);
    assert_eq!(face.tex, 0xffff);
    assert_eq!(scene.mset.objects.len(), 1);
    assert_eq!(scene.mset.objects[0].xyz, [100, -200, 300]);
    assert_eq!(scene.mset.objects[0].start, 0);
    assert_eq!(scene.mset.objects[0].count, 1);
}

#[test]
fn scene_two_objects_rebase_indices() {
    let prim = tri_prim([0, 1, 2], [1, 2, 3]);
    let mut bytes = scene_object(&[[0, 0, 0], [1, 0, 0], [0, 1, 0]], &prim, [0, 0, 0]);
    bytes.extend_from_slice(&scene_object(&[[9, 9, 9], [8, 8, 8], [7, 7, 7]], &prim,
        [1, 1, 1]));
    let mset = build(&bytes).unwrap();
    assert_eq!(mset.verts.len(), 6);
    assert_eq!(mset.faces.len(), 2);
    assert_eq!(mset.faces[0].vis, [2, 1, 0]);
    // the second object's indices are rebased past the first's vertices
    assert_eq!(mset.faces[1].vis, [5, 4, 3]);
    assert_eq!(mset.objects[0].start, 0);
    assert_eq!(mset.objects[1].start, 1);
}

#[test]
fn scene_pad_and_sprite_records_are_skipped() {
    let mut prims = Vec::new();
    prims.extend_from_slice(&0u16.to_be_bytes());
    prims.extend_from_slice(&0u16.to_be_bytes());
    prims.extend_from_slice(&[0; 14]);
    prims.extend_from_slice(&10u16.to_be_bytes());
    prims.extend_from_slice(&0u16.to_be_bytes());
    prims.extend_from_slice(&[0; 12]);
    let obj = scene_object(&[[0, 0, 0]], &prims, [0, 0, 0]);
    let scene = build_scene(&obj).unwrap();
    assert_eq!(scene.mset.faces.len(), 0);
    assert_eq!(scene.mset.objects[0].count, 0);
}

#[test]
fn scene_errors() {
    assert!(matches!(build_scene(&[0u8; 100]), Err(ModelError::Underrun)));
    let mut obj = scene_object(&[[0, 0, 0]], &[], [0, 0, 0]);
    obj[32..34].copy_from_slice(&1u16.to_be_bytes());
    obj.extend_from_slice(&77u16.to_be_bytes());
    obj.extend_from_slice(&0u16.to_be_bytes());
    obj.extend_from_slice(&[0; 12]);
    match build_scene(&obj) {
        Err(ModelError::BadPrimType(77)) => {},
        other => panic!("expected a bad primitive type, got {:?}", other.is_ok()),
    }
}

#[test]
fn scene_rejects_out_of_pool_indices() {
    // a triangle naming vertex 9 of a three-vertex object
    let prim = tri_prim([0, 1, 9], [1, 2, 3]);
    let obj = scene_object(&[[0, 0, 0], [1, 0, 0], [0, 1, 0]], &prim, [0, 0, 0]);
    assert!(matches!(build_scene(&obj), Err(ModelError::BadVertIndex)));
}

#[test]
fn prim_type_codes() {
    assert_eq!(RawPrimType::parse(0), Ok(RawPrimType::Pad));
    assert_eq!(RawPrimType::parse(1),
        Ok(RawPrimType::Poly { quad: false, textured: false, smooth: false }));
    assert_eq!(RawPrimType::parse(8),
        Ok(RawPrimType::Poly { quad: true, textured: true, smooth: true }));
    assert_eq!(RawPrimType::parse(10), Ok(RawPrimType::Tspr));
    assert_eq!(RawPrimType::parse(12), Err(ModelError::BadPrimType(12)));
}

/// A track section record with the given links, face range and flags.
fn section(junction: u32, prev: u32, next: u32, face_i0: u32, n_faces: u16, flags: u16)
    -> Vec<u8>
{
    let mut out = vec![0u8; 156];
    out[0..4].copy_from_slice(&junction.to_be_bytes());
    out[4..8].copy_from_slice(&prev.to_be_bytes());
    out[8..12].copy_from_slice(&next.to_be_bytes());
    out[140..144].copy_from_slice(&face_i0.to_be_bytes());
    out[144..146].copy_from_slice(&n_faces.to_be_bytes());
    out[150..152].copy_from_slice(&flags.to_be_bytes());
    out
}

fn track_verts() -> Vec<u8> {
    let mut trv = Vec::new();
    for v in [[0i32, 0, 0], [4, 0, 0], [4, 4, 0], [0, 4, 0]] {
        trv.extend_from_slice(&v[0].to_be_bytes());
        trv.extend_from_slice(&v[1].to_be_bytes());
        trv.extend_from_slice(&v[2].to_be_bytes());
        trv.extend_from_slice(&0i32.to_be_bytes());
    }
    trv
}

fn track_face(vis: [u16; 4], tex: u8, flags: u8) -> Vec<u8> {
    let mut out = Vec::new();
    for v in vis {
        out.extend_from_slice(&v.to_be_bytes());
    }
    out.extend_from_slice(&[0; 6]);
    out.push(tex);
    out.push(flags);
    out.extend_from_slice(&[100, 100, 100, 0]);
    out
}

#[test]
fn track_graph_centroid_and_loop() {
    let trv = track_verts();
    let trf = track_face([0, 1, 2, 3], 5, 1);
    let mut trs = section(NO_LINK, 1, 1, 0, 1, 0);
    trs.extend_from_slice(&section(NO_LINK, 0, 0, 0, 0, 0));
    let (model, graph) = make_road(&trv, &trf, &trs).unwrap();
    assert_eq!(model.verts.len(), 4);
    assert_eq!(model.f_verts, vec![[0, 1, 2, 3]]);
    assert_eq!(model.f_tex, vec![5]);
    assert_eq!(model.f_flags, vec![1]);
    // drivable face corners (0,0) (4,0) (4,4) (0,4): centroid (2,2,0)
    assert_eq!(graph[0].center, [2, 2, 0]);
    // a section with no drivable face centres on the origin
    assert_eq!(graph[1].center, [0, 0, 0]);
    assert_eq!(graph[0].next, [1, NO_LINK]);
    assert_eq!(graph[1].next, [0, NO_LINK]);
    assert!(graph_is_closed_loop(&graph));
}

#[test]
fn junction_honoured_only_into_flagged_targets() {
    let trv = track_verts();
    let trf = track_face([0, 1, 2, 3], 0, 1);
    // section 0 branches to section 1, which is a flagged entry
    let mut trs = section(1, 1, 1, 0, 1, 0);
    trs.extend_from_slice(&section(NO_LINK, 0, 0, 0, 0, 0x10));
    let (_, graph) = make_road(&trv, &trf, &trs).unwrap();
    assert_eq!(graph[0].next, [1, 1]);
    // the same branch into an unflagged target is nulled
    let mut trs = section(1, 1, 1, 0, 1, 0);
    trs.extend_from_slice(&section(NO_LINK, 0, 0, 0, 0, 0));
    let verts = {
        let (model, _) = make_road(&trv, &trf, &trs).unwrap();
        model.verts
    };
    let graph = make_graph(&trs, &verts, &trf).unwrap();
    assert_eq!(graph[0].next, [1, NO_LINK]);
}

#[test]
fn unreachable_section_fails_the_loop_check() {
    let trv = track_verts();
    let trf = track_face([0, 1, 2, 3], 0, 1);
    // both sections continue into themselves: section 1 is unreachable
    let mut trs = section(NO_LINK, 0, 0, 0, 0, 0);
    trs.extend_from_slice(&section(NO_LINK, 1, 1, 0, 0, 0));
    let (_, graph) = make_road(&trv, &trf, &trs).unwrap();
    assert!(!graph_is_closed_loop(&graph));
}

#[test]
fn track_errors() {
    let trv = track_verts();
    let trf = track_face([0, 1, 2, 3], 0, 1);
    assert!(matches!(make_road(&trv[..15], &trf, &[]),
        Err(RoadError::BadVertLength)));
    assert!(matches!(make_road(&trv, &trf[..19], &[]),
        Err(RoadError::BadFaceLength)));
    assert!(matches!(make_road(&trv, &trf, &[0u8; 155]),
        Err(RoadError::BadSectionLength)));
    // a face range past the face table
    let trs = section(NO_LINK, 0, 0, 0, 2, 0);
    assert!(matches!(make_road(&trv, &trf, &trs), Err(RoadError::FaceRange)));
    // a drivable face naming a vertex past the vertex table
    let bad_face = track_face([0, 1, 2, 9], 0, 1);
    let trs = section(NO_LINK, 0, 0, 0, 1, 0);
    assert!(matches!(make_road(&trv, &bad_face, &trs), Err(RoadError::VertRange)));
    // a junction link naming a section past the table
    let trs = section(7, 0, 0, 0, 1, 0);
    assert!(matches!(make_road(&trv, &trf, &trs), Err(RoadError::JunctionRange)));
}

#[test]
fn scene_quad_splits_into_two_triangles() {
    // a flat untextured quad: no alignment padding in its record
    let mut prim = Vec::new();
    prim.extend_from_slice(&3u16.to_be_bytes());
    prim.extend_from_slice(&0u16.to_be_bytes());
    for v in [0u16, 1, 2, 3] {
        prim.extend_from_slice(&v.to_be_bytes());
    }
    prim.extend_from_slice(&[50, 50, 50, 0]);
    let obj = scene_object(&[[0, 0, 0], [1, 0, 0], [1, 1, 0], [0, 1, 0]], &prim,
        [0, 0, 0]);
    let scene = build_scene(&obj).unwrap();
    assert_eq!(scene.mset.faces.len(), 2);
    // the quad splits on a fixed diagonal with a fixed winding
    assert_eq!(scene.mset.faces[0].vis, [2, 1, 0]);
    assert_eq!(scene.mset.faces[1].vis, [2, 3, 1]);
    assert_eq!(scene.mset.objects[0].count, 2);
}

#[test]
fn scene_textured_triangle_carries_uvs() {
    let mut prim = Vec::new();
    prim.extend_from_slice(&2u16.to_be_bytes());
    prim.extend_from_slice(&0u16.to_be_bytes());
    for v in [0u16, 1, 2] {
        prim.extend_from_slice(&v.to_be_bytes());
    }
    prim.extend_from_slice(&7u16.to_be_bytes()); // texture index
    prim.extend_from_slice(&[0; 4]); // palette and mode words, unread
    prim.extend_from_slice(&[10, 11, 20, 21, 30, 31]); // per-corner offsets
    prim.extend_from_slice(&[0, 0]); // alignment
    prim.extend_from_slice(&[1, 2, 3, 0]);
    let obj = scene_object(&[[0, 0, 0], [1, 0, 0], [1, 1, 0]], &prim, [0, 0, 0]);
    let scene = build_scene(&obj).unwrap();
    let face = scene.mset.faces[0];
    assert_eq!(face.tex, 7);
    assert_eq!(face.ruv, [[30, 31], [20, 21], [10, 11]]);
}
