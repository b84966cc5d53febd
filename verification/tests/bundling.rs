use bundle::util::{fnv1a_64, row_major, UNorm16};
use bundle::bundle::{asset_id, Assets, AssetError, Id};
use bundle::input::Bipole;
use bundle::pixmap::{Pixmap, Rgba, Meta, iter_2d};
use bundle::atlas::{Atlas, ALIGN};
use bundle::archive::{bake_payload, bake_image_set};

#[test]
fn fnv1a_reference_values() {
    assert_eq!(fnv1a_64(b""), 0xcbf29ce484222325);
    assert_eq!(fnv1a_64(b"a"), 0xaf63dc4c8601ec8c);
    assert_eq!(fnv1a_64(b"foobar"), 0x85944171f73967e8);
}

#[test]
fn asset_id_hashes_the_path() {
    assert_eq!(asset_id("a"), Id(0xaf63dc4c8601ec8c));
    assert_eq!(asset_id("track02/scene.prm"), Id(fnv1a_64(b"track02/scene.prm")));
}

#[test]
fn asset_tables_reject_collisions() {
    let mut assets: Assets<u32> = Assets::new();
    let id = asset_id("music/title");
    assert_eq!(assets.add(id, 7), Ok(id));
    assert_eq!(assets.len(), 1);
    assert_eq!(assets.get(id), Some(&7));
    // a second asset under the same identifier is a fatal build error
    assert_eq!(assets.add(id, 9), Err(AssetError::IdCollision));
    assert_eq!(assets.len(), 1);
    assert_eq!(assets.get(id), Some(&7));
    assert_eq!(assets.get(asset_id("music/other")), None);
}

#[test]
fn bipole_latest_press_wins() {
    let mut axis = Bipole::default();
    assert_eq!(axis.eval(), 0);
    axis.pos(true);
    assert_eq!(axis.eval(), 1);
    axis.neg(true);
    assert_eq!(axis.eval(), -1);
    axis.pos(true);
    assert_eq!(axis.eval(), 1);
    axis.pos(false);
    assert_eq!(axis.eval(), -1);
    axis.neg(false);
    assert_eq!(axis.eval(), 0);
}

#[test]
fn row_major_order() {
    assert_eq!(row_major(2, 3),
        vec![[0, 0], [1, 0], [0, 1], [1, 1], [0, 2], [1, 2]]);
    assert_eq!(iter_2d(2, 1), vec![[0, 0], [1, 0]]);
    assert_eq!(row_major(3, 0), Vec::<[i32; 2]>::new());
}

#[test]
fn archive_frame_round_trips() {
    let payload: Vec<u8> = (0u8..=255).cycle().take(4096).collect();
    let framed = bake_payload(&payload);
    // 8-byte little-endian uncompressed length, then the compressed body
    assert_eq!(&framed[..8], &(payload.len() as u64).to_le_bytes());
    let back = lz4_flex::decompress(&framed[8..], payload.len()).unwrap();
    assert_eq!(back, payload);
}

#[test]
fn image_set_frame_layout() {
    let iset = bundle::bundle::ImageSet {
        sizes: vec![(8, 8), (300, 2)],
        qoi_stream: vec![0xc1, 0xfd],
    };
    let framed = bake_image_set(&iset);
    // count, sizes and stream, little endian, then the archive frame
    let tree = [2u32.to_le_bytes().as_slice(), &8u16.to_le_bytes(), &8u16.to_le_bytes(),
        &300u16.to_le_bytes(), &2u16.to_le_bytes(), &[0xc1, 0xfd]].concat();
    assert_eq!(&framed[..8], &(tree.len() as u64).to_le_bytes());
    let back = lz4_flex::decompress(&framed[8..], tree.len()).unwrap();
    assert_eq!(back, tree);
}

#[test]
fn pixmap_basics() {
    let mut pm = Pixmap::new(3, 2, Rgba([1, 2, 3, 4]));
    assert_eq!(pm.wide(), 3);
    assert_eq!(pm.high(), 2);
    assert_eq!(pm.get([2, 1]), Some(Rgba([1, 2, 3, 4])));
    assert_eq!(pm.get([3, 1]), None);
    pm.put([1, 0], Rgba([9, 9, 9, 9]));
    assert_eq!(pm.get([1, 0]), Some(Rgba([9, 9, 9, 9])));
    assert_eq!(pm.get([0, 0]), Some(Rgba([1, 2, 3, 4])));
    let src = Pixmap::new(1, 1, Rgba([7, 7, 7, 7]));
    pm.copy_from([2, 1], &src);
    assert_eq!(pm.get([2, 1]), Some(Rgba([7, 7, 7, 7])));
    assert!(pm.try_as_slice().is_some());
}

#[test]
fn pack_three_images_and_the_white_swatch() {
    let images = vec![
        Pixmap::new(16, 16, Rgba([10, 0, 0, 255])),
        Pixmap::new(32, 16, Rgba([0, 20, 0, 255])),
        Pixmap::new(8, 8, Rgba([0, 0, 30, 255])),
    ];
    let (image, atlas) = Atlas::build(&images).unwrap();
    // one UV rectangle per source, in source order, plus the white
    // swatch appended last
    assert_eq!(atlas.uivis.len(), 4);
    let dims = [[16, 16], [32, 16], [8, 8], [1, 1]];
    for (i, d) in dims.iter().enumerate() {
        let r = atlas.uivis[i];
        assert_eq!([r[2] - r[0], r[3] - r[1]], *d);
        // the apron keeps every placement off every edge
        assert!(r[0] >= ALIGN && r[1] >= ALIGN);
        assert!(r[2] + ALIGN <= atlas.wide && r[3] + ALIGN <= atlas.high);
    }
    // neither dimension is smaller than the largest source plus its
    // apron on both sides
    assert!(atlas.wide >= 32 + 2 * ALIGN);
    assert!(atlas.high >= 32 + 2 * ALIGN);
    assert_eq!(atlas.wide % ALIGN, 0);
    assert_eq!(atlas.high % ALIGN, 0);
    // no two placements overlap, aprons included
    for i in 0..4 {
        for j in 0..4 {
            if i != j {
                let a = atlas.uivis[i];
                let b = atlas.uivis[j];
                let pa = [a[0] - ALIGN, a[1] - ALIGN, a[2] + ALIGN, a[3] + ALIGN];
                let pb = [b[0] - ALIGN, b[1] - ALIGN, b[2] + ALIGN, b[3] + ALIGN];
                assert!(pa[2] <= pb[0] || pb[2] <= pa[0]
                    || pa[3] <= pb[1] || pb[3] <= pa[1]);
            }
        }
    }
    // every source's pixels land inside its inner rectangle
    for (i, src) in images.iter().enumerate() {
        let r = atlas.uivis[i];
        for y in 0..(r[3] - r[1]) {
            for x in 0..(r[2] - r[0]) {
                assert_eq!(image.get([r[0] + x, r[1] + y]), src.get([x, y]));
            }
        }
    }
    // the white swatch is opaque white
    let w = atlas.uivis[3];
    assert_eq!(image.get([w[0], w[1]]), Some(Rgba([255, 255, 255, 255])));
}

#[test]
fn uv_lookups_stay_in_unit_range() {
    let images = vec![Pixmap::new(8, 8, Rgba([1, 1, 1, 255]))];
    let (_, atlas) = Atlas::build(&images).unwrap();
    let rect = atlas.lookup_rect(0);
    for c in rect {
        assert!(c.0 <= 0xffff);
    }
    // corners scale by the reciprocal atlas dimensions
    let r = atlas.uivis[0];
    assert_eq!(rect[0], UNorm16((r[0] as u64 * 0xffff / atlas.wide as u64) as u16));
    assert_eq!(rect[3], UNorm16((r[3] as u64 * 0xffff / atlas.high as u64) as u16));
    let at = atlas.lookup(0, [3, 5]);
    assert_eq!(at[0],
        UNorm16(((r[0] + 3) as u64 * 0xffff / atlas.wide as u64) as u16));
    assert_eq!(at[1],
        UNorm16(((r[1] + 5) as u64 * 0xffff / atlas.high as u64) as u16));
    let white = atlas.no_texture();
    assert!(white.iter().all(|c| c.0 <= 0xffff));
}

#[test]
fn atlas_rejects_oversized_sources() {
    let images = vec![Pixmap::new(1520, 4, Rgba([0, 0, 0, 255]))];
    assert!(matches!(Atlas::build(&images),
        Err(bundle::atlas::AtlasError::ImageTooLarge)));
}

#[test]
fn pixmap_slice_copies_the_rectangle() {
    let pm = Pixmap::new_from_fn(4, 4, |xy: [i32; 2]| {
        Rgba([xy[0] as u8, xy[1] as u8, 0, 255])
    });
    assert_eq!(pm.get([3, 2]), Some(Rgba([3, 2, 0, 255])));
    let sub = pm.slice([1, 1, 3, 4]).unwrap();
    assert_eq!(sub.wide(), 2);
    assert_eq!(sub.high(), 3);
    assert_eq!(sub.get([0, 0]), Some(Rgba([1, 1, 0, 255])));
    assert_eq!(sub.get([1, 2]), Some(Rgba([2, 3, 0, 255])));
    assert!(pm.slice([0, 0, 5, 1]).is_none());
    assert!(pm.slice([2, 2, 2, 3]).is_none());
}

#[test]
fn empty_rasters_are_valid() {
    // zero dimensions make a valid raster with nothing addressable
    let pm = Pixmap::new(0, 2, Rgba([1, 1, 1, 1]));
    assert_eq!(pm.wide(), 0);
    assert_eq!(pm.high(), 2);
    assert_eq!(pm.get([0, 0]), None);
    let pm = Pixmap::new_from_pixels(Vec::new(), 0, 1, 3, 0).unwrap();
    assert_eq!(pm.wide(), 3);
    assert_eq!(pm.high(), 0);
    assert!(Meta::try_new(0, 1, 0, 5).is_some());
    // only negative parameters (or a zero pitch, which cannot round)
    // are rejected outright
    assert!(Meta::try_new(-1, 1, 4, 4).is_none());
    assert!(Meta::try_new(0, 0, 4, 4).is_none());
    assert!(Meta::try_new(0, 1, -4, 4).is_none());
}
