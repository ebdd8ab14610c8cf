use pod_assets::atlas::{pack_rects, Atlas, PlacementRect};
use pod_assets::error::PodError;
use pod_assets::pod_file::PodArchive;


fn expect_err<T>(r: Result<T, PodError>) -> PodError {
    match r {
        Ok(_) => panic!("expected an error"),
        Err(e) => e,
    }
}

fn build_pod(entries: &[(&[u8], &[u8])]) -> Vec<u8> {
    let n = entries.len() as u32;
    let mut out: Vec<u8> = Vec::new();
    out.extend_from_slice(&n.to_le_bytes());
    out.extend_from_slice(&[0u8; 0x50]);
    let mut offset = 4 + 0x50 + 40 * entries.len();
    let mut blob: Vec<u8> = Vec::new();
    for (name, data) in entries {
        let mut field = [0u8; 32];
        field[..name.len()].copy_from_slice(name);
        out.extend_from_slice(&field);
        out.extend_from_slice(&(data.len() as u32).to_le_bytes());
        out.extend_from_slice(&(offset as u32).to_le_bytes());
        offset += data.len();
        blob.extend_from_slice(data);
    }
    out.extend_from_slice(&blob);
    out
}

fn overlaps(a: &PlacementRect, b: &PlacementRect) -> bool {
    a.x < b.x + b.side && b.x < a.x + a.side && a.y < b.y + b.side && b.y < a.y + a.side
}

#[test]
fn shelf_packing_places_disjoint_rects() {
    // sides {4,4,2}: every pair disjoint, all inside the atlas, width is
    // the largest side
    let sizes: Vec<usize> = vec![4, 4, 2];
    let (rects, width, height) = pack_rects(&sizes);
    assert_eq!(rects.len(), 3);
    assert_eq!(width, 4);
    for (i, r) in rects.iter().enumerate() {
        assert_eq!(r.side, sizes[i]);
        assert!(r.x + r.side <= width);
        assert!(r.y + r.side <= height);
    }
    for i in 0..rects.len() {
        for j in 0..rects.len() {
            if i != j {
                assert!(!overlaps(&rects[i], &rects[j]));
            }
        }
    }
}

#[test]
fn shelf_packing_descends_by_size() {
    // the small source comes first in the manifest but is placed last, on
    // its own shelf under the two large ones
    let sizes: Vec<usize> = vec![2, 4, 4];
    let (rects, width, height) = pack_rects(&sizes);
    assert_eq!(width, 4);
    assert_eq!(height, 10);
    assert_eq!(rects[1], PlacementRect { x: 0, y: 0, side: 4 });
    assert_eq!(rects[2], PlacementRect { x: 0, y: 4, side: 4 });
    assert_eq!(rects[0], PlacementRect { x: 0, y: 8, side: 2 });
}

#[test]
fn same_shelf_fills_left_to_right() {
    let sizes: Vec<usize> = vec![2, 2, 4];
    let (rects, width, height) = pack_rects(&sizes);
    assert_eq!(width, 4);
    assert_eq!(height, 6);
    assert_eq!(rects[2], PlacementRect { x: 0, y: 0, side: 4 });
    assert_eq!(rects[0], PlacementRect { x: 0, y: 4, side: 2 });
    assert_eq!(rects[1], PlacementRect { x: 2, y: 4, side: 2 });
}

fn default_palette() -> Vec<u8> {
    // palette entry i expands to (i, 0, 100)
    let mut p: Vec<u8> = Vec::new();
    for i in 0..256usize {
        p.push(i as u8);
        p.push(0);
        p.push(100);
    }
    p
}

fn override_palette() -> Vec<u8> {
    // palette entry i expands to (200, i, 7)
    let mut p: Vec<u8> = Vec::new();
    for i in 0..256usize {
        p.push(200);
        p.push(i as u8);
        p.push(7);
    }
    p
}

#[test]
fn pack_expands_pixels_through_palettes() {
    let a_pixels: Vec<u8> = (0..16u8).collect();
    let b_pixels: Vec<u8> = vec![9; 4];
    let op = override_palette();
    let members: [(&[u8], &[u8]); 4] = [
        (b"ART\\A.RAW", &a_pixels[..]),
        (b"ART\\A.ACT", &op[..]),
        (b"ART\\B.RAW", &b_pixels[..]),
        (b"DATA\\LEVEL.TEX", b"2\r\nA.RAW\r\nB.RAW\r\n"),
    ];
    let data = build_pod(&members);
    let archive = PodArchive::from_file(data).unwrap();
    let mut manifest = archive.open_dir_file(b"DATA", b"LEVEL.TEX").unwrap();
    let at = Atlas::pack(&archive, &mut manifest, b"ART", &default_palette()).unwrap();
    assert_eq!(at.rects.len(), 2);
    assert_eq!(at.width, 4);
    assert_eq!(at.height, 6);
    assert_eq!(at.rgba.len(), 4 * 4 * 6);
    assert_eq!(at.rects[0], PlacementRect { x: 0, y: 0, side: 4 });
    assert_eq!(at.rects[1], PlacementRect { x: 0, y: 4, side: 2 });
    // A.RAW goes through its own A.ACT palette: pixel (0,0) has index 0
    assert_eq!(&at.rgba[0..4], &[200, 0, 7, 255]);
    // pixel (1,2) of A has index 1*4+2 = 6 -> (200, 6, 7, 255)
    let base = (1 * 4 + 2) * 4;
    assert_eq!(&at.rgba[base..base + 4], &[200, 6, 7, 255]);
    // B.RAW has no override: index 9 through the default -> (9, 0, 100)
    let base_b = (4 * 4 + 0) * 4;
    assert_eq!(&at.rgba[base_b..base_b + 4], &[9, 0, 100, 255]);
}

#[test]
fn pack_reports_missing_and_malformed_sources() {
    let members: [(&[u8], &[u8]); 2] = [
        (b"ART\\BAD.RAW", b"12345"),
        (b"DATA\\MISS.TEX", b"1\r\nGONE.RAW\r\n"),
    ];
    let data = build_pod(&members);
    let archive = PodArchive::from_file(data).unwrap();
    let mut manifest = archive.open_dir_file(b"DATA", b"MISS.TEX").unwrap();
    assert_eq!(
        expect_err(Atlas::pack(&archive, &mut manifest, b"ART", &default_palette())),
        PodError::NotFound
    );

    let members2: [(&[u8], &[u8]); 2] = [
        (b"ART\\BAD.RAW", b"12345"),
        (b"DATA\\BAD.TEX", b"1\r\nBAD.RAW\r\n"),
    ];
    let data2 = build_pod(&members2);
    let archive2 = PodArchive::from_file(data2).unwrap();
    let mut manifest2 = archive2.open_dir_file(b"DATA", b"BAD.TEX").unwrap();
    // five bytes are no square image
    assert_eq!(
        expect_err(Atlas::pack(&archive2, &mut manifest2, b"ART", &default_palette())),
        PodError::NotSquare
    );
}

#[test]
fn short_palette_member_pads_with_zeroes() {
    let pixels: Vec<u8> = vec![1; 4];
    let members: [(&[u8], &[u8]); 3] = [
        (b"ART\\C.RAW", &pixels[..]),
        (b"ART\\C.ACT", &[5u8, 6, 7, 8, 9, 10]),
        (b"DATA\\L.TEX", b"1\r\nC.RAW\r\n"),
    ];
    let data = build_pod(&members);
    let archive = PodArchive::from_file(data).unwrap();
    let mut manifest = archive.open_dir_file(b"DATA", b"L.TEX").unwrap();
    let at = Atlas::pack(&archive, &mut manifest, b"ART", &default_palette()).unwrap();
    // index 1 reads palette bytes 3..6 of the short override: (8, 9, 10)
    assert_eq!(&at.rgba[0..4], &[8, 9, 10, 255]);
}

#[test]
fn int_sqrt_recovers_sides() {
    assert_eq!(pod_assets::bytes::int_sqrt(0), 0);
    assert_eq!(pod_assets::bytes::int_sqrt(1), 1);
    assert_eq!(pod_assets::bytes::int_sqrt(3), 1);
    assert_eq!(pod_assets::bytes::int_sqrt(4), 2);
    assert_eq!(pod_assets::bytes::int_sqrt(16), 4);
    assert_eq!(pod_assets::bytes::int_sqrt(17), 4);
    assert_eq!(pod_assets::bytes::int_sqrt(65536), 256);
}

#[test]
fn empty_manifest_packs_an_empty_atlas() {
    let members: [(&[u8], &[u8]); 1] = [(b"DATA\\E.TEX", b"0\r\n")];
    let data = build_pod(&members);
    let archive = PodArchive::from_file(data).unwrap();
    let mut manifest = archive.open_dir_file(b"DATA", b"E.TEX").unwrap();
    let at = Atlas::pack(&archive, &mut manifest, b"ART", &default_palette()).unwrap();
    assert_eq!(at.rects.len(), 0);
    assert_eq!(at.width, 0);
    assert_eq!(at.height, 0);
    assert_eq!(at.rgba.len(), 0);
}
