use pod_assets::error::PodError;
use pod_assets::model::Model;
use pod_assets::pod_file::FileHandle;


fn expect_err<T>(r: Result<T, PodError>) -> PodError {
    match r {
        Ok(_) => panic!("expected an error"),
        Err(e) => e,
    }
}

fn header(scale: u32, nvert: u32) -> Vec<u8> {
    let mut s: Vec<u8> = Vec::new();
    s.extend_from_slice(&0x14u32.to_le_bytes());
    s.extend_from_slice(&scale.to_le_bytes());
    s.extend_from_slice(&0u32.to_le_bytes());
    s.extend_from_slice(&0u32.to_le_bytes());
    s.extend_from_slice(&nvert.to_le_bytes());
    s
}

#[test]
fn empty_model_decodes_to_nothing() {
    // vertex count 0 and a single 0x00 tag: zero vertices, zero triangles
    let mut s = header(0x80_0000, 0);
    s.extend_from_slice(&0x00u32.to_le_bytes());
    let mut h = FileHandle::from_bytes(&s);
    let m = Model::from_bin_file(&mut h).unwrap();
    assert_eq!(m.vertices.len(), 0);
    assert_eq!(m.faces.len(), 0);
    assert_eq!(m.scale, 0x80_0000);
}

#[test]
fn quad_splits_into_two_triangles() {
    // one face block with four corners: triangles 0-1-2 and 2-3-0
    let mut s = header(1, 0);
    s.extend_from_slice(&0x0Eu32.to_le_bytes());
    s.extend_from_slice(&4u32.to_le_bytes());
    s.extend_from_slice(&100i32.to_le_bytes());
    s.extend_from_slice(&(-200i32).to_le_bytes());
    s.extend_from_slice(&300i32.to_le_bytes());
    s.extend_from_slice(&0u32.to_le_bytes());
    for idx in [10u32, 11, 12, 13] {
        s.extend_from_slice(&idx.to_le_bytes());
        s.extend_from_slice(&7u32.to_le_bytes());
        s.extend_from_slice(&8u32.to_le_bytes());
    }
    let mut h = FileHandle::from_bytes(&s);
    let m = Model::from_bin_file(&mut h).unwrap();
    assert_eq!(m.faces.len(), 2);
    assert_eq!((m.faces[0].v0, m.faces[0].v1, m.faces[0].v2), (10, 11, 12));
    assert_eq!((m.faces[1].v0, m.faces[1].v1, m.faces[1].v2), (12, 13, 10));
    assert_eq!(m.faces[0].normal.x, 100);
    assert_eq!(m.faces[0].normal.y, -200);
    assert_eq!(m.faces[0].normal.z, 300);
    assert_eq!(m.faces[1].normal, m.faces[0].normal);
}

#[test]
fn triangle_block_keeps_its_indices() {
    let mut s = header(1, 0);
    s.extend_from_slice(&0x18u32.to_le_bytes());
    s.extend_from_slice(&3u32.to_le_bytes());
    s.extend_from_slice(&1i32.to_le_bytes());
    s.extend_from_slice(&2i32.to_le_bytes());
    s.extend_from_slice(&3i32.to_le_bytes());
    s.extend_from_slice(&0u32.to_le_bytes());
    for idx in [5u32, 6, 7] {
        s.extend_from_slice(&idx.to_le_bytes());
        s.extend_from_slice(&0u32.to_le_bytes());
        s.extend_from_slice(&0u32.to_le_bytes());
    }
    let mut h = FileHandle::from_bytes(&s);
    let m = Model::from_bin_file(&mut h).unwrap();
    assert_eq!(m.faces.len(), 1);
    assert_eq!((m.faces[0].v0, m.faces[0].v1, m.faces[0].v2), (5, 6, 7));
}

#[test]
fn vertices_keep_their_raw_fixed_point_values() {
    let mut s = header(0x40_0000, 2);
    for v in [1i32, -2, 3, 4, 5, -6] {
        s.extend_from_slice(&v.to_le_bytes());
    }
    let mut h = FileHandle::from_bytes(&s);
    let m = Model::from_bin_file(&mut h).unwrap();
    assert_eq!(m.vertices.len(), 2);
    assert_eq!((m.vertices[0].x, m.vertices[0].y, m.vertices[0].z), (1, -2, 3));
    assert_eq!((m.vertices[1].x, m.vertices[1].y, m.vertices[1].z), (4, 5, -6));
}

#[test]
fn texture_and_reserved_blocks_have_no_geometry_effect() {
    let mut s = header(1, 0);
    // 0x0D: reserved word + 16-byte name
    s.extend_from_slice(&0x0Du32.to_le_bytes());
    s.extend_from_slice(&0u32.to_le_bytes());
    s.extend_from_slice(b"GRASS.RAW\0\0\0\0\0\0\0");
    // 0x17: two reserved words
    s.extend_from_slice(&0x17u32.to_le_bytes());
    s.extend_from_slice(&1u32.to_le_bytes());
    s.extend_from_slice(&2u32.to_le_bytes());
    let mut h = FileHandle::from_bytes(&s);
    let m = Model::from_bin_file(&mut h).unwrap();
    assert_eq!(m.faces.len(), 0);
}

#[test]
fn trailing_fragment_ends_the_stream() {
    let mut s = header(1, 0);
    s.extend_from_slice(&[1, 2]);
    let mut h = FileHandle::from_bytes(&s);
    let m = Model::from_bin_file(&mut h).unwrap();
    assert_eq!(m.faces.len(), 0);
}

#[test]
fn wrong_magic_is_rejected() {
    let mut s = header(1, 0);
    s[0] = 0x15;
    let mut h = FileHandle::from_bytes(&s);
    assert_eq!(expect_err(Model::from_bin_file(&mut h)), PodError::BadMagic);
}

#[test]
fn cut_streams_are_truncated() {
    let s = header(1, 0);
    let mut h = FileHandle::from_bytes(&s[..10]);
    assert_eq!(expect_err(Model::from_bin_file(&mut h)), PodError::Truncated);
    // vertex table cut in half
    let mut s2 = header(1, 2);
    s2.extend_from_slice(&1i32.to_le_bytes());
    let mut h2 = FileHandle::from_bytes(&s2);
    assert_eq!(expect_err(Model::from_bin_file(&mut h2)), PodError::Truncated);
    // face record cut after the tag
    let mut s3 = header(1, 0);
    s3.extend_from_slice(&0x0Eu32.to_le_bytes());
    s3.extend_from_slice(&4u32.to_le_bytes());
    let mut h3 = FileHandle::from_bytes(&s3);
    assert_eq!(expect_err(Model::from_bin_file(&mut h3)), PodError::Truncated);
}

#[test]
fn unknown_tags_and_face_arities_are_rejected() {
    let mut s = header(1, 0);
    s.extend_from_slice(&0x05u32.to_le_bytes());
    let mut h = FileHandle::from_bytes(&s);
    assert_eq!(expect_err(Model::from_bin_file(&mut h)), PodError::UnknownBlock);
    // a face of five corners
    let mut s2 = header(1, 0);
    s2.extend_from_slice(&0x0Eu32.to_le_bytes());
    s2.extend_from_slice(&5u32.to_le_bytes());
    s2.extend_from_slice(&[0u8; 16]);
    let mut h2 = FileHandle::from_bytes(&s2);
    assert_eq!(expect_err(Model::from_bin_file(&mut h2)), PodError::UnknownBlock);
}
