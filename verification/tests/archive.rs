use pod_assets::cstr::CStrBuf;
use pod_assets::error::PodError;
use pod_assets::pod_file::{FileHandle, PodArchive};


fn expect_err<T>(r: Result<T, PodError>) -> PodError {
    match r {
        Ok(_) => panic!("expected an error"),
        Err(e) => e,
    }
}

fn build_pod(entries: &[(&[u8], &[u8])]) -> Vec<u8> {
    let n = entries.len() as u32;
    let mut out: Vec<u8> = Vec::new();
    out.extend_from_slice(&n.to_le_bytes());
    out.extend_from_slice(&[0u8; 0x50]);
    let mut offset = 4 + 0x50 + 40 * entries.len();
    let mut blob: Vec<u8> = Vec::new();
    for (name, data) in entries {
        let mut field = [0u8; 32];
        field[..name.len()].copy_from_slice(name);
        out.extend_from_slice(&field);
        out.extend_from_slice(&(data.len() as u32).to_le_bytes());
        out.extend_from_slice(&(offset as u32).to_le_bytes());
        offset += data.len();
        blob.extend_from_slice(data);
    }
    out.extend_from_slice(&blob);
    out
}

#[test]
fn single_member_reads_exactly_its_bytes() {
    // one entry "A.TXT" of size 5 containing "hello": five bytes come out,
    // a sixth read attempt yields nothing
    let data = build_pod(&[(b"A.TXT", b"hello")]);
    let archive = PodArchive::from_file(data).unwrap();
    let mut h = archive.open_file(b"A.TXT").unwrap();
    assert_eq!(h.size(), 5);
    let got = h.read(5);
    assert_eq!(got, b"hello".to_vec());
    let extra = h.read(1);
    assert_eq!(extra.len(), 0);
}

#[test]
fn byte_at_a_time_reads_stay_bounded() {
    let data = build_pod(&[(b"A.TXT", b"hello")]);
    let archive = PodArchive::from_file(data).unwrap();
    let mut h = archive.open_file(b"A.TXT").unwrap();
    let mut all: Vec<u8> = Vec::new();
    for _ in 0..10 {
        let b = h.read(1);
        all.extend_from_slice(&b);
    }
    assert_eq!(all, b"hello".to_vec());
}

#[test]
fn round_trip_every_stored_name() {
    // unsorted unique names; every stored name must come back with its own
    // bytes and nothing else's
    let members: [(&[u8], &[u8]); 4] = [
        (b"DELTA.BIN", b"dd"),
        (b"ALPHA.BIN", b"aaaa"),
        (b"CHARLIE.BIN", b"c"),
        (b"BRAVO.BIN", b"bbb"),
    ];
    let data = build_pod(&members);
    let archive = PodArchive::from_file(data).unwrap();
    assert_eq!(archive.len(), 4);
    for (name, body) in members.iter() {
        let mut h = archive.open_file(name).unwrap();
        assert_eq!(h.size(), body.len());
        let got = h.read(body.len());
        assert_eq!(&got[..], *body);
    }
}

#[test]
fn name_and_path_lookup_agree() {
    let members: [(&[u8], &[u8]); 3] = [
        (b"ART\\STONE.RAW", b"stone-bytes"),
        (b"ART\\GRASS.RAW", b"grass-bytes"),
        (b"DATA\\LEVEL.DEF", b"defs"),
    ];
    let data = build_pod(&members);
    let archive = PodArchive::from_file(data).unwrap();
    let mut by_name = archive.open_file(b"ART\\GRASS.RAW").unwrap();
    let mut by_path = archive.open_dir_file(b"ART", b"GRASS.RAW").unwrap();
    let a = by_name.read(64);
    let b = by_path.read(64);
    assert_eq!(a, b);
    assert_eq!(a, b"grass-bytes".to_vec());
}

#[test]
fn path_lookup_skips_exact_prefix_names() {
    // an entry whose whole name equals the directory prefix must not
    // confuse the byte-at-a-time narrowing
    let members: [(&[u8], &[u8]); 3] = [
        (b"AB", b"short"),
        (b"AB\\C", b"deep"),
        (b"ABX", b"other"),
    ];
    let data = build_pod(&members);
    let archive = PodArchive::from_file(data).unwrap();
    let mut h = archive.open_dir_file(b"AB", b"C").unwrap();
    assert_eq!(h.read(16), b"deep".to_vec());
    assert_eq!(expect_err(archive.open_dir_file(b"AB", b"D")), PodError::NotFound);
}

#[test]
fn missing_names_give_not_found() {
    let data = build_pod(&[(b"A.TXT", b"hello")]);
    let archive = PodArchive::from_file(data).unwrap();
    assert_eq!(expect_err(archive.open_file(b"B.TXT")), PodError::NotFound);
    assert_eq!(expect_err(archive.open_dir_file(b"DIR", b"B.TXT")), PodError::NotFound);
}

#[test]
fn truncated_container_is_rejected() {
    let mut data = build_pod(&[(b"A.TXT", b"hello")]);
    data.truncate(60);
    assert_eq!(expect_err(PodArchive::from_file(data)), PodError::Truncated);
    assert_eq!(expect_err(PodArchive::from_file(vec![1, 0])), PodError::Truncated);
}

#[test]
fn unterminated_name_is_rejected() {
    let mut data = build_pod(&[(b"A.TXT", b"hello")]);
    // overwrite the 32-byte name field with bytes that carry no nul
    for i in 0..32 {
        data[4 + 0x50 + i] = b'A';
    }
    assert_eq!(expect_err(PodArchive::from_file(data)), PodError::BadHeader);
}

#[test]
fn declared_size_beyond_container_reads_short() {
    // the entry claims 100 bytes but the container ends after 5
    let mut data = build_pod(&[(b"A.TXT", b"hello")]);
    let size_field = 4 + 0x50 + 32;
    data[size_field..size_field + 4].copy_from_slice(&100u32.to_le_bytes());
    let archive = PodArchive::from_file(data).unwrap();
    let mut h = archive.open_file(b"A.TXT").unwrap();
    assert_eq!(h.size(), 100);
    let got = h.read(100);
    assert_eq!(got, b"hello".to_vec());
}

#[test]
fn cstr_buf_views_stop_at_the_terminator() {
    let buf = vec![b'H', b'I', 0, b'x', b'y'];
    let c = CStrBuf::new(buf);
    assert_eq!(c.as_bytes(), b"HI");
    assert_eq!(c.as_bytes_with_nul(), &[b'H', b'I', 0][..]);
}

#[test]
fn cstr_buf_reads_fixed_fields_from_a_stream() {
    let data = [b'N', b'A', b'M', b'E', 0, 9, 9, 9, 7];
    let mut h = FileHandle::from_bytes(&data);
    let c = CStrBuf::read_from_file(&mut h, 8).unwrap();
    assert_eq!(c.as_bytes(), b"NAME");
    // the cursor sits past the field
    assert_eq!(h.remaining(), 1);
    // a field with no terminator at all is refused
    let raw = [1u8, 2, 3, 4];
    let mut h2 = FileHandle::from_bytes(&raw);
    assert_eq!(expect_err(CStrBuf::read_from_file(&mut h2, 4)), PodError::BadHeader);
}

#[test]
fn empty_archive_has_no_members() {
    let data = build_pod(&[]);
    let archive = PodArchive::from_file(data).unwrap();
    assert_eq!(archive.len(), 0);
    assert_eq!(expect_err(archive.open_file(b"ANY")), PodError::NotFound);
    assert_eq!(expect_err(archive.open_dir_file(b"D", b"F")), PodError::NotFound);
}

#[test]
fn equal_keys_resolve_to_one_of_the_duplicates() {
    let members: [(&[u8], &[u8]); 2] = [(b"SAME.BIN", b"first"), (b"SAME.BIN", b"other")];
    let data = build_pod(&members);
    let archive = PodArchive::from_file(data).unwrap();
    let mut h = archive.open_file(b"SAME.BIN").unwrap();
    let got = h.read(16);
    assert!(got == b"first".to_vec() || got == b"other".to_vec());
}
