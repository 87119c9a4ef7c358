use codesign::consts::{
    CSMAGIC_BLOBWRAPPER, CSMAGIC_CODEDIRECTORY, CSMAGIC_EMBEDDED_ENTITLEMENTS,
    CSMAGIC_EMBEDDED_SIGNATURE, CSMAGIC_REQUIREMENTS, CSSLOT_CMS_SIGNATURE, CSSLOT_CODEDIRECTORY,
    CSSLOT_ENTITLEMENTS, CSSLOT_REQUIREMENTS,
};
use codesign::{
    read_string_to_nul, Blob, BlobIndex, CDMachError, CodeDirectory, CodeSignature,
    SignatureOutcome, SuperBlob,
};

fn sha256_hex(data: &[u8]) -> String {
    hex::encode(ring::digest::digest(&ring::digest::SHA256, data))
}

fn sha1_hex(data: &[u8]) -> String {
    hex::encode(ring::digest::digest(&ring::digest::SHA1_FOR_LEGACY_USE_ONLY, data))
}

fn digest_bytes(hash_type: u8, data: &[u8]) -> Vec<u8> {
    match hash_type {
        1 => ring::digest::digest(&ring::digest::SHA1_FOR_LEGACY_USE_ONLY, data).as_ref().to_vec(),
        2 => ring::digest::digest(&ring::digest::SHA256, data).as_ref().to_vec(),
        _ => ring::digest::digest(&ring::digest::SHA256, data).as_ref()[..20].to_vec(),
    }
}

fn put32(v: &mut Vec<u8>, x: u32) {
    v.extend_from_slice(&x.to_be_bytes());
}

fn put64(v: &mut Vec<u8>, x: u64) {
    v.extend_from_slice(&x.to_be_bytes());
}

struct CdSpec {
    version: u32,
    hash_type: u8,
    hash_size: u8,
    page_size: u8,
    code_limit: u32,
    code_limit64: u64,
    ident: Vec<u8>,
    team: Option<Vec<u8>>,
    special: Vec<Vec<u8>>,
    code: Vec<Vec<u8>>,
}

fn cd_spec(version: u32) -> CdSpec {
    CdSpec {
        version,
        hash_type: 2,
        hash_size: 32,
        page_size: 0,
        code_limit: 0,
        code_limit64: 0,
        ident: b"x".to_vec(),
        team: None,
        special: vec![],
        code: vec![vec![0xab; 32]],
    }
}

fn header_size(version: u32) -> u32 {
    if version >= 0x20400 {
        88
    } else if version >= 0x20300 {
        64
    } else if version >= 0x20200 {
        52
    } else if version >= 0x20100 {
        48
    } else {
        44
    }
}

/// Lays out a CodeDirectory blob: header, identifier, team ID, then the hash array.
fn build_cd(s: &CdSpec) -> Vec<u8> {
    let header = header_size(s.version);
    let ident_offset = header;
    let mut strings = s.ident.clone();
    strings.push(0);
    let team_offset = match &s.team {
        Some(t) => {
            let off = header + strings.len() as u32;
            strings.extend_from_slice(t);
            strings.push(0);
            off
        }
        None => 0,
    };
    let hs = s.hash_size as u32;
    let hash_offset = header + strings.len() as u32 + hs * s.special.len() as u32;
    let length = hash_offset + hs * s.code.len() as u32;
    let mut v = vec![];
    put32(&mut v, CSMAGIC_CODEDIRECTORY);
    put32(&mut v, length);
    put32(&mut v, s.version);
    put32(&mut v, 0x2); // flags
    put32(&mut v, hash_offset);
    put32(&mut v, ident_offset);
    put32(&mut v, s.special.len() as u32);
    put32(&mut v, s.code.len() as u32);
    put32(&mut v, s.code_limit);
    v.push(s.hash_size);
    v.push(s.hash_type);
    v.push(0);
    v.push(s.page_size);
    put32(&mut v, 0);
    if s.version >= 0x20100 {
        put32(&mut v, 0);
    }
    if s.version >= 0x20200 {
        put32(&mut v, team_offset);
    }
    if s.version >= 0x20300 {
        put32(&mut v, 0);
        put64(&mut v, s.code_limit64);
    }
    if s.version >= 0x20400 {
        put64(&mut v, 0);
        put64(&mut v, 0x4000);
        put64(&mut v, 1);
    }
    assert_eq!(v.len() as u32, header);
    v.extend_from_slice(&strings);
    for h in s.special.iter().rev() {
        v.extend_from_slice(h);
    }
    for h in &s.code {
        v.extend_from_slice(h);
    }
    assert_eq!(v.len() as u32, length);
    v
}

/// An embedded signature envelope holding the blobs in order.
fn envelope(blobs: &[(u32, Vec<u8>)]) -> Vec<u8> {
    let header = 12 + 8 * blobs.len() as u32;
    let total: u32 = header + blobs.iter().map(|b| b.1.len() as u32).sum::<u32>();
    let mut v = vec![];
    put32(&mut v, CSMAGIC_EMBEDDED_SIGNATURE);
    put32(&mut v, total);
    put32(&mut v, blobs.len() as u32);
    let mut off = header;
    for (typ, b) in blobs {
        put32(&mut v, *typ);
        put32(&mut v, off);
        off += b.len() as u32;
    }
    for (_, b) in blobs {
        v.extend_from_slice(b);
    }
    v
}

fn embedded(r: Result<SignatureOutcome, CDMachError>) -> CodeSignature {
    match r {
        Ok(SignatureOutcome::Embedded(cs)) => cs,
        other => panic!("expected an embedded signature, got {:?}", other),
    }
}

fn wrapper(body: &[u8]) -> Vec<u8> {
    let mut v = vec![];
    put32(&mut v, CSMAGIC_BLOBWRAPPER);
    put32(&mut v, 8 + body.len() as u32);
    v.extend_from_slice(body);
    v
}

#[test]
fn test_code_directory() {
    let cd = CodeDirectory {
        ..Default::default()
    };
    assert_eq!(cd.magic, 0)
}

#[test]
fn scenario_one_code_directory() {
    let mut spec = cd_spec(0x20400);
    spec.team = Some(b"TEAM1".to_vec());
    let cd_bytes = build_cd(&spec);
    let buf = envelope(&[(CSSLOT_CODEDIRECTORY, cd_bytes.clone())]);
    let cs = embedded(CodeSignature::parse(0, buf.len() as u32, &buf));
    assert_eq!(cs.offset, 0);
    assert_eq!(cs.super_blob.count, 1);
    assert_eq!(cs.super_blob.index, vec![BlobIndex { typ: 0, offset: 20 }]);
    assert_eq!(cs.cd_blob_idx, Some(BlobIndex { typ: 0, offset: 20 }));
    assert_eq!(cs.signature_digest, sha256_hex(&buf));
    assert_eq!(cs.blobs.len(), 1);
    match &cs.blobs[0] {
        Blob::CodeDirectory {
            index,
            code_directory,
            identifier,
            team_id,
            hash_type,
            cd_hashes,
            computed_cd_hashes,
            cd_hash,
        } => {
            assert_eq!(*index, BlobIndex { typ: 0, offset: 20 });
            let code_directory = code_directory.as_ref().unwrap();
            assert_eq!(code_directory.version, 0x20400);
            assert_eq!(code_directory.nCodeSlots, 1);
            assert_eq!(code_directory.nSpecialSlots, 0);
            assert_eq!(code_directory.execSegLimit, 0x4000);
            assert_eq!(identifier.as_deref(), Ok("x"));
            assert_eq!(team_id.as_deref(), Ok("TEAM1"));
            assert_eq!(hash_type.as_deref(), Ok("SHA-256"));
            assert_eq!(*cd_hashes, Ok(vec![(0, "ab".repeat(32))]));
            // no paging: one slot over the empty code range
            assert_eq!(*computed_cd_hashes, Ok(vec![(0, sha256_hex(&[]))]));
            assert_eq!(*cd_hash, Ok(sha256_hex(&buf[20..20 + cd_bytes.len()])));
        }
        other => panic!("expected a CodeDirectory, got {:?}", other),
    }
}

#[test]
fn scenario_team_id_unsupported() {
    let cd_bytes = build_cd(&cd_spec(0x20100));
    let buf = envelope(&[(CSSLOT_CODEDIRECTORY, cd_bytes)]);
    let cs = embedded(CodeSignature::parse(0, buf.len() as u32, &buf));
    match &cs.blobs[0] {
        Blob::CodeDirectory { team_id, identifier, code_directory, .. } => {
            assert_eq!(*team_id, Err(CDMachError::TeamIDUnsupported(0x20100)));
            assert_eq!(identifier.as_deref(), Ok("x"));
            assert_eq!(code_directory.as_ref().unwrap().teamIDOffset, 0);
        }
        other => panic!("expected a CodeDirectory, got {:?}", other),
    }
}

#[test]
fn team_id_present() {
    let mut spec = cd_spec(0x20200);
    spec.ident = b"com.example.tool".to_vec();
    spec.team = Some(b"ABCDE12345".to_vec());
    let cd_bytes = build_cd(&spec);
    let cd = CodeDirectory::parse(&cd_bytes, 0).unwrap();
    assert_eq!(cd.identifier(&cd_bytes, 0), Ok("com.example.tool".to_string()));
    assert_eq!(cd.team_id(&cd_bytes, 0), Ok("ABCDE12345".to_string()));
}

#[test]
fn scenario_signed_data_only() {
    let w = wrapper(&[]);
    let buf = envelope(&[(CSSLOT_CMS_SIGNATURE, w.clone())]);
    let cs = embedded(CodeSignature::parse(0, buf.len() as u32, &buf));
    assert_eq!(cs.cd_blob_idx, None);
    assert_eq!(cs.blobs.len(), 1);
    match &cs.blobs[0] {
        Blob::SignedData { index, sha256_digest } => {
            assert_eq!(index.typ, CSSLOT_CMS_SIGNATURE);
            assert_eq!(w.len(), 8);
            assert_eq!(*sha256_digest, Ok(sha256_hex(&buf[20..28])));
        }
        other => panic!("expected SignedData, got {:?}", other),
    }
}

#[test]
fn scenario_unhandled_magic() {
    let buf = vec![0xde, 0xad, 0xbe, 0xef, 0, 0, 0, 12, 0, 0, 0, 0];
    match CodeSignature::parse(0, 12, &buf) {
        Ok(SignatureOutcome::Unhandled { magic }) => assert_eq!(magic, 0xdeadbeef),
        other => panic!("expected Unhandled, got {:?}", other),
    }
}

/// An image of `n` bytes followed by an envelope with one CodeDirectory whose
/// stored page hashes are those of the image.
fn signed_image(n: usize, page_size: u8, hash_type: u8) -> (Vec<u8>, u32) {
    let image: Vec<u8> = (0..n).map(|i| (i * 7 % 251) as u8).collect();
    let page = 1usize << page_size;
    let mut code = vec![];
    let mut start = 0;
    while start < n {
        let end = std::cmp::min(start + page, n);
        code.push(digest_bytes(hash_type, &image[start..end]));
        start = end;
    }
    let mut spec = cd_spec(0x20400);
    spec.page_size = page_size;
    spec.code_limit = n as u32;
    spec.hash_type = hash_type;
    spec.hash_size = code[0].len() as u8;
    spec.code = code;
    let env = envelope(&[(CSSLOT_CODEDIRECTORY, build_cd(&spec))]);
    let mut buf = image;
    buf.extend_from_slice(&env);
    (buf, n as u32)
}

#[test]
fn scenario_paged_hashes_match_stored() {
    let (buf, off) = signed_image(9000, 12, 2);
    let cs = embedded(CodeSignature::parse(off, 0, &buf));
    match &cs.blobs[0] {
        Blob::CodeDirectory { cd_hashes, computed_cd_hashes, code_directory, .. } => {
            assert_eq!(code_directory.as_ref().unwrap().nCodeSlots, 3);
            let computed = computed_cd_hashes.clone().unwrap();
            assert_eq!(
                computed,
                vec![
                    (0, sha256_hex(&buf[0..4096])),
                    (1, sha256_hex(&buf[4096..8192])),
                    (2, sha256_hex(&buf[8192..9000])),
                ]
            );
            assert_eq!(*cd_hashes, Ok(computed));
        }
        other => panic!("expected a CodeDirectory, got {:?}", other),
    }
}

#[test]
fn paged_hashes_sha1_and_truncated() {
    for hash_type in [1u8, 3u8] {
        let (buf, off) = signed_image(5000, 12, hash_type);
        let cs = embedded(CodeSignature::parse(off, 0, &buf));
        match &cs.blobs[0] {
            Blob::CodeDirectory { cd_hashes, computed_cd_hashes, hash_type: name, .. } => {
                let computed = computed_cd_hashes.clone().unwrap();
                assert_eq!(computed.len(), 2);
                assert_eq!(computed[0].1.len(), 40);
                assert_eq!(*cd_hashes, Ok(computed.clone()));
                if hash_type == 1 {
                    assert_eq!(computed[1].1, sha1_hex(&buf[4096..5000]));
                    assert_eq!(name.as_deref(), Ok("SHA-1"));
                } else {
                    assert_eq!(computed[1].1, sha256_hex(&buf[4096..5000])[..40].to_string());
                    assert_eq!(name.as_deref(), Ok("SHA-256-truncated"));
                }
            }
            other => panic!("expected a CodeDirectory, got {:?}", other),
        }
    }
}

#[test]
fn scenario_special_slot_layout() {
    let mut spec = cd_spec(0x20400);
    spec.hash_type = 1;
    spec.hash_size = 20;
    // special slot -k holds bytes of value k, except slot -3, which is zero-filled
    spec.special = (1..=5u8).map(|k| if k == 3 { vec![0; 20] } else { vec![k; 20] }).collect();
    spec.code = vec![vec![0xee; 20]];
    let cd_bytes = build_cd(&spec);
    let cd = CodeDirectory::parse(&cd_bytes, 0).unwrap();
    let h = cd.hashOffset as usize;
    assert_eq!(cd_bytes[h - 100..h - 80], [5u8; 20]);
    assert_eq!(cd_bytes[h - 20..h], [1u8; 20]);
    assert_eq!(cd_bytes[h..h + 20], [0xeeu8; 20]);
    let hashes = cd.cd_hashes(&cd_bytes, 0).unwrap();
    assert_eq!(
        hashes,
        vec![
            (-5, "05".repeat(20)),
            (-4, "04".repeat(20)),
            (-3, "00".repeat(20)),
            (-2, "02".repeat(20)),
            (-1, "01".repeat(20)),
            (0, "ee".repeat(20)),
        ]
    );
}

#[test]
fn zero_code_slot_is_reported_as_hex() {
    let mut spec = cd_spec(0x20400);
    spec.code = vec![vec![0; 32]];
    let cd_bytes = build_cd(&spec);
    let cd = CodeDirectory::parse(&cd_bytes, 0).unwrap();
    assert_eq!(cd.cd_hashes(&cd_bytes, 0), Ok(vec![(0, "00".repeat(32))]));
}

#[test]
fn empty_super_blob_index() {
    let buf = vec![0xfa, 0xde, 0x0c, 0xc0, 0, 0, 0, 12, 0, 0, 0, 0];
    let sb = SuperBlob::parse(&buf, 0).unwrap();
    assert_eq!(sb.count, 0);
    assert!(sb.index.is_empty());
    let cs = embedded(CodeSignature::parse(0, 12, &buf));
    assert!(cs.blobs.is_empty());
    assert_eq!(cs.cd_blob_idx, None);
}

#[test]
fn super_blob_fields() {
    let buf = envelope(&[(CSSLOT_REQUIREMENTS, vec![0; 12]), (CSSLOT_ENTITLEMENTS, vec![0; 8])]);
    let sb = SuperBlob::parse(&buf, 0).unwrap();
    assert_eq!(sb.magic, CSMAGIC_EMBEDDED_SIGNATURE);
    assert_eq!(sb.length, 48);
    assert_eq!(
        sb.index,
        vec![BlobIndex { typ: CSSLOT_REQUIREMENTS, offset: 28 }, BlobIndex {
            typ: CSSLOT_ENTITLEMENTS,
            offset: 40,
        }]
    );
}

#[test]
fn super_blob_truncated() {
    let buf = envelope(&[(CSSLOT_REQUIREMENTS, vec![])]);
    assert_eq!(SuperBlob::parse(&buf[..15], 0).unwrap_err(), CDMachError::Truncated);
    assert_eq!(SuperBlob::parse(&buf[..8], 0).unwrap_err(), CDMachError::Truncated);
    // index larger than the declared length
    let mut bad = buf.clone();
    bad[7] = 16;
    assert_eq!(SuperBlob::parse(&bad, 0).unwrap_err(), CDMachError::Truncated);
}

#[test]
fn blob_lengths_fit_envelope() {
    let mut req = vec![];
    put32(&mut req, CSMAGIC_REQUIREMENTS);
    put32(&mut req, 12);
    put32(&mut req, 0);
    let mut ent = vec![];
    put32(&mut ent, CSMAGIC_EMBEDDED_ENTITLEMENTS);
    put32(&mut ent, 10);
    ent.extend_from_slice(b"<>");
    let cd = build_cd(&cd_spec(0x20400));
    let buf = envelope(&[
        (CSSLOT_CODEDIRECTORY, cd),
        (CSSLOT_REQUIREMENTS, req),
        (CSSLOT_ENTITLEMENTS, ent.clone()),
    ]);
    let sb = SuperBlob::parse(&buf, 0).unwrap();
    let total: u32 = sb
        .index
        .iter()
        .map(|bi| {
            let o = bi.offset as usize;
            u32::from_be_bytes([buf[o + 4], buf[o + 5], buf[o + 6], buf[o + 7]])
        })
        .sum();
    assert!(total <= sb.length - (12 + 8 * sb.count));
    let cs = embedded(CodeSignature::parse(0, buf.len() as u32, &buf));
    assert!(matches!(cs.blobs[0], Blob::CodeDirectory { .. }));
    assert!(matches!(cs.blobs[1], Blob::Requirements { .. }));
    match &cs.blobs[2] {
        Blob::Entitlements { entitlements, .. } => assert_eq!(*entitlements, Ok(ent)),
        other => panic!("expected Entitlements, got {:?}", other),
    }
}

#[test]
fn unknown_and_malformed_blobs() {
    let mut other = vec![];
    put32(&mut other, 0xfade0c00);
    put32(&mut other, 8);
    let buf = envelope(&[(7, other)]);
    let mut buf2 = buf.clone();
    // point a second copy's entry past the end of the buffer
    buf2[16..20].copy_from_slice(&1000u32.to_be_bytes());
    let cs = embedded(CodeSignature::parse(0, 0, &buf));
    assert!(matches!(cs.blobs[0], Blob::Unknown { index: BlobIndex { typ: 7, offset: 20 } }));
    let cs2 = embedded(CodeSignature::parse(0, 0, &buf2));
    assert!(matches!(
        cs2.blobs[0],
        Blob::Malformed { error: CDMachError::Truncated, .. }
    ));
}

#[test]
fn cd_hash_covers_exact_length() {
    let cd_bytes = build_cd(&cd_spec(0x20400));
    let mut buf = cd_bytes.clone();
    buf.extend_from_slice(&[1, 2, 3, 4]);
    let cd = CodeDirectory::parse(&buf, 0).unwrap();
    assert_eq!(cd.compute_cd_hash(&buf, 0), Ok(sha256_hex(&cd_bytes)));
    assert_ne!(cd.compute_cd_hash(&buf, 0), Ok(sha256_hex(&buf)));
    assert_eq!(cd.compute_cd_hash(&buf[..cd_bytes.len() - 1], 0), Err(CDMachError::Truncated));
}

#[test]
fn reparse_gives_equal_report() {
    let (buf, off) = signed_image(5000, 12, 2);
    let first = format!("{:?}", CodeSignature::parse(off, 7, &buf));
    let copy = buf.clone();
    let second = format!("{:?}", CodeSignature::parse(off, 7, &copy));
    assert_eq!(first, second);
}

#[test]
fn slot_count_is_ceiling() {
    for (limit, slots) in [(8192u32, 2u32), (8193, 3), (1, 1)] {
        let mut spec = cd_spec(0x20400);
        spec.page_size = 12;
        spec.code_limit = limit;
        spec.code = vec![vec![0; 32]; slots as usize];
        let cd_bytes = build_cd(&spec);
        let cd = CodeDirectory::parse(&cd_bytes, 0).unwrap();
        let image = vec![9u8; 9000];
        let computed = cd.computed_cd_hashes(&image).unwrap();
        assert_eq!(computed.len() as u32, slots);
        let last = (slots - 1) as usize * 4096;
        assert_eq!(computed[slots as usize - 1].1, sha256_hex(&image[last..limit as usize]));
    }
}

#[test]
fn out_of_range_code_slot() {
    let mut spec = cd_spec(0x20400);
    spec.page_size = 12;
    spec.code_limit = 4096;
    spec.code = vec![vec![0; 32]; 2];
    let cd_bytes = build_cd(&spec);
    let cd = CodeDirectory::parse(&cd_bytes, 0).unwrap();
    assert_eq!(cd.computed_cd_hashes(&[0u8; 5000]), Err(CDMachError::HashGeometryMismatch));
}

#[test]
fn short_code_slots_extend_last() {
    let mut spec = cd_spec(0x20400);
    spec.page_size = 12;
    spec.code_limit = 9000;
    spec.code = vec![vec![0; 32]; 2];
    let cd_bytes = build_cd(&spec);
    let cd = CodeDirectory::parse(&cd_bytes, 0).unwrap();
    let image = vec![5u8; 9000];
    let computed = cd.computed_cd_hashes(&image).unwrap();
    assert_eq!(computed[1], (1, sha256_hex(&image[4096..9000])));
}

#[test]
fn unpaged_single_slot() {
    let mut spec = cd_spec(0x20400);
    spec.code_limit = 700;
    let cd_bytes = build_cd(&spec);
    let cd = CodeDirectory::parse(&cd_bytes, 0).unwrap();
    let image = vec![3u8; 1000];
    assert_eq!(cd.computed_cd_hashes(&image), Ok(vec![(0, sha256_hex(&image[..700]))]));
    spec.code = vec![vec![0; 32]; 2];
    let cd_bytes = build_cd(&spec);
    let cd = CodeDirectory::parse(&cd_bytes, 0).unwrap();
    assert_eq!(cd.computed_cd_hashes(&image), Err(CDMachError::HashGeometryMismatch));
}

#[test]
fn code_limit64_overrides() {
    let mut spec = cd_spec(0x20300);
    spec.code_limit = 100;
    spec.code_limit64 = 50;
    let cd_bytes = build_cd(&spec);
    let cd = CodeDirectory::parse(&cd_bytes, 0).unwrap();
    assert_eq!(cd.codeLimit64, 50);
    let image = vec![1u8; 200];
    assert_eq!(cd.computed_cd_hashes(&image), Ok(vec![(0, sha256_hex(&image[..50]))]));
    // before version 0x20300 the field is not read
    let mut old = cd_spec(0x20200);
    old.code_limit = 100;
    let cd_bytes = build_cd(&old);
    let cd = CodeDirectory::parse(&cd_bytes, 0).unwrap();
    assert_eq!(cd.codeLimit64, 0);
    assert_eq!(cd.computed_cd_hashes(&image), Ok(vec![(0, sha256_hex(&image[..100]))]));
}

#[test]
fn computed_hashes_truncated_image() {
    let mut spec = cd_spec(0x20400);
    spec.code_limit = 700;
    let cd = CodeDirectory::parse(&build_cd(&spec), 0).unwrap();
    assert_eq!(cd.computed_cd_hashes(&[0u8; 699]), Err(CDMachError::Truncated));
}

#[test]
fn unsupported_versions() {
    let mut bytes = build_cd(&cd_spec(0x20400));
    bytes[8..12].copy_from_slice(&0x20000u32.to_be_bytes());
    assert_eq!(CodeDirectory::parse(&bytes, 0), Err(CDMachError::UnsupportedVersion(0x20000)));
    bytes[8..12].copy_from_slice(&0x2F001u32.to_be_bytes());
    assert_eq!(CodeDirectory::parse(&bytes, 0), Err(CDMachError::UnsupportedVersion(0x2F001)));
    bytes[8..12].copy_from_slice(&0x2F000u32.to_be_bytes());
    assert!(CodeDirectory::parse(&bytes, 0).is_ok());
    let buf = envelope(&[(CSSLOT_CODEDIRECTORY, {
        let mut b = build_cd(&cd_spec(0x20400));
        b[8..12].copy_from_slice(&0x10000u32.to_be_bytes());
        b
    })]);
    let cs = embedded(CodeSignature::parse(0, 0, &buf));
    match &cs.blobs[0] {
        Blob::CodeDirectory { code_directory, identifier, cd_hash, .. } => {
            assert_eq!(*code_directory, Err(CDMachError::UnsupportedVersion(0x10000)));
            assert_eq!(*identifier, Err(CDMachError::UnsupportedVersion(0x10000)));
            assert_eq!(*cd_hash, Err(CDMachError::UnsupportedVersion(0x10000)));
        }
        other => panic!("expected a CodeDirectory, got {:?}", other),
    }
    assert_eq!(cs.cd_blob_idx, Some(BlobIndex { typ: 0, offset: 20 }));
}

#[test]
fn code_directory_header_truncated() {
    let bytes = build_cd(&cd_spec(0x20400));
    assert_eq!(CodeDirectory::parse(&bytes[..87], 0), Err(CDMachError::Truncated));
    assert_eq!(CodeDirectory::parse(&bytes[..11], 0), Err(CDMachError::Truncated));
    assert!(CodeDirectory::parse(&bytes[..88], 0).is_ok());
}

#[test]
fn hash_type_names() {
    let mut cd = CodeDirectory::default();
    cd.hashType = 1;
    assert_eq!(cd.hash_type_str(), Ok("SHA-1"));
    cd.hashType = 2;
    assert_eq!(cd.hash_type_str(), Ok("SHA-256"));
    cd.hashType = 3;
    assert_eq!(cd.hash_type_str(), Ok("SHA-256-truncated"));
    cd.hashType = 7;
    assert_eq!(cd.hash_type_str(), Err(CDMachError::UnsupportedHashType(7)));
}

#[test]
fn unsupported_hash_type() {
    let mut spec = cd_spec(0x20400);
    spec.hash_type = 7;
    let bytes = build_cd(&spec);
    let cd = CodeDirectory::parse(&bytes, 0).unwrap();
    assert_eq!(cd.compute_cd_hash(&bytes, 0), Err(CDMachError::UnsupportedHashType(7)));
    assert_eq!(cd.computed_cd_hashes(&bytes), Err(CDMachError::UnsupportedHashType(7)));
}

#[test]
fn stored_hash_geometry() {
    let bytes = build_cd(&cd_spec(0x20400));
    let mut cd = CodeDirectory::parse(&bytes, 0).unwrap();
    cd.nSpecialSlots = 100;
    assert_eq!(cd.cd_hashes(&bytes, 0), Err(CDMachError::HashGeometryMismatch));
    let mut cd = CodeDirectory::parse(&bytes, 0).unwrap();
    cd.nCodeSlots = 2;
    assert_eq!(cd.cd_hashes(&bytes, 0), Err(CDMachError::HashGeometryMismatch));
    let cd = CodeDirectory::parse(&bytes, 0).unwrap();
    assert_eq!(cd.cd_hashes(&bytes[..bytes.len() - 1], 0), Err(CDMachError::Truncated));
}

#[test]
fn invalid_utf8_identifier() {
    let mut spec = cd_spec(0x20400);
    spec.ident = vec![b'a', 0xff, b'b'];
    let bytes = build_cd(&spec);
    let cd = CodeDirectory::parse(&bytes, 0).unwrap();
    assert_eq!(cd.identifier(&bytes, 0), Err(CDMachError::InvalidUtf8));
}

#[test]
fn strings_to_nul() {
    let buf = b"\0abc\0h\xc3\xa9\0tail".to_vec();
    assert_eq!(read_string_to_nul(&buf, 0), Ok(String::new()));
    assert_eq!(read_string_to_nul(&buf, 1), Ok("abc".to_string()));
    assert_eq!(read_string_to_nul(&buf, 2), Ok("bc".to_string()));
    assert_eq!(read_string_to_nul(&buf, 5), Ok("h\u{e9}".to_string()));
    assert_eq!(read_string_to_nul(&buf, 9), Err(CDMachError::Truncated));
    assert_eq!(read_string_to_nul(&buf, 100), Err(CDMachError::Truncated));
}

#[test]
fn find_code_directory_entries() {
    let buf = envelope(&[(CSSLOT_REQUIREMENTS, vec![]), (CSSLOT_CODEDIRECTORY, vec![])]);
    let sb = SuperBlob::parse(&buf, 0).unwrap();
    assert_eq!(
        CodeSignature::find_code_directory(&sb),
        Ok(Some(BlobIndex { typ: CSSLOT_CODEDIRECTORY, offset: 28 }))
    );
    let buf = envelope(&[(CSSLOT_REQUIREMENTS, vec![])]);
    let sb = SuperBlob::parse(&buf, 0).unwrap();
    assert_eq!(CodeSignature::find_code_directory(&sb), Err(CDMachError::NoCodeDirectory));
    let mut other = sb.clone();
    other.magic = 0xfade0cc1;
    assert_eq!(CodeSignature::find_code_directory(&other), Err(CDMachError::BadMagic(0xfade0cc1)));
}

#[test]
fn envelope_truncated() {
    let buf = envelope(&[(CSSLOT_REQUIREMENTS, vec![0; 40])]);
    assert_eq!(CodeSignature::parse(0, 0, &buf[..30]).unwrap_err(), CDMachError::Truncated);
    assert_eq!(CodeSignature::parse(0, 0, &buf[..3]).unwrap_err(), CDMachError::Truncated);
}

#[test]
fn super_blob_from_envelope_copy() {
    let (buf, off) = signed_image(5000, 12, 2);
    let in_place = SuperBlob::parse(&buf, off as u64).unwrap();
    let copy = buf[off as usize..off as usize + in_place.length as usize].to_vec();
    let relocated = SuperBlob::parse(&copy, 0).unwrap();
    assert_eq!(format!("{:?}", relocated), format!("{:?}", in_place));
    let a = embedded(CodeSignature::parse(off, 0, &buf));
    let b = embedded(CodeSignature::parse(0, 0, &copy));
    assert_eq!(a.signature_digest, b.signature_digest);
    match (&a.blobs[0], &b.blobs[0]) {
        (
            Blob::CodeDirectory { code_directory: c1, identifier: i1, cd_hashes: h1, cd_hash: d1, .. },
            Blob::CodeDirectory { code_directory: c2, identifier: i2, cd_hashes: h2, cd_hash: d2, .. },
        ) => {
            assert_eq!(c1, c2);
            assert_eq!(i1, i2);
            assert_eq!(h1, h2);
            assert_eq!(d1, d2);
        }
        other => panic!("expected two CodeDirectories, got {:?}", other),
    }
}

#[test]
fn team_id_at_offset_zero_is_read() {
    // a zero offset points at the blob's own magic, which is not UTF-8
    let bytes = build_cd(&cd_spec(0x20400));
    let cd = CodeDirectory::parse(&bytes, 0).unwrap();
    assert_eq!(cd.teamIDOffset, 0);
    assert_eq!(cd.team_id(&bytes, 0), Err(CDMachError::InvalidUtf8));
}

#[test]
fn truncated_wrapper_and_entitlements_keep_their_kind() {
    let mut w = vec![];
    put32(&mut w, CSMAGIC_BLOBWRAPPER);
    put32(&mut w, 500);
    let mut ent = vec![];
    put32(&mut ent, CSMAGIC_EMBEDDED_ENTITLEMENTS);
    put32(&mut ent, 500);
    let buf = envelope(&[(CSSLOT_CMS_SIGNATURE, w), (CSSLOT_ENTITLEMENTS, ent)]);
    let cs = embedded(CodeSignature::parse(0, 0, &buf));
    match (&cs.blobs[0], &cs.blobs[1]) {
        (Blob::SignedData { sha256_digest, .. }, Blob::Entitlements { entitlements, .. }) => {
            assert_eq!(*sha256_digest, Err(CDMachError::Truncated));
            assert_eq!(*entitlements, Err(CDMachError::Truncated));
        }
        other => panic!("expected SignedData and Entitlements, got {:?}", other),
    }
}

#[test]
fn geometry_before_hash_type() {
    let mut spec = cd_spec(0x20400);
    spec.hash_type = 0;
    spec.code = vec![vec![0; 32]; 2];
    let bytes = build_cd(&spec);
    let cd = CodeDirectory::parse(&bytes, 0).unwrap();
    assert_eq!(cd.computed_cd_hashes(&bytes), Err(CDMachError::HashGeometryMismatch));
    let mut spec = cd_spec(0x20400);
    spec.hash_type = 0;
    spec.code_limit = 5000;
    let bytes = build_cd(&spec);
    let cd = CodeDirectory::parse(&bytes, 0).unwrap();
    assert_eq!(cd.computed_cd_hashes(&bytes), Err(CDMachError::Truncated));
}

#[test]
fn truncation_before_hash_type() {
    let mut spec = cd_spec(0x20400);
    spec.hash_type = 0;
    let bytes = build_cd(&spec);
    let cd = CodeDirectory::parse(&bytes, 0).unwrap();
    assert_eq!(cd.compute_cd_hash(&bytes[..bytes.len() - 1], 0), Err(CDMachError::Truncated));
    assert_eq!(cd.compute_cd_hash(&bytes, 0), Err(CDMachError::UnsupportedHashType(0)));
}

#[test]
fn find_code_directory_within_count() {
    let buf = envelope(&[(CSSLOT_REQUIREMENTS, vec![]), (CSSLOT_CODEDIRECTORY, vec![])]);
    let mut sb = SuperBlob::parse(&buf, 0).unwrap();
    sb.count = 1;
    assert_eq!(CodeSignature::find_code_directory(&sb), Err(CDMachError::NoCodeDirectory));
}
