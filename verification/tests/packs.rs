use minigit::errors::GitError;
use minigit::pack::{
    copy_size, parse_header, parse_pack_file, parse_patch_instruction, patch_delta,
    read_ofs_offset, PackedObjectType, PatchInstruction,
};
use sha1::Digest;
use std::io::Write;

#[test]
fn test_parse_object_header() {
    let data = &[0x9d, 0x0e];
    let (used, (object_type, object_size)) = parse_header(data).unwrap();
    assert!(used == data.len());
    assert_eq!(object_type, PackedObjectType::Commit);
    assert_eq!(object_size, 237);
}

#[test]
fn test_parse_copy_instruction() {
    let data = &[0x85, 0x12, 0xab];
    let (used, instruction) = parse_patch_instruction(data).unwrap();
    assert!(used == data.len());
    assert_eq!(
        instruction,
        PatchInstruction::Copy {
            offset: 11206674,
            size: 0,
        }
    );
}

#[test]
fn test_parse_add_instruction() {
    let data = &[0x02, 0x12, 0xab];
    let (used, instruction) = parse_patch_instruction(data).unwrap();
    assert!(used == data.len());
    assert_eq!(
        instruction,
        PatchInstruction::Add {
            data: vec![0x12, 0xab],
        }
    );
}

#[test]
fn test_copy_instruction_effective_size() {
    // Bit 0 of the mask sets offset byte 0, bit 2 sets offset byte 2;
    // the size bits are clear, so the copy spans 0x10000 bytes.
    let data = &[0x85, 0x12, 0xab];
    let (_, instruction) = parse_patch_instruction(data).unwrap();
    match instruction {
        PatchInstruction::Copy { offset, size } => {
            assert_eq!(offset, 0x00ab0012);
            assert_eq!(copy_size(size), 0x10000);
        }
        _ => panic!("expected a copy"),
    }
}

#[test]
fn test_header_size_exactly_four_bits() {
    let data = &[0x1f];
    let (used, (kind, size)) = parse_header(data).unwrap();
    assert_eq!(used, 1);
    assert_eq!(kind, PackedObjectType::Commit);
    assert_eq!(size, 15);
}

#[test]
fn test_header_rejects_bad_type() {
    assert_eq!(parse_header(&[0x0f]), Err(GitError::PackCorrupt));
    assert_eq!(parse_header(&[0x5f]), Err(GitError::PackCorrupt));
    assert_eq!(parse_header(&[]), Err(GitError::TruncatedVarint));
}

#[test]
fn test_ofs_offset_decoding() {
    assert_eq!(read_ofs_offset(&[0x05]).unwrap(), (1, 5));
    // Two bytes: ((0x81 & 0x7f) + 1) * 128 + 0x02 = 258.
    assert_eq!(read_ofs_offset(&[0x81, 0x02]).unwrap(), (2, 258));
    assert_eq!(read_ofs_offset(&[0x80]), Err(GitError::TruncatedVarint));
    assert_eq!(read_ofs_offset(&[0x80; 10]), Err(GitError::TruncatedVarint));
    let mut long = vec![0x80u8; 10];
    long.push(0x01);
    assert_eq!(read_ofs_offset(&long), Err(GitError::PackCorrupt));
}

#[test]
fn test_zero_length_insert_rejected() {
    assert_eq!(parse_patch_instruction(&[0x00]), Err(GitError::BadDelta));
}

#[test]
fn test_copy_with_empty_mask_copies_sixty_four_kib() {
    let base: Vec<u8> = (0..0x10000u32).map(|i| (i % 251) as u8).collect();
    let mut delta = vec![0x80, 0x80, 0x04]; // source length 0x10000
    delta.extend([0x80, 0x80, 0x04]); // target length 0x10000
    delta.push(0x80); // copy, empty mask
    let out = patch_delta(&delta, &base).unwrap();
    assert_eq!(out, base);
}

#[test]
fn test_patch_delta_round_trip() {
    let base = b"the quick brown fox";
    // source 19, target 9: copy 4 bytes from offset 4, insert "slow!".
    let delta = [
        0x13, 0x09, // lengths
        0x91, 0x04, 0x04, // copy offset 4, size 4
        0x05, b's', b'l', b'o', b'w', b'!', // insert
    ];
    let out = patch_delta(&delta, base).unwrap();
    assert_eq!(&out, b"quicslow!");
}

#[test]
fn test_patch_delta_errors() {
    let base = b"0123";
    // Declared source length disagrees with the base.
    assert_eq!(patch_delta(&[0x03, 0x01, 0x01, b'x'], base), Err(GitError::BadDelta));
    // Copy runs past the base.
    assert_eq!(
        patch_delta(&[0x04, 0x02, 0x91, 0x03, 0x02], base),
        Err(GitError::BadDelta)
    );
    // Target length mismatch.
    assert_eq!(
        patch_delta(&[0x04, 0x03, 0x91, 0x00, 0x02], base),
        Err(GitError::BadDelta)
    );
}

fn zlib(data: &[u8]) -> Vec<u8> {
    let mut enc = flate2::write::ZlibEncoder::new(Vec::new(), flate2::Compression::default());
    enc.write_all(data).unwrap();
    enc.finish().unwrap()
}

fn finish_pack(mut body: Vec<u8>) -> Vec<u8> {
    let digest = sha1::Sha1::digest(&body);
    body.extend(digest);
    body
}

fn pack_with_one_blob() -> Vec<u8> {
    let mut body = b"PACK".to_vec();
    body.extend([0, 0, 0, 2]); // version
    body.extend([0, 0, 0, 1]); // count
    body.push(0x36); // blob, size 6
    body.extend(zlib(b"hello\n"));
    finish_pack(body)
}

#[test]
fn test_parse_pack_single_blob() {
    let pack = pack_with_one_blob();
    let records = parse_pack_file(&pack).unwrap();
    assert_eq!(records.len(), 1);
    assert_eq!(records[0].start, 12);
    assert_eq!(records[0].kind, PackedObjectType::Blob);
    assert_eq!(records[0].payload, b"hello\n".to_vec());
    assert_eq!(
        records[0].id,
        b"ce013625030ba8dba906f756967f9e9ca394464a".to_vec()
    );
}

#[test]
fn test_parse_pack_ref_delta() {
    let mut body = b"PACK".to_vec();
    body.extend([0, 0, 0, 2]);
    body.extend([0, 0, 0, 2]);
    body.push(0x36);
    body.extend(zlib(b"hello\n"));
    // A reference delta that copies the whole base.
    let delta = [0x06, 0x06, 0x90, 0x06];
    body.push(0x74); // ref-delta, size 4
    body.extend(hex::decode("ce013625030ba8dba906f756967f9e9ca394464a").unwrap());
    body.extend(zlib(&delta));
    let pack = finish_pack(body);
    let records = parse_pack_file(&pack).unwrap();
    assert_eq!(records.len(), 2);
    assert_eq!(records[1].kind, PackedObjectType::Blob);
    assert_eq!(records[1].payload, b"hello\n".to_vec());
    assert_eq!(records[1].id, records[0].id);
}

#[test]
fn test_parse_pack_ofs_delta() {
    let mut body = b"PACK".to_vec();
    body.extend([0, 0, 0, 2]);
    body.extend([0, 0, 0, 2]);
    body.push(0x36);
    body.extend(zlib(b"hello\n"));
    let second_start = body.len();
    let delta = [0x06, 0x06, 0x90, 0x06];
    body.push(0x64); // ofs-delta, size 4
    let offset = second_start - 12;
    assert!(offset < 128);
    body.push(offset as u8);
    body.extend(zlib(&delta));
    let pack = finish_pack(body);
    let records = parse_pack_file(&pack).unwrap();
    assert_eq!(records.len(), 2);
    assert_eq!(records[1].payload, b"hello\n".to_vec());
    assert_eq!(records[1].id, records[0].id);
}

#[test]
fn test_pack_digest_mismatch_rejected() {
    let mut pack = pack_with_one_blob();
    let last = pack.len() - 1;
    pack[last] ^= 0xff;
    assert_eq!(parse_pack_file(&pack), Err(GitError::PackCorrupt));
}

#[test]
fn test_pack_bad_magic_and_version() {
    let pack = pack_with_one_blob();
    let mut bad_magic = pack.clone();
    bad_magic[0] = b'Q';
    assert_eq!(parse_pack_file(&bad_magic), Err(GitError::PackCorrupt));
    let mut body = b"PACK".to_vec();
    body.extend([0, 0, 0, 9]);
    body.extend([0, 0, 0, 0]);
    let bad_version = finish_pack(body);
    assert_eq!(parse_pack_file(&bad_version), Err(GitError::PackCorrupt));
}

#[test]
fn test_pack_unresolved_base_rejected() {
    let mut body = b"PACK".to_vec();
    body.extend([0, 0, 0, 2]);
    body.extend([0, 0, 0, 1]);
    let delta = [0x06, 0x06, 0x90, 0x06];
    body.push(0x74);
    body.extend([0u8; 20]);
    body.extend(zlib(&delta));
    let pack = finish_pack(body);
    assert_eq!(parse_pack_file(&pack), Err(GitError::PackCorrupt));
}
