use payload_dumper::container::{parse_header, parse_layout, payload_signature_range, ContainerError};

fn head(version: u64, manifest_size: u64, sig_size: Option<u32>) -> Vec<u8> {
    let mut v = b"CrAU".to_vec();
    v.extend_from_slice(&version.to_be_bytes());
    v.extend_from_slice(&manifest_size.to_be_bytes());
    if let Some(s) = sig_size {
        v.extend_from_slice(&s.to_be_bytes());
    }
    v
}

#[test]
fn version_one_has_no_signature_field() {
    let mut data = head(1, 3, None);
    data.extend_from_slice(&[1, 2, 3, 0xaa]);
    let h = parse_header(&data).unwrap();
    assert_eq!(h.file_format_version, 1);
    assert_eq!(h.manifest_size, 3);
    assert_eq!(h.metadata_signature_size, 0);
    let l = parse_layout(&data).unwrap();
    assert_eq!(l.manifest_offset, 20);
    assert!(l.metadata_signature_message.is_empty());
    assert_eq!(l.blobs_offset, 23);
}

#[test]
fn version_two_reads_the_signature() {
    let mut data = head(2, 2, Some(3));
    data.extend_from_slice(&[7, 7, 0x51, 0x52, 0x53, 0xee]);
    let h = parse_header(&data).unwrap();
    assert_eq!(h.metadata_signature_size, 3);
    let l = parse_layout(&data).unwrap();
    assert_eq!(l.manifest_offset, 24);
    assert_eq!(l.metadata_signature_message, vec![0x51, 0x52, 0x53]);
    assert_eq!(l.blobs_offset, 29);
}

#[test]
fn big_endian_fields() {
    let data = head(0x0102030405060708, 0x1000, Some(0x01020304));
    let h = parse_header(&data).unwrap();
    assert_eq!(h.file_format_version, 0x0102030405060708);
    assert_eq!(h.manifest_size, 4096);
    assert_eq!(h.metadata_signature_size, 0x01020304);
}

#[test]
fn bad_magic_and_truncation() {
    let mut data = head(2, 0, Some(0));
    data[0] = b'X';
    assert_eq!(parse_header(&data), Err(ContainerError::BadMagic));
    assert_eq!(parse_header(b"Cr"), Err(ContainerError::Truncated));
    assert_eq!(parse_header(&head(2, 0, None)), Err(ContainerError::Truncated));
    assert_eq!(parse_header(&head(1, 0, None)[..19]), Err(ContainerError::Truncated));
    let short = head(1, 10, None);
    assert_eq!(parse_layout(&short), Err(ContainerError::Truncated));
}

#[test]
fn payload_signature_needs_both_fields() {
    assert_eq!(payload_signature_range(100, Some(50), Some(8)), Ok(Some((150, 8))));
    assert_eq!(payload_signature_range(100, None, Some(8)), Ok(None));
    assert_eq!(payload_signature_range(100, Some(50), None), Ok(None));
    assert_eq!(payload_signature_range(u64::MAX, Some(1), Some(1)), Err(ContainerError::Overflow));
}
