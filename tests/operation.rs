use payload_dumper::fragment::{Extent, FragmentError};
use payload_dumper::operation::{
    check_output, dump_operation, InstallOperation, OperationError, OperationType,
};

fn op(op_type: OperationType, data: Option<(u64, u64)>, dst: Vec<Extent>) -> InstallOperation {
    InstallOperation {
        op_type,
        data_offset: data.map(|d| d.0),
        data_length: data.map(|d| d.1),
        src_extents: Vec::new(),
        dst_extents: dst,
    }
}

fn two_extents() -> Vec<Extent> {
    vec![
        Extent { start_block: 2, num_blocks: 1 },
        Extent { start_block: 0, num_blocks: 1 },
    ]
}

#[test]
fn replace_copies_the_blob_through_the_extents() {
    let mut src = vec![0xee; 10];
    src.extend_from_slice(&[1, 2, 3, 4, 5, 6, 7, 8]);
    let mut dst = vec![9u8; 6];
    let o = op(OperationType::Replace, Some((3, 8)), two_extents());
    assert_eq!(dump_operation(&src, 7, &mut dst, &o, 4, None), Ok(()));
    assert_eq!(dst, vec![5, 6, 7, 8, 9, 9, 0, 0, 1, 2, 3, 4]);
}

#[test]
fn replace_with_wrong_size_is_a_capacity_mismatch() {
    let src = vec![1u8; 32];
    let mut dst = vec![7u8; 12];
    let o = op(OperationType::Replace, Some((0, 7)), two_extents());
    assert_eq!(dump_operation(&src, 0, &mut dst, &o, 4, None), Err(OperationError::CapacityMismatch));
    assert_eq!(dst, vec![7u8; 12]);
}

#[test]
fn zero_fills_the_destination_without_data() {
    let src: Vec<u8> = Vec::new();
    let mut dst = vec![5u8; 14];
    let o = op(OperationType::Zero, None, two_extents());
    assert_eq!(dump_operation(&src, 0, &mut dst, &o, 4, None), Ok(()));
    assert_eq!(dst, vec![0, 0, 0, 0, 5, 5, 5, 5, 0, 0, 0, 0, 5, 5]);
}

#[test]
fn discard_leaves_everything() {
    let mut dst = vec![5u8; 4];
    let o = op(OperationType::Discard, None, Vec::new());
    assert_eq!(dump_operation(&Vec::new(), 0, &mut dst, &o, 4, None), Ok(()));
    assert_eq!(dst, vec![5u8; 4]);
}

#[test]
fn diff_kinds_are_unsupported() {
    for t in [
        OperationType::Move,
        OperationType::SourceCopy,
        OperationType::Bsdiff,
        OperationType::SourceBsdiff,
        OperationType::BrotliBsdiff,
        OperationType::Puffdiff,
    ] {
        let mut dst = vec![1u8; 8];
        let o = op(t, Some((0, 4)), two_extents());
        assert_eq!(dump_operation(&vec![0; 8], 0, &mut dst, &o, 4, None), Err(OperationError::Unsupported));
        assert_eq!(dst, vec![1u8; 8]);
    }
}

#[test]
fn missing_pieces_are_reported() {
    let mut dst = vec![0u8; 12];
    let no_data = op(OperationType::Replace, None, two_extents());
    assert_eq!(dump_operation(&vec![0; 8], 0, &mut dst, &no_data, 4, None), Err(OperationError::MissingData));
    let zero_no_data = op(OperationType::Zero, None, two_extents());
    assert_eq!(dump_operation(&Vec::new(), 0, &mut dst, &zero_no_data, 4, None), Ok(()));
    let no_dst = op(OperationType::Zero, None, Vec::new());
    assert_eq!(dump_operation(&vec![0; 8], 0, &mut dst, &no_dst, 4, None), Err(OperationError::MissingDestination));
    let outside = op(OperationType::Replace, Some((4, 8)), two_extents());
    assert_eq!(dump_operation(&vec![0; 8], 0, &mut dst, &outside, 4, None), Err(OperationError::BlobOutOfRange));
    let huge = op(OperationType::Zero, None, vec![Extent { start_block: u64::MAX, num_blocks: 1 }]);
    assert_eq!(
        dump_operation(&Vec::new(), 0, &mut dst, &huge, 4, None),
        Err(OperationError::BadDestination(FragmentError::Overflow))
    );
}

#[test]
fn xz_blob_is_decompressed() {
    let plain: Vec<u8> = (0..8u8).map(|i| i * 3).collect();
    let mut packed = Vec::new();
    lzma_rs::xz_compress(&mut &plain[..], &mut packed).unwrap();
    let mut dst = vec![0u8; 12];
    let mut decoded = Vec::new();
    lzma_rs::xz_decompress(&mut &packed[..], &mut decoded).unwrap();
    let o = op(OperationType::ReplaceXz, Some((0, packed.len() as u64)), two_extents());
    assert_eq!(dump_operation(&packed, 0, &mut dst, &o, 4, Some(decoded)), Ok(()));
    assert_eq!(dst, vec![12, 15, 18, 21, 0, 0, 0, 0, 0, 3, 6, 9]);
}

#[test]
fn bzip2_blob_is_decompressed() {
    let plain: Vec<u8> = vec![10, 20, 30, 40, 50, 60, 70, 80];
    let mut packed = Vec::new();
    libribzip2::stream::encode_stream(&plain[..], &mut packed, 1, libribzip2::EncodingStrategy::Single);
    let mut dst = vec![0u8; 12];
    let mut decoded = Vec::new();
    libribzip2::stream::decode_stream(&packed[..], &mut decoded).unwrap();
    let o = op(OperationType::ReplaceBz, Some((0, packed.len() as u64)), two_extents());
    assert_eq!(dump_operation(&packed, 0, &mut dst, &o, 4, Some(decoded)), Ok(()));
    assert_eq!(dst, vec![50, 60, 70, 80, 0, 0, 0, 0, 10, 20, 30, 40]);
}

#[test]
fn failed_or_short_decoding_is_reported() {
    let junk = vec![1u8, 2, 3, 4, 5, 6, 7, 8];
    let mut dst = vec![0u8; 12];
    let bz = op(OperationType::ReplaceBz, Some((0, 8)), two_extents());
    assert_eq!(dump_operation(&junk, 0, &mut dst, &bz, 4, None), Err(OperationError::DecompressionFailure));
    let short = Some(vec![1u8, 2, 3]);
    assert_eq!(dump_operation(&junk, 0, &mut dst, &bz, 4, short), Err(OperationError::CapacityMismatch));
    let xz = op(OperationType::ReplaceXz, Some((0, 8)), two_extents());
    assert_eq!(dump_operation(&junk, 0, &mut dst, &xz, 4, None), Err(OperationError::DecompressionFailure));
    assert_eq!(dst, vec![0u8; 12]);
}

#[test]
fn decoded_output_is_held_to_capacity() {
    assert_eq!(check_output(None, 3), Err(OperationError::DecompressionFailure));
    assert_eq!(check_output(Some(vec![1, 2]), 3), Err(OperationError::CapacityMismatch));
    assert_eq!(check_output(Some(vec![1, 2, 3]), 3), Ok(vec![1, 2, 3]));
}
