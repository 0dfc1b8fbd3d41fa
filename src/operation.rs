use vstd::prelude::*;

use crate::fragment::{
    Extent, FragmentError, FragmentFile, Fragment, disjoint, extents_map, extents_to_fragments, max_end,
    phys_of, written, total, lemma_written_at,
};
use crate::section::SectionFile;

verus! {

/// The kinds of install operation that a manifest can hold.
#[derive(Debug, Clone, Copy, PartialEq, Eq)]
pub enum OperationType {
    Replace,
    ReplaceBz,
    Move,
    Bsdiff,
    SourceCopy,
    SourceBsdiff,
    Zero,
    Discard,
    ReplaceXz,
    Puffdiff,
    BrotliBsdiff,
}

/// One install operation: its kind, where its data blob lies relative to
/// the blob region, and the extents it reads and fills.
#[derive(Debug, Clone, PartialEq, Eq)]
pub struct InstallOperation {
    pub op_type: OperationType,
    pub data_offset: Option<u64>,
    pub data_length: Option<u64>,
    pub src_extents: Vec<Extent>,
    pub dst_extents: Vec<Extent>,
}

/// One partition image and the operations that build it, in order.
#[derive(Debug, Clone, PartialEq, Eq)]
pub struct PartitionUpdate {
    pub partition_name: String,
    pub new_partition_size: Option<u64>,
    pub operations: Vec<InstallOperation>,
}

/// The manifest fields that the dumper reads.
#[derive(Debug, Clone, PartialEq, Eq)]
pub struct Manifest {
    pub block_size: Option<u32>,
    pub partitions: Vec<PartitionUpdate>,
    pub signatures_offset: Option<u64>,
    pub signatures_size: Option<u64>,
}

/// Why an operation could not be carried out.
#[derive(Debug, Clone, Copy, PartialEq, Eq)]
pub enum OperationError {
    /// The operation declares no data blob, and its kind needs one.
    MissingData,
    /// The operation declares no destination extent.
    MissingDestination,
    /// The destination extents cannot be mapped.
    BadDestination(FragmentError),
    /// The data blob does not lie inside the input.
    BlobOutOfRange,
    /// The data blob is not a valid compressed stream.
    DecompressionFailure,
    /// The bytes produced differ in number from what the destination holds.
    CapacityMismatch,
    /// The operation kind is not implemented.
    Unsupported,
}

/// Kinds that are carried out; the rest are refused as unsupported.
pub open spec fn is_supported(t: OperationType) -> bool {
    t is Replace || t is ReplaceBz || t is ReplaceXz || t is Zero || t is Discard
}

/// Kinds that read a data blob.
pub open spec fn needs_data(t: OperationType) -> bool {
    t is Replace || t is ReplaceBz || t is ReplaceXz
}

/// What a destination of `capacity` bytes takes from a transform that
/// produced `out` (none where the transform failed).
pub open spec fn checked_output(out: Option<Seq<u8>>, capacity: nat) -> Result<Seq<u8>, OperationError> {
    match out {
        None => Err(OperationError::DecompressionFailure),
        Some(v) => if v.len() == capacity {
            Ok(v)
        } else {
            Err(OperationError::CapacityMismatch)
        },
    }
}

/// `n` zero bytes.
pub open spec fn zero_bytes(n: nat) -> Seq<u8> {
    Seq::new(n, |i: int| 0u8)
}

/// The bytes that an operation of kind `t` puts into a destination of
/// `capacity` bytes, from its data blob `blob`, or, for a compressed kind,
/// from what the decoder made of that blob (`decoded`, none where it failed).
pub open spec fn content_spec(t: OperationType, blob: Seq<u8>, decoded: Option<Seq<u8>>, capacity: nat) -> Result<Seq<u8>, OperationError> {
    match t {
        OperationType::Replace => checked_output(Some(blob), capacity),
        OperationType::ReplaceBz | OperationType::ReplaceXz => checked_output(decoded, capacity),
        _ => Ok(zero_bytes(capacity)),
    }
}

pub open spec fn view_of(o: Option<Vec<u8>>) -> Option<Seq<u8>> {
    match o {
        Some(v) => Some(v@),
        None => None,
    }
}

/// Holds the output of a transform to the destination's capacity.
pub fn check_output(out: Option<Vec<u8>>, capacity: u64) -> (r: Result<Vec<u8>, OperationError>)
    ensures
        r is Ok <==> checked_output(view_of(out), capacity as nat) is Ok,
        r matches Ok(v) ==> checked_output(view_of(out), capacity as nat) == Ok::<Seq<u8>, OperationError>(v@),
        r matches Err(e) ==> checked_output(view_of(out), capacity as nat) == Err::<Seq<u8>, OperationError>(e),
{
    match out {
        None => Err(OperationError::DecompressionFailure),
        Some(v) => if v.len() as u64 == capacity {
            Ok(v)
        } else {
            Err(OperationError::CapacityMismatch)
        },
    }
}

/// `n` zero bytes.
fn zeros(n: usize) -> (r: Vec<u8>)
    ensures
        r@ == zero_bytes(n as nat),
{
    let mut v: Vec<u8> = Vec::new();
    let mut i: usize = 0;
    while i < n
        invariant
            i <= n,
            v@ =~= Seq::new(i as nat, |k: int| 0u8),
        decreases n - i,
    {
        v.push(0u8);
        i = i + 1;
    }
    v
}

/// The bytes that a supported operation of kind `t`, other than a discard,
/// puts into a destination of `capacity` bytes, from its data blob or, for a
/// compressed kind, from the decoder's output.
pub fn operation_content(t: OperationType, blob: &[u8], decoded: Option<Vec<u8>>, capacity: u64) -> (r: Result<Vec<u8>, OperationError>)
    requires
        is_supported(t),
        !(t is Discard),
        capacity <= usize::MAX,
    ensures
        r is Ok <==> content_spec(t, blob@, view_of(decoded), capacity as nat) is Ok,
        r matches Ok(v) ==> content_spec(t, blob@, view_of(decoded), capacity as nat) == Ok::<Seq<u8>, OperationError>(v@),
        r matches Err(e) ==> content_spec(t, blob@, view_of(decoded), capacity as nat) == Err::<Seq<u8>, OperationError>(e),
{
    match t {
        OperationType::Replace => {
            let mut v: Vec<u8> = Vec::new();
            let mut i: usize = 0;
            while i < blob.len()
                invariant
                    i <= blob@.len(),
                    v@ =~= blob@.take(i as int),
                decreases blob@.len() - i,
            {
                v.push(blob[i]);
                i = i + 1;
            }
            proof {
                assert(blob@.take(blob@.len() as int) =~= blob@);
            }
            check_output(Some(v), capacity)
        },
        OperationType::ReplaceBz | OperationType::ReplaceXz => check_output(decoded, capacity),
        _ => Ok(zeros(capacity as usize)),
    }
}

/// The destination of an operation: its extents, scaled by `block_size`,
/// mapped onto one logical space.
pub fn destination(operation: &InstallOperation, block_size: u64) -> (r: Result<FragmentFile, OperationError>)
    ensures
        operation.dst_extents@.len() == 0 ==> r == Err::<FragmentFile, OperationError>(OperationError::MissingDestination),
        operation.dst_extents@.len() > 0 && r is Err ==> r matches Err(OperationError::BadDestination(_)),
        r matches Ok(f) ==> f.wf() && f.pos_view() == 0 && f.frags() == extents_to_fragments(operation.dst_extents@, block_size),
        operation.dst_extents@.len() > 0 ==> (r is Ok <==> extents_map(operation.dst_extents@, block_size)),
{
    if operation.dst_extents.len() == 0 {
        return Err(OperationError::MissingDestination);
    }
    match FragmentFile::new_from_extents(operation.dst_extents.as_slice(), block_size) {
        Ok(f) => {
            assert(f.frags() =~= extents_to_fragments(operation.dst_extents@, block_size));
            Ok(f)
        },
        Err(e) => Err(OperationError::BadDestination(e)),
    }
}

/// Where the data blob of an operation lies in the input.
pub open spec fn blob_range(operation: InstallOperation, blobs_offset: nat) -> Option<(nat, nat)> {
    match (operation.data_offset, operation.data_length) {
        (Some(o), Some(n)) => Some(((blobs_offset + o) as nat, n as nat)),
        _ => None,
    }
}

/// The data blob of an operation, read from the input `src`.
pub fn read_blob(src: &Vec<u8>, blobs_offset: u64, operation: &InstallOperation) -> (r: Result<Vec<u8>, OperationError>)
    ensures
        blob_range(*operation, blobs_offset as nat) is None ==> r == Err::<Vec<u8>, OperationError>(OperationError::MissingData),
        blob_range(*operation, blobs_offset as nat) matches Some((o, n)) ==> {
            &&& (o + n > src@.len() <==> r == Err::<Vec<u8>, OperationError>(OperationError::BlobOutOfRange))
            &&& (o + n <= src@.len() ==> (r matches Ok(v) && v@ == src@.subrange(o as int, (o + n) as int)))
        },
{
    let (offset, length) = match (operation.data_offset, operation.data_length) {
        (Some(o), Some(n)) => (o, n),
        _ => return Err(OperationError::MissingData),
    };
    let slen = src.len();
    if offset > u64::MAX - blobs_offset {
        assert(slen <= u64::MAX);
        return Err(OperationError::BlobOutOfRange);
    }
    let mut section = match SectionFile::new(blobs_offset + offset, length) {
        Some(s) => s,
        None => {
            assert(slen <= u64::MAX);
            return Err(OperationError::BlobOutOfRange);
        },
    };
    if blobs_offset + offset + length > src.len() as u64 {
        return Err(OperationError::BlobOutOfRange);
    }
    assert(length <= src@.len());
    let mut buf = zeros(length as usize);
    let n = section.read(src, &mut buf);
    assert(buf@ =~= src@.subrange((blobs_offset + offset) as int, blobs_offset + offset + length));
    Ok(buf)
}

/// `b`, lengthened with zero bytes up to `len` where it is shorter, as a
/// file grows when written past its end.
pub open spec fn grown(b: Seq<u8>, len: nat) -> Seq<u8> {
    if b.len() >= len {
        b
    } else {
        b + Seq::new((len - b.len()) as nat, |i: int| 0u8)
    }
}

fn grow(dst: &mut Vec<u8>, len: u64)
    ensures
        final(dst)@ == grown(old(dst)@, len as nat),
{
    let ghost b0 = dst@;
    while (dst.len() as u64) < len
        invariant
            b0.len() <= dst@.len(),
            dst@.len() <= len || dst@ == b0,
            dst@ =~= b0 + Seq::new((dst@.len() - b0.len()) as nat, |i: int| 0u8),
        decreases len - dst@.len(),
    {
        dst.push(0u8);
    }
    proof {
        if b0.len() >= len {
            assert(dst@ =~= b0);
        }
    }
}

/// The destination after a supported operation, other than a discard, put
/// `content` through its fragments.
pub open spec fn filled(dst: Seq<u8>, frags: Seq<Fragment>, content: Seq<u8>) -> Seq<u8> {
    written(grown(dst, max_end(frags)), frags, 0, content)
}

/// Carries out one install operation: reads its data blob from `src` at
/// `src_blobs_offset + data_offset`, transforms it, and writes the result
/// through the operation's destination extents into `dst`, which grows
/// where an extent lies past its end. For a bzip2 or xz operation,
/// `decoded` is what the decoder made of that blob (none where it failed);
/// other kinds do not read it.
pub fn dump_operation(
    src: &Vec<u8>,
    src_blobs_offset: u64,
    dst: &mut Vec<u8>,
    operation: &InstallOperation,
    block_size: u64,
    decoded: Option<Vec<u8>>,
) -> (r: Result<(), OperationError>)
    ensures
        !is_supported(operation.op_type) ==> r == Err::<(), OperationError>(OperationError::Unsupported)
            && final(dst)@ == old(dst)@,
        operation.op_type is Discard ==> r is Ok && final(dst)@ == old(dst)@,
        is_supported(operation.op_type) && !(operation.op_type is Discard) ==> {
            let frags = extents_to_fragments(operation.dst_extents@, block_size);
            let range = blob_range(*operation, src_blobs_offset as nat);
            &&& (operation.dst_extents@.len() == 0 ==> r == Err::<(), OperationError>(OperationError::MissingDestination))
            &&& (operation.dst_extents@.len() > 0 && !extents_map(operation.dst_extents@, block_size)
                ==> r matches Err(OperationError::BadDestination(_)))
            &&& (extents_map(operation.dst_extents@, block_size) && needs_data(operation.op_type) ==> {
                &&& (range is None ==> r == Err::<(), OperationError>(OperationError::MissingData))
                &&& (range matches Some((o, n)) && o + n > src@.len() ==> r == Err::<(), OperationError>(OperationError::BlobOutOfRange))
            })
            &&& (extents_map(operation.dst_extents@, block_size) && total(frags) > usize::MAX
                && (needs_data(operation.op_type) ==> (range matches Some((o, n)) && o + n <= src@.len()))
                ==> r == Err::<(), OperationError>(OperationError::CapacityMismatch))
            &&& (extents_map(operation.dst_extents@, block_size) && total(frags) <= usize::MAX
                && (needs_data(operation.op_type) ==> (range matches Some((o, n)) && o + n <= src@.len())) ==> {
                let blob = match range {
                    Some((o, n)) => src@.subrange(o as int, (o + n) as int),
                    None => Seq::empty(),
                };
                let content = content_spec(operation.op_type, blob, view_of(decoded), total(frags));
                &&& (r is Ok <==> content is Ok)
                &&& (content matches Err(e) ==> r == Err::<(), OperationError>(e))
                &&& (content matches Ok(c) ==> final(dst)@ == filled(old(dst)@, frags, c))
            })
            &&& (r is Err ==> final(dst)@ == old(dst)@)
        },
{
    let t = operation.op_type;
    match t {
        OperationType::Replace | OperationType::ReplaceBz | OperationType::ReplaceXz
        | OperationType::Zero => {},
        OperationType::Discard => return Ok(()),
        _ => return Err(OperationError::Unsupported),
    }
    let mut ff = match destination(operation, block_size) {
        Ok(f) => f,
        Err(e) => return Err(e),
    };
    let capacity = ff.size();
    let blob: Vec<u8> = match t {
        OperationType::Zero => Vec::new(),
        _ => match read_blob(src, src_blobs_offset, operation) {
            Ok(b) => b,
            Err(e) => return Err(e),
        },
    };
    if capacity > usize::MAX as u64 {
        return Err(OperationError::CapacityMismatch);
    }
    let content = match operation_content(t, blob.as_slice(), decoded, capacity) {
        Ok(c) => c,
        Err(e) => return Err(e),
    };
    let end = ff.max_end();
    grow(dst, end);
    let n = ff.write(dst, content.as_slice());
    proof {
        assert(content@.take(n as int) =~= content@);
    }
    Ok(())
}

/// A replace into a destination of `n` bytes succeeds exactly when the blob
/// holds `n` bytes, and is a capacity mismatch otherwise. Where the
/// destination's fragments do not overlap, each logical position of the
/// destination then holds the blob byte at that position.
pub proof fn lemma_replace_copies_blob(dst: Seq<u8>, frags: Seq<Fragment>, blob: Seq<u8>, decoded: Option<Seq<u8>>)
    ensures
        blob.len() == total(frags) ==> content_spec(OperationType::Replace, blob, decoded, total(frags))
            == Ok::<Seq<u8>, OperationError>(blob),
        blob.len() != total(frags) ==> content_spec(OperationType::Replace, blob, decoded, total(frags))
            == Err::<Seq<u8>, OperationError>(OperationError::CapacityMismatch),
        blob.len() == total(frags) && disjoint(frags) ==> forall|k: int|
            0 <= k < total(frags) ==> #[trigger] filled(dst, frags, blob)[phys_of(frags, k)]
                == blob[k],
{
    if blob.len() == total(frags) && disjoint(frags) {
        let b = grown(dst, max_end(frags));
        assert forall|k: int| 0 <= k < total(frags) implies #[trigger] filled(dst, frags, blob)[phys_of(frags, k)] == blob[k] by {
            assert forall|j: int| k < j < blob.len() implies #[trigger] phys_of(frags, j) != phys_of(frags, k) || blob[j] == blob[k] by {
                crate::fragment::lemma_phys_injective(frags, j, k);
            }
            lemma_written_at(b, frags, blob, k);
        }
    }
}

/// A zero operation needs no blob and leaves every logical position of its
/// destination holding a zero byte, whether or not the fragments overlap.
pub proof fn lemma_zero_fills(dst: Seq<u8>, frags: Seq<Fragment>, blob: Seq<u8>, decoded: Option<Seq<u8>>)
    ensures
        content_spec(OperationType::Zero, blob, decoded, total(frags)) == Ok::<Seq<u8>, OperationError>(
            zero_bytes(total(frags)),
        ),
        forall|k: int|
            0 <= k < total(frags) ==> #[trigger] filled(dst, frags, zero_bytes(total(frags)))[phys_of(frags, k)] == 0u8,
{
    let z = zero_bytes(total(frags));
    let b = grown(dst, max_end(frags));
    assert forall|k: int| 0 <= k < total(frags) implies #[trigger] filled(dst, frags, z)[phys_of(frags, k)] == 0u8 by {
        lemma_written_at(b, frags, z, k);
    }
}

} // verus!
