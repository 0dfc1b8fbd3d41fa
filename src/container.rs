use vstd::prelude::*;

use crate::operation::Manifest;

verus! {

/// Why the head of a payload container cannot be parsed.
#[derive(Debug, Clone, Copy, PartialEq, Eq)]
pub enum ContainerError {
    /// The first four bytes are not `CrAU`.
    BadMagic,
    /// The bytes end before a field that the header declares.
    Truncated,
    /// An offset computed from the header does not fit in 64 bits.
    Overflow,
}

/// The fixed fields at the start of a payload container.
#[derive(Debug, Clone, Copy, PartialEq, Eq)]
pub struct PayloadHeader {
    pub file_format_version: u64,
    pub manifest_size: u64,
    /// Zero where the format version is below 2: the field is absent there.
    pub metadata_signature_size: u32,
}

/// The container's metadata: header, where the manifest lies, the metadata
/// signature, and where the blob region begins.
#[derive(Debug, Clone, PartialEq, Eq)]
pub struct ContainerLayout {
    pub header: PayloadHeader,
    pub manifest_offset: u64,
    pub metadata_signature_message: Vec<u8>,
    pub blobs_offset: u64,
}

/// A parsed payload container.
#[derive(Debug, Clone)]
pub struct DeltaUpdateFile {
    pub file_format_version: u64,
    pub manifest_size: u64,
    pub metadata_signature_size: u32,
    pub manifest: Manifest,
    pub metadata_signature_message: Vec<u8>,
    pub blobs_offset: u64,
    pub payload_signatures_message_data: Vec<u8>,
}

/// Big-endian value of a byte sequence.
pub open spec fn be_value(s: Seq<u8>) -> nat
    decreases s.len(),
{
    if s.len() == 0 {
        0
    } else {
        (be_value(s.drop_last()) * 256 + s.last()) as nat
    }
}

pub open spec fn pow256(n: nat) -> nat
    decreases n,
{
    if n == 0 {
        1
    } else {
        256 * pow256((n - 1) as nat)
    }
}

pub open spec fn has_magic(s: Seq<u8>) -> bool {
    s.len() >= 4 && s[0] == 0x43u8 && s[1] == 0x72u8 && s[2] == 0x41u8 && s[3] == 0x55u8
}

/// Length of the fixed header for a format version.
pub open spec fn header_len(version: nat) -> nat {
    if version >= 2 {
        24
    } else {
        20
    }
}

/// The header that the bytes `s` begin with, where they hold one.
pub open spec fn header_of(s: Seq<u8>) -> Result<PayloadHeader, ContainerError> {
    if s.len() < 4 {
        Err(ContainerError::Truncated)
    } else if !has_magic(s) {
        Err(ContainerError::BadMagic)
    } else if s.len() < 20 {
        Err(ContainerError::Truncated)
    } else {
        let version = be_value(s.subrange(4, 12));
        let msize = be_value(s.subrange(12, 20));
        if version >= 2 && s.len() < 24 {
            Err(ContainerError::Truncated)
        } else {
            Ok(
                PayloadHeader {
                    file_format_version: version as u64,
                    manifest_size: msize as u64,
                    metadata_signature_size: if version >= 2 {
                        be_value(s.subrange(20, 24)) as u32
                    } else {
                        0
                    },
                },
            )
        }
    }
}

proof fn lemma_be_step(s: Seq<u8>, n: nat, b: u8)
    requires
        be_value(s) < pow256(n),
    ensures
        be_value(s) * 256 + b < pow256(n + 1),
{
    let v = be_value(s);
    let p = pow256(n);
    assert(v * 256 + b < 256 * p) by (nonlinear_arith)
        requires
            v < p,
            b < 256,
    ;
}

proof fn lemma_pow256_mono(a: nat, b: nat)
    requires
        a <= b,
    ensures
        pow256(a) <= pow256(b),
    decreases b - a,
{
    if a < b {
        lemma_pow256_mono(a, (b - 1) as nat);
    }
}

proof fn lemma_be_bounded(s: Seq<u8>)
    ensures
        be_value(s) < pow256(s.len()),
    decreases s.len(),
{
    if s.len() > 0 {
        lemma_be_bounded(s.drop_last());
        lemma_be_step(s.drop_last(), s.drop_last().len(), s.last());
    }
}

/// The big-endian value of `data[at..at + n]`.
fn read_be(data: &[u8], at: usize, n: usize) -> (r: u64)
    requires
        n <= 8,
        at + n <= data@.len(),
    ensures
        r == be_value(data@.subrange(at as int, at + n)),
{
    let dlen = data.len();
    let mut acc: u64 = 0;
    let mut i: usize = 0;
    proof {
        assert(data@.subrange(at as int, at as int) =~= Seq::<u8>::empty());
        reveal_with_fuel(pow256, 9);
    }
    while i < n
        invariant
            i <= n <= 8,
            dlen == data@.len(),
            at + n <= dlen,
            acc == be_value(data@.subrange(at as int, at + i)),
            acc < pow256(i as nat),
            pow256(8) == 0x1_0000_0000_0000_0000,
        decreases n - i,
    {
        proof {
            let s = data@.subrange(at as int, at + i + 1);
            assert(s.drop_last() =~= data@.subrange(at as int, at + i));
            lemma_be_step(data@.subrange(at as int, at + i), i as nat, data@[at + i]);
            lemma_pow256_mono((i + 1) as nat, 8);
        }
        acc = acc * 256 + data[at + i] as u64;
        i = i + 1;
    }
    acc
}

/// Reads the fixed header at the start of `data`.
pub fn parse_header(data: &[u8]) -> (r: Result<PayloadHeader, ContainerError>)
    ensures
        r == header_of(data@),
{
    if data.len() < 4 {
        return Err(ContainerError::Truncated);
    }
    if !(data[0] == 0x43u8 && data[1] == 0x72u8 && data[2] == 0x41u8 && data[3] == 0x55u8) {
        return Err(ContainerError::BadMagic);
    }
    if data.len() < 20 {
        return Err(ContainerError::Truncated);
    }
    let version = read_be(data, 4, 8);
    let msize = read_be(data, 12, 8);
    if version >= 2 && data.len() < 24 {
        return Err(ContainerError::Truncated);
    }
    let sig_size: u32 = if version >= 2 {
        let v = read_be(data, 20, 4);
        proof {
            lemma_be_bounded(data@.subrange(20, 24));
            reveal_with_fuel(pow256, 5);
        }
        v as u32
    } else {
        0
    };
    Ok(PayloadHeader { file_format_version: version, manifest_size: msize, metadata_signature_size: sig_size })
}

/// The layout of the metadata that `data` begins with: the header, then
/// `manifest_size` bytes of manifest, then `metadata_signature_size` bytes of
/// signature, after which the blob region begins.
pub open spec fn layout_ok(data: Seq<u8>, h: PayloadHeader, l: ContainerLayout) -> bool {
    let hl = header_len(h.file_format_version as nat);
    &&& l.header == h
    &&& l.manifest_offset == hl
    &&& l.blobs_offset == hl + h.manifest_size + h.metadata_signature_size
    &&& l.metadata_signature_message@ == data.subrange(
        hl + h.manifest_size,
        hl + h.manifest_size + h.metadata_signature_size,
    )
}

/// Parses the header and places the manifest, the metadata signature and
/// the blob region. `data` is the container's head, at least up to the blob
/// region.
pub fn parse_layout(data: &[u8]) -> (r: Result<ContainerLayout, ContainerError>)
    ensures
        header_of(data@) matches Err(e) ==> r == Err::<ContainerLayout, ContainerError>(e),
        header_of(data@) matches Ok(h) ==> {
            let end = header_len(h.file_format_version as nat) + h.manifest_size
                + h.metadata_signature_size;
            &&& (end > data@.len() <==> r == Err::<ContainerLayout, ContainerError>(ContainerError::Truncated))
            &&& (r matches Ok(l) ==> layout_ok(data@, h, l))
            &&& (end <= data@.len() ==> r is Ok)
        },
{
    let h = match parse_header(data) {
        Ok(h) => h,
        Err(e) => return Err(e),
    };
    let hl: u64 = if h.file_format_version >= 2 {
        24
    } else {
        20
    };
    if h.manifest_size > (data.len() as u64) || hl > (data.len() as u64) - h.manifest_size {
        return Err(ContainerError::Truncated);
    }
    let sig_start: u64 = hl + h.manifest_size;
    if (h.metadata_signature_size as u64) > (data.len() as u64) - sig_start {
        return Err(ContainerError::Truncated);
    }
    let sig_end: u64 = sig_start + h.metadata_signature_size as u64;
    let mut sig: Vec<u8> = Vec::new();
    let mut i: usize = sig_start as usize;
    while i < sig_end as usize
        invariant
            sig_start <= i <= sig_end <= data@.len(),
            sig@ =~= data@.subrange(sig_start as int, i as int),
        decreases sig_end - i,
    {
        sig.push(data[i]);
        i = i + 1;
    }
    Ok(ContainerLayout { header: h, manifest_offset: hl, metadata_signature_message: sig, blobs_offset: sig_end })
}

/// Where the payload signature lies, given the blob region's start and the
/// manifest's signature fields: present only where both fields are.
pub fn payload_signature_range(
    blobs_offset: u64,
    signatures_offset: Option<u64>,
    signatures_size: Option<u64>,
) -> (r: Result<Option<(u64, u64)>, ContainerError>)
    ensures
        (signatures_offset is None || signatures_size is None) ==> r == Ok::<Option<(u64, u64)>, ContainerError>(None),
        signatures_offset matches Some(o) ==> signatures_size matches Some(n) ==> {
            &&& (blobs_offset + o + n > u64::MAX <==> r == Err::<Option<(u64, u64)>, ContainerError>(ContainerError::Overflow))
            &&& (blobs_offset + o + n <= u64::MAX ==> r == Ok::<Option<(u64, u64)>, ContainerError>(Some(((blobs_offset + o) as u64, n))))
        },
{
    match (signatures_offset, signatures_size) {
        (Some(o), Some(n)) => {
            if o > u64::MAX - blobs_offset || n > u64::MAX - (blobs_offset + o) {
                Err(ContainerError::Overflow)
            } else {
                Ok(Some((blobs_offset + o, n)))
            }
        },
        _ => Ok(None),
    }
}

impl DeltaUpdateFile {
    /// Puts a container together from its parsed metadata, its decoded
    /// manifest and its payload signature.
    pub fn from_parts(
        layout: ContainerLayout,
        manifest: Manifest,
        payload_signatures_message_data: Vec<u8>,
    ) -> (r: DeltaUpdateFile)
        ensures
            r.file_format_version == layout.header.file_format_version,
            r.manifest_size == layout.header.manifest_size,
            r.metadata_signature_size == layout.header.metadata_signature_size,
            r.manifest == manifest,
            r.metadata_signature_message == layout.metadata_signature_message,
            r.blobs_offset == layout.blobs_offset,
            r.payload_signatures_message_data == payload_signatures_message_data,
    {
        DeltaUpdateFile {
            file_format_version: layout.header.file_format_version,
            manifest_size: layout.header.manifest_size,
            metadata_signature_size: layout.header.metadata_signature_size,
            manifest,
            metadata_signature_message: layout.metadata_signature_message,
            blobs_offset: layout.blobs_offset,
            payload_signatures_message_data,
        }
    }
}

} // verus!
