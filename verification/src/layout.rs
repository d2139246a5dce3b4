//! Fixed on-disk header and packed index-entry encoding.

use vstd::prelude::*;

use crate::util;

verus! {

/// Magic number identifying the container format.
pub const CISO_MAGIC: u32 = 0x4F534943;

/// Size in bytes of the serialized container header.
pub const HEADER_SIZE: u32 = 24;

/// The fixed 24-byte container header, stored little-endian with no padding.
#[derive(Clone, Copy, Debug, PartialEq, Eq, Structural)]
pub struct CSOHeader {
    pub magic: u32,
    pub header_size: u32,
    pub uncompressed_size: u64,
    pub block_size: u32,
    pub version: u8,
    pub alignment: u8,
    pub reserved0: u8,
    pub reserved1: u8,
}

/// Failures while opening or reading a container.  `Other` wraps the error
/// type of the underlying byte source or sink.
#[derive(Clone, Debug)]
pub enum Error<E> {
    /// The header's version byte is not the supported version 2.
    UnsupportedVersion,
    /// The header's magic or declared header size does not match.
    InvalidHeader,
    /// The index table or a stored block is inconsistent with the header.
    CorruptBlock,
    /// An error of the underlying reader or writer.
    Other(E),
}

/// One entry of the sector index: a 31-bit aligned position and a 1-bit
/// compression flag, packed into a single 32-bit word (flag in the high bit).
#[derive(Clone, Copy, Debug, PartialEq, Eq, Structural)]
pub struct IndexTableEntry {
    /// The stored block's start offset, right-shifted by the header's
    /// alignment.  Must fit in 31 bits.
    pub position: u32,
    /// True if the block is stored as a compressed frame body, false if raw.
    pub compression_type: bool,
}

/// The serialized bytes of a header, in field order, little-endian.
pub open spec fn spec_header_bytes(h: CSOHeader) -> Seq<u8> {
    vstd::bytes::spec_u32_to_le_bytes(h.magic) + vstd::bytes::spec_u32_to_le_bytes(h.header_size)
        + vstd::bytes::spec_u64_to_le_bytes(h.uncompressed_size)
        + vstd::bytes::spec_u32_to_le_bytes(h.block_size)
        + seq![h.version, h.alignment, h.reserved0, h.reserved1]
}

/// The header decoded from 24 bytes, without any validation.
pub open spec fn spec_parse_header(b: Seq<u8>) -> CSOHeader
    recommends
        b.len() == 24,
{
    CSOHeader {
        magic: vstd::bytes::spec_u32_from_le_bytes(b.subrange(0, 4)),
        header_size: vstd::bytes::spec_u32_from_le_bytes(b.subrange(4, 8)),
        uncompressed_size: vstd::bytes::spec_u64_from_le_bytes(b.subrange(8, 16)),
        block_size: vstd::bytes::spec_u32_from_le_bytes(b.subrange(16, 20)),
        version: b[20],
        alignment: b[21],
        reserved0: b[22],
        reserved1: b[23],
    }
}

/// A header that decoding accepts: correct magic and size, version exactly 2.
pub open spec fn spec_header_valid(h: CSOHeader) -> bool {
    &&& h.version == 2
    &&& h.magic == CISO_MAGIC
    &&& h.header_size == HEADER_SIZE
}

impl IndexTableEntry {
    /// The position fits in its 31-bit field.
    pub open spec fn wf(self) -> bool {
        self.position < 0x8000_0000
    }

    /// The packed 32-bit word: low 31 bits position, high bit the flag.
    pub open spec fn spec_raw(self) -> u32 {
        (self.position + if self.compression_type {
            0x8000_0000u32
        } else {
            0u32
        }) as u32
    }

    pub fn new(position: u32, compression_type: bool) -> (e: IndexTableEntry)
        requires
            position < 0x8000_0000,
        ensures
            e == (IndexTableEntry { position, compression_type }),
            e.wf(),
    {
        IndexTableEntry { position, compression_type }
    }

    /// Packs this entry into its 32-bit on-disk word.
    pub fn pack(&self) -> (r: u32)
        requires
            self.wf(),
        ensures
            r == self.spec_raw(),
    {
        if self.compression_type {
            self.position + 0x8000_0000
        } else {
            self.position
        }
    }

    /// Unpacks a 32-bit on-disk word into an entry.
    pub fn unpack(raw: u32) -> (e: IndexTableEntry)
        ensures
            e == spec_unpack(raw),
            e.wf(),
            e.spec_raw() == raw,
    {
        if raw >= 0x8000_0000 {
            IndexTableEntry { position: raw - 0x8000_0000, compression_type: true }
        } else {
            IndexTableEntry { position: raw, compression_type: false }
        }
    }
}

/// The entry denoted by a packed 32-bit word.
pub open spec fn spec_unpack(raw: u32) -> IndexTableEntry {
    IndexTableEntry {
        position: (raw % 0x8000_0000) as u32,
        compression_type: raw >= 0x8000_0000,
    }
}

/// Index entry round-trip: packing any 31-bit position with either flag value
/// and unpacking the word yields the position and flag back, and unpacking
/// then packing restores any word.
pub proof fn lemma_index_entry_round_trip(position: u32, compression_type: bool)
    requires
        position < 0x8000_0000,
    ensures
        spec_unpack((IndexTableEntry { position, compression_type }).spec_raw()) == (IndexTableEntry {
            position,
            compression_type,
        }),
        forall|raw: u32| #[trigger] spec_unpack(raw).spec_raw() == raw,
{
}

impl CSOHeader {
    /// Decodes 24 bytes field by field, with no validation.
    fn deserialize_unchecked(header: &[u8]) -> (h: CSOHeader)
        requires
            header@.len() == 24,
        ensures
            h == spec_parse_header(header@),
    {
        let magic = util::deserialize_u32_le(vstd::slice::slice_subrange(header, 0, 4));
        let header_size = util::deserialize_u32_le(vstd::slice::slice_subrange(header, 4, 8));
        let uncompressed_size = util::deserialize_u64_le(vstd::slice::slice_subrange(header, 8, 16));
        let block_size = util::deserialize_u32_le(vstd::slice::slice_subrange(header, 16, 20));
        let version = *vstd::slice::slice_index_get(header, 20);
        let alignment = *vstd::slice::slice_index_get(header, 21);
        let reserved0 = *vstd::slice::slice_index_get(header, 22);
        let reserved1 = *vstd::slice::slice_index_get(header, 23);

        CSOHeader {
            magic,
            header_size,
            uncompressed_size,
            block_size,
            version,
            alignment,
            reserved0,
            reserved1,
        }
    }

    /// Decodes and validates 24 header bytes.  Fails with `UnsupportedVersion`
    /// if the version byte is not 2, then with `InvalidHeader` if the magic or
    /// the declared header size mismatch; otherwise returns the header.
    pub fn deserialize<E>(header: &[u8]) -> (r: Result<CSOHeader, Error<E>>)
        requires
            header@.len() == 24,
        ensures
            ({
                let h = spec_parse_header(header@);
                match r {
                    Ok(out) => out == h && spec_header_valid(h),
                    Err(Error::UnsupportedVersion) => h.version != 2,
                    Err(Error::InvalidHeader) => h.version == 2 && !(h.magic == CISO_MAGIC
                        && h.header_size == HEADER_SIZE),
                    _ => false,
                }
            }),
    {
        let header = Self::deserialize_unchecked(header);

        if header.version != 2 {
            return Err(Error::UnsupportedVersion);
        }

        if header.magic != CISO_MAGIC || header.header_size != HEADER_SIZE {
            return Err(Error::InvalidHeader);
        }

        Ok(header)
    }

    /// Serializes the header to its 24-byte on-disk form.
    pub fn serialize(&self) -> (out: Vec<u8>)
        ensures
            out@ == spec_header_bytes(*self),
            out@.len() == 24,
    {
        let mut out: Vec<u8> = vstd::bytes::u32_to_le_bytes(self.magic);
        let mut rest = vstd::bytes::u32_to_le_bytes(self.header_size);
        out.append(&mut rest);
        let mut rest = vstd::bytes::u64_to_le_bytes(self.uncompressed_size);
        out.append(&mut rest);
        let mut rest = vstd::bytes::u32_to_le_bytes(self.block_size);
        out.append(&mut rest);
        out.push(self.version);
        out.push(self.alignment);
        out.push(self.reserved0);
        out.push(self.reserved1);
        proof {
            vstd::bytes::lemma_auto_spec_u32_to_from_le_bytes();
            vstd::bytes::lemma_auto_spec_u64_to_from_le_bytes();
            assert(out@ =~= spec_header_bytes(*self));
        }
        out
    }

    /// A fresh header with the default block size 2048 and 4-byte alignment.
    pub fn new() -> (h: CSOHeader)
        ensures
            h == (CSOHeader {
                magic: CISO_MAGIC,
                header_size: HEADER_SIZE,
                uncompressed_size: 0,
                block_size: 2048,
                version: 2,
                alignment: 2,
                reserved0: 0,
                reserved1: 0,
            }),
            spec_header_valid(h),
    {
        CSOHeader {
            magic: CISO_MAGIC,
            header_size: HEADER_SIZE,
            uncompressed_size: 0,
            block_size: 2048,
            version: 2,
            alignment: 2,
            reserved0: 0,
            reserved1: 0,
        }
    }

    /// Number of index-table entries: one per full sector plus a sentinel.
    pub open spec fn spec_index_table_len(self) -> int
        recommends
            self.block_size > 0,
    {
        self.uncompressed_size as int / self.block_size as int + 1
    }

    /// Computes the index-table length for this header.
    pub fn index_table_len(&self) -> (r: usize)
        requires
            self.block_size > 0,
            self.spec_index_table_len() <= usize::MAX,
        ensures
            r == self.spec_index_table_len(),
    {
        (self.uncompressed_size / (self.block_size as u64)) as usize + 1
    }
}

/// Header round-trip: decoding the serialized bytes of any header restores
/// the header exactly; together with `CSOHeader::deserialize`'s contract,
/// any valid header (version 2, correct magic and size) round-trips through
/// serialize then deserialize.
pub proof fn lemma_header_round_trip(h: CSOHeader)
    ensures
        spec_parse_header(spec_header_bytes(h)) == h,
{
    vstd::bytes::lemma_auto_spec_u32_to_from_le_bytes();
    vstd::bytes::lemma_auto_spec_u64_to_from_le_bytes();
    let b = spec_header_bytes(h);
    assert(b.subrange(0, 4) =~= vstd::bytes::spec_u32_to_le_bytes(h.magic));
    assert(b.subrange(4, 8) =~= vstd::bytes::spec_u32_to_le_bytes(h.header_size));
    assert(b.subrange(8, 16) =~= vstd::bytes::spec_u64_to_le_bytes(h.uncompressed_size));
    assert(b.subrange(16, 20) =~= vstd::bytes::spec_u32_to_le_bytes(h.block_size));
}

} // verus!
