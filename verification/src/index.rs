//! The per-sector index table and its flat serialized form.

use vstd::prelude::*;

use crate::layout;
use crate::util;

verus! {

/// Ordered collection of index entries, one per sector plus a sentinel.
pub struct IndexTable {
    entries: Vec<layout::IndexTableEntry>,
}

/// The serialized bytes of a table: each entry's packed word, little-endian,
/// in table order.
pub open spec fn spec_table_bytes(t: Seq<layout::IndexTableEntry>) -> Seq<u8> {
    Seq::new(4 * t.len(), |j: int| vstd::bytes::spec_u32_to_le_bytes(t[j / 4].spec_raw())[j % 4])
}

/// The table decoded from a flat byte buffer: one entry per 4-byte word.
pub open spec fn spec_parse_table(b: Seq<u8>) -> Seq<layout::IndexTableEntry> {
    Seq::new(
        b.len() / 4,
        |i: int| layout::spec_unpack(vstd::bytes::spec_u32_from_le_bytes(b.subrange(4 * i, 4 * i + 4))),
    )
}

impl View for IndexTable {
    type V = Seq<layout::IndexTableEntry>;

    closed spec fn view(&self) -> Seq<layout::IndexTableEntry> {
        self.entries@
    }
}

impl IndexTable {
    /// Every entry's position fits its 31-bit field.
    pub open spec fn wf(self) -> bool {
        forall|i: int| 0 <= i < self@.len() ==> (#[trigger] self@[i]).wf()
    }

    /// Allocates a zeroed table sized for `header`.
    pub fn new(header: &layout::CSOHeader) -> (t: IndexTable)
        requires
            header.block_size > 0,
            header.spec_index_table_len() <= usize::MAX,
        ensures
            t@.len() == header.spec_index_table_len(),
            forall|i: int|
                0 <= i < t@.len() ==> t@[i] == (layout::IndexTableEntry {
                    position: 0u32,
                    compression_type: false,
                }),
            t.wf(),
    {
        let n = header.index_table_len();
        let mut entries: Vec<layout::IndexTableEntry> = Vec::new();
        let mut i: usize = 0;
        while i < n
            invariant
                i <= n,
                entries@.len() == i,
                forall|j: int|
                    0 <= j < i ==> entries@[j] == (layout::IndexTableEntry {
                        position: 0u32,
                        compression_type: false,
                    }),
            decreases n - i,
        {
            entries.push(layout::IndexTableEntry { position: 0, compression_type: false });
            i = i + 1;
        }
        IndexTable { entries }
    }

    /// Number of entries (sector count plus one).
    pub fn len(&self) -> (r: usize)
        ensures
            r == self@.len(),
    {
        self.entries.len()
    }

    /// The entry at `idx`.
    pub fn get(&self, idx: usize) -> (e: layout::IndexTableEntry)
        requires
            idx < self@.len(),
        ensures
            e == self@[idx as int],
    {
        self.entries[idx]
    }

    /// Replaces the entry at `idx`.
    pub fn set(&mut self, idx: usize, e: layout::IndexTableEntry)
        requires
            idx < old(self)@.len(),
        ensures
            final(self)@ == old(self)@.update(idx as int, e),
    {
        self.entries.set(idx, e);
    }

    /// Decodes a flat byte buffer: one entry per little-endian 4-byte word.
    /// Trailing bytes beyond the last full word are ignored.
    pub fn deserialize(data: Vec<u8>) -> (t: IndexTable)
        ensures
            t@ == spec_parse_table(data@),
            t.wf(),
    {
        let data_len = data.len();
        let len = data_len / 4;
        proof {
            assert(4 * (data@.len() / 4) <= data@.len());
        }
        let mut entries: Vec<layout::IndexTableEntry> = Vec::new();
        let mut idx: usize = 0;
        while idx < len
            invariant
                idx <= len,
                len == data@.len() / 4,
                4 * len <= data@.len(),
                data@.len() <= usize::MAX,
                entries@.len() == idx,
                forall|j: int| 0 <= j < idx ==> entries@[j] == spec_parse_table(data@)[j],
            decreases len - idx,
        {
            let start_byte = 4 * idx;
            let end_byte = start_byte + 4;
            let word = util::deserialize_u32_le(
                vstd::slice::slice_subrange(data.as_slice(), start_byte, end_byte),
            );
            entries.push(layout::IndexTableEntry::unpack(word));
            idx = idx + 1;
        }
        let t = IndexTable { entries };
        proof {
            assert(t@ =~= spec_parse_table(data@));
            assert forall|i: int| 0 <= i < t@.len() implies (#[trigger] t@[i]).wf() by {
                assert(t@[i] == spec_parse_table(data@)[i]);
            }
        }
        t
    }

    /// Serializes the table to its flat on-disk form: `len() * 4` bytes of
    /// little-endian packed words in table order.
    pub fn serialize(&self) -> (out: Vec<u8>)
        requires
            self.wf(),
            4 * self@.len() <= usize::MAX,
        ensures
            out@ == spec_table_bytes(self@),
            out@.len() == 4 * self@.len(),
    {
        let len = self.entries.len();
        let mut out: Vec<u8> = Vec::new();
        let mut idx: usize = 0;
        while idx < len
            invariant
                idx <= len,
                len == self@.len(),
                4 * len <= usize::MAX,
                self.wf(),
                out@.len() == 4 * idx,
                forall|j: int| 0 <= j < 4 * idx ==> out@[j] == spec_table_bytes(self@)[j],
            decreases len - idx,
        {
            let raw = self.entries[idx].pack();
            let mut word = vstd::bytes::u32_to_le_bytes(raw);
            out.append(&mut word);
            proof {
                vstd::bytes::lemma_auto_spec_u32_to_from_le_bytes();
                assert forall|j: int| 0 <= j < 4 * (idx + 1) implies out@[j] == spec_table_bytes(
                    self@,
                )[j] by {
                    if j >= 4 * idx {
                        assert(j / 4 == idx as int) by (nonlinear_arith)
                            requires
                                4 * idx <= j < 4 * (idx + 1),
                        ;
                        assert(j % 4 == j - 4 * idx) by (nonlinear_arith)
                            requires
                                4 * idx <= j < 4 * (idx + 1),
                        ;
                    }
                }
            }
            idx = idx + 1;
        }
        proof {
            assert(out@ =~= spec_table_bytes(self@));
        }
        out
    }
}

/// Table round-trip: decoding the serialized bytes of any well-formed table
/// restores the table exactly.
pub proof fn lemma_table_round_trip(t: Seq<layout::IndexTableEntry>)
    requires
        forall|i: int| 0 <= i < t.len() ==> (#[trigger] t[i]).wf(),
    ensures
        spec_parse_table(spec_table_bytes(t)) == t,
{
    vstd::bytes::lemma_auto_spec_u32_to_from_le_bytes();
    let b = spec_table_bytes(t);
    assert forall|i: int| 0 <= i < t.len() implies spec_parse_table(b)[i] == t[i] by {
        assert(b.subrange(4 * i, 4 * i + 4) =~= vstd::bytes::spec_u32_to_le_bytes(t[i].spec_raw()))
            by {
            assert forall|k: int| 0 <= k < 4 implies b.subrange(4 * i, 4 * i + 4)[k]
                == vstd::bytes::spec_u32_to_le_bytes(t[i].spec_raw())[k] by {
                let j = 4 * i + k;
                assert(j / 4 == i) by (nonlinear_arith)
                    requires
                        4 * i <= j < 4 * (i + 1),
                ;
                assert(j % 4 == j - 4 * i) by (nonlinear_arith)
                    requires
                        4 * i <= j < 4 * (i + 1),
                ;
            }
        }
        assert(layout::spec_unpack(t[i].spec_raw()) == t[i]);
    }
    assert(spec_parse_table(spec_table_bytes(t)) =~= t);
}

} // verus!
