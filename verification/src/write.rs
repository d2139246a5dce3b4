//! The encoder side: abstract sink/source contracts and progress reporting.

use vstd::prelude::*;

use crate::bytes::write_at;

verus! {

/// Failures while creating a container.  `ReadError` and `WriteError` wrap
/// the error types of the underlying source and sink.
#[derive(Debug)]
pub enum CSOCreationError<ReadError, WriteError> {
    /// The LZ4 frame encoder failed to finish a frame.
    LZ4Error(lz4_flex::frame::Error),
    /// Feeding a sector into the LZ4 frame encoder failed.
    CompressionError(std::io::Error),
    /// The underlying source failed.
    ReadError(ReadError),
    /// The underlying sink failed.
    WriteError(WriteError),
}

/// Progress notifications emitted during encoding.
#[non_exhaustive]
pub enum ProgressInfo {
    /// Total number of index entries (sectors plus sentinel), sent first.
    SectorCount(usize),
    /// One sector (or the sentinel pass) has been finished.
    SectorFinished,
    /// The whole container has been written.
    Finished,
}

/// Receives progress notifications; implemented by the caller.  `events`
/// models the notifications received so far, in order; without an override
/// nothing is tracked.
pub trait ProgressListener: Sized {
    open spec fn events(&self) -> Seq<ProgressInfo> {
        Seq::<ProgressInfo>::empty()
    }

    fn report(&mut self, info: ProgressInfo)
        ensures
            final(self).events() == old(self).events().push(info),
    ;
}

/// A progress listener that ignores every notification (but still models
/// the sequence received).
pub struct NullProgress {
    events: Ghost<Seq<ProgressInfo>>,
}

impl NullProgress {
    /// A listener with an empty event log.
    pub fn new() -> (p: NullProgress)
        ensures
            p.events() == Seq::<ProgressInfo>::empty(),
    {
        NullProgress { events: Ghost(Seq::empty()) }
    }
}

impl ProgressListener for NullProgress {
    closed spec fn events(&self) -> Seq<ProgressInfo> {
        self.events@
    }

    fn report(&mut self, info: ProgressInfo) {
        proof {
            self.events@ = self.events@.push(info);
        }
    }
}

/// A sized byte sink accepting writes at arbitrary offsets, with no ordering
/// requirement between non-overlapping writes.  `contents` abstracts the
/// bytes stored so far; a write past the current end zero-fills the gap.
pub trait AsyncWriter: Sized {
    type WriteError;

    /// Abstraction relation the implementation maintains; without an
    /// override nothing is assumed of the implementation.
    open spec fn inv(&self) -> bool {
        false
    }

    /// The bytes stored so far.
    open spec fn contents(&self) -> Seq<u8> {
        Seq::<u8>::empty()
    }

    /// Writes all of `data` at byte offset `position`, or fails.  Even a
    /// failed write never extends the contents past the write's own extent.
    fn atomic_write(&mut self, position: u64, data: &[u8]) -> (r: Result<
        (),
        Self::WriteError,
    >)
        requires
            old(self).inv(),
            position + data@.len() <= u64::MAX,
        ensures
            final(self).inv(),
            final(self).contents().len() <= (if position + data@.len() > old(
                self,
            ).contents().len() {
                position + data@.len()
            } else {
                old(self).contents().len() as int
            }),
            r is Ok ==> final(self).contents() == write_at(
                old(self).contents(),
                position as int,
                data@,
            ),
    ;
}

/// A sized source of fixed-size sectors, read in any order.  `data` abstracts
/// the full underlying byte sequence.
pub trait SectorReader: Sized {
    type ReadError;

    /// Abstraction relation the implementation maintains; without an
    /// override nothing is assumed of the implementation.
    open spec fn inv(&self) -> bool {
        false
    }

    /// The underlying bytes.
    open spec fn data(&self) -> Seq<u8> {
        Seq::<u8>::empty()
    }

    /// Reports the total size in bytes.
    fn size(&mut self) -> (r: Result<u64, Self::ReadError>)
        requires
            old(self).inv(),
        ensures
            final(self).inv(),
            final(self).data() == old(self).data(),
            r matches Ok(n) ==> n as int == old(self).data().len(),
    ;

    /// Reads the `sector`th chunk of `sector_size` bytes, whole or not at all.
    fn read_sector(&mut self, sector: usize, sector_size: u32) -> (r: Result<
        Vec<u8>,
        Self::ReadError,
    >)
        requires
            old(self).inv(),
        ensures
            final(self).inv(),
            final(self).data() == old(self).data(),
            r matches Ok(block) ==> {
                &&& (sector + 1) * sector_size <= old(self).data().len()
                &&& block@ == old(self).data().subrange(
                    sector * sector_size,
                    (sector + 1) * sector_size,
                )
            },
    ;
}

} // verus!

verus! {

/// Introduces the existential form of a sector-finished prefix.
proof fn lemma_sf_prefix(e0: Seq<ProgressInfo>, e1: Seq<ProgressInfo>, k: int, l: int)
    requires
        0 <= k <= l,
        e1 == e0 + spec_sector_finished_seq(k),
    ensures
        exists|kk: int| 0 <= kk <= l && e1 == e0 + #[trigger] spec_sector_finished_seq(kk),
{
    assert(0 <= k <= l && e1 == e0 + spec_sector_finished_seq(k));
}

/// `k` sector-finished notifications.
pub open spec fn spec_sector_finished_seq(k: int) -> Seq<ProgressInfo> {
    Seq::new(k as nat, |i: int| ProgressInfo::SectorFinished)
}

/// Introduces the existential prefix form of the event log.
proof fn lemma_events_take(e0: Seq<ProgressInfo>, e1: Seq<ProgressInfo>, full: Seq<ProgressInfo>, k: int)
    requires
        0 <= k < full.len(),
        e1 == e0 + full.take(k),
    ensures
        exists|kk: int| 0 <= kk < full.len() && e1 == e0 + #[trigger] full.take(kk),
{
    assert(0 <= k < full.len() && e1 == e0 + full.take(k));
}

/// The notifications one whole encode emits, in order: the index-table
/// length first, one sector-finished per table entry (each data sector plus
/// the sentinel pass), and finished last.
pub open spec fn spec_encode_events(l: usize) -> Seq<ProgressInfo> {
    seq![ProgressInfo::SectorCount(l)] + Seq::new(
        l as nat,
        |i: int| ProgressInfo::SectorFinished,
    ) + seq![ProgressInfo::Finished]
}

/// The compression policy: a sector is stored compressed exactly when its
/// stripped frame body undercuts the raw block by more than the fixed
/// overhead margin of 12 bytes.
pub open spec fn spec_sector_compressed(img: Seq<u8>, i: int, block_size: int) -> bool {
    crate::lz4::lz4_body_of(img.subrange(i * block_size, (i + 1) * block_size)).len() + 12
        < block_size
}

/// The payload stored for sector `i`: the compressed frame body or the raw
/// sector bytes, as the flag says.
pub open spec fn spec_sector_payload(img: Seq<u8>, i: int, compressed: bool) -> Seq<u8> {
    if compressed {
        crate::lz4::lz4_body_of(img.subrange(2048 * i, 2048 * (i + 1)))
    } else {
        img.subrange(2048 * i, 2048 * (i + 1))
    }
}

/// The stored region of sector `i` is exactly in place: entry `i` is
/// recorded, its offset is past the reserved header and table area, and the
/// bytes from its offset up to the next recorded offset (or up to `endpos`
/// for the last recorded sector) are the sector's payload followed by less
/// than one alignment granule of zero padding.
pub open spec fn spec_region_ok(
    c: Seq<u8>,
    t: Seq<crate::layout::IndexTableEntry>,
    img: Seq<u8>,
    recorded: int,
    endpos: int,
    base: int,
    i: int,
) -> bool {
    let lo = crate::container::spec_entry_offset(t[i], 2);
    let hi = if i + 1 < recorded {
        crate::container::spec_entry_offset(t[i + 1], 2)
    } else {
        endpos
    };
    let payload = spec_sector_payload(img, i, t[i].compression_type);
    &&& t[i].wf()
    &&& base <= lo <= hi <= c.len()
    &&& payload.len() <= hi - lo < payload.len() + 4
    &&& c.subrange(lo, hi) == payload + crate::bytes::spec_zeros(hi - lo - payload.len())
}

/// All sectors recorded so far are stored correctly.
pub open spec fn spec_regions_ok(
    c: Seq<u8>,
    t: Seq<crate::layout::IndexTableEntry>,
    img: Seq<u8>,
    recorded: int,
    endpos: int,
    base: int,
) -> bool {
    forall|i: int| 0 <= i < recorded ==> #[trigger] spec_region_ok(c, t, img, recorded, endpos, base, i)
}

/// Writes every sector of `input` behind the reserved header and table area
/// of `output`, aligned and compressed where worthwhile, and records each
/// stored offset (and the final sentinel) in `index_table`.
#[verifier::rlimit(100)]
fn write_ciso_data<I: SectorReader, O: AsyncWriter, PL: ProgressListener>(
    input: &mut I,
    output: &mut O,
    header: &crate::layout::CSOHeader,
    index_table: &mut crate::index::IndexTable,
    progress: &mut PL,
) -> (r: Result<(), CSOCreationError<I::ReadError, O::WriteError>>)
    requires
        old(input).inv(),
        old(output).inv(),
        header.block_size == 2048,
        header.alignment == 2,
        header.uncompressed_size == old(input).data().len(),
        old(index_table)@.len() == header.spec_index_table_len(),
        old(index_table)@.len() <= usize::MAX,
        old(index_table).wf(),
        old(output).contents().len() == 24,
        28 + 2070 * (old(index_table)@.len() as int) <= 0x2_0000_0000,
    ensures
        final(input).inv(),
        final(output).inv(),
        final(input).data() == old(input).data(),
        final(index_table)@.len() == old(index_table)@.len(),
        final(index_table).wf(),
        r is Ok ==> {
            &&& crate::container::spec_container_models(
                final(output).contents(),
                *header,
                final(index_table)@,
                old(input).data(),
            )
            &&& final(output).contents().len() >= 24
            &&& final(output).contents().subrange(0, 24) == old(output).contents()
            &&& forall|i: int|
                0 <= i < final(index_table)@.len()
                    ==> #[trigger] crate::container::spec_entry_offset(final(index_table)@[i], 2)
                    >= 24 + 4 * (old(index_table)@.len() as int)
            &&& forall|i: int|
                0 <= i < old(index_table)@.len() - 1
                    ==> (#[trigger] final(index_table)@[i]).compression_type
                    == spec_sector_compressed(old(input).data(), i, 2048)
            &&& final(index_table)@[old(index_table)@.len() - 1].compression_type == false
            &&& spec_regions_ok(
                final(output).contents(),
                final(index_table)@,
                old(input).data(),
                old(index_table)@.len() - 1,
                crate::container::spec_entry_offset(
                    final(index_table)@[old(index_table)@.len() - 1],
                    2,
                ),
                24 + 4 * (old(index_table)@.len() as int),
            )
        },
        r is Ok ==> final(progress).events() == old(progress).events()
            + spec_sector_finished_seq(old(index_table)@.len() as int),
        r is Err ==> exists|k: int|
            0 <= k <= old(index_table)@.len() && final(progress).events() == old(
                progress,
            ).events() + #[trigger] spec_sector_finished_seq(k),
{
    let ghost init_out = *old(output);
    let ghost img = old(input).data();
    let l: usize = index_table.len();
    let n_sectors: usize = l - 1;
    let ghost base = 24 + 4 * (l as int);
    let mut position: u64 = 24 + 4 * (l as u64);
    proof {
        vstd::arithmetic::power2::lemma2_to64();
        assert(position % 4 == 0) by (nonlinear_arith)
            requires
                position == 24 + 4 * (l as int) && l >= 0,
        ;
    }
    let mut sector: usize = 0;
    proof {
        assert(progress.events() =~= old(progress).events() + spec_sector_finished_seq(0));
    }
    while sector < n_sectors
        invariant
            init_out == *old(output),
            input.inv(),
            output.inv(),
            input.data() == img,
            img == old(input).data(),
            img.len() == header.uncompressed_size,
            header.block_size == 2048,
            header.alignment == 2,
            l as int == old(index_table)@.len(),
            l as int == header.spec_index_table_len(),
            l <= usize::MAX,
            n_sectors == l - 1,
            base == 24 + 4 * (l as int),
            vstd::arithmetic::power2::pow2(2) == 4,
            index_table@.len() == l,
            index_table.wf(),
            sector <= n_sectors,
            28 + 2070 * (l as int) <= 0x2_0000_0000,
            base <= position,
            position as int <= base + 2060 * (sector as int),
            output.contents().len() == (if sector == 0 {
                24int
            } else {
                position as int
            }),
            output.contents().subrange(0, 24) == old(output).contents(),
            spec_regions_ok(output.contents(), index_table@, img, sector as int, position as int, base),
            sector > 0 ==> position as int == crate::container::spec_entry_offset(
                index_table@[sector as int - 1],
                2,
            ) + spec_sector_payload(
                img,
                sector as int - 1,
                index_table@[sector as int - 1].compression_type,
            ).len(),
            forall|i: int|
                0 <= i < sector as int ==> (#[trigger] index_table@[i]).compression_type
                    == spec_sector_compressed(img, i, 2048),
            progress.events() == old(progress).events() + spec_sector_finished_seq(
                sector as int,
            ),
        decreases n_sectors - sector,
    {
        let ghost t0 = index_table@;
        let ghost c0 = output.contents();
        // pad up to the next alignment boundary
        let rem: u64 = position % 4;
        proof {
            crate::split::lemma_div_basics(position as int, 4);
        }
        if rem != 0 {
            let pad: u64 = 4 - rem;
            let pad_bytes = crate::bytes::zero_vec(pad as usize);
            let ghost c_before = output.contents();
            match output.atomic_write(position, pad_bytes.as_slice()) {
                Ok(()) => {},
                Err(e) => {
                    proof {
                        lemma_sf_prefix(
                            old(progress).events(),
                            progress.events(),
                            sector as int,
                            l as int,
                        );
                    }
                    return Err(CSOCreationError::WriteError(e));
                },
            }
            proof {
                assert(sector > 0);
                assert(c_before.len() == position as int);
                crate::bytes::lemma_write_at_append(c_before, pad_bytes@);
                assert(output.contents() == c_before + pad_bytes@);
                assert(output.contents().subrange(0, 24) =~= c_before.subrange(0, 24));
                assert forall|i: int|
                    0 <= i < sector as int implies #[trigger] spec_region_ok(
                    output.contents(),
                    index_table@,
                    img,
                    sector as int,
                    position as int + pad as int,
                    base,
                    i,
                ) by {
                    assert(spec_region_ok(c_before, t0, img, sector as int, position as int, base, i));
                    let lo = crate::container::spec_entry_offset(t0[i], 2);
                    let hi = if i + 1 < sector as int {
                        crate::container::spec_entry_offset(t0[i + 1], 2)
                    } else {
                        position as int
                    };
                    if i + 1 < sector as int {
                        assert(output.contents().subrange(lo, hi) =~= c_before.subrange(lo, hi));
                    } else {
                        let hi2 = position as int + pad as int;
                        let payload = spec_sector_payload(img, i, t0[i].compression_type);
                        assert(hi - lo == payload.len());
                        assert(c_before.subrange(lo, hi) == payload + crate::bytes::spec_zeros(
                            hi - lo - payload.len(),
                        ));
                        assert(output.contents().subrange(lo, hi2) =~= payload
                            + crate::bytes::spec_zeros(hi2 - lo - payload.len()));
                        assert(hi2 - lo < payload.len() + 4);
                    }
                }
            }
            proof {
                crate::split::lemma_align4(position as int);
            }
            position = position + pad;
        }
        proof {
            crate::split::lemma_align4(position as int);
            assert(position % 4 == 0);
        }
        // read one sector
        let data = match input.read_sector(sector, 2048) {
            Ok(data) => data,
            Err(e) => {
                proof {
                    lemma_sf_prefix(
                        old(progress).events(),
                        progress.events(),
                        sector as int,
                        l as int,
                    );
                }
                return Err(CSOCreationError::ReadError(e));
            },
        };
        // compress it independently and strip the frame envelope
        let frame = match crate::lz4::lz4_compress_frame::<I::ReadError, O::WriteError>(&data) {
            Ok(frame) => frame,
            Err(e) => {
                return Err(e);
            },
        };
        let body = crate::bytes::subvec(frame.as_slice(), 7, frame.len() - 4);
        proof {
            assert(body@ =~= crate::lz4::lz4_body_of(data@));
        }
        // store compressed only when it pays off
        let is_compressed = body.len() > 0 && data.len() > 12 && body.len() < data.len() - 12;
        proof {
            assert(is_compressed == spec_sector_compressed(img, sector as int, 2048));
        }
        let entry = crate::layout::IndexTableEntry::new((position / 4) as u32, is_compressed);
        index_table.set(sector, entry);
        let stored = if is_compressed {
            body
        } else {
            data
        };
        let ghost c1 = output.contents();
        match output.atomic_write(position, stored.as_slice()) {
            Ok(()) => {},
            Err(e) => {
                proof {
                    lemma_sf_prefix(
                        old(progress).events(),
                        progress.events(),
                        sector as int,
                        l as int,
                    );
                }
                return Err(CSOCreationError::WriteError(e));
            },
        }
        proof {
            let si = sector as int;
            let t1 = index_table@;
            let lo_new = crate::container::spec_entry_offset(t1[si], 2);
            assert(lo_new == position as int);
            assert(stored@.len() > 0);
            assert(c1.len() <= position as int);
            assert(output.contents() == crate::bytes::write_at(c1, position as int, stored@));
            assert(output.contents().len() == position as int + stored@.len());
            assert(output.contents().subrange(0, 24) =~= c1.subrange(0, 24));
            assert(output.contents().subrange(0, 24) =~= c1.subrange(0, 24));
            // previously recorded regions are unchanged
            assert forall|i: int|
                0 <= i < si + 1 implies #[trigger] spec_region_ok(
                output.contents(),
                t1,
                img,
                si + 1,
                position as int + stored@.len() as int,
                base,
                i,
            ) by {
                if i < si {
                    assert(spec_region_ok(c1, t0, img, si, position as int, base, i));
                    assert(t1[i] == t0[i]);
                    let lo = crate::container::spec_entry_offset(t0[i], 2);
                    let hi = if i + 1 < si {
                        crate::container::spec_entry_offset(t0[i + 1], 2)
                    } else {
                        position as int
                    };
                    let hi1 = if i + 1 < si + 1 {
                        crate::container::spec_entry_offset(t1[i + 1], 2)
                    } else {
                        position as int + stored@.len() as int
                    };
                    assert(hi1 == hi);
                    assert(output.contents().subrange(lo, hi) =~= c1.subrange(lo, hi));
                } else {
                    // the new region holds exactly the stored payload
                    assert(output.contents().subrange(
                        position as int,
                        position as int + stored@.len() as int,
                    ) =~= stored@);
                    let payload = spec_sector_payload(img, si, is_compressed);
                    assert(stored@ == payload);
                    assert(stored@ =~= payload + crate::bytes::spec_zeros(0));
                }
            }
        }
        position = position + stored.len() as u64;
        sector = sector + 1;
        progress.report(ProgressInfo::SectorFinished);
        proof {
            assert(progress.events() =~= old(progress).events() + spec_sector_finished_seq(
                sector as int,
            ));
        }
    }
    // pad once more so the sentinel records the exact end offset
    let ghost t_loop = index_table@;
    let ghost c_loop = output.contents();
    let rem: u64 = position % 4;
    proof {
        crate::split::lemma_div_basics(position as int, 4);
    }
    if rem != 0 {
        let pad: u64 = 4 - rem;
        let pad_bytes = crate::bytes::zero_vec(pad as usize);
        let ghost c_before = output.contents();
        match output.atomic_write(position, pad_bytes.as_slice()) {
            Ok(()) => {},
            Err(e) => {
                proof {
                    lemma_sf_prefix(
                        old(progress).events(),
                        progress.events(),
                        n_sectors as int,
                        l as int,
                    );
                }
                return Err(CSOCreationError::WriteError(e));
            },
        }
        proof {
            assert(n_sectors > 0);
            assert(c_before.len() == position as int);
            crate::bytes::lemma_write_at_append(c_before, pad_bytes@);
            assert(output.contents() == c_before + pad_bytes@);
            assert(output.contents().subrange(0, 24) =~= c_before.subrange(0, 24));
            assert forall|i: int|
                0 <= i < n_sectors as int implies #[trigger] spec_region_ok(
                output.contents(),
                index_table@,
                img,
                n_sectors as int,
                position as int + pad as int,
                base,
                i,
            ) by {
                assert(spec_region_ok(c_before, t_loop, img, n_sectors as int, position as int, base, i));
                let lo = crate::container::spec_entry_offset(t_loop[i], 2);
                let hi = if i + 1 < n_sectors as int {
                    crate::container::spec_entry_offset(t_loop[i + 1], 2)
                } else {
                    position as int
                };
                if i + 1 < n_sectors as int {
                    assert(output.contents().subrange(lo, hi) =~= c_before.subrange(lo, hi));
                } else {
                    let hi2 = position as int + pad as int;
                    let payload = spec_sector_payload(img, i, t_loop[i].compression_type);
                    assert(hi - lo == payload.len());
                    assert(c_before.subrange(lo, hi) == payload + crate::bytes::spec_zeros(
                        hi - lo - payload.len(),
                    ));
                    assert(output.contents().subrange(lo, hi2) =~= payload
                        + crate::bytes::spec_zeros(hi2 - lo - payload.len()));
                    assert(hi2 - lo < payload.len() + 4);
                }
            }
        }
        proof {
            crate::split::lemma_align4(position as int);
        }
        position = position + pad;
    }
    proof {
        crate::split::lemma_align4(position as int);
        assert(position % 4 == 0);
    }
    let sentinel = crate::layout::IndexTableEntry::new((position / 4) as u32, false);
    index_table.set(n_sectors, sentinel);
    progress.report(ProgressInfo::SectorFinished);
    proof {
        assert(progress.events() =~= old(progress).events() + spec_sector_finished_seq(l as int));
    }
    proof {
        let tf = index_table@;
        let cf = output.contents();
        let nn = n_sectors as int;
        assert(crate::container::spec_entry_offset(tf[nn], 2) == position as int);
        assert(l as int == header.spec_index_table_len());
        assert forall|i: int|
            0 <= i < nn implies #[trigger] crate::container::spec_sector_matches(
            cf,
            tf,
            header.alignment as int,
            header.block_size as int,
            i,
            img.subrange(
                i * (header.block_size as int),
                (i + 1) * (header.block_size as int),
            ),
        ) by {
            assert(i * (header.block_size as int) == 2048 * i);
            assert((i + 1) * (header.block_size as int) == 2048 * (i + 1));
            assert(spec_region_ok(cf, tf, img, nn, position as int, base, i)) by {
                assert(spec_region_ok(cf, t_loop, img, nn, position as int, base, i));
                assert(tf[i] == t_loop[i]);
                if i + 1 < nn {
                    assert(tf[i + 1] == t_loop[i + 1]);
                }
            }
            if i + 1 < nn {
            } else {
                assert(crate::container::spec_entry_offset(tf[i + 1], 2) == position as int);
            }
            // the exact region form gives the container model's looser one
            let lo = crate::container::spec_entry_offset(tf[i], 2);
            let hi = crate::container::spec_entry_offset(tf[i + 1], 2);
            let content = img.subrange(2048 * i, 2048 * (i + 1));
            let payload = spec_sector_payload(img, i, tf[i].compression_type);
            assert(cf.subrange(lo, hi) == payload + crate::bytes::spec_zeros(
                hi - lo - payload.len(),
            ));
            if !tf[i].compression_type {
                assert(cf.subrange(lo, hi).take(2048) =~= content);
            }
            assert(crate::container::spec_stored_matches(
                cf,
                lo,
                hi,
                2048,
                content,
                tf[i].compression_type,
            ));
        }
        assert forall|i: int|
            0 <= i < l as int implies #[trigger] crate::container::spec_entry_offset(tf[i], 2)
            >= base by {
            if i < nn {
                assert(spec_region_ok(cf, tf, img, nn, position as int, base, i)) by {
                    assert(spec_region_ok(cf, t_loop, img, nn, position as int, base, i));
                    assert(tf[i] == t_loop[i]);
                    if i + 1 < nn {
                        assert(tf[i + 1] == t_loop[i + 1]);
                    }
                }
            }
        }
        assert(crate::container::spec_container_models(cf, *header, tf, img));
        assert forall|i: int|
            0 <= i < nn implies #[trigger] spec_region_ok(
            cf,
            tf,
            img,
            nn,
            crate::container::spec_entry_offset(tf[nn], 2),
            base,
            i,
        ) by {
            assert(spec_region_ok(cf, tf, img, nn, position as int, base, i)) by {
                assert(spec_region_ok(cf, t_loop, img, nn, position as int, base, i));
                assert(tf[i] == t_loop[i]);
                if i + 1 < nn {
                    assert(tf[i + 1] == t_loop[i + 1]);
                }
            }
        }
        assert(spec_regions_ok(cf, tf, img, nn, crate::container::spec_entry_offset(tf[nn], 2), base));
    }
    Ok(())
}

/// Produces a complete container from a flat readable image: header first,
/// then every sector aligned and compressed where worthwhile, then the index
/// table over the reserved area behind the header.
pub fn write_ciso_image<I: SectorReader, O: AsyncWriter, PL: ProgressListener>(
    input: &mut I,
    output: &mut O,
    progress: &mut PL,
) -> (r: Result<(), CSOCreationError<I::ReadError, O::WriteError>>)
    requires
        old(input).inv(),
        old(output).inv(),
        old(output).contents() == Seq::<u8>::empty(),
        old(input).data().len() as int / 2048 + 1 <= usize::MAX,
        28 + 2070 * (old(input).data().len() as int / 2048 + 1) <= 0x2_0000_0000,
    ensures
        final(input).inv(),
        final(output).inv(),
        final(input).data() == old(input).data(),
        r is Ok ==> {
            let c = final(output).contents();
            let h = crate::layout::spec_parse_header(c.subrange(0, 24));
            let t = crate::index::spec_parse_table(
                c.subrange(24, 24 + 4 * h.spec_index_table_len()),
            );
            &&& c.len() >= 28
            &&& h == (crate::layout::CSOHeader {
                magic: crate::layout::CISO_MAGIC,
                header_size: crate::layout::HEADER_SIZE,
                uncompressed_size: old(input).data().len() as u64,
                block_size: 2048,
                version: 2,
                alignment: 2,
                reserved0: 0,
                reserved1: 0,
            })
            &&& crate::layout::spec_header_valid(h)
            &&& crate::container::spec_container_models(c, h, t, old(input).data())
            &&& forall|i: int|
                0 <= i < h.spec_index_table_len() - 1 ==> (#[trigger] t[i]).compression_type
                    == spec_sector_compressed(old(input).data(), i, 2048)
            &&& t[h.spec_index_table_len() - 1].compression_type == false
            &&& spec_regions_ok(
                c,
                t,
                old(input).data(),
                h.spec_index_table_len() - 1,
                crate::container::spec_entry_offset(t[h.spec_index_table_len() - 1], 2),
                24 + 4 * h.spec_index_table_len(),
            )
        },
        r is Ok ==> final(progress).events() == old(progress).events() + spec_encode_events(
            (old(input).data().len() as int / 2048 + 1) as usize,
        ),
        r is Err ==> exists|k: int|
            0 <= k < spec_encode_events(
                (old(input).data().len() as int / 2048 + 1) as usize,
            ).len() && final(progress).events() == old(progress).events()
                + #[trigger] spec_encode_events(
                (old(input).data().len() as int / 2048 + 1) as usize,
            ).take(k),
{
    let ghost full = spec_encode_events((old(input).data().len() as int / 2048 + 1) as usize);
    let size = match input.size() {
        Ok(size) => size,
        Err(e) => {
            proof {
                lemma_events_take(old(progress).events(), progress.events(), full, 0);
            }
            return Err(CSOCreationError::ReadError(e));
        },
    };
    let mut header = crate::layout::CSOHeader::new();
    header.uncompressed_size = size;
    let mut index_table = crate::index::IndexTable::new(&header);
    let l = index_table.len();
    progress.report(ProgressInfo::SectorCount(l));
    let header_bytes = header.serialize();
    let ghost c_empty = old(output).contents();
    proof {
        assert(l as int == full.len() - 2);
        assert(progress.events() =~= old(progress).events() + full.take(1));
    }
    match output.atomic_write(0, header_bytes.as_slice()) {
        Ok(()) => {},
        Err(e) => {
            proof {
                lemma_events_take(old(progress).events(), progress.events(), full, 1);
            }
            return Err(CSOCreationError::WriteError(e));
        },
    }
    proof {
        assert(output.contents() =~= header_bytes@);
    }
    let ghost events_mid = progress.events();
    match write_ciso_data(input, output, &header, &mut index_table, progress) {
        Ok(()) => {},
        Err(e) => {
            proof {
                let k = choose|k: int|
                    0 <= k <= l as int && progress.events() == events_mid
                        + #[trigger] spec_sector_finished_seq(k);
                assert(progress.events() =~= old(progress).events() + full.take(1 + k));
                lemma_events_take(old(progress).events(), progress.events(), full, 1 + k);
            }
            return Err(e);
        },
    }
    proof {
        assert(progress.events() =~= old(progress).events() + full.take(1 + l as int));
    }
    let ghost c_data = output.contents();
    let ghost t_data = index_table@;
    let table_bytes = index_table.serialize();
    match output.atomic_write(24, table_bytes.as_slice()) {
        Ok(()) => {},
        Err(e) => {
            proof {
                lemma_events_take(old(progress).events(), progress.events(), full, 1 + l as int);
            }
            return Err(CSOCreationError::WriteError(e));
        },
    }
    progress.report(ProgressInfo::Finished);
    proof {
        assert(full.take(full.len() as int) =~= full);
        assert(progress.events() =~= old(progress).events() + full);
    }
    proof {
        let c = output.contents();
        let ghost img = old(input).data();
        assert(c == write_at(c_data, 24, table_bytes@));
        assert(c_data.len() >= 24);
        assert(c.len() >= 24 + 4 * (l as int));
        // the header bytes are untouched and parse back to the header
        crate::bytes::lemma_write_at_preserves(c_data, 24, table_bytes@, 0, 24);
        assert(c.subrange(0, 24) == header_bytes@);
        crate::layout::lemma_header_round_trip(header);
        assert(crate::layout::spec_parse_header(c.subrange(0, 24)) == header);
        // the table bytes parse back to the recorded table
        assert(c.subrange(24, 24 + 4 * (l as int)) =~= table_bytes@);
        crate::index::lemma_table_round_trip(t_data);
        assert(crate::index::spec_parse_table(c.subrange(24, 24 + 4 * (l as int))) == t_data);
        // every stored sector region lies past the table and is untouched
        let n = header.uncompressed_size as int / 2048;
        assert(l as int == n + 1);
        assert(crate::container::spec_container_models(c_data, header, t_data, img));
        assert forall|i: int|
            0 <= i < n implies #[trigger] crate::container::spec_sector_matches(
            c,
            t_data,
            header.alignment as int,
            header.block_size as int,
            i,
            img.subrange(
                i * (header.block_size as int),
                (i + 1) * (header.block_size as int),
            ),
        ) by {
            assert(crate::container::spec_sector_matches(
                c_data,
                t_data,
                header.alignment as int,
                header.block_size as int,
                i,
                img.subrange(
                    i * (header.block_size as int),
                    (i + 1) * (header.block_size as int),
                ),
            ));
            let lo = crate::container::spec_entry_offset(t_data[i], 2);
            let hi = crate::container::spec_entry_offset(t_data[i + 1], 2);
            assert(lo >= 24 + 4 * (l as int));
            assert(hi >= 24 + 4 * (l as int));
            crate::bytes::lemma_write_at_preserves(c_data, 24, table_bytes@, lo, hi);
            assert(c.subrange(lo, hi) == c_data.subrange(lo, hi));
        }
        assert(crate::container::spec_container_models(c, header, t_data, img));
        // the exact stored regions survive the table write untouched
        let sentinel_end = crate::container::spec_entry_offset(t_data[n], 2);
        assert forall|i: int|
            0 <= i < n implies #[trigger] spec_region_ok(
            c,
            t_data,
            img,
            n,
            sentinel_end,
            24 + 4 * (l as int),
            i,
        ) by {
            assert(spec_region_ok(c_data, t_data, img, n, sentinel_end, 24 + 4 * (l as int), i));
            let lo = crate::container::spec_entry_offset(t_data[i], 2);
            let hi = if i + 1 < n {
                crate::container::spec_entry_offset(t_data[i + 1], 2)
            } else {
                sentinel_end
            };
            crate::bytes::lemma_write_at_preserves(c_data, 24, table_bytes@, lo, hi);
            assert(c.subrange(lo, hi) == c_data.subrange(lo, hi));
        }
        assert(spec_regions_ok(c, t_data, img, n, sentinel_end, 24 + 4 * (l as int)));
    }
    Ok(())
}

} // verus!
