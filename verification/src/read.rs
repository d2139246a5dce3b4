//! The decoder side: abstract reader contract.

use vstd::prelude::*;

verus! {

/// A sized, seekable byte source.  `data` abstracts the full underlying byte
/// sequence; a successful read returns exactly the requested range, and a
/// read past the end never succeeds.
pub trait Read: Sized {
    type ReadError;

    /// Abstraction relation the implementation maintains; without an
    /// override nothing is assumed of the implementation.
    open spec fn inv(&self) -> bool {
        false
    }

    /// The underlying bytes.
    open spec fn data(&self) -> Seq<u8> {
        Seq::<u8>::empty()
    }

    /// Reports the total size in bytes.
    fn size(&mut self) -> (r: Result<u64, Self::ReadError>)
        requires
            old(self).inv(),
        ensures
            final(self).inv(),
            final(self).data() == old(self).data(),
            r matches Ok(n) ==> n as int == old(self).data().len(),
    ;

    /// Fills all of `buf` from byte offset `pos`, or fails.
    fn read(&mut self, pos: u64, buf: &mut Vec<u8>) -> (r: Result<(), Self::ReadError>)
        requires
            old(self).inv(),
        ensures
            final(self).inv(),
            final(self).data() == old(self).data(),
            final(buf)@.len() == old(buf)@.len(),
            r is Ok && old(buf)@.len() > 0 ==> {
                &&& pos + old(buf)@.len() <= old(self).data().len()
                &&& final(buf)@ == old(self).data().subrange(
                    pos as int,
                    pos + old(buf)@.len(),
                )
            },
    ;
}

} // verus!

verus! {

/// Reads a container and serves arbitrary byte-range reads of the original
/// image, decompressing only the sectors a request touches.
pub struct CSOReader<R: Read> {
    read: R,
    header: crate::layout::CSOHeader,
    index_table: crate::index::IndexTable,
}

impl<R: Read> CSOReader<R> {
    /// The reader is well formed: a validated header, a sane geometry, and a
    /// table of one entry per sector plus the sentinel.
    pub closed spec fn wf(&self) -> bool {
        &&& self.read.inv()
        &&& crate::layout::spec_header_valid(self.header)
        &&& self.header.block_size > 0
        &&& self.header.alignment < 32
        &&& self.index_table@.len() == self.header.spec_index_table_len()
        &&& self.index_table.wf()
        &&& self.index_table@.len() >= 1
        &&& self.index_table@.len() <= usize::MAX
    }

    /// The parsed container header.
    pub closed spec fn spec_header(&self) -> crate::layout::CSOHeader {
        self.header
    }

    /// The parsed index table.
    pub closed spec fn table(&self) -> Seq<crate::layout::IndexTableEntry> {
        self.index_table@
    }

    /// The underlying container bytes.
    pub closed spec fn source(&self) -> Seq<u8> {
        self.read.data()
    }

    /// The number of image bytes covered by full sectors; reads must stay
    /// within this extent.
    pub open spec fn readable_size(&self) -> int {
        (self.table().len() - 1) * self.spec_header().block_size
    }

    /// Opens a container: reads and validates the 24-byte header, then reads
    /// and decodes the index table.  Fails with the header's own error for a
    /// bad header, with `InvalidHeader` for a geometry no reader can serve,
    /// and passes reader errors through.
    pub fn new(read: R) -> (r: Result<CSOReader<R>, crate::layout::Error<R::ReadError>>)
        requires
            read.inv(),
        ensures
            r matches Ok(s) ==> {
                &&& s.wf()
                &&& s.source() == read.data()
                &&& read.data().len() >= 24
                &&& s.spec_header() == crate::layout::spec_parse_header(
                    read.data().subrange(0, 24),
                )
                &&& s.table() == crate::index::spec_parse_table(
                    read.data().subrange(24, 24 + 4 * s.spec_header().spec_index_table_len()),
                )
            },
            r matches Err(crate::layout::Error::UnsupportedVersion) ==> read.data().len() >= 24
                && crate::layout::spec_parse_header(read.data().subrange(0, 24)).version != 2,
            r matches Err(crate::layout::Error::InvalidHeader) ==> read.data().len() >= 24 && {
                let h = crate::layout::spec_parse_header(read.data().subrange(0, 24));
                h.version == 2 && !(crate::layout::spec_header_valid(h) && h.block_size > 0
                    && h.alignment < 32 && h.spec_index_table_len() * 4 <= usize::MAX)
            },
            !(r matches Err(crate::layout::Error::CorruptBlock)),
    {
        let mut read = read;
        let mut header_buf = crate::bytes::zero_vec(24);
        match read.read(0, &mut header_buf) {
            Ok(()) => {},
            Err(e) => {
                return Err(crate::layout::Error::Other(e));
            },
        }
        let header = match crate::layout::CSOHeader::deserialize::<R::ReadError>(
            header_buf.as_slice(),
        ) {
            Ok(header) => header,
            Err(e) => {
                return Err(e);
            },
        };
        if header.block_size == 0 || header.alignment >= 32 {
            return Err(crate::layout::Error::InvalidHeader);
        }
        let quot: u64 = header.uncompressed_size / (header.block_size as u64);
        if quot >= u64::MAX || quot + 1 > (usize::MAX as u64) / 4 {
            return Err(crate::layout::Error::InvalidHeader);
        }
        let table_len: usize = (quot + 1) as usize;
        let mut table_buf = crate::bytes::zero_vec(4 * table_len);
        match read.read(24, &mut table_buf) {
            Ok(()) => {},
            Err(e) => {
                return Err(crate::layout::Error::Other(e));
            },
        }
        let index_table = crate::index::IndexTable::deserialize(table_buf);
        let out = CSOReader { read, header, index_table };
        Ok(out)
    }

    /// Total size in bytes of the original image, from the header.
    pub fn file_size(&self) -> (r: u64)
        ensures
            r == self.spec_header().uncompressed_size,
    {
        self.header.uncompressed_size
    }

    /// Fills `buf` with the image bytes starting at `pos`, resolving each
    /// touched sector through the index table; raw sectors are read
    /// directly, compressed sectors are fetched, re-framed and decompressed.
    /// Whatever image the underlying container stores, the bytes returned
    /// are exactly that image's bytes in `[pos, pos + buf.len())`.
    #[verifier::rlimit(100)]
    pub fn read_offset(&mut self, pos: u64, buf: &mut Vec<u8>) -> (r: Result<
        (),
        crate::layout::Error<R::ReadError>,
    >)
        requires
            old(self).wf(),
            pos + old(buf)@.len() <= old(self).readable_size(),
        ensures
            final(self).wf(),
            final(self).spec_header() == old(self).spec_header(),
            final(self).table() == old(self).table(),
            final(self).source() == old(self).source(),
            final(buf)@.len() == old(buf)@.len(),
            old(buf)@.len() == 0 ==> r is Ok,
            r is Ok ==> forall|img: Seq<u8>|
                #[trigger] crate::container::spec_container_models(
                    old(self).source(),
                    old(self).spec_header(),
                    old(self).table(),
                    img,
                ) ==> final(buf)@ == img.subrange(pos as int, pos + old(buf)@.len()),
            r matches Err(crate::layout::Error::CorruptBlock) ==> (forall|img: Seq<u8>|
                !#[trigger] crate::container::spec_container_models(
                    old(self).source(),
                    old(self).spec_header(),
                    old(self).table(),
                    img,
                )) || crate::container::spec_oversized_stored(
                old(self).table(),
                old(self).spec_header().alignment as int,
            ),
    {
        let ghost init: CSOReader<R> = *old(self);
        let ghost src = init.source();
        let ghost h = init.header;
        let ghost t = init.table();
        let ghost b = h.block_size as int;
        let ghost al = h.alignment as int;
        let ghost nn = t.len() - 1;
        let n: usize = buf.len();
        let block64: u64 = self.header.block_size as u64;
        let mut sector: u64 = pos / block64;
        let mut position: usize = (pos % block64) as usize;
        let mut len_remaining: usize = n;
        let mut buf_pos: usize = 0;
        proof {
            crate::split::lemma_div_basics(pos as int, b);
        }
        let sh: u64 = self.header.alignment as u64;
        proof {
            vstd::arithmetic::power2::lemma2_to64();
            vstd::arithmetic::power2::lemma_pow2_strictly_increases(al as nat, 32);
            vstd::bits::lemma_u64_shl_is_mul(1u64, sh);
        }
        let mult: u64 = 1u64 << sh;
        while len_remaining > 0
            invariant
                init == *old(self),
                self.wf(),
                self.header == h,
                self.index_table@ == t,
                self.read.data() == src,
                h == init.header,
                t == init.table(),
                src == init.source(),
                b == h.block_size as int,
                al == h.alignment as int,
                nn == t.len() - 1,
                block64 == h.block_size as u64,
                mult == vstd::arithmetic::power2::pow2(al as nat),
                mult >= 1,
                mult <= 0x1_0000_0000u64,
                n == buf@.len(),
                n == old(buf)@.len(),
                buf_pos + len_remaining == n,
                pos + n <= nn * b,
                len_remaining > 0 ==> pos + buf_pos == sector * b + position && position < b,
                forall|img: Seq<u8>|
                    #[trigger] crate::container::spec_container_models(src, h, t, img) ==> forall|
                        j: int,
                    |
                        0 <= j < buf_pos ==> buf@[j] == img[pos + j],
            decreases len_remaining,
        {
            proof {
                assert(sector < nn) by (nonlinear_arith)
                    requires
                        sector * b + position == pos + buf_pos,
                        pos + buf_pos < pos + n <= nn * b,
                        position >= 0,
                        b > 0,
                        sector >= 0,
                ;
            }
            let si: usize = sector as usize;
            let entry = self.index_table.get(si);
            let next = self.index_table.get(si + 1);
            if next.position < entry.position {
                proof {
                    // no image is modeled: the sector's stored range would
                    // have a negative length
                    assert forall|img: Seq<u8>|
                        !#[trigger] crate::container::spec_container_models(src, h, t, img) by {
                        if crate::container::spec_container_models(src, h, t, img) {
                            let content = img.subrange(sector * b, (sector + 1) * b);
                            assert(crate::container::spec_sector_matches(
                                src,
                                t,
                                al,
                                b,
                                sector as int,
                                content,
                            ));
                            assert(entry.position * mult <= next.position * mult);
                            assert(entry.position <= next.position) by (nonlinear_arith)
                                requires
                                    mult >= 1 && entry.position * mult <= next.position * mult,
                            ;
                        }
                    }
                }
                return Err(crate::layout::Error::CorruptBlock);
            }
            let delta: u32 = next.position - entry.position;
            proof {
                assert(entry.position * mult <= 0x7FFF_FFFFu64 * 0x1_0000_0000u64) by (
                nonlinear_arith)
                    requires
                        entry.position < 0x8000_0000 && 0 <= mult <= 0x1_0000_0000u64,
                ;
                assert(delta * mult <= 0x7FFF_FFFFu64 * 0x1_0000_0000u64) by (nonlinear_arith)
                    requires
                        delta < 0x8000_0000 && 0 <= mult <= 0x1_0000_0000u64,
                ;
            }
            let sector_pos: u64 = entry.position as u64 * mult;
            let data_len: u64 = delta as u64 * mult;
            let ghost start = crate::container::spec_entry_offset(t[sector as int], al);
            let ghost end = crate::container::spec_entry_offset(t[sector as int + 1], al);
            proof {
                assert(start == sector_pos as int);
                assert(end - start == data_len as int) by (nonlinear_arith)
                    requires
                        end == next.position * mult,
                        start == entry.position * mult,
                        data_len == delta * mult,
                        delta == next.position - entry.position,
                ;
            }
            let block_usize: usize = self.header.block_size as usize;
            let avail: usize = block_usize - position;
            let to_read: usize = if len_remaining < avail {
                len_remaining
            } else {
                avail
            };
            let ghost buf_snap = buf@;
            if !entry.compression_type {
                // raw sector: fetch only the needed span from the stored range
                if data_len < block64 {
                    proof {
                        // no image is modeled: a raw stored range covers a
                        // whole block
                        assert forall|img: Seq<u8>|
                            !#[trigger] crate::container::spec_container_models(src, h, t, img) by {
                            if crate::container::spec_container_models(src, h, t, img) {
                                let content = img.subrange(sector * b, (sector + 1) * b);
                                assert(crate::container::spec_sector_matches(
                                    src,
                                    t,
                                    al,
                                    b,
                                    sector as int,
                                    content,
                                ));
                                assert(end - start >= b);
                            }
                        }
                    }
                    return Err(crate::layout::Error::CorruptBlock);
                }
                let mut tmp = crate::bytes::zero_vec(to_read);
                match self.read.read(sector_pos + position as u64, &mut tmp) {
                    Ok(()) => {},
                    Err(e) => {
                        return Err(crate::layout::Error::Other(e));
                    },
                }
                let mut k: usize = 0;
                while k < to_read
                    invariant
                        k <= to_read,
                        to_read <= tmp@.len(),
                        buf@.len() == buf_snap.len(),
                        buf_snap.len() == n,
                        buf_pos + to_read <= buf_snap.len(),
                        forall|j: int|
                            buf_pos <= j < buf_pos + k ==> buf@[j] == tmp@[j - buf_pos],
                        forall|j: int|
                            (0 <= j < buf_pos || buf_pos + k <= j < buf_snap.len()) ==> buf@[j]
                                == buf_snap[j],
                    decreases to_read - k,
                {
                    buf.set(buf_pos + k, tmp[k]);
                    k = k + 1;
                }
                proof {
                    assert forall|img: Seq<u8>|
                        #[trigger] crate::container::spec_container_models(src, h, t, img) implies
                        forall|j: int| 0 <= j < buf_pos + to_read ==> buf@[j] == img[pos + j] by {
                        let content = img.subrange(sector * b, (sector + 1) * b);
                        assert(crate::container::spec_sector_matches(
                            src,
                            t,
                            al,
                            b,
                            sector as int,
                            content,
                        ));
                        crate::split::lemma_mul_step(sector as int, b);
                        assert((sector + 1) * b <= nn * b) by (nonlinear_arith)
                            requires
                                sector as int + 1 <= nn && b > 0,
                        ;
                        assert(nn * b <= img.len()) by {
                            crate::split::lemma_div_basics(h.uncompressed_size as int, b);
                        }
                        assert forall|j: int|
                            0 <= j < buf_pos + to_read implies buf@[j] == img[pos + j] by {
                            if j < buf_pos {
                                assert(buf@[j] == buf_snap[j]);
                            } else {
                                let o = j - buf_pos;
                                assert(buf@[j] == tmp@[o]);
                                assert(tmp@[o] == src[sector_pos + position + o]);
                                assert(src.subrange(start, end).take(b)[position + o] == src[start
                                    + position + o]);
                                assert(content[position + o] == src[start + position + o]);
                                assert(content[position + o] == img[sector * b + (position + o)]);
                                assert(img[sector * b + position + o] == content[position + o]);
                                assert(sector * b + position + o == pos + j);
                            }
                        }
                    }
                }
                buf_pos = buf_pos + to_read;
                len_remaining = len_remaining - to_read;
            } else {
                // compressed sector: fetch the stored frame body, rebuild the
                // envelope, decompress the whole block, copy the needed span
                if data_len > (usize::MAX as u64) {
                    proof {
                        assert((sector as int) < t.len() - 1);
                        assert(crate::container::spec_oversized_stored(t, al)) by {
                            assert(crate::container::spec_entry_offset(t[sector as int], al)
                                == start);
                        }
                    }
                    return Err(crate::layout::Error::CorruptBlock);
                }
                let dl: usize = data_len as usize;
                let mut tmp = crate::bytes::zero_vec(dl);
                match self.read.read(sector_pos, &mut tmp) {
                    Ok(()) => {},
                    Err(e) => {
                        return Err(crate::layout::Error::Other(e));
                    },
                }
                let ghost tmp_view = tmp@;
                let mut frame: Vec<u8> = Vec::new();
                frame.push(0x04);
                frame.push(0x22);
                frame.push(0x4D);
                frame.push(0x18);
                frame.push(0x60);
                frame.push(0x40);
                frame.push(0x82);
                frame.append(&mut tmp);
                frame.push(0);
                frame.push(0);
                frame.push(0);
                frame.push(0);
                proof {
                    assert(frame@ =~= crate::lz4::spec_lz4_prefix() + tmp_view
                        + crate::lz4::spec_lz4_suffix());
                }
                let out = match crate::lz4::lz4_decompress_frame(&frame) {
                    Some(out) => out,
                    None => {
                        proof {
                            // no image is modeled: a modeled frame always
                            // decompresses
                            assert forall|img: Seq<u8>|
                                !#[trigger] crate::container::spec_container_models(
                                    src,
                                    h,
                                    t,
                                    img,
                                ) by {
                                if crate::container::spec_container_models(src, h, t, img) {
                                    let content = img.subrange(sector * b, (sector + 1) * b);
                                    assert(crate::container::spec_sector_matches(
                                        src,
                                        t,
                                        al,
                                        b,
                                        sector as int,
                                        content,
                                    ));
                                    if dl == 0 {
                                        assert(tmp_view =~= src.subrange(start, end));
                                    } else {
                                        assert(tmp_view == src.subrange(start, end));
                                    }
                                    let body = crate::lz4::lz4_body_of(content);
                                    let pad = tmp_view.len() - body.len();
                                    assert(frame@ =~= crate::lz4::spec_lz4_prefix() + body
                                        + crate::bytes::spec_zeros(pad + 4));
                                }
                            }
                        }
                        return Err(crate::layout::Error::CorruptBlock);
                    },
                };
                if out.len() != block_usize {
                    proof {
                        // no image is modeled: a modeled frame decompresses
                        // to exactly one block
                        assert forall|img: Seq<u8>|
                            !#[trigger] crate::container::spec_container_models(src, h, t, img) by {
                            if crate::container::spec_container_models(src, h, t, img) {
                                let content = img.subrange(sector * b, (sector + 1) * b);
                                assert(crate::container::spec_sector_matches(
                                    src,
                                    t,
                                    al,
                                    b,
                                    sector as int,
                                    content,
                                ));
                                if dl == 0 {
                                    assert(tmp_view =~= src.subrange(start, end));
                                } else {
                                    assert(tmp_view == src.subrange(start, end));
                                }
                                let body = crate::lz4::lz4_body_of(content);
                                let pad = tmp_view.len() - body.len();
                                assert(frame@ =~= crate::lz4::spec_lz4_prefix() + body
                                    + crate::bytes::spec_zeros(pad + 4));
                                assert(out@ == content);
                            }
                        }
                    }
                    return Err(crate::layout::Error::CorruptBlock);
                }
                let mut k: usize = 0;
                while k < to_read
                    invariant
                        k <= to_read,
                        position + to_read <= out@.len(),
                        out@.len() <= usize::MAX,
                        buf@.len() == buf_snap.len(),
                        buf_snap.len() == n,
                        buf_pos + to_read <= buf_snap.len(),
                        forall|j: int|
                            buf_pos <= j < buf_pos + k ==> buf@[j] == out@[position + j - buf_pos],
                        forall|j: int|
                            (0 <= j < buf_pos || buf_pos + k <= j < buf_snap.len()) ==> buf@[j]
                                == buf_snap[j],
                    decreases to_read - k,
                {
                    buf.set(buf_pos + k, out[position + k]);
                    k = k + 1;
                }
                proof {
                    assert forall|img: Seq<u8>|
                        #[trigger] crate::container::spec_container_models(src, h, t, img) implies
                        forall|j: int| 0 <= j < buf_pos + to_read ==> buf@[j] == img[pos + j] by {
                        let content = img.subrange(sector * b, (sector + 1) * b);
                        assert(crate::container::spec_sector_matches(
                            src,
                            t,
                            al,
                            b,
                            sector as int,
                            content,
                        ));
                        if dl == 0 {
                            assert(tmp_view =~= src.subrange(start, end));
                        } else {
                            assert(tmp_view == src.subrange(start, end));
                        }
                        let body = crate::lz4::lz4_body_of(content);
                        let pad = tmp_view.len() - body.len();
                        assert(frame@ =~= crate::lz4::spec_lz4_prefix() + body
                            + crate::bytes::spec_zeros(pad + 4));
                        assert(out@ == content);
                        crate::split::lemma_mul_step(sector as int, b);
                        assert((sector + 1) * b <= nn * b) by (nonlinear_arith)
                            requires
                                sector as int + 1 <= nn && b > 0,
                        ;
                        assert(nn * b <= img.len()) by {
                            crate::split::lemma_div_basics(h.uncompressed_size as int, b);
                        }
                        assert forall|j: int|
                            0 <= j < buf_pos + to_read implies buf@[j] == img[pos + j] by {
                            if j < buf_pos {
                                assert(buf@[j] == buf_snap[j]);
                            } else {
                                let o = j - buf_pos;
                                assert(buf@[j] == out@[position + o]);
                                assert(content[position + o] == img[sector * b + (position + o)]);
                                assert(img[sector * b + position + o] == content[position + o]);
                                assert(sector * b + position + o == pos + j);
                            }
                        }
                    }
                }
                buf_pos = buf_pos + to_read;
                len_remaining = len_remaining - to_read;
            }
            proof {
                if len_remaining > 0 {
                    assert(pos + buf_pos == (sector + 1) * b) by (nonlinear_arith)
                        requires
                            pos + buf_pos - to_read == sector * b + position && to_read == b
                                - position,
                    ;
                }
            }
            position = 0;
            sector = sector + 1;
        }
        proof {
            assert forall|img: Seq<u8>|
                #[trigger] crate::container::spec_container_models(src, h, t, img) implies buf@
                == img.subrange(pos as int, pos + n) by {
                assert(img.len() == h.uncompressed_size);
                assert(pos + n <= img.len()) by {
                    assert(nn == h.uncompressed_size as int / b);
                    crate::split::lemma_div_basics(h.uncompressed_size as int, b);
                }
                assert(buf@ =~= img.subrange(pos as int, pos + n));
            }
        }
        Ok(())
    }
}

} // verus!
