//! Split address-space mapper: presents several bounded physical files as
//! one contiguous virtual byte range, on the write side and on the read side.

use vstd::prelude::*;

use crate::bytes;
use crate::bytes::write_at;
use crate::write::AsyncWriter;

verus! {

/// Size of one split window: the largest file size permitted by legacy
/// FAT-style filesystems, minus a small margin.
pub const FILE_SPLIT_POINT: u64 = 0xffbf6000;

/// Creates and releases named byte sinks; implemented by the caller's
/// filesystem layer.  Names are plain bytes (ASCII file names).
pub trait SplitFilesystem<H: AsyncWriter>: Sized {
    /// Abstraction relation the implementation maintains; without an
    /// override nothing is assumed of the implementation.
    open spec fn inv(&self) -> bool {
        false
    }

    /// Names of the sinks created so far, in creation order; without an
    /// override nothing is tracked.
    open spec fn created(&self) -> Seq<Seq<u8>> {
        Seq::<Seq<u8>>::empty()
    }

    /// Contents of the sinks released so far, in release order; without an
    /// override nothing is tracked.
    open spec fn released(&self) -> Seq<Seq<u8>> {
        Seq::<Seq<u8>>::empty()
    }

    /// Creates a fresh, empty sink under `name`.
    fn create_file(&mut self, name: &Vec<u8>) -> (r: Result<H, H::WriteError>)
        requires
            old(self).inv(),
        ensures
            final(self).inv(),
            final(self).released() == old(self).released(),
            r matches Ok(f) ==> {
                &&& f.inv()
                &&& f.contents() == Seq::<u8>::empty()
                &&& final(self).created() == old(self).created().push(name@)
            },
            r is Err ==> final(self).created() == old(self).created(),
    ;

    /// Releases a sink, recording its bytes.
    fn close(&mut self, file: H)
        requires
            old(self).inv(),
        ensures
            final(self).inv(),
            final(self).created() == old(self).created(),
            final(self).released() == old(self).released().push(file.contents()),
    ;
}

/// The bytes of window `i` after writing `d` at virtual offset `pos`, given
/// the window's previous bytes `wold`, a window size `w`, and window-relative
/// sink offsets.
pub open spec fn spec_window_write(wold: Seq<u8>, i: int, w: int, pos: int, d: Seq<u8>) -> Seq<u8> {
    let lo = if pos > i * w {
        pos
    } else {
        i * w
    };
    let hi = if pos + d.len() < (i + 1) * w {
        pos + d.len()
    } else {
        (i + 1) * w
    };
    if hi <= lo {
        wold
    } else {
        write_at(wold, lo - i * w, d.subrange(lo - pos, hi - pos))
    }
}

/// Number of windows after writing `dlen` bytes at `pos` over `oldc` windows.
pub open spec fn spec_window_count_after(oldc: int, w: int, pos: int, dlen: int) -> int {
    if dlen == 0 {
        oldc
    } else {
        let last = (pos + dlen - 1) / w;
        if last + 1 > oldc {
            last + 1
        } else {
            oldc
        }
    }
}

/// The byte at `v`, or zero past the end.
pub open spec fn byte_or_zero(s: Seq<u8>, v: int) -> u8 {
    if 0 <= v < s.len() {
        s[v]
    } else {
        0u8
    }
}

/// The virtual contents assembled from per-window byte sequences of window
/// size `w`: window `i` serves bytes `[i * w, (i + 1) * w)`, bytes no window
/// covers are zero, and the extent ends with the last window.
pub open spec fn spec_assembled(ws: Seq<Seq<u8>>, w: int) -> Seq<u8>
    recommends
        w > 0,
{
    if ws.len() == 0 {
        Seq::<u8>::empty()
    } else {
        let n = (ws.len() - 1) * w + ws.last().len();
        Seq::new(n as nat, |v: int| byte_or_zero(ws[v / w], v - (v / w) * w))
    }
}

/// `q * w <= p < (q + 1) * w` exactly when `q == p / w`, for positive `w`.
pub proof fn lemma_div_range(p: int, w: int, q: int)
    requires
        w > 0,
        q * w <= p < (q + 1) * w,
    ensures
        p / w == q,
        p % w == p - q * w,
{
    assert(p / w == q && p % w == p - q * w) by (nonlinear_arith)
        requires
            w > 0 && q * w <= p < (q + 1) * w,
    ;
}

/// Division and remainder bounds for positive `w`.
pub proof fn lemma_div_basics(p: int, w: int)
    requires
        p >= 0,
        w > 0,
    ensures
        (p / w) * w <= p < (p / w) * w + w,
        p / w >= 0,
        p % w == p - (p / w) * w,
        0 <= p % w < w,
{
    assert((p / w) * w <= p < (p / w) * w + w) by (nonlinear_arith)
        requires
            p >= 0 && w > 0,
    ;
    assert(p / w >= 0) by (nonlinear_arith)
        requires
            p >= 0 && w > 0,
    ;
    assert(p % w == p - (p / w) * w) by (nonlinear_arith)
        requires
            p >= 0 && w > 0,
    ;
    assert(0 <= p % w < w) by (nonlinear_arith)
        requires
            p >= 0 && w > 0,
    ;
}

/// Alignment arithmetic on multiples of four.
pub proof fn lemma_align4(p: int)
    requires
        p >= 0,
    ensures
        0 <= p % 4 < 4,
        p % 4 == 0 ==> (p / 4) * 4 == p,
        p % 4 != 0 ==> (p + 4 - p % 4) % 4 == 0,
        p < 0x2_0000_0000 && p % 4 == 0 ==> p / 4 < 0x8000_0000,
{
    assert(0 <= p % 4 < 4 && (p % 4 == 0 ==> (p / 4) * 4 == p) && (p % 4 != 0 ==> (p + 4 - p % 4)
        % 4 == 0) && (p < 0x2_0000_0000 && p % 4 == 0 ==> p / 4 < 0x8000_0000)) by (
    nonlinear_arith)
        requires
            p >= 0,
    ;
}

/// `(a + 1) * w == a * w + w`.
pub proof fn lemma_mul_step(a: int, w: int)
    ensures
        (a + 1) * w == a * w + w,
        (a - 1) * w == a * w - w,
{
    assert((a + 1) * w == a * w + w && (a - 1) * w == a * w - w) by (nonlinear_arith);
}

/// Per-window writes assemble to one flat write: if every window changed as
/// `spec_window_write` says and the window count grew to cover the write,
/// the assembled contents change as `write_at` says.
proof fn lemma_assembled_after_write(wb: Seq<Seq<u8>>, wa: Seq<Seq<u8>>, w: int, pos: int, d: Seq<
    u8,
>)
    requires
        w > 0,
        0 <= pos,
        forall|i: int| 0 <= i < wb.len() ==> (#[trigger] wb[i]).len() <= w,
        forall|i: int| 0 <= i < wa.len() ==> (#[trigger] wa[i]).len() <= w,
        wa.len() == spec_window_count_after(wb.len() as int, w, pos, d.len() as int),
        forall|i: int|
            0 <= i < wa.len() ==> #[trigger] wa[i] == spec_window_write(
                (if i < wb.len() {
                    wb[i]
                } else {
                    Seq::<u8>::empty()
                }),
                i,
                w,
                pos,
                d,
            ),
    ensures
        spec_assembled(wa, w) == write_at(spec_assembled(wb, w), pos, d),
{
    let before = spec_assembled(wb, w);
    let after = spec_assembled(wa, w);
    let target = write_at(before, pos, d);
    let oldc = wb.len() as int;
    let newc = wa.len() as int;
    if d.len() == 0 {
        assert forall|i: int| 0 <= i < newc implies wa[i] == (if i < wb.len() {
            wb[i]
        } else {
            Seq::<u8>::empty()
        }) by {
            let base = if i < wb.len() {
                wb[i]
            } else {
                Seq::<u8>::empty()
            };
            assert(wa[i] == spec_window_write(base, i, w, pos, d));
            assert(i * w <= (i + 1) * w) by (nonlinear_arith)
                requires
                    w > 0,
            ;
        }
        assert(wa =~= wb);
        assert(after =~= target);
        return ;
    }
    let last = (pos + d.len() - 1) / w;
    lemma_div_basics(pos + d.len() - 1, w);
    lemma_mul_step(last, w);
    // lengths of the assembled sequences
    assert(newc == if last + 1 > oldc {
        last + 1
    } else {
        oldc
    });
    assert forall|v: int| 0 <= v < after.len() implies after[v] == target_byte(
        before,
        pos,
        d,
        v,
    ) by {
        let i = v / w;
        lemma_div_basics(v, w);
        lemma_mul_step(i, w);
        lemma_mul_step(newc - 1, w);
        lemma_mul_step(oldc - 1, w);
        assert(i < newc) by {
            if i >= newc {
                assert(v >= i * w >= newc * w) by (nonlinear_arith)
                    requires
                        w > 0 && v >= i * w && i >= newc && v / w == i && i * w <= v,
                ;
                assert(after.len() <= newc * w) by {
                    assert((newc - 1) * w + wa.last().len() <= newc * w) by (nonlinear_arith)
                        requires
                            w > 0 && wa.last().len() <= w && newc >= 1,
                    ;
                }
            }
        }
        let base = if i < oldc {
            wb[i]
        } else {
            Seq::<u8>::empty()
        };
        assert(wa[i] == spec_window_write(base, i, w, pos, d));
        let k = v - i * w;
        assert(0 <= k < w);
        let lo = if pos > i * w {
            pos
        } else {
            i * w
        };
        let hi = if pos + d.len() < (i + 1) * w {
            pos + d.len()
        } else {
            (i + 1) * w
        };
        assert(after[v] == byte_or_zero(wa[i], k));
        if pos <= v < pos + d.len() {
            assert(lo <= v < hi);
            assert(wa[i] == write_at(base, lo - i * w, d.subrange(lo - pos, hi - pos)));
            assert(byte_or_zero(wa[i], k) == d[v - pos]);
        } else {
            // outside the written range the window byte is the old assembled
            // byte, or a zero past the old extent
            if hi <= lo {
                assert(wa[i] == base);
            } else {
                assert(wa[i] == write_at(base, lo - i * w, d.subrange(lo - pos, hi - pos)));
                assert(!(lo <= v < hi));
                assert(byte_or_zero(wa[i], k) == byte_or_zero(base, k));
            }
            assert(byte_or_zero(wa[i], k) == byte_or_zero(base, k));
            if v < before.len() {
                assert(oldc >= 1);
                assert(i < oldc) by {
                    if i >= oldc {
                        assert(v >= i * w >= oldc * w) by (nonlinear_arith)
                            requires
                                w > 0 && i >= oldc && i * w <= v,
                        ;
                        assert((oldc - 1) * w + wb.last().len() <= oldc * w) by (nonlinear_arith)
                            requires
                                w > 0 && wb.last().len() <= w && oldc >= 1,
                        ;
                    }
                }
                assert(before[v] == byte_or_zero(wb[i], k));
                assert(byte_or_zero(base, k) == before[v]);
            } else {
                // past the old extent: either no old window, or beyond the
                // old window's bytes, so the byte is zero
                if i < oldc {
                    assert(oldc >= 1);
                    if k < wb[i].len() {
                        if i < oldc - 1 {
                            assert(before.len() == (oldc - 1) * w + wb.last().len());
                            assert(v == i * w + k < (i + 1) * w <= (oldc - 1) * w) by (
                            nonlinear_arith)
                                requires
                                    w > 0 && k < w && i < oldc - 1 && v == i * w + k,
                            ;
                            assert(v < before.len());
                        } else {
                            assert(before.len() == (oldc - 1) * w + wb[i].len());
                            assert(v == i * w + k < (oldc - 1) * w + wb[i].len()) by (
                            nonlinear_arith)
                                requires
                                    w > 0 && i == oldc - 1 && k < wb[i].len() && v == i * w + k,
                            ;
                            assert(v < before.len());
                        }
                        assert(false);
                    }
                    assert(byte_or_zero(base, k) == 0u8);
                } else {
                    assert(byte_or_zero(base, k) == 0u8);
                }
            }
        }
    }
    // equal lengths
    assert(after.len() == target.len()) by {
        lemma_assembled_len(wb, wa, w, pos, d);
    }
    assert(after =~= target);
}

/// The byte of `write_at(before, pos, d)` at `v`.
pub open spec fn target_byte(before: Seq<u8>, pos: int, d: Seq<u8>, v: int) -> u8 {
    if pos <= v < pos + d.len() {
        d[v - pos]
    } else if 0 <= v < before.len() {
        before[v]
    } else {
        0u8
    }
}

/// Length part of `lemma_assembled_after_write`.
proof fn lemma_assembled_len(wb: Seq<Seq<u8>>, wa: Seq<Seq<u8>>, w: int, pos: int, d: Seq<u8>)
    requires
        w > 0,
        0 <= pos,
        d.len() > 0,
        forall|i: int| 0 <= i < wb.len() ==> (#[trigger] wb[i]).len() <= w,
        forall|i: int| 0 <= i < wa.len() ==> (#[trigger] wa[i]).len() <= w,
        wa.len() == spec_window_count_after(wb.len() as int, w, pos, d.len() as int),
        forall|i: int|
            0 <= i < wa.len() ==> #[trigger] wa[i] == spec_window_write(
                (if i < wb.len() {
                    wb[i]
                } else {
                    Seq::<u8>::empty()
                }),
                i,
                w,
                pos,
                d,
            ),
    ensures
        spec_assembled(wa, w).len() == write_at(spec_assembled(wb, w), pos, d).len(),
{
    let before = spec_assembled(wb, w);
    let oldc = wb.len() as int;
    let newc = wa.len() as int;
    let last = (pos + d.len() - 1) / w;
    lemma_div_basics(pos + d.len() - 1, w);
    lemma_mul_step(last, w);
    lemma_mul_step(oldc - 1, w);
    lemma_mul_step(oldc, w);
    assert(last * w <= pos + d.len() - 1 < (last + 1) * w);
    let tlen = if pos + d.len() > before.len() {
        pos + d.len()
    } else {
        before.len() as int
    };
    if last + 1 > oldc {
        // the write extends the window set; the last window ends the extent
        assert(newc == last + 1);
        let base = if last < oldc {
            wb[last]
        } else {
            Seq::<u8>::empty()
        };
        let lo = if pos > last * w {
            pos
        } else {
            last * w
        };
        let hi = pos + d.len();
        assert(hi > last * w);
        assert(lo <= pos + d.len() - 1);
        if last < oldc {
            // then oldc == last + 1 > last, contradiction with last + 1 > oldc
            assert(false);
        }
        assert(base.len() == 0);
        assert(lo < hi);
        assert(wa[last] == write_at(base, lo - last * w, d.subrange(lo - pos, hi - pos)));
        assert(wa[last].len() == hi - last * w);
        assert(spec_assembled(wa, w).len() == (newc - 1) * w + wa.last().len());
        assert(spec_assembled(wa, w).len() == pos + d.len());
        if oldc == 0 {
            assert(before.len() == 0);
        } else {
            assert(before.len() == (oldc - 1) * w + wb.last().len());
            assert((oldc - 1) * w + wb.last().len() <= oldc * w <= last * w <= pos + d.len() - 1)
                by (nonlinear_arith)
                requires
                    w > 0 && wb.last().len() <= w && oldc >= 1 && oldc <= last && last * w <= pos
                        + d.len() - 1,
            ;
        }
        assert(tlen == pos + d.len());
    } else {
        // interior write: the window set and the extent are unchanged
        assert(newc == oldc);
        assert(oldc >= 1);
        let base = wb[oldc - 1];
        let lo = if pos > (oldc - 1) * w {
            pos
        } else {
            (oldc - 1) * w
        };
        let hi = if pos + d.len() < oldc * w {
            pos + d.len()
        } else {
            oldc * w
        };
        assert(wa[oldc - 1] == spec_window_write(base, oldc - 1, w, pos, d));
        if hi <= lo {
            assert(wa[oldc - 1] == base);
        } else {
            assert(hi <= pos + d.len());
            assert(wa[oldc - 1] == write_at(base, lo - (oldc - 1) * w, d.subrange(lo - pos, hi
                - pos)));
            assert(pos + d.len() - 1 < (last + 1) * w <= oldc * w) by (nonlinear_arith)
                requires
                    w > 0 && pos + d.len() - 1 < (last + 1) * w && last + 1 <= oldc,
            ;
            assert(hi == pos + d.len());
            assert(wa[oldc - 1].len() == if hi - (oldc - 1) * w > base.len() {
                hi - (oldc - 1) * w
            } else {
                base.len() as int
            });
        }
        assert(spec_assembled(wa, w).len() == (oldc - 1) * w + wa[oldc - 1].len());
        assert(before.len() == (oldc - 1) * w + base.len());
        if pos + d.len() > before.len() {
            assert(pos + d.len() - 1 < (last + 1) * w <= oldc * w) by (nonlinear_arith)
                requires
                    w > 0 && pos + d.len() - 1 < (last + 1) * w && last + 1 <= oldc,
            ;
            assert(hi == pos + d.len());
            assert(hi - (oldc - 1) * w > base.len());
            assert(lo < hi);
            assert(spec_assembled(wa, w).len() == pos + d.len());
        } else {
            if hi <= lo {
                assert(spec_assembled(wa, w).len() == before.len());
            } else {
                assert(hi == if pos + d.len() < oldc * w {
                    pos + d.len()
                } else {
                    oldc * w
                });
                assert(hi - (oldc - 1) * w <= base.len() || wa[oldc - 1].len() == base.len()) by {
                    if hi - (oldc - 1) * w > base.len() {
                        assert(pos + d.len() > (oldc - 1) * w + base.len());
                    }
                }
                assert(spec_assembled(wa, w).len() == before.len());
            }
        }
    }
}

/// Maps `atomic_write(virtual_offset, bytes)` onto per-window sinks of a
/// fixed maximum size, creating sinks on first touch.  Sink `i` receives the
/// bytes of virtual window `[i * split, (i + 1) * split)` at window-relative
/// offsets.
pub struct SplitOutput<H: AsyncWriter, S: SplitFilesystem<H>> {
    fs: S,
    file_name: Vec<u8>,
    split_point: u64,
    splits: Vec<H>,
}

impl<H: AsyncWriter, S: SplitFilesystem<H>> SplitOutput<H, S> {
    /// The window size in bytes.
    pub closed spec fn split_size(&self) -> int {
        self.split_point as int
    }

    /// Number of sinks created so far.
    pub closed spec fn window_count(&self) -> int {
        self.splits@.len() as int
    }

    /// The bytes of sink `i`.
    pub closed spec fn window(&self, i: int) -> Seq<u8> {
        self.splits@[i].contents()
    }

    /// The per-window byte sequences, in window order.
    pub closed spec fn windows(&self) -> Seq<Seq<u8>> {
        Seq::new(self.splits@.len(), |i: int| self.splits@[i].contents())
    }

    /// The base file name the part names derive from.
    pub closed spec fn base_name(&self) -> Seq<u8> {
        self.file_name@
    }

    /// The creation log of the underlying filesystem.
    pub closed spec fn fs_created(&self) -> Seq<Seq<u8>> {
        self.fs.created()
    }

    /// The release log of the underlying filesystem.
    pub closed spec fn fs_released(&self) -> Seq<Seq<u8>> {
        self.fs.released()
    }

    /// A mapper over `fs` with the default window size.
    pub fn new(fs: S, file_name: Vec<u8>) -> (out: SplitOutput<H, S>)
        requires
            fs.inv(),
        ensures
            out.inv(),
            out.window_count() == 0,
            out.contents() == Seq::<u8>::empty(),
            out.split_size() == FILE_SPLIT_POINT,
            out.base_name() == file_name@,
    {
        SplitOutput { fs, file_name, split_point: FILE_SPLIT_POINT, splits: Vec::new() }
    }

    /// A mapper with a caller-chosen window size.
    pub fn new_with_split_point(fs: S, file_name: Vec<u8>, split_point: u64) -> (out: SplitOutput<
        H,
        S,
    >)
        requires
            fs.inv(),
            split_point > 0,
        ensures
            out.inv(),
            out.window_count() == 0,
            out.contents() == Seq::<u8>::empty(),
            out.split_size() == split_point,
            out.base_name() == file_name@,
    {
        SplitOutput { fs, file_name, split_point, splits: Vec::new() }
    }

    /// The name of part `index`: the base file name with its extension
    /// replaced by `{index + 1}.cso` (appended when the name has no
    /// extension), so a reader can reconstruct the whole set from the base
    /// name and an increasing index probe.
    pub fn split_name(&self, index: u64) -> (out: Vec<u8>)
        requires
            index < u64::MAX,
        ensures
            out@ == spec_split_name(self.base_name(), index as int),
    {
        let len: usize = self.file_name.len();
        let mut dot: usize = len;
        let mut j: usize = 0;
        while j < len
            invariant
                j <= len,
                len == self.file_name@.len(),
                dot == len || (dot < j && self.file_name@[dot as int] == 0x2E),
                forall|m: int| dot < m < j && m != dot ==> self.file_name@[m] != 0x2E,
                dot == len ==> forall|m: int| 0 <= m < j ==> self.file_name@[m] != 0x2E,
            decreases len - j,
        {
            if self.file_name[j] == 0x2E {
                dot = j;
            }
            j = j + 1;
        }
        let stem_end: usize = if dot == len {
            len
        } else {
            dot
        };
        let mut out = bytes::subvec(self.file_name.as_slice(), 0, stem_end);
        proof {
            if dot == len {
                assert(!spec_has_dot(self.file_name@));
                assert(out@ =~= spec_stem(self.file_name@));
            } else {
                assert(spec_has_dot(self.file_name@));
                lemma_chop_take(self.file_name@, dot as int);
                assert(out@ =~= spec_stem(self.file_name@));
            }
        }
        out.push(0x2E);
        let mut digits = u64_decimal(index + 1);
        out.append(&mut digits);
        out.push(0x2E);
        out.push(0x63);
        out.push(0x73);
        out.push(0x6F);
        proof {
            assert(out@ =~= spec_split_name(self.base_name(), index as int));
        }
        out
    }

    /// Creates sinks up to and including window `w`, in ascending order.
    fn ensure_window(&mut self, w: u64) -> (r: Result<(), H::WriteError>)
        requires
            old(self).inv(),
            w < u64::MAX,
        ensures
            final(self).inv(),
            final(self).split_size() == old(self).split_size(),
            final(self).base_name() == old(self).base_name(),
            final(self).window_count() >= old(self).window_count(),
            forall|i: int|
                0 <= i < old(self).window_count() ==> final(self).window(i) == old(self).window(i),
            forall|i: int|
                old(self).window_count() <= i < final(self).window_count() ==> final(self).window(
                    i,
                ) == Seq::<u8>::empty(),
            final(self).window_count() <= (if w + 1 > old(self).window_count() {
                w + 1
            } else {
                old(self).window_count()
            }),
            final(self).fs_released() == old(self).fs_released(),
            r is Ok ==> final(self).window_count() == (if w + 1 > old(self).window_count() {
                w + 1
            } else {
                old(self).window_count()
            }),
            r is Ok ==> final(self).fs_created() == old(self).fs_created() + Seq::new(
                (final(self).window_count() - old(self).window_count()) as nat,
                |j: int| spec_split_name(old(self).base_name(), old(self).window_count() + j),
            ),
    {
        proof {
            assert(self.fs.created() =~= old(self).fs.created() + Seq::new(
                (self.window_count() - old(self).window_count()) as nat,
                |j: int| spec_split_name(old(self).base_name(), old(self).window_count() + j),
            ));
        }
        while (self.splits.len() as u64) <= w
            invariant
                w < u64::MAX,
                self.inv(),
                self.split_size() == old(self).split_size(),
                self.base_name() == old(self).base_name(),
                self.window_count() >= old(self).window_count(),
                self.window_count() <= (if w + 1 > old(self).window_count() {
                    w + 1
                } else {
                    old(self).window_count()
                }),
                self.fs.released() == old(self).fs.released(),
                self.fs.created() == old(self).fs.created() + Seq::new(
                    (self.window_count() - old(self).window_count()) as nat,
                    |j: int| spec_split_name(old(self).base_name(), old(self).window_count() + j),
                ),
                forall|i: int|
                    0 <= i < old(self).window_count() ==> self.window(i) == old(self).window(i),
                forall|i: int|
                    old(self).window_count() <= i < self.window_count() ==> self.window(i)
                        == Seq::<u8>::empty(),
            decreases w + 1 - self.splits.len(),
        {
            let ghost top: SplitOutput<H, S> = *self;
            let name = self.split_name(self.splits.len() as u64);
            let file = match self.fs.create_file(&name) {
                Ok(file) => file,
                Err(e) => {
                    proof {
                        assert forall|i: int|
                            old(self).window_count() <= i
                                < self.window_count() implies SplitOutput::window(self, i) == Seq::<
                            u8,
                        >::empty() by {
                            assert(SplitOutput::window(self, i) == top.window(i));
                        }
                    }
                    return Err(e);
                },
            };
            self.splits.push(file);
            proof {
                assert(self.splits@ == top.splits@.push(file));
                assert(self.fs.created() =~= old(self).fs.created() + Seq::new(
                    (self.window_count() - old(self).window_count()) as nat,
                    |j: int| spec_split_name(old(self).base_name(), old(self).window_count() + j),
                ));
                assert forall|i: int|
                    old(self).window_count() <= i < self.window_count() implies SplitOutput::window(
                    self,
                    i,
                ) == Seq::<u8>::empty() by {
                    if i < top.window_count() {
                        assert(SplitOutput::window(self, i) == top.window(i));
                        assert(top.window(i) == Seq::<u8>::empty());
                    } else {
                        assert(SplitOutput::window(self, i) == file.contents());
                    }
                }
            }
        }
        Ok(())
    }
}

impl<H: AsyncWriter, S: SplitFilesystem<H>> AsyncWriter for SplitOutput<H, S> {
    type WriteError = H::WriteError;

    /// The filesystem and every sink are well formed, the window size is
    /// positive, and no sink holds more than one window of bytes.
    closed spec fn inv(&self) -> bool {
        &&& self.fs.inv()
        &&& self.split_point > 0
        &&& forall|i: int|
            0 <= i < self.splits@.len() ==> (#[trigger] self.splits@[i]).inv()
                && self.splits@[i].contents().len() <= self.split_point
    }

    /// The assembled virtual contents.
    closed spec fn contents(&self) -> Seq<u8> {
        spec_assembled(self.windows(), self.split_size())
    }

    /// Writes `data` at virtual offset `position`, splitting at window
    /// boundaries.
    fn atomic_write(&mut self, position: u64, data: &[u8]) -> (r: Result<(), H::WriteError>) {
        self.write_split(position, data)
    }
}

impl<H: AsyncWriter, S: SplitFilesystem<H>> SplitOutput<H, S> {
    /// Writes `data` at virtual offset `position`, splitting at window
    /// boundaries: one bounded write per touched window, in ascending order,
    /// none crossing a boundary.  On success the assembled contents change
    /// as one flat write would, every window holds exactly its slice of the
    /// write, the sinks for newly started windows were created under their
    /// part names in ascending window order, and no sink was released.
    #[verifier::rlimit(100)]
    pub fn write_split(&mut self, position: u64, data: &[u8]) -> (r: Result<(), H::WriteError>)
        requires
            old(self).inv(),
            position + data@.len() <= u64::MAX,
        ensures
            final(self).inv(),
            final(self).split_size() == old(self).split_size(),
            final(self).base_name() == old(self).base_name(),
            final(self).fs_released() == old(self).fs_released(),
            final(self).contents().len() <= (if position + data@.len() > old(
                self,
            ).contents().len() {
                position + data@.len()
            } else {
                old(self).contents().len() as int
            }),
            r is Ok ==> {
                &&& final(self).window_count() == spec_window_count_after(
                    old(self).window_count(),
                    old(self).split_size(),
                    position as int,
                    data@.len() as int,
                )
                &&& forall|i: int|
                    0 <= i < final(self).window_count() ==> final(self).window(i)
                        == spec_window_write(
                        (if i < old(self).window_count() {
                            old(self).window(i)
                        } else {
                            Seq::<u8>::empty()
                        }),
                        i,
                        old(self).split_size(),
                        position as int,
                        data@,
                    )
                &&& final(self).contents() == write_at(
                    old(self).contents(),
                    position as int,
                    data@,
                )
                &&& final(self).fs_created() == old(self).fs_created() + Seq::new(
                    (final(self).window_count() - old(self).window_count()) as nat,
                    |j: int| spec_split_name(old(self).base_name(), old(self).window_count() + j),
                )
            },
    {
        let ghost init: SplitOutput<H, S> = *old(self);
        let ghost w = init.split_size();
        let ghost pos = position as int;
        let ghost d = data@;
        let ghost oldc = init.window_count();
        let ghost cap0: int = if pos + d.len() > init.contents().len() {
            pos + d.len()
        } else {
            init.contents().len() as int
        };
        let data_len: usize = data.len();
        let mut written: usize = 0;
        proof {
            assert(init.fs.created() =~= init.fs.created() + Seq::new(
                (init.window_count() - oldc) as nat,
                |j: int| spec_split_name(init.base_name(), oldc + j),
            ));
        }
        while written < data_len
            invariant
                init == *old(self),
                self.inv(),
                self.split_size() == w,
                self.base_name() == init.base_name(),
                w == init.split_size(),
                w > 0,
                pos == position as int,
                d == data@,
                oldc == init.window_count(),
                cap0 == (if pos + d.len() > init.contents().len() {
                    pos + d.len()
                } else {
                    init.contents().len() as int
                }),
                data_len == d.len(),
                written <= data_len,
                pos + data_len <= u64::MAX,
                written > 0 && written < data_len ==> pos + written == ((pos + written) / w) * w,
                self.window_count() == spec_window_count_after(oldc, w, pos, written as int),
                self.contents().len() <= cap0,
                self.fs.released() == init.fs.released(),
                self.fs.created() == init.fs.created() + Seq::new(
                    (self.window_count() - oldc) as nat,
                    |j: int| spec_split_name(init.base_name(), oldc + j),
                ),
                forall|i: int|
                    0 <= i < self.window_count() ==> SplitOutput::window(self, i)
                        == spec_window_write(
                        (if i < oldc {
                            init.window(i)
                        } else {
                            Seq::<u8>::empty()
                        }),
                        i,
                        w,
                        pos,
                        d.take(written as int),
                    ),
            decreases data_len - written,
        {
            let p: u64 = position + written as u64;
            let wi: u64 = p / self.split_point;
            proof {
                lemma_div_basics(p as int, w);
                lemma_mul_step(wi as int, w);
                assert(wi as int <= p as int) by (nonlinear_arith)
                    requires
                        w >= 1 && wi as int * w <= p as int && wi as int >= 0,
                ;
                assert(p < pos + data_len);
            }
            let ghost pre = *self;
            match self.ensure_window(wi) {
                Ok(()) => {},
                Err(e) => {
                    proof {
                        lemma_cap_after_ensure(pre, *self, w, wi as int, p as int, cap0);
                        assert(self.contents().len() <= cap0);
                    }
                    return Err(e);
                },
            }
            proof {
                lemma_cap_after_ensure(pre, *self, w, wi as int, p as int, cap0);
                // the creation log grows by exactly the new windows' names
                assert(self.fs.created() =~= init.fs.created() + Seq::new(
                    (self.window_count() - oldc) as nat,
                    |j: int| spec_split_name(init.base_name(), oldc + j),
                )) by {
                    let firstpart = Seq::new(
                        (pre.window_count() - oldc) as nat,
                        |j: int| spec_split_name(init.base_name(), oldc + j),
                    );
                    let secondpart = Seq::new(
                        (self.window_count() - pre.window_count()) as nat,
                        |j: int| spec_split_name(pre.base_name(), pre.window_count() + j),
                    );
                    assert(self.fs.created() == (init.fs.created() + firstpart) + secondpart);
                    assert(firstpart + secondpart =~= Seq::new(
                        (self.window_count() - oldc) as nat,
                        |j: int| spec_split_name(init.base_name(), oldc + j),
                    ));
                }
                // newly created windows are untouched by the prefix written
                // so far, so the per-window formula carries over to them
                assert forall|i: int| 0 <= i < self.window_count() implies SplitOutput::window(
                    self,
                    i,
                ) == spec_window_write(
                    (if i < oldc {
                        init.window(i)
                    } else {
                        Seq::<u8>::empty()
                    }),
                    i,
                    w,
                    pos,
                    d.take(written as int),
                ) by {
                    if i < pre.window_count() {
                        assert(SplitOutput::window(self, i) == pre.window(i));
                    } else {
                        assert(SplitOutput::window(self, i) == Seq::<u8>::empty());
                        assert(i >= oldc);
                        let lo = if pos > i * w {
                            pos
                        } else {
                            i * w
                        };
                        let hi = if pos + written < (i + 1) * w {
                            pos + written
                        } else {
                            (i + 1) * w
                        };
                        if written == 0 {
                            assert(i * w >= 0) by (nonlinear_arith)
                                requires
                                    w > 0 && i >= 0,
                            ;
                            assert(hi <= pos <= lo);
                        } else {
                            let lastw = (pos + written - 1) / w;
                            lemma_div_basics(pos + written - 1, w);
                            lemma_mul_step(lastw, w);
                            assert(pre.window_count() >= lastw + 1);
                            assert(i >= lastw + 1);
                            assert((lastw + 1) * w <= i * w) by (nonlinear_arith)
                                requires
                                    w > 0 && lastw + 1 <= i,
                            ;
                            assert(hi <= pos + written <= i * w);
                            assert(i * w <= lo);
                        }
                        assert(spec_window_write(Seq::<u8>::empty(), i, w, pos, d.take(
                            written as int,
                        )) == Seq::<u8>::empty());
                    }
                }
            }
            let rel: u64 = p % self.split_point;
            let space: u64 = self.split_point - rel;
            let remaining: usize = data_len - written;
            let chunk: usize = if space < remaining as u64 {
                space as usize
            } else {
                remaining
            };
            proof {
                assert(chunk >= 1);
                assert(rel + chunk <= w);
            }
            let sub = bytes::subvec(data, written, written + chunk);
            assert(wi < self.splits.len() as u64);
            let wiu: usize = wi as usize;
            let ghost mid = *self;
            let mut file = self.splits.remove(wiu);
            let res = file.atomic_write(rel, sub.as_slice());
            self.splits.insert(wiu, file);
            proof {
                assert(self.splits@ =~= mid.splits@.update(wiu as int, self.splits@[wiu as int]));
                assert(self.inv()) by {
                    assert forall|i: int| 0 <= i < self.splits@.len() implies (
                    #[trigger] self.splits@[i]).inv() && self.splits@[i].contents().len()
                        <= self.split_point by {
                        if i != wiu as int {
                            assert(self.splits@[i] == mid.splits@[i]);
                        }
                    }
                }
                // the assembled length stays under the cap, whether or not
                // the sink write succeeded
                let cnt = SplitOutput::window_count(self);
                assert(cnt == mid.window_count());
                assert(forall|i: int|
                    0 <= i < cnt && i != wiu as int ==> SplitOutput::window(self, i) == mid.window(
                        i,
                    ));
                assert(SplitOutput::window(self, wiu as int).len() <= (if rel + chunk
                    > mid.window(wiu as int).len() {
                    rel + chunk
                } else {
                    mid.window(wiu as int).len() as int
                }));
                assert(cnt >= wi as int + 1);
                if wiu as int == cnt - 1 {
                    assert(self.contents().len() == (cnt - 1) * w
                        + SplitOutput::window(self, cnt - 1).len());
                    assert(mid.contents().len() == (cnt - 1) * w + mid.window(cnt - 1).len());
                    assert((cnt - 1) * w == wi as int * w);
                    assert(wi as int * w + rel + chunk == p + chunk);
                    assert(p + chunk <= pos + data_len);
                    assert(self.contents().len() <= cap0);
                } else {
                    assert(SplitOutput::window(self, cnt - 1) == mid.window(cnt - 1));
                    assert(self.contents().len() == (cnt - 1) * w
                        + SplitOutput::window(self, cnt - 1).len());
                    assert(mid.contents().len() == (cnt - 1) * w + mid.window(cnt - 1).len());
                    assert(self.contents().len() <= cap0);
                }
            }
            match res {
                Ok(()) => {},
                Err(e) => {
                    return Err(e);
                },
            }
            let ghost written_new = written + chunk;
            proof {
                let wii = wi as int;
                lemma_mul_step(wii, w);
                // the chunk stays inside window wi and ends at its boundary
                // or at the end of the data
                assert(wii * w <= p < (wii + 1) * w);
                assert(rel == p - wii * w);
                assert(pos + written_new <= (wii + 1) * w);
                lemma_div_range(pos + written_new - 1, w, wii);
                // the window count is as the formula says
                assert(self.window_count() == (if wii + 1 > oldc {
                    wii + 1
                } else {
                    oldc
                })) by {
                    if written == 0 {
                    } else {
                        let lastw = (pos + written - 1) / w;
                        lemma_div_basics(pos + written - 1, w);
                        lemma_mul_step(lastw, w);
                        assert(lastw * w <= pos + written - 1 < p);
                        assert(lastw <= wii) by (nonlinear_arith)
                            requires
                                w > 0 && lastw * w <= p - 1 && p - 1 < (lastw + 1) * w && wii * w
                                    <= p < (wii + 1) * w,
                        ;
                    }
                }
                assert(spec_window_count_after(oldc, w, pos, written_new) == (if wii + 1 > oldc {
                    wii + 1
                } else {
                    oldc
                }));
                // each window now matches the formula for the longer prefix
                assert forall|i: int| 0 <= i < self.window_count() implies SplitOutput::window(
                    self,
                    i,
                ) == spec_window_write(
                    (if i < oldc {
                        init.window(i)
                    } else {
                        Seq::<u8>::empty()
                    }),
                    i,
                    w,
                    pos,
                    d.take(written_new as int),
                ) by {
                    let base = if i < oldc {
                        init.window(i)
                    } else {
                        Seq::<u8>::empty()
                    };
                    let lo = if pos > i * w {
                        pos
                    } else {
                        i * w
                    };
                    let hi_old = if pos + written < (i + 1) * w {
                        pos + written as int
                    } else {
                        (i + 1) * w
                    };
                    let hi_new = if pos + written_new < (i + 1) * w {
                        pos + written_new as int
                    } else {
                        (i + 1) * w
                    };
                    if i == wi as int {
                        // this window received exactly the chunk
                        assert(SplitOutput::window(self, i) == write_at(
                            mid.window(i),
                            rel as int,
                            sub@,
                        ));
                        assert(mid.window(i) == spec_window_write(base, i, w, pos, d.take(
                            written as int,
                        )));
                        if written == 0 {
                            assert(hi_old <= pos + written);
                            assert(lo >= pos);
                            assert(mid.window(i) == base);
                            assert(lo == pos);
                            assert(hi_new == pos + written_new);
                            assert(rel == pos - i * w);
                            assert(d.take(written_new as int).subrange(lo - pos, hi_new - pos)
                                =~= sub@);
                        } else {
                            assert(pos + written == ((pos + written) / w) * w);
                            lemma_div_range(p as int, w, i);
                            assert(pos + written == i * w);
                            assert(pos < pos + written);
                            assert(lo == i * w);
                            assert(mid.window(i) == base) by {
                                assert(hi_old <= pos + written);
                                assert(pos + written == i * w <= lo);
                            }
                            assert(rel == 0);
                            assert(hi_new == pos + written_new);
                            assert(d.take(written_new as int).subrange(lo - pos, hi_new - pos)
                                =~= sub@);
                        }
                        assert(lo < hi_new);
                        assert(spec_window_write(base, i, w, pos, d.take(written_new as int))
                            == write_at(base, lo - i * w, d.take(written_new as int).subrange(
                            lo - pos,
                            hi_new - pos,
                        )));
                    } else {
                        assert(SplitOutput::window(self, i) == mid.window(i));
                        assert(mid.window(i) == spec_window_write(base, i, w, pos, d.take(
                            written as int,
                        )));
                        if i < wi as int {
                            // fully covered windows see the same slice
                            assert((i + 1) * w <= wi as int * w) by (nonlinear_arith)
                                requires
                                    w > 0 && i + 1 <= wi as int,
                            ;
                            assert((i + 1) * w <= p);
                            assert(hi_old == hi_new);
                            if hi_old > lo {
                                assert(d.take(written as int).subrange(lo - pos, hi_old - pos)
                                    =~= d.take(written_new as int).subrange(lo - pos, hi_new
                                    - pos));
                            }
                        } else {
                            // windows past the write are untouched either way
                            assert(i * w >= (wi as int + 1) * w) by (nonlinear_arith)
                                requires
                                    w > 0 && i >= wi as int + 1,
                            ;
                            assert(i * w >= pos + written_new);
                            assert(hi_old <= pos + written);
                            assert(pos + written <= i * w <= lo);
                            assert(hi_new <= pos + written_new <= i * w);
                        }
                    }
                }
                // a partial chunk only happens at the end of the data;
                // otherwise the write continues at a window boundary
                if written_new < data_len {
                    assert(chunk == space);
                    assert(pos + written_new == (wii + 1) * w);
                    lemma_mul_step(wii + 1, w);
                    lemma_div_range(pos + written_new, w, wii + 1);
                    assert(pos + written_new == ((pos + written_new) / w) * w);
                }
            }
            written = written + chunk;
        }
        proof {
            if data_len == 0 {
                assert(self.window_count() == oldc);
                assert forall|i: int| 0 <= i < self.window_count() implies SplitOutput::window(
                    self,
                    i,
                ) == init.window(i) by {
                    assert(i * w >= 0 && i * w <= (i + 1) * w) by (nonlinear_arith)
                        requires
                            w > 0 && i >= 0,
                    ;
                }
                assert forall|i: int| 0 <= i < self.windows().len() implies self.windows()[i]
                    == init.windows()[i] by {
                    assert(self.windows()[i] == SplitOutput::window(self, i));
                    assert(init.windows()[i] == init.window(i));
                }
                assert(self.windows() =~= init.windows());
                crate::bytes::lemma_write_at_empty(init.contents(), pos);
            } else {
                assert(d.take(written as int) =~= d);
                assert forall|i: int| 0 <= i < self.windows().len() implies (
                #[trigger] self.windows()[i]).len() <= w by {
                    assert(self.windows()[i] == self.splits@[i].contents());
                }
                assert forall|i: int| 0 <= i < init.windows().len() implies (
                #[trigger] init.windows()[i]).len() <= w by {
                    assert(init.windows()[i] == init.splits@[i].contents());
                }
                assert forall|i: int| 0 <= i < self.windows().len() implies #[trigger] self.windows()[i]
                    == spec_window_write(
                    (if i < init.windows().len() {
                        init.windows()[i]
                    } else {
                        Seq::<u8>::empty()
                    }),
                    i,
                    w,
                    pos,
                    d,
                ) by {
                    assert(self.windows()[i] == SplitOutput::window(self, i));
                    assert(SplitOutput::window(self, i) == spec_window_write(
                        (if i < oldc {
                            init.window(i)
                        } else {
                            Seq::<u8>::empty()
                        }),
                        i,
                        w,
                        pos,
                        d.take(written as int),
                    ));
                }
                lemma_assembled_after_write(init.windows(), self.windows(), w, pos, d);
            }
        }
        Ok(())
    }
}

/// After creating windows up to `wi` over `pre`, the assembled length stays
/// under the cap `cap0` if it did before, for `wi * w <= p <= cap0`.
proof fn lemma_cap_after_ensure<H: AsyncWriter, S: SplitFilesystem<H>>(
    pre: SplitOutput<H, S>,
    cur: SplitOutput<H, S>,
    w: int,
    wi: int,
    p: int,
    cap0: int,
)
    requires
        w > 0,
        w == pre.split_size(),
        w == cur.split_size(),
        wi >= 0,
        wi * w <= p <= cap0,
        pre.contents().len() <= cap0,
        cur.window_count() >= pre.window_count(),
        cur.window_count() <= (if wi + 1 > pre.window_count() {
            wi + 1
        } else {
            pre.window_count()
        }),
        forall|i: int| 0 <= i < pre.window_count() ==> cur.window(i) == pre.window(i),
        forall|i: int|
            pre.window_count() <= i < cur.window_count() ==> cur.window(i) == Seq::<u8>::empty(),
    ensures
        cur.contents().len() <= cap0,
{
    let cnt = cur.window_count();
    if cnt == 0 {
        assert(cur.contents().len() == 0);
    } else if cnt > pre.window_count() {
        assert(cur.window(cnt - 1) == Seq::<u8>::empty());
        assert(cur.windows().last() == cur.window(cnt - 1));
        assert(cur.contents().len() == (cnt - 1) * w);
        assert(cnt - 1 <= wi);
        assert((cnt - 1) * w <= wi * w) by (nonlinear_arith)
            requires
                w > 0 && cnt - 1 <= wi,
        ;
    } else {
        assert(cnt == pre.window_count());
        assert forall|i: int| 0 <= i < cur.windows().len() implies cur.windows()[i]
            == pre.windows()[i] by {
            assert(cur.windows()[i] == cur.window(i));
            assert(pre.windows()[i] == pre.window(i));
        }
        assert(cur.windows() =~= pre.windows());
        assert(cur.contents() == pre.contents());
    }
}
impl<H: AsyncWriter, S: SplitFilesystem<H>> SplitOutput<H, S> {
    /// Releases every created sink exactly once, in ascending window order —
    /// the filesystem's release log grows by exactly the windows' bytes, in
    /// window order — creates nothing, and hands the filesystem back.
    pub fn close(self) -> (fs: S)
        requires
            self.inv(),
        ensures
            fs.inv(),
            fs.created() == self.fs_created(),
            fs.released() == self.fs_released() + self.windows(),
    {
        let ghost ws = self.windows();
        let ghost released0 = self.fs_released();
        let ghost created0 = self.fs_created();
        let ghost total: int = ws.len() as int;
        let SplitOutput { mut fs, file_name, split_point, mut splits } = self;
        proof {
            assert(fs.released() =~= released0 + ws.take(0));
            assert(forall|i: int|
                0 <= i < splits@.len() ==> (#[trigger] splits@[i]).contents() == ws[i]);
        }
        while splits.len() > 0
            invariant
                fs.inv(),
                forall|i: int| 0 <= i < splits@.len() ==> (#[trigger] splits@[i]).inv(),
                splits@.len() <= total,
                total == ws.len(),
                forall|i: int|
                    0 <= i < splits@.len() ==> (#[trigger] splits@[i]).contents() == ws[total
                        - splits@.len() + i],
                fs.created() == created0,
                fs.released() == released0 + ws.take(total - splits@.len()),
            decreases splits.len(),
        {
            let ghost k = total - splits@.len();
            let file = splits.remove(0);
            proof {
                assert(file.contents() == ws[k]);
            }
            fs.close(file);
            proof {
                assert(fs.released() =~= released0 + ws.take(k + 1));
            }
        }
        proof {
            assert(ws.take(total) =~= ws);
        }
        fs
    }
}

/// The decimal digits of `v`, most significant first.
pub open spec fn spec_decimal(v: int) -> Seq<u8>
    recommends
        v >= 0,
    decreases v,
{
    if v < 10 {
        seq![(0x30 + if 0 <= v <= 9 { v } else { 0 }) as u8]
    } else {
        spec_decimal(v / 10) + seq![(0x30 + v % 10) as u8]
    }
}

/// Whether the name contains a dot.
pub open spec fn spec_has_dot(name: Seq<u8>) -> bool {
    exists|i: int| 0 <= i < name.len() && name[i] == 0x2E
}

/// The name with its last dot and everything after it removed.
pub open spec fn spec_chop(name: Seq<u8>) -> Seq<u8>
    decreases name.len(),
{
    if name.len() == 0 {
        name
    } else if name.last() == 0x2E {
        name.drop_last()
    } else {
        spec_chop(name.drop_last())
    }
}

/// The name up to its extension: everything before the last dot, or the
/// whole name if it has none.
pub open spec fn spec_stem(name: Seq<u8>) -> Seq<u8> {
    if spec_has_dot(name) {
        spec_chop(name)
    } else {
        name
    }
}

/// Chopping a name at its last dot keeps exactly the bytes before it.
proof fn lemma_chop_take(name: Seq<u8>, l: int)
    requires
        0 <= l < name.len(),
        name[l] == 0x2E,
        forall|m: int| l < m < name.len() ==> name[m] != 0x2E,
    ensures
        spec_chop(name) == name.take(l),
    decreases name.len(),
{
    if l == name.len() - 1 {
        assert(name.last() == 0x2E);
        assert(name.drop_last() =~= name.take(l));
    } else {
        assert(name.last() != 0x2E);
        lemma_chop_take(name.drop_last(), l);
        assert(name.drop_last().take(l) =~= name.take(l));
    }
}

/// The name of part `index`: the base name's stem, a dot, the 1-based part
/// number in decimal, and the `cso` extension.
pub open spec fn spec_split_name(base: Seq<u8>, index: int) -> Seq<u8> {
    spec_stem(base) + seq![0x2Eu8] + spec_decimal(index + 1) + seq![0x2Eu8, 0x63u8, 0x73u8, 0x6Fu8]
}

/// Renders `v` in decimal.
pub fn u64_decimal(v: u64) -> (out: Vec<u8>)
    ensures
        out@ == spec_decimal(v as int),
    decreases v,
{
    if v < 10 {
        let mut out: Vec<u8> = Vec::new();
        out.push(0x30 + v as u8);
        proof {
            assert(out@ =~= spec_decimal(v as int));
        }
        out
    } else {
        let mut out = u64_decimal(v / 10);
        out.push(0x30 + (v % 10) as u8);
        proof {
            assert(out@ =~= spec_decimal(v as int));
        }
        out
    }
}

} // verus!

verus! {

/// Presents a list of byte sources, each of independently discovered size,
/// as one contiguous virtual address space.
pub struct SplitFileReader<R: crate::read::Read> {
    files: Vec<(u64, R)>,
    last_position: u64,
}

impl<R: crate::read::Read> SplitFileReader<R> {
    /// The data of each source, in order.
    pub closed spec fn parts(&self) -> Seq<Seq<u8>> {
        Seq::new(self.files@.len(), |i: int| self.files@[i].1.data())
    }

    /// Sources are well formed and contiguous: the first starts at virtual
    /// offset zero, each next start is the previous start plus that source's
    /// size, and `last_position` is the total extent.
    pub closed spec fn wf(&self) -> bool {
        &&& self.files@.len() >= 1
        &&& forall|i: int| 0 <= i < self.files@.len() ==> (#[trigger] self.files@[i]).1.inv()
        &&& forall|i: int|
            0 <= i < self.files@.len() ==> (#[trigger] self.files@[i]).0 as int == bytes::spec_start(
                self.parts(),
                i,
            )
        &&& self.last_position as int == bytes::spec_start(self.parts(), self.files@.len() as int)
    }

    /// Builds the mapper from sources in file order, discovering each size.
    /// The total size must fit the 64-bit address space.  At least one source
    /// is required: the error type is the sources' own, so with no source a
    /// later out-of-range read would have no error value to fail with.
    pub fn new(readers: Vec<R>) -> (r: Result<SplitFileReader<R>, R::ReadError>)
        requires
            readers@.len() >= 1,
            forall|i: int| 0 <= i < readers@.len() ==> (#[trigger] readers@[i]).inv(),
            bytes::spec_start(
                Seq::new(readers@.len(), |i: int| readers@[i].data()),
                readers@.len() as int,
            ) <= u64::MAX,
        ensures
            r matches Ok(s) ==> {
                &&& s.wf()
                &&& crate::read::Read::inv(&s)
                &&& crate::read::Read::data(&s) == bytes::spec_concat(
                    Seq::new(readers@.len(), |i: int| readers@[i].data()),
                )
            },
    {
        let ghost all: Seq<Seq<u8>> = Seq::new(readers@.len(), |i: int| readers@[i].data());
        let total: usize = readers.len();
        let mut rest = readers;
        let mut files: Vec<(u64, R)> = Vec::new();
        let mut position: u64 = 0;
        while rest.len() > 0
            invariant
                all.len() == total,
                bytes::spec_start(all, all.len() as int) <= u64::MAX,
                files@.len() + rest@.len() == total,
                forall|i: int|
                    0 <= i < rest@.len() ==> (#[trigger] rest@[i]).inv() && rest@[i].data()
                        == all[files@.len() + i],
                forall|i: int| 0 <= i < files@.len() ==> (#[trigger] files@[i]).1.inv(),
                forall|i: int|
                    0 <= i < files@.len() ==> (#[trigger] files@[i]).1.data() == all[i],
                forall|i: int|
                    0 <= i < files@.len() ==> (#[trigger] files@[i]).0 as int == bytes::spec_start(
                        all,
                        i,
                    ),
                position as int == bytes::spec_start(all, files@.len() as int),
            decreases rest.len(),
        {
            let mut reader = rest.remove(0);
            let size = match reader.size() {
                Ok(size) => size,
                Err(e) => {
                    return Err(e);
                },
            };
            proof {
                bytes::lemma_start_monotone(all, files@.len() as int + 1, all.len() as int);
                assert(bytes::spec_start(all, files@.len() as int + 1) == bytes::spec_start(
                    all,
                    files@.len() as int,
                ) + all[files@.len() as int].len());
            }
            files.push((position, reader));
            position = position + size;
        }
        let out = SplitFileReader { files, last_position: position };
        proof {
            assert(out.parts() =~= all);
        }
        Ok(out)
    }
}

impl<R: crate::read::Read> crate::read::Read for SplitFileReader<R> {
    type ReadError = R::ReadError;

    closed spec fn inv(&self) -> bool {
        self.wf()
    }

    /// The sources' bytes, concatenated in order.
    closed spec fn data(&self) -> Seq<u8> {
        bytes::spec_concat(self.parts())
    }

    fn size(&mut self) -> (r: Result<u64, R::ReadError>) {
        proof {
            bytes::lemma_concat_len(self.parts());
        }
        Ok(self.last_position)
    }

    /// Serves a read that may span several sources: resolve the source
    /// covering the current offset, clamp at its boundary, forward the
    /// source-relative sub-read, and advance.  A read past the total extent
    /// is forced onto the final source, which must reject it.
    #[verifier::rlimit(100)]
    fn read(&mut self, pos: u64, buf: &mut Vec<u8>) -> (r: Result<(), R::ReadError>) {
        let ghost init: SplitFileReader<R> = *old(self);
        let n: usize = buf.len();
        let mut bytes_read: usize = 0;
        proof {
            bytes::lemma_concat_len(self.parts());
        }
        while bytes_read < n
            invariant
                init == *old(self),
                self.wf(),
                self.parts() == init.parts(),
                self.last_position == init.last_position,
                self.data() == init.data(),
                self.data().len() == self.last_position,
                n == buf@.len(),
                n == old(buf)@.len(),
                bytes_read <= n,
                forall|j: int| 0 <= j < bytes_read ==> buf@[j] == self.data()[pos + j],
                bytes_read > 0 ==> pos + bytes_read <= self.data().len(),
            decreases n - bytes_read,
        {
            let p: u64 = pos + bytes_read as u64;
            let count = self.files.len();
            if p >= self.last_position {
                // past the last source's extent: the sub-read against the
                // final source cannot succeed, and reports its error
                let li: usize = count - 1;
                let start = self.files[li].0;
                proof {
                    bytes::lemma_start_monotone(self.parts(), li as int, count as int);
                    assert(self.last_position as int == start as int + self.parts()[li as int].len());
                }
                let rel: u64 = p - start;
                let mut tmp = bytes::zero_vec(n - bytes_read);
                let ghost snapshot = *self;
                let mut entry = self.files.remove(li);
                let res = entry.1.read(rel, &mut tmp);
                self.files.insert(li, entry);
                proof {
                    assert(self.files@ =~= snapshot.files@.update(
                        li as int,
                        self.files@[li as int],
                    ));
                    assert(self.parts() =~= snapshot.parts());
                }
                match res {
                    Err(e) => {
                        return Err(e);
                    },
                    Ok(()) => {
                        proof {
                            assert(rel as int + (n - bytes_read) > self.parts()[li as int].len());
                            assert(false);
                        }
                        return Ok(());
                    },
                }
            }
            // resolve the source with the greatest start at or below p
            let mut idx: usize = 0;
            let mut j: usize = 1;
            while j < count
                invariant
                    self.wf(),
                    count == self.files@.len(),
                    idx < j <= count,
                    self.files@[idx as int].0 <= p,
                    forall|m: int| idx < m < j ==> self.files@[m].0 > p,
                decreases count - j,
            {
                if self.files[j].0 <= p {
                    proof {
                        assert forall|m: int| idx < m < j implies self.files@[m].0 > p by {}
                    }
                    idx = j;
                }
                j = j + 1;
            }
            let start = self.files[idx].0;
            let next_pos: u64 = if idx + 1 < count {
                self.files[idx + 1].0
            } else {
                self.last_position
            };
            proof {
                if idx + 1 < count {
                    assert(self.files@[idx as int + 1].0 > p);
                } else {
                    assert(p < self.last_position);
                }
                assert(bytes::spec_start(self.parts(), idx as int + 1) == bytes::spec_start(
                    self.parts(),
                    idx as int,
                ) + self.parts()[idx as int].len());
                bytes::lemma_start_monotone(self.parts(), idx as int + 1, count as int);
            }
            let boundary: u64 = next_pos - p;
            let remaining: usize = n - bytes_read;
            let to_read: usize = if boundary < remaining as u64 {
                boundary as usize
            } else {
                remaining
            };
            let rel: u64 = p - start;
            let mut tmp = bytes::zero_vec(to_read);
            let ghost snapshot = *self;
            let mut entry = self.files.remove(idx);
            let res = entry.1.read(rel, &mut tmp);
            self.files.insert(idx, entry);
            proof {
                assert(self.files@ =~= snapshot.files@.update(idx as int, self.files@[idx as int]));
                assert(self.parts() =~= snapshot.parts());
            }
            match res {
                Err(e) => {
                    return Err(e);
                },
                Ok(()) => {},
            }
            // splice the sub-read into the output buffer
            let mut k: usize = 0;
            while k < to_read
                invariant
                    k <= to_read,
                    to_read <= tmp@.len(),
                    buf@.len() == n,
                    bytes_read + to_read <= n,
                    forall|j: int|
                        0 <= j < bytes_read + k ==> buf@[j] == (if j < bytes_read {
                            snapshot.data()[pos + j]
                        } else {
                            tmp@[j - bytes_read]
                        }),
                    forall|j: int| 0 <= j < bytes_read ==> buf@[j] == snapshot.data()[pos + j],
                decreases to_read - k,
            {
                buf.set(bytes_read + k, tmp[k]);
                k = k + 1;
            }
            proof {
                // the sub-read bytes are the concatenation's bytes at p
                assert forall|j: int| 0 <= j < to_read implies tmp@[j] == self.data()[p + j] by {
                    bytes::lemma_concat_index(self.parts(), idx as int, rel as int + j);
                }
            }
            bytes_read = bytes_read + to_read;
        }
        proof {
            if n > 0 {
                assert(pos + n <= self.data().len());
                assert(buf@ =~= self.data().subrange(pos as int, pos + n));
            }
        }
        Ok(())
    }
}

} // verus!

verus! {

/// The image cut into consecutive windows of `w` bytes; the last chunk may
/// be short.
pub open spec fn spec_chunks(s: Seq<u8>, w: int) -> Seq<Seq<u8>>
    recommends
        w > 0,
    decreases s.len(),
    when w > 0
{
    if s.len() == 0 {
        Seq::<Seq<u8>>::empty()
    } else if s.len() <= w {
        seq![s]
    } else {
        seq![s.take(w)] + spec_chunks(s.skip(w), w)
    }
}

/// Shape of the chunk decomposition: there is one chunk per started window,
/// chunk `i` is the slice of window `i`, and the chunks concatenate back to
/// the whole sequence.
pub proof fn lemma_chunks_props(s: Seq<u8>, w: int)
    requires
        w > 0,
    ensures
        spec_chunks(s, w).len() == (if s.len() == 0 {
            0int
        } else {
            (s.len() - 1) / w + 1
        }),
        forall|i: int|
            0 <= i < spec_chunks(s, w).len() ==> #[trigger] spec_chunks(s, w)[i] == s.subrange(
                i * w,
                (if (i + 1) * w < s.len() {
                    (i + 1) * w
                } else {
                    s.len() as int
                }),
            ),
        bytes::spec_concat(spec_chunks(s, w)) == s,
    decreases s.len(),
{
    let cs = spec_chunks(s, w);
    if s.len() == 0 {
        assert(bytes::spec_concat(cs) =~= s);
    } else if s.len() <= w {
        lemma_div_range(s.len() - 1, w, 0);
        assert(cs[0] =~= s.subrange(0, s.len() as int));
        assert(cs.skip(1) =~= Seq::<Seq<u8>>::empty());
        assert(bytes::spec_concat(Seq::<Seq<u8>>::empty()) == Seq::<u8>::empty());
        assert(bytes::spec_concat(cs) == cs[0] + bytes::spec_concat(cs.skip(1)));
        assert(bytes::spec_concat(cs) =~= s);
    } else {
        lemma_chunks_props(s.skip(w), w);
        let rest = spec_chunks(s.skip(w), w);
        assert(cs == seq![s.take(w)] + rest);
        assert(cs.len() == 1 + rest.len());
        assert((s.len() - 1) / w == (s.len() - w - 1) / w + 1) by (nonlinear_arith)
            requires
                w > 0 && s.len() > w,
        ;
        assert forall|i: int|
            0 <= i < cs.len() implies #[trigger] cs[i] == s.subrange(
            i * w,
            (if (i + 1) * w < s.len() {
                (i + 1) * w
            } else {
                s.len() as int
            }),
        ) by {
            lemma_mul_step(i, w);
            lemma_mul_step(i - 1, w);
            if i == 0 {
                assert(cs[0] == s.take(w));
                assert(s.take(w) =~= s.subrange(0, w));
            } else {
                assert(cs[i] == rest[i - 1]);
                let lo = i * w;
                let hi = if (i + 1) * w < s.len() {
                    (i + 1) * w
                } else {
                    s.len() as int
                };
                let lo2 = (i - 1) * w;
                let hi2 = if i * w < s.skip(w).len() {
                    i * w
                } else {
                    s.skip(w).len() as int
                };
                assert(rest[i - 1] == s.skip(w).subrange(lo2, hi2));
                assert(lo2 + w == lo);
                assert(hi2 + w == hi);
                assert(0 <= lo2);
                assert(hi2 <= s.skip(w).len());
                lemma_div_basics(s.skip(w).len() - 1, w);
                let lastr = (s.skip(w).len() - 1) / w;
                assert(i - 1 <= lastr);
                assert((i - 1) * w <= lastr * w) by (nonlinear_arith)
                    requires
                        w > 0 && i - 1 <= lastr,
                ;
                assert(lo2 <= hi2);
                assert(s.skip(w).subrange(lo2, hi2) =~= s.subrange(lo, hi));
                assert(cs[i] == s.subrange(lo, hi));
            }
        }
        assert(cs.skip(1) =~= rest);
        assert(bytes::spec_concat(cs) == s.take(w) + bytes::spec_concat(rest));
        assert(bytes::spec_concat(cs) =~= s);
    }
}

/// Split mapper write/read symmetry: writing a byte sequence at virtual
/// offset zero through a fresh split writer leaves each sink holding exactly
/// one window-sized chunk of the sequence (`SplitOutput::write_split`'s
/// per-window postcondition, instantiated here); `SplitOutput::close` hands
/// exactly those windows to the filesystem in order (its release log); and
/// the split reader built over them in order presents their concatenation
/// (`SplitFileReader`'s `data`), which is the original sequence again —
/// whether or not the length is an exact multiple of the window size.
pub proof fn lemma_split_write_read_symmetry(s: Seq<u8>, w: int)
    requires
        w > 0,
        s.len() > 0,
    ensures
        spec_window_count_after(0, w, 0, s.len() as int) == spec_chunks(s, w).len(),
        forall|i: int|
            0 <= i < spec_chunks(s, w).len() ==> #[trigger] spec_window_write(
                Seq::<u8>::empty(),
                i,
                w,
                0,
                s,
            ) == spec_chunks(s, w)[i],
        bytes::spec_concat(spec_chunks(s, w)) == s,
{
    lemma_chunks_props(s, w);
    lemma_div_basics(s.len() - 1, w);
    assert forall|i: int|
        0 <= i < spec_chunks(s, w).len() implies #[trigger] spec_window_write(
        Seq::<u8>::empty(),
        i,
        w,
        0,
        s,
    ) == spec_chunks(s, w)[i] by {
        lemma_mul_step(i, w);
        let last = (s.len() - 1) / w;
        assert(i <= last);
        assert(i * w <= last * w) by (nonlinear_arith)
            requires
                w > 0 && i <= last,
        ;
        assert(i * w <= s.len() - 1);
        assert(i * w >= 0) by (nonlinear_arith)
            requires
                w > 0 && i >= 0,
        ;
        let lo = i * w;
        let hi = if (i + 1) * w < s.len() {
            (i + 1) * w
        } else {
            s.len() as int
        };
        assert(spec_window_write(Seq::<u8>::empty(), i, w, 0, s) == write_at(
            Seq::<u8>::empty(),
            0,
            s.subrange(lo, hi),
        ));
        assert(write_at(Seq::<u8>::empty(), 0, s.subrange(lo, hi)) =~= s.subrange(lo, hi));
    }
}

} // verus!
