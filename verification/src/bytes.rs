//! Model of a random-access byte store and small byte-buffer helpers.

use vstd::prelude::*;

verus! {

/// The contents of a byte store after writing `d` at offset `pos`: bytes in
/// `[pos, pos + d.len())` are replaced, any gap between the old end and `pos`
/// is zero-filled, and the store grows to at least `pos + d.len()` bytes.
pub open spec fn write_at(s: Seq<u8>, pos: int, d: Seq<u8>) -> Seq<u8>
    recommends
        0 <= pos,
{
    let n = if d.len() > 0 && pos + d.len() > s.len() {
        pos + d.len()
    } else {
        s.len() as int
    };
    Seq::new(
        n as nat,
        |i: int|
            if pos <= i < pos + d.len() {
                d[i - pos]
            } else if i < s.len() {
                s[i]
            } else {
                0u8
            },
    )
}

/// Writing nothing leaves the store unchanged.
pub proof fn lemma_write_at_empty(s: Seq<u8>, pos: int)
    requires
        0 <= pos,
    ensures
        write_at(s, pos, Seq::<u8>::empty()) == s,
{
    assert(write_at(s, pos, Seq::<u8>::empty()) =~= s);
}

/// Writing at the current end appends.
pub proof fn lemma_write_at_append(s: Seq<u8>, d: Seq<u8>)
    ensures
        write_at(s, s.len() as int, d) == s + d,
{
    assert(write_at(s, s.len() as int, d) =~= s + d);
}

/// A write leaves every range it does not touch unchanged.
pub proof fn lemma_write_at_preserves(s: Seq<u8>, pos: int, d: Seq<u8>, a: int, b: int)
    requires
        0 <= pos,
        0 <= a <= b <= s.len(),
        b <= pos || pos + d.len() <= a,
    ensures
        write_at(s, pos, d).subrange(a, b) == s.subrange(a, b),
{
    assert(write_at(s, pos, d).subrange(a, b) =~= s.subrange(a, b));
}

/// A copy of `v[from..to]` as a fresh vector.
pub fn subvec(v: &[u8], from: usize, to: usize) -> (out: Vec<u8>)
    requires
        from <= to <= v@.len(),
    ensures
        out@ == v@.subrange(from as int, to as int),
{
    vstd::slice::slice_to_vec(vstd::slice::slice_subrange(v, from, to))
}

/// A sequence of `k` zero bytes.
pub open spec fn spec_zeros(k: int) -> Seq<u8> {
    Seq::new(k as nat, |i: int| 0u8)
}

/// A vector of `n` zero bytes.
pub fn zero_vec(n: usize) -> (out: Vec<u8>)
    ensures
        out@ == spec_zeros(n as int),
{
    let out: Vec<u8> = vec![0u8; n];
    proof {
        assert(out@ =~= Seq::new(n as nat, |i: int| 0u8));
    }
    out
}

} // verus!

verus! {

/// The concatenation of a sequence of byte sequences, in order.
pub open spec fn spec_concat(parts: Seq<Seq<u8>>) -> Seq<u8>
    decreases parts.len(),
{
    if parts.len() == 0 {
        Seq::<u8>::empty()
    } else {
        parts[0] + spec_concat(parts.skip(1))
    }
}

/// The starting offset of part `i` inside the concatenation: the sum of the
/// lengths of the parts before it.
pub open spec fn spec_start(parts: Seq<Seq<u8>>, i: int) -> int
    decreases i,
{
    if i <= 0 {
        0
    } else {
        spec_start(parts, i - 1) + parts[i - 1].len()
    }
}

/// Start offsets can be computed from the tail: dropping the first part
/// shifts every start down by its length.
pub proof fn lemma_start_skip(parts: Seq<Seq<u8>>, i: int)
    requires
        1 <= i <= parts.len(),
    ensures
        spec_start(parts, i) == parts[0].len() + spec_start(parts.skip(1), i - 1),
    decreases i,
{
    if i == 1 {
        assert(spec_start(parts, 0) == 0);
        assert(spec_start(parts.skip(1), 0) == 0);
    } else {
        lemma_start_skip(parts, i - 1);
        assert(parts.skip(1)[i - 2] == parts[i - 1]);
    }
}

/// The concatenation's length is the start offset past the last part.
pub proof fn lemma_concat_len(parts: Seq<Seq<u8>>)
    ensures
        spec_concat(parts).len() == spec_start(parts, parts.len() as int),
        spec_start(parts, parts.len() as int) >= 0,
    decreases parts.len(),
{
    if parts.len() == 0 {
    } else {
        lemma_concat_len(parts.skip(1));
        lemma_start_skip(parts, parts.len() as int);
    }
}

/// Start offsets are non-negative.
pub proof fn lemma_start_nonneg(parts: Seq<Seq<u8>>, i: int)
    ensures
        spec_start(parts, i) >= 0,
    decreases i,
{
    if i > 0 {
        lemma_start_nonneg(parts, i - 1);
    }
}

/// Start offsets are non-decreasing.
pub proof fn lemma_start_monotone(parts: Seq<Seq<u8>>, i: int, j: int)
    requires
        0 <= i <= j <= parts.len(),
    ensures
        spec_start(parts, i) <= spec_start(parts, j),
        spec_start(parts, i) >= 0,
    decreases j - i,
{
    lemma_start_nonneg(parts, i);
    if i < j {
        lemma_start_monotone(parts, i, j - 1);
    }
}

/// Indexing into the concatenation: byte `k` of part `i` sits at the part's
/// start offset plus `k`.
pub proof fn lemma_concat_index(parts: Seq<Seq<u8>>, i: int, k: int)
    requires
        0 <= i < parts.len(),
        0 <= k < parts[i].len(),
    ensures
        0 <= spec_start(parts, i) + k < spec_concat(parts).len(),
        spec_concat(parts)[spec_start(parts, i) + k] == parts[i][k],
    decreases i,
{
    lemma_concat_len(parts);
    lemma_start_monotone(parts, 0, i);
    lemma_start_monotone(parts, i + 1, parts.len() as int);
    assert(spec_start(parts, i + 1) == spec_start(parts, i) + parts[i].len());
    if i == 0 {
        assert(spec_concat(parts)[k] == parts[0][k]);
    } else {
        lemma_concat_index(parts.skip(1), i - 1, k);
        lemma_start_skip(parts, i);
        assert(parts.skip(1)[i - 1] == parts[i]);
        assert(spec_concat(parts)[parts[0].len() + spec_start(parts.skip(1), i - 1) + k]
            == spec_concat(parts.skip(1))[spec_start(parts.skip(1), i - 1) + k]);
    }
}

} // verus!
