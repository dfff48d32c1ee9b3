//! Bit order of serial lines: how a byte becomes a sequence of line levels,
//! most or least significant bit first, and how sampled levels become a byte.
use vstd::prelude::*;

verus! {

/// Bit `i` of `b`, 0 being the least significant.
pub open spec fn bit_of(b: u8, i: u8) -> bool {
    (b >> i) & 1 == 1
}

/// Contribution of a bit of weight `w`.
pub open spec fn weight(set: bool, w: int) -> int {
    if set {
        w
    } else {
        0
    }
}

/// The byte whose bits, most significant first, are the first eight levels of `s`.
pub open spec fn byte_msb(s: Seq<bool>) -> u8 {
    (weight(s[0], 128) + weight(s[1], 64) + weight(s[2], 32) + weight(s[3], 16) + weight(s[4], 8)
        + weight(s[5], 4) + weight(s[6], 2) + weight(s[7], 1)) as u8
}

/// The byte whose bits, least significant first, are the first eight levels of `s`.
pub open spec fn byte_lsb(s: Seq<bool>) -> u8 {
    (weight(s[0], 1) + weight(s[1], 2) + weight(s[2], 4) + weight(s[3], 8) + weight(s[4], 16)
        + weight(s[5], 32) + weight(s[6], 64) + weight(s[7], 128)) as u8
}

/// The levels of `b` on a line, most significant bit first.
pub open spec fn msb_first(b: u8) -> Seq<bool> {
    Seq::new(8, |k: int| bit_of(b, (7 - k) as u8))
}

/// The levels of `b` on a line, least significant bit first.
pub open spec fn lsb_first(b: u8) -> Seq<bool> {
    Seq::new(8, |k: int| bit_of(b, k as u8))
}

/// The levels of the bytes of `w` on a line, one after the other, each most
/// significant bit first.
pub open spec fn levels_msb(w: Seq<u8>) -> Seq<bool>
    decreases w.len(),
{
    if w.len() == 0 {
        Seq::empty()
    } else {
        levels_msb(w.drop_last()) + msb_first(w.last())
    }
}

/// The bytes read, most significant bit first, from consecutive groups of
/// eight levels of `s`; levels after the last full group are ignored.
pub open spec fn bytes_msb(s: Seq<bool>) -> Seq<u8> {
    Seq::new(s.len() / 8, |j: int| byte_msb(s.subrange(8 * j, 8 * j + 8)))
}

proof fn lemma_set_bit(r: u8, m: u8)
    requires
        m < 8,
    ensures
        forall|j: u8| j < 8 ==> #[trigger] bit_of(r | (1u8 << m), j) == (bit_of(r, j) || j == m),
{
    assert forall|j: u8| j < 8 implies #[trigger] bit_of(r | (1u8 << m), j) == (bit_of(r, j) || j
        == m) by {
        assert(((r | (1u8 << m)) >> j) & 1 == 1 <==> ((r >> j) & 1 == 1 || j == m)) by (bit_vector)
            requires
                m < 8,
                j < 8,
        ;
    }
}

proof fn lemma_zero_bits()
    ensures
        forall|j: u8| j < 8 ==> !#[trigger] bit_of(0, j),
{
    assert forall|j: u8| j < 8 implies !#[trigger] bit_of(0, j) by {
        assert((0u8 >> j) & 1 != 1) by (bit_vector);
    }
}

/// A byte is the sum of its bits times their weights.
pub proof fn lemma_byte_value(r: u8)
    ensures
        r as int == weight(bit_of(r, 7), 128) + weight(bit_of(r, 6), 64) + weight(bit_of(r, 5), 32)
            + weight(bit_of(r, 4), 16) + weight(bit_of(r, 3), 8) + weight(bit_of(r, 2), 4)
            + weight(bit_of(r, 1), 2) + weight(bit_of(r, 0), 1),
{
    let b0 = bit_of(r, 0);
    let b1 = bit_of(r, 1);
    let b2 = bit_of(r, 2);
    let b3 = bit_of(r, 3);
    let b4 = bit_of(r, 4);
    let b5 = bit_of(r, 5);
    let b6 = bit_of(r, 6);
    let b7 = bit_of(r, 7);
    assert(r == (if b7 { 128u8 } else { 0u8 }) + (if b6 { 64u8 } else { 0u8 }) + (if b5 {
        32u8
    } else {
        0u8
    }) + (if b4 { 16u8 } else { 0u8 }) + (if b3 { 8u8 } else { 0u8 }) + (if b2 {
        4u8
    } else {
        0u8
    }) + (if b1 { 2u8 } else { 0u8 }) + (if b0 { 1u8 } else { 0u8 })) by (bit_vector)
        requires
            b0 == ((r >> 0u8) & 1 == 1),
            b1 == ((r >> 1u8) & 1 == 1),
            b2 == ((r >> 2u8) & 1 == 1),
            b3 == ((r >> 3u8) & 1 == 1),
            b4 == ((r >> 4u8) & 1 == 1),
            b5 == ((r >> 5u8) & 1 == 1),
            b6 == ((r >> 6u8) & 1 == 1),
            b7 == ((r >> 7u8) & 1 == 1),
    ;
}

/// Reading back the levels of a byte, most significant bit first, gives the byte.
pub proof fn lemma_msb_round_trip(b: u8)
    ensures
        byte_msb(msb_first(b)) == b,
{
    lemma_byte_value(b);
}

/// Reading back the levels of a byte, least significant bit first, gives the byte.
pub proof fn lemma_lsb_round_trip(b: u8)
    ensures
        byte_lsb(lsb_first(b)) == b,
{
    lemma_byte_value(b);
}

/// The levels of a byte string, most significant bit first, have eight levels
/// per byte, and byte `j` occupies levels `8 * j .. 8 * j + 8`.
pub proof fn lemma_levels_msb(w: Seq<u8>)
    ensures
        levels_msb(w).len() == 8 * w.len(),
        forall|j: int|
            0 <= j < w.len() ==> #[trigger] levels_msb(w).subrange(8 * j, 8 * j + 8) == msb_first(
                w[j],
            ),
    decreases w.len(),
{
    if w.len() > 0 {
        let p = w.drop_last();
        lemma_levels_msb(p);
        let l = levels_msb(w);
        assert forall|j: int| 0 <= j < w.len() implies #[trigger] l.subrange(8 * j, 8 * j + 8)
            == msb_first(w[j]) by {
            if j < p.len() {
                assert(l.subrange(8 * j, 8 * j + 8) =~= levels_msb(p).subrange(8 * j, 8 * j + 8));
            } else {
                assert(l.subrange(8 * j, 8 * j + 8) =~= msb_first(w.last()));
            }
        }
    }
}

/// Reading back, most significant bit first, the levels of a byte string
/// gives the byte string: what a receiver on the other end of the line, or a
/// line looped back to its own input, reads is what was sent.
pub proof fn lemma_bytes_round_trip(w: Seq<u8>)
    ensures
        bytes_msb(levels_msb(w)) == w,
{
    lemma_levels_msb(w);
    let l = levels_msb(w);
    assert forall|j: int| 0 <= j < w.len() implies #[trigger] bytes_msb(l)[j] == w[j] by {
        assert(l.subrange(8 * j, 8 * j + 8) == msb_first(w[j]));
        lemma_msb_round_trip(w[j]);
    }
    assert(bytes_msb(l) =~= w);
}

/// The byte read, most significant bit first, from `samples[start..start + 8]`.
pub fn byte_from_msb_first(samples: &[bool], start: usize) -> (r: u8)
    requires
        start + 8 <= samples@.len(),
    ensures
        r == byte_msb(samples@.subrange(start as int, start + 8)),
{
    let ghost s = samples@.subrange(start as int, start + 8);
    let len = samples.len();
    let mut r: u8 = 0;
    proof {
        lemma_zero_bits();
    }
    for i in 0..8usize
        invariant
            start + 8 <= samples@.len(),
            len == samples@.len(),
            s == samples@.subrange(start as int, start + 8),
            forall|j: u8| j < 8 ==> #[trigger] bit_of(r, j) == (7 - j < i && s[7 - j]),
    {
        assert(start + i < samples@.len());
        if samples[start + i] {
            let m: u8 = 7 - (i as u8);
            proof {
                lemma_set_bit(r, m);
            }
            r = r | (1u8 << m);
        }
    }
    proof {
        lemma_byte_value(r);
        assert(bit_of(r, 0) == s[7]);
        assert(bit_of(r, 1) == s[6]);
        assert(bit_of(r, 2) == s[5]);
        assert(bit_of(r, 3) == s[4]);
        assert(bit_of(r, 4) == s[3]);
        assert(bit_of(r, 5) == s[2]);
        assert(bit_of(r, 6) == s[1]);
        assert(bit_of(r, 7) == s[0]);
    }
    r
}

/// The byte read, least significant bit first, from `samples[start..start + 8]`.
pub fn byte_from_lsb_first(samples: &[bool], start: usize) -> (r: u8)
    requires
        start + 8 <= samples@.len(),
    ensures
        r == byte_lsb(samples@.subrange(start as int, start + 8)),
{
    let ghost s = samples@.subrange(start as int, start + 8);
    let len = samples.len();
    let mut r: u8 = 0;
    proof {
        lemma_zero_bits();
    }
    for i in 0..8usize
        invariant
            start + 8 <= samples@.len(),
            len == samples@.len(),
            s == samples@.subrange(start as int, start + 8),
            forall|j: u8| j < 8 ==> #[trigger] bit_of(r, j) == (j < i && s[j as int]),
    {
        assert(start + i < samples@.len());
        if samples[start + i] {
            let m: u8 = i as u8;
            proof {
                lemma_set_bit(r, m);
            }
            r = r | (1u8 << m);
        }
    }
    proof {
        lemma_byte_value(r);
        assert(bit_of(r, 0) == s[0]);
        assert(bit_of(r, 1) == s[1]);
        assert(bit_of(r, 2) == s[2]);
        assert(bit_of(r, 3) == s[3]);
        assert(bit_of(r, 4) == s[4]);
        assert(bit_of(r, 5) == s[5]);
        assert(bit_of(r, 6) == s[6]);
        assert(bit_of(r, 7) == s[7]);
    }
    r
}

/// The bytes read, most significant bit first, from consecutive groups of
/// eight samples; samples after the last full group are ignored.
pub fn bytes_from_msb_first(samples: &[bool]) -> (r: Vec<u8>)
    ensures
        r@ == bytes_msb(samples@),
{
    let n = samples.len() / 8;
    let mut r: Vec<u8> = Vec::new();
    let len = samples.len();
    for j in 0..n
        invariant
            n == samples@.len() / 8,
            len == samples@.len(),
            r@.len() == j,
            forall|k: int| 0 <= k < j ==> r@[k] == #[trigger] bytes_msb(samples@)[k],
    {
        assert(8 * j + 8 <= len) by (nonlinear_arith)
            requires
                j < n,
                n == len / 8,
        ;
        let b = byte_from_msb_first(samples, 8 * j);
        r.push(b);
    }
    assert(r@ =~= bytes_msb(samples@));
    r
}

/// Whether bit `i` of `b` is set.
pub fn bit_is_set(b: u8, i: u8) -> (r: bool)
    requires
        i < 8,
    ensures
        r == bit_of(b, i),
{
    (b >> i) & 1 == 1
}

} // verus!
