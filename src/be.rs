//! Big-endian encoding of 64-bit integers.
use vstd::prelude::*;

verus! {

/// Number of bytes in an encoded `u64`.
pub const U64_BYTES: usize = 8;

/// The eight big-endian bytes of `x`.
pub open spec fn u64_be(x: u64) -> Seq<u8> {
    seq![
        (x >> 56u64) as u8,
        (x >> 48u64) as u8,
        (x >> 40u64) as u8,
        (x >> 32u64) as u8,
        (x >> 24u64) as u8,
        (x >> 16u64) as u8,
        (x >> 8u64) as u8,
        x as u8,
    ]
}

/// The integer whose big-endian bytes are the first eight of `s`.
pub open spec fn u64_from_be(s: Seq<u8>) -> u64
    recommends
        s.len() >= 8,
{
    be_combine(s[0], s[1], s[2], s[3], s[4], s[5], s[6], s[7])
}

pub open spec fn be_combine(b0: u8, b1: u8, b2: u8, b3: u8, b4: u8, b5: u8, b6: u8, b7: u8) -> u64 {
    (b0 as u64) << 56u64 | (b1 as u64) << 48u64 | (b2 as u64) << 40u64 | (b3 as u64) << 32u64
        | (b4 as u64) << 24u64 | (b5 as u64) << 16u64 | (b6 as u64) << 8u64 | (b7 as u64)
}

/// Decoding the encoding of `x` gives back `x`.
pub proof fn lemma_u64_be_round_trip(x: u64)
    ensures
        u64_be(x).len() == 8,
        u64_from_be(u64_be(x)) == x,
{
    let b = u64_be(x);
    assert(be_combine(
        (x >> 56u64) as u8,
        (x >> 48u64) as u8,
        (x >> 40u64) as u8,
        (x >> 32u64) as u8,
        (x >> 24u64) as u8,
        (x >> 16u64) as u8,
        (x >> 8u64) as u8,
        x as u8,
    ) == x) by (bit_vector);
}

/// Eight bytes are the encoding of the integer they decode to.
pub proof fn lemma_u64_be_from_bytes(s: Seq<u8>)
    requires
        s.len() == 8,
    ensures
        u64_be(u64_from_be(s)) == s,
{
    let (b0, b1, b2, b3, b4, b5, b6, b7) = (s[0], s[1], s[2], s[3], s[4], s[5], s[6], s[7]);
    let x = be_combine(b0, b1, b2, b3, b4, b5, b6, b7);
    assert(
        (x >> 56u64) as u8 == b0 && (x >> 48u64) as u8 == b1 && (x >> 40u64) as u8 == b2
        && (x >> 32u64) as u8 == b3 && (x >> 24u64) as u8 == b4 && (x >> 16u64) as u8 == b5
        && (x >> 8u64) as u8 == b6 && x as u8 == b7
    ) by (bit_vector)
        requires
            x == be_combine(b0, b1, b2, b3, b4, b5, b6, b7),
    ;
    assert(u64_be(x) =~= s);
}

/// Two integers with the same encoding are equal.
pub proof fn lemma_u64_be_injective(x: u64, y: u64)
    ensures
        u64_be(x) == u64_be(y) <==> x == y,
{
    lemma_u64_be_round_trip(x);
    lemma_u64_be_round_trip(y);
}

/// Encodes `x` as eight big-endian bytes.
pub fn u64_to_be_vec(x: u64) -> (r: Vec<u8>)
    ensures
        r@ == u64_be(x),
{
    let r = vec![
        (x >> 56u64) as u8,
        (x >> 48u64) as u8,
        (x >> 40u64) as u8,
        (x >> 32u64) as u8,
        (x >> 24u64) as u8,
        (x >> 16u64) as u8,
        (x >> 8u64) as u8,
        x as u8,
    ];
    assert(r@ =~= u64_be(x));
    r
}

/// Appends the eight big-endian bytes of `x` to `out`.
pub fn push_u64_be(out: &mut Vec<u8>, x: u64)
    ensures
        final(out)@ == old(out)@ + u64_be(x),
{
    let b = u64_to_be_vec(x);
    let mut i: usize = 0;
    while i < 8
        invariant
            0 <= i <= 8,
            b@ == u64_be(x),
            out@ == old(out)@ + b@.take(i as int),
        decreases 8 - i,
    {
        out.push(b[i]);
        assert(b@.take(i + 1) =~= b@.take(i as int).push(b@[i as int]));
        i += 1;
    }
    assert(b@.take(8) =~= b@);
}

/// Reads the big-endian integer held in the eight bytes of `s` from `start` on.
pub fn u64_from_be_slice(s: &[u8], start: usize) -> (r: u64)
    requires
        start + 8 <= s@.len(),
    ensures
        r == u64_from_be(s@.subrange(start as int, start + 8)),
{
    let b0 = s[start];
    let b1 = s[start + 1];
    let b2 = s[start + 2];
    let b3 = s[start + 3];
    let b4 = s[start + 4];
    let b5 = s[start + 5];
    let b6 = s[start + 6];
    let b7 = s[start + 7];
    (b0 as u64) << 56u64 | (b1 as u64) << 48u64 | (b2 as u64) << 40u64 | (b3 as u64) << 32u64
        | (b4 as u64) << 24u64 | (b5 as u64) << 16u64 | (b6 as u64) << 8u64 | (b7 as u64)
}

/// Reads a big-endian length held in eight bytes of `s`, when it fits in a `usize`.
pub fn usize_from_be_slice(s: &[u8], start: usize) -> (r: Option<usize>)
    requires
        start + 8 <= s@.len(),
    ensures
        r == (if u64_from_be(s@.subrange(start as int, start + 8)) <= usize::MAX {
            Some(u64_from_be(s@.subrange(start as int, start + 8)) as usize)
        } else {
            None::<usize>
        }),
{
    let x = u64_from_be_slice(s, start);
    if x <= usize::MAX as u64 {
        Some(x as usize)
    } else {
        None
    }
}

} // verus!
