//! A single recorded mutation of a key/value map, and its byte encoding.
//!
//! The encoding is `num_key_bytes (8) ‖ num_value_bytes (8) ‖ key ‖ value`, with the
//! lengths big-endian; `num_value_bytes == 0` marks a removal.
use crate::be::{lemma_u64_be_round_trip, push_u64_be, u64_be, u64_from_be, u64_from_be_slice};
use std::ops::Range;
use vstd::prelude::*;
use vstd::slice::{slice_subrange, slice_to_vec};

verus! {

/// Number of bytes in front of the key: the two lengths.
pub const DELTA_HEADER_BYTES: usize = 16;

#[derive(Clone, Debug, PartialEq, Eq)]
pub enum Delta<B> {
    /// Insert `(key, value)`.
    Insert(B, B),
    /// Remove `key`.
    Remove(B),
}

/// The abstract form of a delta: keys and values as byte sequences.
pub type DeltaSpec = Delta<Seq<u8>>;

impl View for Delta<Vec<u8>> {
    type V = DeltaSpec;

    open spec fn view(&self) -> DeltaSpec {
        match self {
            Delta::Insert(k, v) => Delta::Insert(k@, v@),
            Delta::Remove(k) => Delta::Remove(k@),
        }
    }
}

/// The views of a sequence of deltas.
pub open spec fn deltas_view(ds: Seq<Delta<Vec<u8>>>) -> Seq<DeltaSpec> {
    ds.map_values(|d: Delta<Vec<u8>>| d@)
}

/// The key that a delta touches.
pub open spec fn delta_key(d: DeltaSpec) -> Seq<u8> {
    match d {
        Delta::Insert(k, _) => k,
        Delta::Remove(k) => k,
    }
}

/// A delta that the encoding gives back unchanged: an inserted value is not empty.
pub open spec fn representable(d: DeltaSpec) -> bool {
    match d {
        Delta::Insert(k, v) => v.len() > 0 && k.len() <= u64::MAX && v.len() <= u64::MAX,
        Delta::Remove(k) => k.len() <= u64::MAX,
    }
}

pub open spec fn all_representable(ds: Seq<DeltaSpec>) -> bool {
    forall|i: int| 0 <= i < ds.len() ==> representable(#[trigger] ds[i])
}

/// The bytes of one delta.
pub open spec fn encode_delta(d: DeltaSpec) -> Seq<u8> {
    match d {
        Delta::Insert(k, v) => u64_be(k.len() as u64) + u64_be(v.len() as u64) + k + v,
        Delta::Remove(k) => u64_be(k.len() as u64) + u64_be(0) + k,
    }
}

/// The delta encoded at the front of `b`, with the number of bytes it takes; `None` when
/// the lengths at the front of `b` run past its end.
pub open spec fn decode_delta_at(b: Seq<u8>) -> Option<(DeltaSpec, int)> {
    if b.len() < 16 {
        None
    } else {
        let kl = u64_from_be(b.subrange(0, 8)) as int;
        let vl = u64_from_be(b.subrange(8, 16)) as int;
        if 16 + kl + vl > b.len() {
            None
        } else {
            let k = b.subrange(16, 16 + kl);
            let d = if vl == 0 {
                Delta::Remove(k)
            } else {
                Delta::Insert(k, b.subrange(16 + kl, 16 + kl + vl))
            };
            Some((d, 16 + kl + vl))
        }
    }
}

/// A delta whose lengths fit the encoding.
pub open spec fn encodable(d: DeltaSpec) -> bool {
    match d {
        Delta::Insert(k, v) => k.len() <= u64::MAX && v.len() <= u64::MAX,
        Delta::Remove(k) => k.len() <= u64::MAX,
    }
}

pub open spec fn all_encodable(ds: Seq<DeltaSpec>) -> bool {
    forall|i: int| 0 <= i < ds.len() ==> encodable(#[trigger] ds[i])
}

/// What the encoding gives back for `d`: an insertion of an empty value reads as a
/// removal.
pub open spec fn normalize(d: DeltaSpec) -> DeltaSpec {
    match d {
        Delta::Insert(k, v) => if v.len() == 0 {
            Delta::Remove(k)
        } else {
            d
        },
        Delta::Remove(_) => d,
    }
}

/// Decoding the encoding of a delta, followed by anything, gives it back normalized.
pub proof fn lemma_decode_encode_delta(d: DeltaSpec, rest: Seq<u8>)
    requires
        encodable(d),
    ensures
        decode_delta_at(encode_delta(d) + rest) == Some((normalize(d), encode_delta(d).len() as int)),
        encode_delta(d).len() >= 16,
        representable(d) ==> normalize(d) == d,
{
    let b = encode_delta(d) + rest;
    match d {
        Delta::Insert(k, v) => {
            lemma_u64_be_round_trip(k.len() as u64);
            lemma_u64_be_round_trip(v.len() as u64);
            assert(b.subrange(0, 8) =~= u64_be(k.len() as u64));
            assert(b.subrange(8, 16) =~= u64_be(v.len() as u64));
            assert(b.subrange(16, 16 + k.len() as int) =~= k);
            assert(b.subrange(16 + k.len() as int, 16 + k.len() + v.len() as int) =~= v);
        },
        Delta::Remove(k) => {
            lemma_u64_be_round_trip(k.len() as u64);
            lemma_u64_be_round_trip(0);
            assert(b.subrange(0, 8) =~= u64_be(k.len() as u64));
            assert(b.subrange(8, 16) =~= u64_be(0));
            assert(b.subrange(16, 16 + k.len() as int) =~= k);
        },
    }
}

/// A key/value map, as a data tree holds it.
pub type KvMap = Map<Seq<u8>, Seq<u8>>;

/// What applying one delta does to a map.
pub open spec fn apply_delta(s: KvMap, d: DeltaSpec) -> KvMap {
    match d {
        Delta::Insert(k, v) => s.insert(k, v),
        Delta::Remove(k) => s.remove(k),
    }
}

/// Applying deltas in order.
pub open spec fn apply_deltas(s: KvMap, ds: Seq<DeltaSpec>) -> KvMap
    decreases ds.len(),
{
    if ds.len() == 0 {
        s
    } else {
        apply_deltas(apply_delta(s, ds[0]), ds.drop_first())
    }
}

/// The delta that restores the key that `d` touches to what `s` holds there.
pub open spec fn undo_delta(s: KvMap, d: DeltaSpec) -> DeltaSpec {
    let k = delta_key(d);
    if s.contains_key(k) {
        Delta::Insert(k, s[k])
    } else {
        Delta::Remove(k)
    }
}

/// The per-delta pre-images met while applying `ds` to `s`, in the order of `ds`.
pub open spec fn undo_deltas(s: KvMap, ds: Seq<DeltaSpec>) -> Seq<DeltaSpec>
    decreases ds.len(),
{
    if ds.len() == 0 {
        Seq::empty()
    } else {
        seq![undo_delta(s, ds[0])] + undo_deltas(apply_delta(s, ds[0]), ds.drop_first())
    }
}

/// Applying two sequences one after the other is applying their concatenation.
pub proof fn lemma_apply_deltas_concat(s: KvMap, a: Seq<DeltaSpec>, b: Seq<DeltaSpec>)
    ensures
        apply_deltas(s, a + b) == apply_deltas(apply_deltas(s, a), b),
    decreases a.len(),
{
    if a.len() > 0 {
        assert((a + b).drop_first() =~= a.drop_first() + b);
        assert((a + b)[0] == a[0]);
        lemma_apply_deltas_concat(apply_delta(s, a[0]), a.drop_first(), b);
    } else {
        assert(a + b =~= b);
    }
}

/// The pre-images, applied in the reverse of the order they were met, bring a map
/// back to the state it was in before the deltas were applied.
pub proof fn lemma_undo_restores(s: KvMap, ds: Seq<DeltaSpec>)
    ensures
        apply_deltas(apply_deltas(s, ds), undo_deltas(s, ds).reverse()) == s,
        undo_deltas(s, ds).len() == ds.len(),
    decreases ds.len(),
{
    if ds.len() > 0 {
        let d = ds[0];
        let s1 = apply_delta(s, d);
        let tail = ds.drop_first();
        lemma_undo_restores(s1, tail);
        let u = undo_delta(s, d);
        let rest = undo_deltas(s1, tail);
        assert(undo_deltas(s, ds).reverse() =~= rest.reverse() + seq![u]);
        lemma_apply_deltas_concat(apply_deltas(s1, tail), rest.reverse(), seq![u]);
        assert(seq![u].drop_first() =~= Seq::<DeltaSpec>::empty());
        assert(apply_deltas(s1, seq![u]) == apply_deltas(apply_delta(s1, u), seq![u].drop_first()));
        assert(apply_delta(s1, u) =~= s);
    }
}

impl Delta<Vec<u8>> {
    /// Appends the encoding of this delta to `writer`.
    pub fn encode(&self, writer: &mut Vec<u8>)
        ensures
            final(writer)@ == old(writer)@ + encode_delta(self@),
    {
        match self {
            Delta::Insert(key, value) => {
                push_u64_be(writer, key.len() as u64);
                push_u64_be(writer, value.len() as u64);
                writer.extend_from_slice(key.as_slice());
                writer.extend_from_slice(value.as_slice());
            },
            Delta::Remove(key) => {
                // 0 num_value_bytes implies Remove
                push_u64_be(writer, key.len() as u64);
                push_u64_be(writer, 0);
                writer.extend_from_slice(key.as_slice());
            },
        }
        assert(final(writer)@ =~= old(writer)@ + encode_delta(self@));
    }

    /// The number of bytes that `encode` writes.
    pub fn encoded_size(&self) -> (r: usize)
        requires
            16 + self@.encoded_len() <= usize::MAX,
        ensures
            r == encode_delta(self@).len(),
    {
        match self {
            Delta::Insert(key, value) => DELTA_HEADER_BYTES + key.len() + value.len(),
            Delta::Remove(key) => DELTA_HEADER_BYTES + key.len(),
        }
    }

    /// A copy of this delta.
    pub fn duplicate(&self) -> (r: Self)
        ensures
            r@ == self@,
    {
        match self {
            Delta::Insert(k, v) => Delta::Insert(k.clone(), v.clone()),
            Delta::Remove(k) => Delta::Remove(k.clone()),
        }
    }
}

impl DeltaSpec {
    /// The number of key and value bytes.
    pub open spec fn encoded_len(self) -> int {
        match self {
            Delta::Insert(k, v) => k.len() + v.len() as int,
            Delta::Remove(k) => k.len() as int,
        }
    }
}

impl<B> Delta<B> {
    /// Applies `f` to the key and to the value.
    pub fn map<T, F: Fn(&B) -> T>(&self, f: F) -> (r: Delta<T>)
        requires
            forall|b: &B| #[trigger] f.requires((b,)),
        ensures
            match (self, r) {
                (Delta::Insert(k, v), Delta::Insert(k2, v2)) => f.ensures((k,), k2) && f.ensures((v,), v2),
                (Delta::Remove(k), Delta::Remove(k2)) => f.ensures((k,), k2),
                _ => false,
            },
    {
        match self {
            Delta::Insert(key, value) => Delta::Insert(f(key), f(value)),
            Delta::Remove(key) => Delta::Remove(f(key)),
        }
    }
}

/// A view of the encoding of one delta at the front of a byte slice. Holds only a
/// slice whose front lengths stay within it.
#[derive(Clone)]
pub struct RawDelta<'a> {
    bytes: &'a [u8],
}

impl<'a> RawDelta<'a> {
    pub closed spec fn bytes(&self) -> Seq<u8> {
        self.bytes@
    }

    /// The delta at the front of the bytes.
    pub open spec fn delta(&self) -> DeltaSpec {
        decode_delta_at(self.bytes()).unwrap().0
    }

    pub open spec fn wf(&self) -> bool {
        &&& decode_delta_at(self.bytes()) is Some
        &&& self.bytes().len() <= usize::MAX
    }

    /// Wraps `bytes`, when the lengths at its front stay within it.
    pub fn new(bytes: &'a [u8]) -> (r: Option<Self>)
        ensures
            r is Some <==> decode_delta_at(bytes@) is Some,
            r matches Some(raw) ==> raw.bytes() == bytes@ && raw.wf(),
    {
        if bytes.len() < DELTA_HEADER_BYTES {
            return None;
        }
        let kl = u64_from_be_slice(bytes, 0);
        let vl = u64_from_be_slice(bytes, 8);
        let room = (bytes.len() - DELTA_HEADER_BYTES) as u64;
        if kl > room || vl > room - kl {
            return None;
        }
        Some(RawDelta { bytes })
    }

    fn num_key_bytes(&self) -> (r: usize)
        requires
            self.wf(),
        ensures
            r == u64_from_be(self.bytes().subrange(0, 8)),
            16 + r <= self.bytes().len(),
    {
        u64_from_be_slice(self.bytes, 0) as usize
    }

    fn num_value_bytes(&self) -> (r: usize)
        requires
            self.wf(),
        ensures
            r == u64_from_be(self.bytes().subrange(8, 16)),
            16 + u64_from_be(self.bytes().subrange(0, 8)) + r <= self.bytes().len(),
    {
        u64_from_be_slice(self.bytes, 8) as usize
    }

    fn key_range(&self) -> (r: Range<usize>)
        requires
            self.wf(),
        ensures
            r.start == 16,
            r.end == 16 + u64_from_be(self.bytes().subrange(0, 8)),
    {
        let start = DELTA_HEADER_BYTES;
        start..start + self.num_key_bytes()
    }

    fn value_range(&self) -> (r: Range<usize>)
        requires
            self.wf(),
        ensures
            r.start == 16 + u64_from_be(self.bytes().subrange(0, 8)),
            r.end == r.start + u64_from_be(self.bytes().subrange(8, 16)),
            r.end <= self.bytes().len(),
    {
        let start = self.key_range().end;
        start..start + self.num_value_bytes()
    }

    /// The key bytes.
    pub fn key_slice(&self) -> (r: &'a [u8])
        requires
            self.wf(),
        ensures
            r@ == delta_key(self.delta()),
    {
        let range = self.key_range();
        slice_subrange(self.bytes, range.start, range.end)
    }

    fn value_slice(&self) -> (r: &'a [u8])
        requires
            self.wf(),
        ensures
            r@ == self.bytes().subrange(
                16 + u64_from_be(self.bytes().subrange(0, 8)),
                16 + u64_from_be(self.bytes().subrange(0, 8)) + u64_from_be(self.bytes().subrange(8, 16)),
            ),
    {
        let range = self.value_range();
        slice_subrange(self.bytes, range.start, range.end)
    }

    /// The bytes that the encoded delta takes, from the front.
    pub fn range(&self) -> (r: Range<usize>)
        requires
            self.wf(),
        ensures
            r.start == 0,
            r.end == decode_delta_at(self.bytes()).unwrap().1,
    {
        let end = DELTA_HEADER_BYTES + self.num_key_bytes() + self.num_value_bytes();
        0..end
    }

    /// The decoded delta, with its key and value copied out.
    pub fn to_delta(&self) -> (r: Delta<Vec<u8>>)
        requires
            self.wf(),
        ensures
            r@ == self.delta(),
    {
        let key = slice_to_vec(self.key_slice());
        if self.num_value_bytes() == 0 {
            Delta::Remove(key)
        } else {
            Delta::Insert(key, slice_to_vec(self.value_slice()))
        }
    }
}

} // verus!
