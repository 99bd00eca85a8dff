//! Sequences of deltas: their encoding is the concatenation of the encoded deltas,
//! delimited by the end of the buffer.
use crate::delta::{
    all_encodable, all_representable, decode_delta_at, deltas_view, encodable, encode_delta,
    lemma_decode_encode_delta, normalize, representable, Delta, DeltaSpec, RawDelta,
};
use vstd::prelude::*;
use vstd::slice::slice_subrange;

verus! {

/// The bytes of a sequence of deltas.
pub open spec fn encode_deltas(ds: Seq<DeltaSpec>) -> Seq<u8>
    decreases ds.len(),
{
    if ds.len() == 0 {
        Seq::empty()
    } else {
        encode_deltas(ds.drop_last()) + encode_delta(ds.last())
    }
}

/// The deltas encoded in `b`, or `None` when a length runs past the end.
pub open spec fn decode_deltas(b: Seq<u8>) -> Option<Seq<DeltaSpec>>
    decreases b.len(),
{
    if b.len() == 0 {
        Some(Seq::empty())
    } else {
        match decode_delta_at(b) {
            Some((d, n)) => if 16 <= n <= b.len() {
                match decode_deltas(b.subrange(n, b.len() as int)) {
                    Some(rest) => Some(seq![d] + rest),
                    None => None,
                }
            } else {
                None
            },
            None => None,
        }
    }
}

/// Encoding deltas one after the other: the front delta comes first.
pub proof fn lemma_encode_deltas_front(ds: Seq<DeltaSpec>)
    requires
        ds.len() > 0,
    ensures
        encode_deltas(ds) == encode_delta(ds[0]) + encode_deltas(ds.drop_first()),
    decreases ds.len(),
{
    if ds.len() == 1 {
        assert(ds.drop_last() =~= Seq::<DeltaSpec>::empty());
        assert(ds.drop_first() =~= Seq::<DeltaSpec>::empty());
        assert(encode_deltas(ds.drop_last()) =~= Seq::<u8>::empty());
        assert(ds.last() == ds[0]);
        assert(encode_deltas(ds.drop_first()) =~= Seq::<u8>::empty());
        assert(encode_deltas(ds) =~= encode_delta(ds[0]) + encode_deltas(ds.drop_first()));
    } else {
        lemma_encode_deltas_front(ds.drop_last());
        assert(ds.drop_last().drop_first() =~= ds.drop_first().drop_last());
        assert(ds.drop_first().last() == ds.last());
        assert(encode_deltas(ds) =~= encode_delta(ds[0]) + encode_deltas(ds.drop_first()));
    }
}

/// One step of decoding: the front delta, then the rest.
pub proof fn lemma_decode_deltas_step(b: Seq<u8>, d: DeltaSpec, n: int)
    requires
        decode_delta_at(b) == Some((d, n)),
        16 <= n <= b.len(),
        decode_deltas(b.subrange(n, b.len() as int)) is Some,
    ensures
        decode_deltas(b) == Some(seq![d] + decode_deltas(b.subrange(n, b.len() as int)).unwrap()),
{
}

/// The deltas as the encoding gives them back.
pub open spec fn normalize_all(ds: Seq<DeltaSpec>) -> Seq<DeltaSpec> {
    ds.map_values(|d: DeltaSpec| normalize(d))
}

/// Decoding encoded deltas followed by a decodable tail gives the normalized deltas
/// followed by the tail's deltas.
#[verifier::rlimit(40)]
pub proof fn lemma_decode_deltas_prefix(ds: Seq<DeltaSpec>, rest: Seq<u8>)
    requires
        all_encodable(ds),
        decode_deltas(rest) is Some,
    ensures
        decode_deltas(encode_deltas(ds) + rest) == Some(normalize_all(ds) + decode_deltas(rest).unwrap()),
    decreases ds.len(),
{
    if ds.len() == 0 {
        assert(encode_deltas(ds) + rest =~= rest);
        assert(normalize_all(ds) + decode_deltas(rest).unwrap() =~= decode_deltas(rest).unwrap());
    } else {
        lemma_encode_deltas_front(ds);
        let tail = ds.drop_first();
        assert(all_encodable(tail)) by {
            assert forall|i: int| 0 <= i < tail.len() implies encodable(#[trigger] tail[i]) by {
                assert(tail[i] == ds[i + 1]);
            }
        }
        assert(encodable(ds[0]));
        lemma_decode_deltas_prefix(tail, rest);
        let x = encode_deltas(tail) + rest;
        let e = encode_delta(ds[0]);
        let b = e + x;
        assert(encode_deltas(ds) + rest =~= b);
        lemma_decode_encode_delta(ds[0], x);
        let n = e.len() as int;
        assert(b.subrange(n, b.len() as int) == x) by {
            assert(b.subrange(n, b.len() as int) =~= x);
        }
        let dx = decode_deltas(x).unwrap();
        assert(dx == normalize_all(tail) + decode_deltas(rest).unwrap());
        lemma_decode_deltas_step(b, normalize(ds[0]), n);
        assert(seq![normalize(ds[0])] + (normalize_all(tail) + decode_deltas(rest).unwrap())
            == normalize_all(ds) + decode_deltas(rest).unwrap()) by {
            assert(seq![normalize(ds[0])] + (normalize_all(tail) + decode_deltas(rest).unwrap())
                =~= normalize_all(ds) + decode_deltas(rest).unwrap());
        }
    }
}

/// Any encoded sequence decodes, to the deltas normalized.
pub proof fn lemma_decode_encoded(ds: Seq<DeltaSpec>)
    requires
        all_encodable(ds),
    ensures
        decode_deltas(encode_deltas(ds)) == Some(normalize_all(ds)),
{
    lemma_decode_deltas_prefix(ds, Seq::empty());
    assert(encode_deltas(ds) + Seq::<u8>::empty() =~= encode_deltas(ds));
    assert(normalize_all(ds) + Seq::<DeltaSpec>::empty() =~= normalize_all(ds));
}

/// Round trip: decoding the encoding of a delta sequence whose inserted values are not
/// empty gives back the same sequence.
pub proof fn lemma_deltas_round_trip(ds: Seq<DeltaSpec>)
    requires
        all_representable(ds),
    ensures
        decode_deltas(encode_deltas(ds)) == Some(ds),
{
    assert(all_encodable(ds));
    lemma_decode_encoded(ds);
    assert forall|i: int| 0 <= i < ds.len() implies normalize_all(ds)[i] == ds[i] by {
        assert(representable(ds[i]));
    }
    assert(normalize_all(ds) =~= ds);
}

/// What decodes is left unchanged by normalizing.
pub proof fn lemma_decoded_normal(b: Seq<u8>)
    requires
        decode_deltas(b) is Some,
    ensures
        normalize_all(decode_deltas(b).unwrap()) == decode_deltas(b).unwrap(),
{
    let ds = decode_deltas(b).unwrap();
    lemma_decoded_representable_and_encodes(b);
    assert forall|i: int| 0 <= i < ds.len() implies normalize_all(ds)[i] == ds[i] by {
        assert(representable(ds[i]));
    }
    assert(normalize_all(ds) =~= ds);
}

/// Decoding two decodable buffers one after the other.
pub proof fn lemma_decode_deltas_concat(a: Seq<u8>, b: Seq<u8>)
    requires
        decode_deltas(a) is Some,
        decode_deltas(b) is Some,
    ensures
        decode_deltas(a + b) == Some(decode_deltas(a).unwrap() + decode_deltas(b).unwrap()),
{
    let da = decode_deltas(a).unwrap();
    lemma_decoded_representable_and_encodes(a);
    lemma_decode_deltas_prefix(da, b);
    assert forall|i: int| 0 <= i < da.len() implies normalize_all(da)[i] == da[i] by {
        assert(representable(da[i]));
    }
    assert(normalize_all(da) =~= da);
}

/// What decodes is representable and encodes back to the same bytes.
pub proof fn lemma_decoded_representable_and_encodes(b: Seq<u8>)
    requires
        decode_deltas(b) is Some,
    ensures
        all_representable(decode_deltas(b).unwrap()),
        all_encodable(decode_deltas(b).unwrap()),
        encode_deltas(decode_deltas(b).unwrap()) == b,
    decreases b.len(),
{
    if b.len() > 0 {
        let (d, n) = decode_delta_at(b).unwrap();
        let tail = b.subrange(n, b.len() as int);
        lemma_decoded_representable_and_encodes(tail);
        let ds = decode_deltas(b).unwrap();
        let dt = decode_deltas(tail).unwrap();
        assert(ds == seq![d] + dt);
        let kl = crate::be::u64_from_be(b.subrange(0, 8));
        let vl = crate::be::u64_from_be(b.subrange(8, 16));
        crate::be::lemma_u64_be_from_bytes(b.subrange(0, 8));
        crate::be::lemma_u64_be_from_bytes(b.subrange(8, 16));
        assert(encode_delta(d) =~= b.subrange(0, n));
        assert forall|i: int| 0 <= i < ds.len() implies representable(#[trigger] ds[i])
            && encodable(ds[i]) by {
            if i > 0 {
                assert(ds[i] == dt[i - 1]);
            }
        }
        lemma_encode_deltas_front(ds);
        assert(ds.drop_first() =~= dt);
        assert(b =~= b.subrange(0, n) + tail);
    }
}

/// A view of an encoded sequence of deltas.
#[derive(Clone)]
pub struct RawDeltaSet<'a> {
    pub bytes: &'a [u8],
}

impl<'a> RawDeltaSet<'a> {
    pub fn new(bytes: &'a [u8]) -> (r: Self)
        ensures
            r.bytes@ == bytes@,
    {
        Self { bytes }
    }

    /// Walks the encoded deltas from the front.
    pub fn iter_deltas(&self) -> (r: RawDeltaIter<'a>)
        ensures
            r.rest() == self.bytes@,
            r.wf(),
    {
        RawDeltaIter { bytes: self.bytes, offset: 0 }
    }

    /// All encoded deltas, decoded and copied out; `None` when a length runs past
    /// the end of the buffer.
    pub fn to_deltas(&self) -> (r: Option<Vec<Delta<Vec<u8>>>>)
        ensures
            r matches Some(v) ==> decode_deltas(self.bytes@) == Some(deltas_view(v@)),
            r is None ==> decode_deltas(self.bytes@) is None,
    {
        let mut it = self.iter_deltas();
        let mut out: Vec<Delta<Vec<u8>>> = Vec::new();
        loop
            invariant
                it.wf(),
                decode_deltas(self.bytes@) == match decode_deltas(it.rest()) {
                    Some(t) => Some(deltas_view(out@) + t),
                    None => None,
                },
            decreases it.rest().len(),
        {
            if it.at_end() {
                assert(deltas_view(out@) + Seq::<DeltaSpec>::empty() =~= deltas_view(out@));
                return Some(out);
            }
            let ghost before = it.rest();
            match it.next() {
                Some(raw) => {
                    let d = raw.to_delta();
                    proof {
                        let t = decode_deltas(it.rest());
                        assert(deltas_view(out@.push(d)) =~= deltas_view(out@).push(d@));
                        if t is Some {
                            assert(deltas_view(out@) + (seq![d@] + t.unwrap()) =~= deltas_view(
                                out@,
                            ).push(d@) + t.unwrap());
                        }
                    }
                    out.push(d);
                },
                None => {
                    return None;
                },
            }
        }
    }
}

/// Walks an encoded sequence of deltas.
pub struct RawDeltaIter<'a> {
    bytes: &'a [u8],
    offset: usize,
}

impl<'a> RawDeltaIter<'a> {
    pub closed spec fn rest(&self) -> Seq<u8> {
        self.bytes@.subrange(self.offset as int, self.bytes@.len() as int)
    }

    pub closed spec fn wf(&self) -> bool {
        self.offset <= self.bytes@.len()
    }

    /// Whether the walk has reached the end of the buffer.
    pub fn at_end(&self) -> (r: bool)
        requires
            self.wf(),
        ensures
            r == (self.rest().len() == 0),
    {
        self.offset == self.bytes.len()
    }

    /// The next encoded delta, if the buffer holds one more; `None` at the end, or
    /// where a length runs past the end.
    pub fn next(&mut self) -> (r: Option<RawDelta<'a>>)
        requires
            old(self).wf(),
        ensures
            final(self).wf(),
            match decode_delta_at(old(self).rest()) {
                Some((d, n)) => r matches Some(raw) && raw.wf() && raw.delta() == d
                    && final(self).rest() == old(self).rest().subrange(n, old(self).rest().len() as int)
                    && n >= 16,
                None => r is None && final(self).rest() == old(self).rest(),
            },
    {
        let len = self.bytes.len();
        if self.offset == len {
            return None;
        }
        let tail = slice_subrange(self.bytes, self.offset, len);
        match RawDelta::new(tail) {
            Some(delta) => {
                let n = delta.range().end;
                self.offset = self.offset + n;
                proof {
                    assert(self.rest() =~= old(self).rest().subrange(n as int, old(self).rest().len() as int));
                }
                Some(delta)
            },
            None => None,
        }
    }
}

/// Encodes `deltas` one after the other.
pub fn encode_delta_seq(deltas: &[Delta<Vec<u8>>]) -> (r: Vec<u8>)
    ensures
        r@ == encode_deltas(deltas_view(deltas@)),
{
    let mut out: Vec<u8> = Vec::new();
    let mut i: usize = 0;
    while i < deltas.len()
        invariant
            i <= deltas@.len(),
            out@ == encode_deltas(deltas_view(deltas@.take(i as int))),
        decreases deltas@.len() - i,
    {
        deltas[i].encode(&mut out);
        proof {
            let next = deltas_view(deltas@.take(i + 1));
            assert(next.drop_last() =~= deltas_view(deltas@.take(i as int)));
            assert(next.last() == deltas[i as int]@);
        }
        i += 1;
    }
    assert(deltas@.take(i as int) =~= deltas@);
    out
}

} // verus!
