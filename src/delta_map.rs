//! The map from each version to its delta set, kept in a `sled` tree whose keys are
//! big-endian version IDs and whose values are encoded delta sets.
use crate::be::u64_to_be_vec;
use crate::delta::{all_encodable, deltas_view, Delta, DeltaSpec};
use crate::delta_set::{
    decode_deltas, encode_delta_seq, encode_deltas, lemma_decode_deltas_concat,
    lemma_decode_encoded, normalize_all, RawDeltaSet,
};
use crate::kv::{by_version, lemma_by_version_insert, lemma_by_version_remove, KvTree, TxError};
use vstd::prelude::*;

verus! {

/// The decoded delta sets of a delta map's entries.
pub open spec fn delta_sets(c: Map<Seq<u8>, Seq<u8>>) -> Map<u64, Seq<DeltaSpec>> {
    by_version(c, |b: Seq<u8>| decode_deltas(b).unwrap())
}

/// Every entry keyed by a version holds a decodable delta set.
pub open spec fn delta_map_ok(c: Map<Seq<u8>, Seq<u8>>) -> bool {
    forall|v: u64| #[trigger] c.contains_key(crate::be::u64_be(v)) ==> decode_deltas(c[crate::be::u64_be(v)]) is Some
}

/// Whether `v` is the current version of its tree: its entry holds no deltas.
pub open spec fn is_current(c: Map<Seq<u8>, Seq<u8>>, v: u64) -> bool {
    delta_sets(c).contains_key(v) && delta_sets(c)[v].len() == 0
}

/// A `sled` tree that maps each `u64` version to a set of deltas, inside a transaction.
pub struct TransactionalDeltaMap<'a>(pub KvTree<'a>);

impl<'a> TransactionalDeltaMap<'a> {
    pub open spec fn entries(&self) -> Map<Seq<u8>, Seq<u8>> {
        self.0.entries()
    }

    pub open spec fn sets(&self) -> Map<u64, Seq<DeltaSpec>> {
        delta_sets(self.entries())
    }

    /// The delta set of `version`, if it has an entry.
    pub fn get(&self, version: u64) -> (r: Result<Option<Vec<Delta<Vec<u8>>>>, TxError>)
        requires
            delta_map_ok(self.entries()),
        ensures
            r matches Err(e) ==> e is Host,
            r matches Ok(o) ==> o.is_some() == self.sets().contains_key(version),
            r matches Ok(Some(ds)) ==> deltas_view(ds@) == self.sets()[version],
    {
        let key = u64_to_be_vec(version);
        match self.0.get(key.as_slice()) {
            Err(e) => Err(TxError::Host(e)),
            Ok(None) => Ok(None),
            Ok(Some(bytes)) => match RawDeltaSet::new(bytes.as_slice()).to_deltas() {
                Some(ds) => Ok(Some(ds)),
                // Not reached: every entry decodes.
                None => Err(TxError::Abort),
            },
        }
    }

    /// Removes the entry of `version` entirely, and returns its delta set.
    pub fn remove(&mut self, version: u64) -> (r: Result<Option<Vec<Delta<Vec<u8>>>>, TxError>)
        requires
            delta_map_ok(old(self).entries()),
        ensures
            r matches Err(e) ==> e is Host,
            r matches Ok(o) ==> {
                &&& final(self).entries() == old(self).entries().remove(crate::be::u64_be(version))
                &&& final(self).sets() == old(self).sets().remove(version)
                &&& delta_map_ok(final(self).entries())
                &&& o.is_some() == old(self).sets().contains_key(version)
            },
            r matches Ok(Some(ds)) ==> deltas_view(ds@) == old(self).sets()[version],
    {
        let key = u64_to_be_vec(version);
        let removed = self.0.remove(key.as_slice());
        proof {
            if removed is Ok {
                lemma_by_version_remove(old(self).entries(), |b: Seq<u8>| decode_deltas(b).unwrap(), version);
            }
        }
        match removed {
            Err(e) => Err(TxError::Host(e)),
            Ok(None) => Ok(None),
            Ok(Some(bytes)) => match RawDeltaSet::new(bytes.as_slice()).to_deltas() {
                Some(ds) => Ok(Some(ds)),
                // Not reached: every entry decodes.
                None => Err(TxError::Abort),
            },
        }
    }

    /// Returns `true` iff `version` is the current version in its tree: its entry
    /// exists and holds no deltas.
    pub fn is_current_version(&self, version: u64) -> (r: Result<bool, TxError>)
        requires
            delta_map_ok(self.entries()),
        ensures
            r matches Err(e) ==> e is Host,
            r matches Ok(b) ==> b == is_current(self.entries(), version),
    {
        let key = u64_to_be_vec(version);
        match self.0.get(key.as_slice()) {
            Err(e) => Err(TxError::Host(e)),
            Ok(None) => Ok(false),
            Ok(Some(bytes)) => {
                proof {
                    let b = bytes@;
                    if b.len() > 0 {
                        assert(decode_deltas(b) is Some);
                        assert(decode_deltas(b).unwrap().len() > 0);
                    }
                }
                Ok(bytes.len() == 0)
            },
        }
    }

    /// Overwrites the entry of `version` with the encoding of `deltas`.
    pub fn write_deltas(&mut self, version: u64, deltas: &[Delta<Vec<u8>>]) -> (r: Result<(), TxError>)
        requires
            delta_map_ok(old(self).entries()),
        ensures
            r matches Err(e) ==> e is Host,
            r is Ok ==> {
                &&& final(self).entries() == old(self).entries().insert(
                    crate::be::u64_be(version),
                    encode_deltas(deltas_view(deltas@)),
                )
                &&& final(self).sets() == old(self).sets().insert(
                    version,
                    normalize_all(deltas_view(deltas@)),
                )
                &&& delta_map_ok(final(self).entries())
            },
    {
        let bytes = encode_delta_seq(deltas);
        proof {
            lemma_encoded_vec_decodes(deltas@);
        }
        self.put(version, bytes)
    }

    /// Appends `new_deltas` to the delta set of `version`; aborts, writing nothing,
    /// when `version` has no entry.
    pub fn append_deltas(&mut self, version: u64, new_deltas: &[Delta<Vec<u8>>]) -> (r: Result<(), TxError>)
        requires
            delta_map_ok(old(self).entries()),
        ensures
            r matches Err(e) ==> e is Host || e is Abort,
            r matches Err(TxError::Abort) ==> final(self).entries() == old(self).entries(),
            !(r matches Err(TxError::Host(_))) ==> (r is Ok <==> old(self).sets().contains_key(version)),
            r is Ok ==> {
                &&& final(self).sets() == old(self).sets().insert(
                    version,
                    old(self).sets()[version] + normalize_all(deltas_view(new_deltas@)),
                )
                &&& delta_map_ok(final(self).entries())
            },
    {
        let key = u64_to_be_vec(version);
        match self.0.get(key.as_slice()) {
            Err(e) => Err(TxError::Host(e)),
            Ok(None) => Err(TxError::Abort),
            Ok(Some(existing)) => {
                let mut bytes = existing;
                let ghost old_bytes = bytes@;
                let encoded = encode_delta_seq(new_deltas);
                bytes.extend_from_slice(encoded.as_slice());
                assert(bytes@ =~= old_bytes + encoded@);
                proof {
                    assert(self.entries().contains_key(crate::be::u64_be(version)));
                    assert(old_bytes == self.entries()[crate::be::u64_be(version)]);
                    assert(decode_deltas(old_bytes) is Some);
                    assert(self.sets()[version] == decode_deltas(old_bytes).unwrap());
                    lemma_encoded_vec_decodes(new_deltas@);
                    lemma_decode_deltas_concat(old_bytes, encoded@);
                }
                self.put(version, bytes)
            },
        }
    }

    /// Puts `new_deltas` in front of the delta set of `version`, which must have an
    /// entry: the caller reached it by following the forest.
    pub fn prepend_deltas(&mut self, version: u64, new_deltas: &[Delta<Vec<u8>>]) -> (r: Result<(), TxError>)
        requires
            delta_map_ok(old(self).entries()),
            old(self).sets().contains_key(version),
        ensures
            r matches Err(e) ==> e is Host,
            r is Ok ==> {
                &&& final(self).sets() == old(self).sets().insert(
                    version,
                    normalize_all(deltas_view(new_deltas@)) + old(self).sets()[version],
                )
                &&& delta_map_ok(final(self).entries())
            },
    {
        let key = u64_to_be_vec(version);
        match self.0.get(key.as_slice()) {
            Err(e) => Err(TxError::Host(e)),
            // Not reached: the caller holds an entry for `version`.
            Ok(None) => Err(TxError::Abort),
            Ok(Some(existing)) => {
                let mut bytes = encode_delta_seq(new_deltas);
                let ghost encoded = bytes@;
                bytes.extend_from_slice(existing.as_slice());
                assert(bytes@ =~= encoded + existing@);
                proof {
                    assert(self.entries().contains_key(crate::be::u64_be(version)));
                    assert(existing@ == self.entries()[crate::be::u64_be(version)]);
                    assert(decode_deltas(existing@) is Some);
                    assert(self.sets()[version] == decode_deltas(existing@).unwrap());
                    lemma_encoded_vec_decodes(new_deltas@);
                    lemma_decode_deltas_concat(encoded, existing@);
                }
                self.put(version, bytes)
            },
        }
    }

    /// Stores already encoded deltas as the entry of `version`.
    fn put(&mut self, version: u64, bytes: Vec<u8>) -> (r: Result<(), TxError>)
        requires
            delta_map_ok(old(self).entries()),
            decode_deltas(bytes@) is Some,
        ensures
            r matches Err(e) ==> e is Host,
            r is Ok ==> {
                &&& final(self).entries() == old(self).entries().insert(crate::be::u64_be(version), bytes@)
                &&& final(self).sets() == old(self).sets().insert(version, decode_deltas(bytes@).unwrap())
                &&& delta_map_ok(final(self).entries())
            },
    {
        let ghost b = bytes@;
        let key = u64_to_be_vec(version);
        match self.0.insert(key.as_slice(), bytes) {
            Err(e) => Err(TxError::Host(e)),
            Ok(_) => {
                proof {
                    lemma_by_version_insert(old(self).entries(), |b: Seq<u8>| decode_deltas(b).unwrap(), version, b);
                }
                Ok(())
            },
        }
    }
}

/// The encoding of deltas held in memory decodes.
proof fn lemma_encoded_vec_decodes(deltas: Seq<Delta<Vec<u8>>>)
    ensures
        all_encodable(deltas_view(deltas)),
        decode_deltas(encode_deltas(deltas_view(deltas))) == Some(normalize_all(deltas_view(deltas))),
{
    let dv = deltas_view(deltas);
    assert forall|i: int| 0 <= i < dv.len() implies crate::delta::encodable(#[trigger] dv[i]) by {
        match &deltas[i] {
            Delta::Insert(k, v) => {
                assert(k@.len() == k.len());
                assert(v@.len() == v.len());
            },
            Delta::Remove(k) => {
                assert(k@.len() == k.len());
            },
        }
    }
    lemma_decode_encoded(dv);
}

} // verus!
