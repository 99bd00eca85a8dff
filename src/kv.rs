//! Transactional access to a `sled` tree, seen as a map from byte strings to byte strings.
use sled::transaction::{TransactionalTree, UnabortableTransactionError};
use crate::be::{lemma_u64_be_injective, u64_be};
use vstd::prelude::*;

verus! {

#[verifier::external_type_specification]
#[verifier::external_body]
pub struct ExTransactionalTree(TransactionalTree);

#[verifier::external_type_specification]
#[verifier::external_body]
pub struct ExUnabortableTransactionError(UnabortableTransactionError);

/// The entries of `c` whose key is the big-endian encoding of a version, decoded
/// with `dec`.
pub open spec fn by_version<T>(c: Map<Seq<u8>, Seq<u8>>, dec: spec_fn(Seq<u8>) -> T) -> Map<u64, T> {
    Map::new(|v: u64| c.contains_key(u64_be(v)), |v: u64| dec(c[u64_be(v)]))
}

pub proof fn lemma_by_version_insert<T>(
    c: Map<Seq<u8>, Seq<u8>>,
    dec: spec_fn(Seq<u8>) -> T,
    v: u64,
    x: Seq<u8>,
)
    ensures
        by_version(c.insert(u64_be(v), x), dec) == by_version(c, dec).insert(v, dec(x)),
{
    assert forall|w: u64| #[trigger] u64_be(w) == u64_be(v) <==> w == v by {
        lemma_u64_be_injective(w, v);
    }
    assert(by_version(c.insert(u64_be(v), x), dec) =~= by_version(c, dec).insert(v, dec(x)));
}

pub proof fn lemma_by_version_remove<T>(c: Map<Seq<u8>, Seq<u8>>, dec: spec_fn(Seq<u8>) -> T, v: u64)
    ensures
        by_version(c.remove(u64_be(v)), dec) == by_version(c, dec).remove(v),
{
    assert forall|w: u64| #[trigger] u64_be(w) == u64_be(v) <==> w == v by {
        lemma_u64_be_injective(w, v);
    }
    assert(by_version(c.remove(u64_be(v)), dec) =~= by_version(c, dec).remove(v));
}

/// Why a transaction cannot go on.
pub enum TxError {
    /// The caller asked for something that the forest's state forbids: the
    /// transaction is to be rolled back.
    Abort,
    /// The store handed out an identifier that cannot name a new version: it is
    /// `NULL_VERSION`, or a version already has it.
    BadId(u64),
    /// The store reported a conflict or a failure: the transaction is to be retried
    /// or given up.
    Host(UnabortableTransactionError),
}

/// What a transactional tree holds, as seen from inside its transaction.
pub uninterp spec fn tree_entries(t: TransactionalTree) -> Map<Seq<u8>, Seq<u8>>;

/// A transactional tree together with the view that its writes change.
///
/// The proofs take each `KvTree` to be the only way to its tree: the version forest,
/// the delta map and the data tree handed to one operation must be three distinct
/// trees, each wrapped once.
pub struct KvTree<'a> {
    pub(crate) tree: &'a TransactionalTree,
}

impl<'a> KvTree<'a> {
    /// What the tree holds, as seen from inside its transaction.
    pub open(crate) spec fn entries(&self) -> Map<Seq<u8>, Seq<u8>> {
        tree_entries(*self.tree)
    }

    pub fn new(tree: &'a TransactionalTree) -> (r: Self)
        ensures
            r.entries() == tree_entries(*tree),
    {
        KvTree { tree }
    }

    /// Relies on `TransactionalTree::get`: the value stored under `key`, if any.
    #[verifier::external_body]
    pub(crate) fn get(&self, key: &[u8]) -> (r: Result<Option<Vec<u8>>, UnabortableTransactionError>)
        ensures
            r matches Ok(v) ==> v.is_some() == tree_entries(*self.tree).contains_key(key@),
            r matches Ok(Some(x)) ==> x@ == tree_entries(*self.tree)[key@],
    {
        self.tree.get(key).map(|o| o.map(|v| v.to_vec()))
    }

    /// Relies on `TransactionalTree::insert`: stores `value` under `key` and returns
    /// the value it replaced.
    #[verifier::external_body]
    pub(crate) fn insert(&mut self, key: &[u8], value: Vec<u8>) -> (r: Result<Option<Vec<u8>>, UnabortableTransactionError>)
        ensures
            r is Ok ==> tree_entries(*final(self).tree) == tree_entries(*old(self).tree).insert(key@, value@),
            r matches Ok(v) ==> v.is_some() == tree_entries(*old(self).tree).contains_key(key@),
            r matches Ok(Some(x)) ==> x@ == tree_entries(*old(self).tree)[key@],
    {
        self.tree.insert(key, value).map(|o| o.map(|v| v.to_vec()))
    }

    /// Relies on `TransactionalTree::remove`: deletes what is stored under `key` and
    /// returns it.
    #[verifier::external_body]
    pub(crate) fn remove(&mut self, key: &[u8]) -> (r: Result<Option<Vec<u8>>, UnabortableTransactionError>)
        ensures
            r is Ok ==> tree_entries(*final(self).tree) == tree_entries(*old(self).tree).remove(key@),
            r matches Ok(v) ==> v.is_some() == tree_entries(*old(self).tree).contains_key(key@),
            r matches Ok(Some(x)) ==> x@ == tree_entries(*old(self).tree)[key@],
    {
        self.tree.remove(key).map(|o| o.map(|v| v.to_vec()))
    }

    /// Relies on `TransactionalTree::generate_id`: a fresh identifier from the store's
    /// monotonic counter. Nothing is promised of its value.
    #[verifier::external_body]
    pub(crate) fn generate_id(&self) -> (r: Result<u64, UnabortableTransactionError>) {
        self.tree.generate_id().map_err(UnabortableTransactionError::from)
    }
}

} // verus!
