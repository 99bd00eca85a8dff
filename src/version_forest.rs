//! The forest of versions, kept in a `sled` tree whose keys are big-endian version
//! IDs and whose values are encoded version nodes.
use crate::be::u64_to_be_vec;
use crate::kv::{lemma_by_version_insert, lemma_by_version_remove, KvTree, TxError};
use crate::version_node::{
    decode_node, lemma_node_round_trip, node_representable, NodeView, RawVersionNode, VersionNode,
    NULL_VERSION,
};
use crate::forest_model::{
    common_tail_len, descendants, forest_after_create, forest_after_remove, forest_bytes_ok,
    forest_nodes, forest_wf, is_root_path, lemma_closed_takes_descendants, lemma_common_tail_len,
    lemma_contains_push, lemma_create_preserves_wf, lemma_no_short_cycles,
    lemma_remove_preserves_wf, lemma_remove_tree_preserves_wf, lemma_root_path_cons,
    lemma_root_path_is, lemma_wf_no_null, path_between, root_path, tail_eq, without,
};
use vstd::prelude::*;

verus! {
/// A `sled` tree that stores a set of versions, each of which is a node in some tree,
/// inside a transaction.
pub struct TransactionalVersionForest<'a>(pub KvTree<'a>);

impl<'a> TransactionalVersionForest<'a> {
    pub open spec fn entries(&self) -> Map<Seq<u8>, Seq<u8>> {
        self.0.entries()
    }

    pub open spec fn nodes(&self) -> Map<u64, NodeView> {
        forest_nodes(self.entries())
    }

    /// The node of `version`, if it is in the forest.
    pub fn get_version(&self, version: u64) -> (r: Result<Option<VersionNode>, TxError>)
        requires
            forest_bytes_ok(self.entries()),
        ensures
            r matches Err(e) ==> e is Host,
            r matches Ok(o) ==> o.is_some() == self.nodes().contains_key(version),
            r matches Ok(Some(n)) ==> n@ == self.nodes()[version] && node_representable(n@),
    {
        let key = u64_to_be_vec(version);
        match self.0.get(key.as_slice()) {
            Err(e) => Err(TxError::Host(e)),
            Ok(None) => Ok(None),
            Ok(Some(bytes)) => {
                proof {
                    assert(self.entries().contains_key(crate::be::u64_be(version)));
                }
                match RawVersionNode::new(bytes.as_slice()) {
                    Some(raw) => {
                        let n = raw.to_node();
                        assert(n.children@.len() == n.children.len());
                        Ok(Some(n))
                    },
                    // Not reached: every entry decodes.
                    None => Err(TxError::Abort),
                }
            },
        }
    }

    /// Stores `node` as the node of `version`.
    fn put_version(&mut self, version: u64, node: &VersionNode) -> (r: Result<(), TxError>)
        requires
            forest_bytes_ok(old(self).entries()),
            node_representable(node@),
        ensures
            r matches Err(e) ==> e is Host,
            r is Ok ==> {
                &&& final(self).nodes() == old(self).nodes().insert(version, node@)
                &&& forest_bytes_ok(final(self).entries())
                &&& final(self).entries().dom() == old(self).entries().dom().insert(crate::be::u64_be(version))
            },
    {
        let key = u64_to_be_vec(version);
        let bytes = node.to_bytes();
        let ghost b = bytes@;
        match self.0.insert(key.as_slice(), bytes) {
            Err(e) => Err(TxError::Host(e)),
            Ok(_) => {
                proof {
                    lemma_node_round_trip(node@, Seq::empty());
                    assert(b + Seq::<u8>::empty() =~= b);
                    lemma_by_version_insert(old(self).entries(), |b: Seq<u8>| decode_node(b), version, b);
                }
                Ok(())
            },
        }
    }

    /// Deletes the node of `version`.
    fn remove_entry(&mut self, version: u64) -> (r: Result<(), TxError>)
        requires
            forest_bytes_ok(old(self).entries()),
        ensures
            r matches Err(e) ==> e is Host,
            r is Ok ==> {
                &&& final(self).nodes() == old(self).nodes().remove(version)
                &&& forest_bytes_ok(final(self).entries())
                &&& final(self).entries().dom() == old(self).entries().dom().remove(crate::be::u64_be(version))
            },
    {
        let key = u64_to_be_vec(version);
        match self.0.remove(key.as_slice()) {
            Err(e) => Err(TxError::Host(e)),
            Ok(_) => {
                proof {
                    lemma_by_version_remove(old(self).entries(), |b: Seq<u8>| decode_node(b), version);
                }
                Ok(())
            },
        }
    }

    /// Makes a new version with a fresh ID from the store's counter, as a root when
    /// `parent_version` is `None`, else as the last child of `parent_version`. What
    /// follows the drawing of the ID is `create_version_with_id`.
    pub fn create_version(&mut self, parent_version: Option<u64>) -> (r: Result<u64, TxError>)
        requires
            forest_bytes_ok(old(self).entries()),
            forest_wf(old(self).nodes()),
        ensures
            r matches Err(TxError::Abort) ==> final(self).entries() == old(self).entries(),
            r matches Err(TxError::BadId(_)) ==> final(self).entries() == old(self).entries(),
            !(r matches Err(TxError::Host(_))) && !(r matches Err(TxError::BadId(_))) ==> (r is Ok
                <==> (parent_version matches Some(p) ==> old(self).nodes().contains_key(p))),
            r matches Ok(id) ==> {
                &&& id != NULL_VERSION
                &&& !old(self).nodes().contains_key(id)
                &&& final(self).nodes() == forest_after_create(old(self).nodes(), parent_version, id)
                &&& forest_wf(final(self).nodes())
                &&& forest_bytes_ok(final(self).entries())
                &&& final(self).entries().dom() == old(self).entries().dom().insert(crate::be::u64_be(id))
            },
    {
        let new_version = match self.0.generate_id() {
            Err(e) => return Err(TxError::Host(e)),
            Ok(id) => id,
        };
        self.create_version_with_id(parent_version, new_version)
    }

    /// Makes a new version named `new_version`, as a root when `parent_version` is
    /// `None`, else as the last child of `parent_version`. Fails with `BadId`, writing
    /// nothing, when `new_version` is `NULL_VERSION` or already in the forest; else
    /// aborts, writing nothing, when the parent is not in the forest.
    pub fn create_version_with_id(&mut self, parent_version: Option<u64>, new_version: u64) -> (r: Result<u64, TxError>)
        requires
            forest_bytes_ok(old(self).entries()),
            forest_wf(old(self).nodes()),
        ensures
            !(r matches Err(TxError::Host(_))) ==> (r matches Err(TxError::BadId(_)) <==> new_version == NULL_VERSION
                || old(self).nodes().contains_key(new_version)),
            r matches Err(TxError::BadId(id)) ==> id == new_version && final(self).entries() == old(self).entries(),
            r matches Err(TxError::Abort) ==> final(self).entries() == old(self).entries(),
            !(r matches Err(TxError::Host(_))) && new_version != NULL_VERSION && !old(self).nodes().contains_key(
                new_version,
            ) ==> (r is Ok <==> (parent_version matches Some(p) ==> old(self).nodes().contains_key(p))),
            r matches Ok(id) ==> {
                &&& id == new_version
                &&& id != NULL_VERSION
                &&& !old(self).nodes().contains_key(id)
                &&& final(self).nodes() == forest_after_create(old(self).nodes(), parent_version, id)
                &&& forest_wf(final(self).nodes())
                &&& forest_bytes_ok(final(self).entries())
                &&& final(self).entries().dom() == old(self).entries().dom().insert(crate::be::u64_be(id))
            },
    {
        if new_version == NULL_VERSION {
            return Err(TxError::BadId(new_version));
        }
        match self.get_version(new_version) {
            Err(e) => return Err(e),
            Ok(Some(_)) => return Err(TxError::BadId(new_version)),
            Ok(None) => {},
        }
        let ghost f = self.nodes();
        proof {
            lemma_wf_no_null(f);
        }
        match parent_version {
            None => {
                let node = VersionNode::new_orphan();
                match self.put_version(new_version, &node) {
                    Err(e) => return Err(e),
                    Ok(()) => {},
                }
            },
            Some(parent) => {
                // Abort so we don't create a dangling pointer in the tree.
                let mut parent_node = match self.get_version(parent) {
                    Err(e) => return Err(e),
                    Ok(None) => return Err(TxError::Abort),
                    Ok(Some(n)) => n,
                };
                parent_node.children.push(new_version);
                let node = VersionNode::new_with_parent(parent);
                match self.put_version(new_version, &node) {
                    Err(e) => return Err(e),
                    Ok(()) => {},
                }
                assert(parent_node.children@.len() == parent_node.children.len());
                match self.put_version(parent, &parent_node) {
                    Err(e) => return Err(e),
                    Ok(()) => {},
                }
                proof {
                    assert(crate::be::u64_be(parent) != crate::be::u64_be(new_version)) by {
                        crate::be::lemma_u64_be_injective(parent, new_version);
                    }
                }
            },
        }
        proof {
            lemma_create_preserves_wf(f, parent_version, new_version);
            assert(self.entries().dom() =~= old(self).entries().dom().insert(crate::be::u64_be(new_version)));
        }
        Ok(new_version)
    }

    /// Deletes `version`, handing its children to its parent, and returns its node;
    /// `Ok(None)` when it is not in the forest. Aborts, writing nothing, on a root.
    pub fn remove_version(&mut self, version: u64) -> (r: Result<Option<VersionNode>, TxError>)
        requires
            forest_bytes_ok(old(self).entries()),
            forest_wf(old(self).nodes()),
        ensures
            r matches Err(e) ==> e is Host || e is Abort,
            r matches Err(TxError::Abort) ==> final(self).entries() == old(self).entries(),
            !(r matches Err(TxError::Host(_))) ==> (r matches Err(TxError::Abort) <==> old(self).nodes().contains_key(
                version,
            ) && old(self).nodes()[version].parent is None),
            r matches Ok(None) ==> !old(self).nodes().contains_key(version) && final(self).entries() == old(
                self,
            ).entries(),
            r matches Ok(Some(n)) ==> {
                &&& old(self).nodes().contains_key(version)
                &&& n@ == old(self).nodes()[version]
                &&& final(self).nodes() == forest_after_remove(old(self).nodes(), version)
                &&& forest_wf(final(self).nodes())
                &&& forest_bytes_ok(final(self).entries())
                &&& final(self).entries().dom() == old(self).entries().dom().remove(crate::be::u64_be(version))
            },
    {
        let rm_node = match self.get_version(version) {
            Err(e) => return Err(e),
            // Nothing to do.
            Ok(None) => return Ok(None),
            Ok(Some(n)) => n,
        };
        // Cannot delete the root version.
        let parent = match rm_node.parent {
            None => return Err(TxError::Abort),
            Some(p) => p,
        };
        let ghost f = self.nodes();
        let ghost ch = rm_node.children@;
        let ghost dom0 = self.entries().dom();
        proof {
            lemma_no_short_cycles(f, version);
        }
        // Re-parent the children.
        let mut i: usize = 0;
        while i < rm_node.children.len()
            invariant
                forest_bytes_ok(self.entries()),
                f == old(self).nodes(),
                forest_wf(f),
                f.contains_key(version),
                f[version].parent == Some(parent),
                f.contains_key(parent),
                forall|c: u64| #[trigger] ch.contains(c) ==> f.contains_key(c),
                rm_node@ == f[version],
                ch == rm_node.children@,
                i <= ch.len(),
                self.entries().dom() == dom0,
                dom0 == old(self).entries().dom(),
                self.nodes() == Map::new(
                    |w: u64| f.contains_key(w),
                    |w: u64| if ch.take(i as int).contains(w) {
                        NodeView { parent: Some(parent), children: f[w].children }
                    } else {
                        f[w]
                    },
                ),
            decreases ch.len() - i,
        {
            let child = rm_node.children[i];
            proof {
                assert(ch[i as int] == child);
                assert(ch.contains(child));
            }
            let mut child_node = match self.get_version(child) {
                Err(e) => return Err(e),
                // Not reached: listed children are in the forest.
                Ok(None) => return Err(TxError::Abort),
                Ok(Some(n)) => n,
            };
            child_node.parent = Some(parent);
            match self.put_version(child, &child_node) {
                Err(e) => return Err(e),
                Ok(()) => {},
            }
            proof {
                assert(child_node.children@ == f[child].children) by {
                    if ch.take(i as int).contains(child) {
                    }
                }
                assert(self.entries().dom() =~= dom0);
                assert(self.nodes() =~= Map::new(
                    |w: u64| f.contains_key(w),
                    |w: u64| if ch.take(i + 1).contains(w) {
                        NodeView { parent: Some(parent), children: f[w].children }
                    } else {
                        f[w]
                    },
                )) by {
                    let t1 = ch.take(i + 1);
                    let t0 = ch.take(i as int);
                    assert forall|w: u64| #[trigger] t1.contains(w) <==> t0.contains(w) || w == child by {
                        if t1.contains(w) {
                            let j = choose|j: int| 0 <= j < t1.len() && t1[j] == w;
                            if j < i {
                                assert(t0[j] == w);
                            }
                        }
                        if t0.contains(w) {
                            let j = choose|j: int| 0 <= j < t0.len() && t0[j] == w;
                            assert(t1[j] == w);
                        }
                        if w == child {
                            assert(t1[i as int] == w);
                        }
                    }
                }
            }
            i += 1;
        }
        assert(ch.take(i as int) =~= ch);
        // The parent lists the children in place of `version`.
        let mut parent_node = match self.get_version(parent) {
            Err(e) => return Err(e),
            // Not reached: parents are in the forest.
            Ok(None) => return Err(TxError::Abort),
            Ok(Some(n)) => n,
        };
        assert(parent_node@ == f[parent]);
        let mut new_children: Vec<u64> = Vec::new();
        let mut j: usize = 0;
        while j < parent_node.children.len()
            invariant
                j <= parent_node.children@.len(),
                new_children@ == without(parent_node.children@.take(j as int), version),
            decreases parent_node.children@.len() - j,
        {
            let c = parent_node.children[j];
            proof {
                let t = parent_node.children@.take(j + 1);
                assert(t.drop_last() =~= parent_node.children@.take(j as int));
                assert(t.last() == c);
            }
            if c != version {
                new_children.push(c);
            }
            j += 1;
        }
        assert(parent_node.children@.take(j as int) =~= parent_node.children@);
        let mut k: usize = 0;
        let ghost wo = new_children@;
        while k < rm_node.children.len()
            invariant
                k <= ch.len(),
                ch == rm_node.children@,
                new_children@ == wo + ch.take(k as int),
            decreases ch.len() - k,
        {
            new_children.push(rm_node.children[k]);
            assert(new_children@ =~= wo + ch.take(k + 1));
            k += 1;
        }
        assert(ch.take(k as int) =~= ch);
        parent_node.children = new_children;
        assert(parent_node.children@.len() == parent_node.children.len());
        match self.put_version(parent, &parent_node) {
            Err(e) => return Err(e),
            Ok(()) => {},
        }
        match self.remove_entry(version) {
            Err(e) => return Err(e),
            Ok(()) => {},
        }
        proof {
            lemma_remove_preserves_wf(f, version);
            assert(self.nodes() =~= forest_after_remove(f, version));
            assert(self.entries().dom() =~= dom0.remove(crate::be::u64_be(version)));
        }
        Ok(Some(rm_node))
    }

    /// Deletes `root` and every version below it, depth first, and returns the
    /// deleted versions in the order they went. A missing `root` deletes nothing.
    pub fn delete_tree(&mut self, root: u64) -> (r: Result<Vec<u64>, TxError>)
        requires
            forest_bytes_ok(old(self).entries()),
            forest_wf(old(self).nodes()),
            old(self).entries().dom().finite(),
        ensures
            r matches Err(e) ==> e is Host,
            r matches Ok(removed) ==> {
                &&& removed@.to_set() == descendants(old(self).nodes(), root)
                &&& removed@.no_duplicates()
                &&& old(self).nodes().contains_key(root) ==> removed@.len() > 0 && removed@[0] == root
                &&& final(self).nodes() == old(self).nodes().remove_keys(descendants(old(self).nodes(), root))
                &&& forest_bytes_ok(final(self).entries())
                &&& final(self).entries().dom().finite()
                &&& (old(self).nodes().contains_key(root) ==> old(self).nodes()[root].parent is None) ==> forest_wf(
                    final(self).nodes(),
                )
            },
    {
        let ghost f = self.nodes();
        let mut delete_queue: Vec<u64> = vec![root];
        let mut removed: Vec<u64> = Vec::new();
        proof {
            assert(delete_queue@.contains(root)) by {
                assert(delete_queue@[0] == root);
            }
            if f.contains_key(root) {
                lemma_root_path_is(f, root);
                assert(root_path(f, root)[0] == root);
            }
            assert forall|x: u64| #[trigger] delete_queue@.contains(x) && f.contains_key(x) implies descendants(
                f,
                root,
            ).contains(x) by {
                let j = choose|j: int| 0 <= j < delete_queue@.len() && delete_queue@[j] == x;
                assert(x == root);
            }
            assert(f.remove_keys(removed@.to_set()) =~= f);
        }
        while delete_queue.len() > 0
            invariant
                forest_bytes_ok(self.entries()),
                forest_wf(f),
                self.entries().dom().finite(),
                self.nodes() == f.remove_keys(removed@.to_set()),
                removed@.no_duplicates(),
                f.contains_key(root) ==> removed@.len() > 0 ==> removed@[0] == root,
                removed@.len() == 0 ==> delete_queue@ == seq![root] || delete_queue@.len() == 0,
                forall|x: u64| #[trigger] removed@.contains(x) ==> descendants(f, root).contains(x),
                forall|x: u64| #[trigger] delete_queue@.contains(x) && f.contains_key(x) ==> descendants(f, root).contains(x),
                forall|r: u64, c: u64| #[trigger] removed@.contains(r) && #[trigger] f[r].children.contains(c)
                    ==> removed@.contains(c) || delete_queue@.contains(c),
                f.contains_key(root) ==> removed@.contains(root) || delete_queue@.contains(root),
            decreases self.entries().dom().len(), delete_queue@.len(),
        {
            let ghost queue_before = delete_queue@;
            let version = delete_queue.pop().unwrap();
            proof {
                assert(queue_before == delete_queue@.push(version));
                lemma_contains_push(delete_queue@, version);
                assert(queue_before.contains(version));
                assert forall|x: u64| #[trigger] delete_queue@.contains(x) implies queue_before.contains(x) by {}
            }
            let node = match self.get_version(version) {
                Err(e) => return Err(e),
                Ok(o) => o,
            };
            if let Some(node) = node {
                let ghost removed_before = removed@;
                let ghost dom_before = self.entries().dom();
                match self.remove_entry(version) {
                    Err(e) => return Err(e),
                    Ok(()) => {},
                }
                removed.push(version);
                proof {
                    lemma_contains_push(removed_before, version);
                    assert(removed@.to_set() =~= removed_before.to_set().insert(version));
                    assert(self.nodes() =~= f.remove_keys(removed@.to_set()));
                    assert(dom_before.contains(crate::be::u64_be(version)));
                    assert(self.entries().dom().len() < dom_before.len());
                    if removed_before.len() == 0 {
                        assert(version == root);
                    }
                    assert(removed@[0] == removed_before.push(version)[0]);
                    lemma_root_path_is(f, version);
                }
                let ghost mid_queue = delete_queue@;
                let mut i: usize = 0;
                while i < node.children.len()
                    invariant
                        i <= node.children@.len(),
                        node@ == f[version],
                        f.contains_key(version),
                        forest_wf(f),
                        delete_queue@ == mid_queue + node.children@.take(i as int),
                    decreases node.children@.len() - i,
                {
                    delete_queue.push(node.children[i]);
                    assert(delete_queue@ =~= mid_queue + node.children@.take(i + 1));
                    i += 1;
                }
                proof {
                    assert(node.children@.take(i as int) =~= node.children@);
                    assert forall|x: u64| #[trigger] delete_queue@.contains(x) <==> mid_queue.contains(x)
                        || f[version].children.contains(x) by {
                        if delete_queue@.contains(x) {
                            let j = choose|j: int| 0 <= j < delete_queue@.len() && delete_queue@[j] == x;
                            if j >= mid_queue.len() {
                                assert(f[version].children[j - mid_queue.len()] == x);
                            }
                        }
                        if mid_queue.contains(x) {
                            let j = choose|j: int| 0 <= j < mid_queue.len() && mid_queue[j] == x;
                            assert(delete_queue@[j] == x);
                        }
                        if f[version].children.contains(x) {
                            let j = choose|j: int| 0 <= j < f[version].children.len() && f[version].children[j] == x;
                            assert(delete_queue@[mid_queue.len() + j] == x);
                        }
                    }
                    assert forall|x: u64| #[trigger] mid_queue.contains(x) implies queue_before.contains(x) by {}
                    assert forall|r: u64, c: u64| #[trigger] removed@.contains(r) && #[trigger] f[r].children.contains(c)
                        implies removed@.contains(c) || delete_queue@.contains(c) by {
                        if r != version {
                            assert(removed_before.contains(r));
                            if !removed_before.contains(c) {
                                assert(queue_before.contains(c));
                                if c != version {
                                    assert(mid_queue.contains(c));
                                }
                            }
                        }
                    }
                    assert forall|x: u64| #[trigger] delete_queue@.contains(x) && f.contains_key(x) implies descendants(
                        f,
                        root,
                    ).contains(x) by {
                        if mid_queue.contains(x) {
                            assert(queue_before.contains(x));
                        }
                        if f[version].children.contains(x) && !mid_queue.contains(x) {
                            reveal(forest_wf);
                            let j = choose|j: int| 0 <= j < f[version].children.len() && f[version].children[j] == x;
                            assert(f[x].parent == Some(version));
                            lemma_root_path_is(f, version);
                            assert(descendants(f, root).contains(version));
                            lemma_root_path_cons(f, x, version, root_path(f, version));
                            lemma_root_path_is(f, x);
                            assert(root_path(f, x) == seq![x] + root_path(f, version));
                            let t = choose|t: int| 0 <= t < root_path(f, version).len() && root_path(f, version)[t] == root;
                            assert(root_path(f, x)[t + 1] == root);
                        }
                    }
                }
            } else {
                proof {
                    assert(!f.contains_key(version) || removed@.contains(version));
                    assert forall|r: u64, c: u64| #[trigger] removed@.contains(r) && #[trigger] f[r].children.contains(c)
                        implies removed@.contains(c) || delete_queue@.contains(c) by {
                        if !removed@.contains(c) {
                            assert(queue_before.contains(c));
                            if c == version {
                                reveal(forest_wf);
                                let j = choose|j: int| 0 <= j < f[r].children.len() && f[r].children[j] == c;
                                assert(f.contains_key(f[r].children[j]));
                            }
                        }
                    }
                    assert forall|x: u64| #[trigger] delete_queue@.contains(x) && f.contains_key(x) implies descendants(
                        f,
                        root,
                    ).contains(x) by {
                        assert(queue_before.contains(x));
                    }
                }
            }
        }
        proof {
            lemma_closed_takes_descendants(f, root, removed@.to_set());
            assert(removed@.to_set() =~= descendants(f, root));
            if f.contains_key(root) ==> f[root].parent is None {
                lemma_remove_tree_preserves_wf(f, root);
            }
            if f.contains_key(root) {
                assert(removed@.contains(root));
            }
        }
        Ok(removed)
    }

    /// The path from `start` to `finish`: up to their lowest common ancestor, then
    /// down. `NoPathExists` when they lie in different trees; aborts when either is
    /// not in the forest.
    pub fn find_path_between_versions(&self, start: u64, finish: u64) -> (r: Result<VersionPath, TxError>)
        requires
            forest_bytes_ok(self.entries()),
            forest_wf(self.nodes()),
        ensures
            r matches Err(e) ==> e is Host || e is Abort,
            !(r matches Err(TxError::Host(_))) ==> (r is Ok <==> self.nodes().contains_key(start)
                && self.nodes().contains_key(finish)),
            r matches Ok(VersionPath::PathExists(path)) ==> path_between(self.nodes(), start, finish) == Some(path@),
            r matches Ok(VersionPath::NoPathExists) ==> path_between(self.nodes(), start, finish) is None,
    {
        let start_to_root = match self.find_path_to_root(start) {
            Err(e) => return Err(e),
            Ok(p) => p,
        };
        let finish_to_root = match self.find_path_to_root(finish) {
            Err(e) => return Err(e),
            Ok(p) => p,
        };
        let ghost pa = start_to_root@;
        let ghost pb = finish_to_root@;
        let la = start_to_root.len();
        let lb = finish_to_root.len();
        if start_to_root[la - 1] != finish_to_root[lb - 1] {
            return Ok(VersionPath::NoPathExists);
        }
        let k = tail_match_len(&start_to_root, &finish_to_root);
        proof {
            lemma_common_tail_len(pa, pb, 0);
            assert(tail_eq(pa, pb, 0));
        }
        let path = join_at_ancestor(&start_to_root, &finish_to_root, k);
        Ok(VersionPath::PathExists(path))
    }

    /// The versions from `version` up to the root of its tree; aborts when `version`
    /// is not in the forest.
    pub fn find_path_to_root(&self, version: u64) -> (r: Result<Vec<u64>, TxError>)
        requires
            forest_bytes_ok(self.entries()),
            forest_wf(self.nodes()),
        ensures
            r matches Err(e) ==> e is Host || e is Abort,
            !(r matches Err(TxError::Host(_))) ==> (r is Ok <==> self.nodes().contains_key(version)),
            r matches Ok(path) ==> path@ == root_path(self.nodes(), version) && is_root_path(
                self.nodes(),
                version,
                path@,
            ),
    {
        let mut node = match self.get_version(version) {
            Err(e) => return Err(e),
            Ok(None) => return Err(TxError::Abort),
            Ok(Some(n)) => n,
        };
        let ghost f = self.nodes();
        let ghost full = root_path(f, version);
        proof {
            lemma_root_path_is(f, version);
        }
        let mut path: Vec<u64> = vec![version];
        loop
            invariant
                forest_bytes_ok(self.entries()),
                f == self.nodes(),
                is_root_path(f, version, full),
                full == root_path(f, version),
                0 < path@.len() <= full.len(),
                path@ == full.take(path@.len() as int),
                node@ == f[path@.last()],
            decreases full.len() - path@.len(),
        {
            match node.parent {
                None => {
                    proof {
                        if path@.len() < full.len() {
                            assert(f[full[path@.len() - 1]].parent == Some(full[path@.len() as int]));
                        }
                        assert(path@ =~= full);
                    }
                    return Ok(path);
                },
                Some(parent_version) => {
                    proof {
                        if path@.len() == full.len() {
                            assert(path@.last() == full.last());
                        }
                        assert(f[full[path@.len() - 1]].parent == Some(full[path@.len() as int]));
                        assert(path@.last() == full[path@.len() - 1]);
                    }
                    path.push(parent_version);
                    assert(path@ =~= full.take(path@.len() as int));
                    node = match self.get_version(parent_version) {
                        Err(e) => return Err(e),
                        // Not reached: parents are in the forest.
                        Ok(None) => return Err(TxError::Abort),
                        Ok(Some(n)) => n,
                    };
                },
            }
        }
    }
}

/// How many elements at the ends of `a` and `b` agree.
fn tail_match_len(a: &Vec<u64>, b: &Vec<u64>) -> (k: usize)
    ensures
        k == common_tail_len(a@, b@, 0),
{
    let la = a.len();
    let lb = b.len();
    let mut k: usize = 0;
    while k < la && k < lb && a[la - 1 - k] == b[lb - 1 - k]
        invariant
            la == a@.len(),
            lb == b@.len(),
            k <= la,
            k <= lb,
            common_tail_len(a@, b@, 0) == common_tail_len(a@, b@, k as nat),
        decreases la - k,
    {
        k += 1;
    }
    k
}

/// `a` up to and including the element `k` places before its end, followed by `b`
/// strictly below the element `k` places before its end, reversed.
fn join_at_ancestor(a: &Vec<u64>, b: &Vec<u64>, k: usize) -> (r: Vec<u64>)
    requires
        1 <= k <= a@.len(),
        k <= b@.len(),
    ensures
        r@ == a@.take(a@.len() - k + 1) + b@.take(b@.len() - k).reverse(),
{
    let la = a.len();
    let lb = b.len();
    let mut path: Vec<u64> = Vec::new();
    let mut i: usize = 0;
    while i <= la - k
        invariant
            la == a@.len(),
            1 <= k <= la,
            i <= la - k + 1,
            path@ == a@.take(i as int),
        decreases la - k + 1 - i,
    {
        path.push(a[i]);
        assert(path@ =~= a@.take(i + 1));
        i += 1;
    }
    let ghost up = path@;
    let mut j: usize = lb - k;
    while j > 0
        invariant
            lb == b@.len(),
            k <= lb,
            j <= lb - k,
            path@ == up + b@.take(lb - k).reverse().take(lb - k - j),
        decreases j,
    {
        j -= 1;
        path.push(b[j]);
        assert(path@ =~= up + b@.take(lb - k).reverse().take(lb - k - j));
    }
    assert(b@.take(lb - k).reverse().take(lb - k - j) =~= b@.take(lb - k).reverse());
    path
}

/// The version that a forest key names: its eight big-endian bytes; `None` for a key
/// of another length.
pub fn version_of_key(key: &[u8]) -> (r: Option<u64>)
    ensures
        r == (if key@.len() == 8 { Some(crate::be::u64_from_be(key@)) } else { None::<u64> }),
{
    if key.len() == 8 {
        let v = crate::be::u64_from_be_slice(key, 0);
        assert(key@.subrange(0, 8) =~= key@);
        Some(v)
    } else {
        None
    }
}

/// The outcome of a search for a path between two versions.
#[derive(Clone, Debug, Eq, PartialEq)]
pub enum VersionPath {
    PathExists(Vec<u64>),
    NoPathExists,
}

} // verus!
