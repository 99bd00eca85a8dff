//! The operations on a snapshot forest. Each is meant to run as one transaction over
//! the version forest, the delta map and the data tree.
use crate::current::{
    holds_no_deltas, lemma_children_below_current_are_busy, lemma_current_after_create_child,
    lemma_current_after_create_tree, lemma_current_after_delete,
    lemma_current_after_tree_removal, lemma_current_same_emptiness, lemma_current_unique,
    one_current_per_tree,
};
use crate::delta::{apply_deltas, deltas_view, lemma_undo_restores, undo_deltas, Delta, DeltaSpec, KvMap};
use crate::delta_map::{delta_map_ok, delta_sets, is_current, TransactionalDeltaMap};
use crate::delta_set::{lemma_decoded_normal, normalize_all};
use crate::kv::{KvTree, TxError};
use crate::forest_model::{
    descendants, forest_after_create, forest_after_remove, forest_bytes_ok, forest_nodes, forest_wf,
    lemma_path_between, lemma_prepend_each_dom, lemma_root_of_parent,
    lemma_root_path_is, lemma_wf_children_and_parent, path_between, root_of, root_path,
};
use crate::version_forest::{TransactionalVersionForest, VersionPath};
use crate::restore::{lemma_walk_off_path, lemma_walk_step, nudge, restore_walk};
use crate::version_node::{NodeView, NULL_VERSION};
use itertools::Itertools;
use vstd::prelude::*;

verus! {

/// The stored state of a snapshot forest is sound: both trees decode, the forest is
/// well-formed, the versions of the forest are exactly the keys of the delta map, and
/// each tree has exactly one current version.
pub open spec fn snapshot_forest_ok(fe: Map<Seq<u8>, Seq<u8>>, de: Map<Seq<u8>, Seq<u8>>) -> bool {
    &&& forest_bytes_ok(fe)
    &&& forest_wf(forest_nodes(fe))
    &&& fe.dom().finite()
    &&& delta_map_ok(de)
    &&& forest_nodes(fe).dom() == delta_sets(de).dom()
    &&& one_current_per_tree(forest_nodes(fe), delta_sets(de))
}

/// Relies on `Itertools::tuple_windows`: each pair of neighbours in `path`, in order.
#[verifier::external_body]
fn adjacent_pairs(path: &Vec<u64>) -> (r: Vec<(u64, u64)>)
    ensures
        r@.len() == if path@.len() == 0 { 0 } else { path@.len() - 1 },
        forall|i: int| 0 <= i < r@.len() ==> #[trigger] r@[i] == (path@[i], path@[i + 1]),
{
    path.iter().copied().tuple_windows::<(u64, u64)>().collect()
}

/// Applies `deltas` to `data_tree` and adds the corresponding reverse deltas to
/// `reverse_deltas`. This only reverses each individual delta; the order of the deltas
/// stays the same.
pub fn apply_delta_seq(
    deltas: &[Delta<Vec<u8>>],
    data_tree: &mut KvTree,
    reverse_deltas: &mut Vec<Delta<Vec<u8>>>,
) -> (r: Result<(), TxError>)
    ensures
        r matches Err(e) ==> e is Host,
        r is Ok ==> {
            &&& final(data_tree).entries() == apply_deltas(old(data_tree).entries(), deltas_view(deltas@))
            &&& deltas_view(final(reverse_deltas)@) == deltas_view(old(reverse_deltas)@) + undo_deltas(
                old(data_tree).entries(),
                deltas_view(deltas@),
            )
        },
{
    let ghost d0 = data_tree.entries();
    let ghost dv = deltas_view(deltas@);
    let ghost r0 = deltas_view(reverse_deltas@);
    let mut i: usize = 0;
    assert(dv.skip(0) =~= dv);
    while i < deltas.len()
        invariant
            i <= deltas@.len(),
            dv == deltas_view(deltas@),
            apply_deltas(data_tree.entries(), dv.skip(i as int)) == apply_deltas(d0, dv),
            r0 + undo_deltas(d0, dv) == deltas_view(reverse_deltas@) + undo_deltas(data_tree.entries(), dv.skip(i as int)),
        decreases deltas@.len() - i,
    {
        let ghost before = data_tree.entries();
        let old_value = match &deltas[i] {
            Delta::Insert(key, value) => data_tree.insert(key.as_slice(), value.clone()),
            Delta::Remove(key) => data_tree.remove(key.as_slice()),
        };
        let old_value = match old_value {
            Err(e) => return Err(TxError::Host(e)),
            Ok(o) => o,
        };
        let key = match &deltas[i] {
            Delta::Insert(key, _) => key.clone(),
            Delta::Remove(key) => key.clone(),
        };
        let reverse = match old_value {
            Some(v) => Delta::Insert(key, v),
            None => Delta::Remove(key),
        };
        let ghost rv = reverse@;
        let ghost rest_before = deltas_view(reverse_deltas@);
        reverse_deltas.push(reverse);
        proof {
            let t = dv.skip(i as int);
            assert(t[0] == dv[i as int]);
            assert(t.drop_first() =~= dv.skip(i + 1));
            assert(data_tree.entries() == crate::delta::apply_delta(before, t[0]));
            assert(rv == crate::delta::undo_delta(before, t[0]));
            assert(deltas_view(reverse_deltas@) =~= rest_before.push(rv));
            assert(undo_deltas(before, t) == seq![rv] + undo_deltas(data_tree.entries(), dv.skip(i + 1)));
            assert(rest_before + undo_deltas(before, t) =~= deltas_view(reverse_deltas@) + undo_deltas(
                data_tree.entries(),
                dv.skip(i + 1),
            ));
        }
        i += 1;
    }
    proof {
        assert(dv.skip(i as int) =~= Seq::<DeltaSpec>::empty());
        assert(deltas_view(reverse_deltas@) + Seq::<DeltaSpec>::empty() =~= deltas_view(reverse_deltas@));
    }
    Ok(())
}

/// Reverses `v` in place.
fn reverse_vec(v: &mut Vec<Delta<Vec<u8>>>)
    ensures
        deltas_view(final(v)@) == deltas_view(old(v)@).reverse(),
{
    let mut out: Vec<Delta<Vec<u8>>> = Vec::new();
    while v.len() > 0
        invariant
            deltas_view(old(v)@).reverse() == deltas_view(out@) + deltas_view(v@).reverse(),
        decreases v@.len(),
    {
        let ghost before = v@;
        let d = v.pop().unwrap();
        proof {
            assert(before == v@.push(d));
            assert(deltas_view(before) =~= deltas_view(v@).push(d@));
            assert(deltas_view(v@).push(d@).reverse() =~= seq![d@] + deltas_view(v@).reverse());
        }
        out.push(d);
        assert(deltas_view(out@) =~= deltas_view(out@.drop_last()).push(d@));
        assert(deltas_view(out@) + deltas_view(v@).reverse() =~= deltas_view(out@.drop_last()) + (seq![d@]
            + deltas_view(v@).reverse()));
    }
    assert(deltas_view(v@).reverse() =~= Seq::<DeltaSpec>::empty());
    assert(deltas_view(out@) + Seq::<DeltaSpec>::empty() =~= deltas_view(out@));
    *v = out;
}

/// One hop of restoration: moves the deltas of `target_version` onto the data tree, and
/// stores what undoes them at `current_version`.
fn nudge_version(
    current_version: u64,
    target_version: u64,
    delta_map: &mut TransactionalDeltaMap,
    data_tree: &mut KvTree,
) -> (r: Result<(), TxError>)
    requires
        delta_map_ok(old(delta_map).entries()),
        old(delta_map).sets().contains_key(target_version),
    ensures
        r matches Err(e) ==> e is Host,
        r is Ok ==> {
            &&& delta_map_ok(final(delta_map).entries())
            &&& (final(data_tree).entries(), final(delta_map).sets()) == nudge(
                old(data_tree).entries(),
                old(delta_map).sets(),
                current_version,
                target_version,
            )
        },
{
    // Gather up all of the deltas in the target version.
    let deltas = match delta_map.remove(target_version) {
        Err(e) => return Err(e),
        // Not reached: every version of the forest has an entry.
        Ok(None) => return Err(TxError::Abort),
        Ok(Some(ds)) => ds,
    };
    let empty: Vec<Delta<Vec<u8>>> = Vec::new();
    match delta_map.write_deltas(target_version, empty.as_slice()) {
        Err(e) => return Err(e),
        Ok(()) => {},
    }
    assert(normalize_all(deltas_view(empty@)) =~= Seq::<DeltaSpec>::empty());
    assert(delta_map.sets() =~= old(delta_map).sets().insert(target_version, Seq::empty()));
    let mut reverse_deltas: Vec<Delta<Vec<u8>>> = Vec::new();
    match apply_delta_seq(deltas.as_slice(), data_tree, &mut reverse_deltas) {
        Err(e) => return Err(e),
        Ok(()) => {},
    }
    assert(deltas_view(reverse_deltas@) =~= undo_deltas(old(data_tree).entries(), deltas_view(deltas@)));
    reverse_vec(&mut reverse_deltas);
    delta_map.write_deltas(current_version, reverse_deltas.as_slice())
}

/// Creates a new tree in the snapshot forest and returns its root version, which is
/// current: its delta set is empty. The ID comes from the store's counter; what
/// follows is `create_snapshot_tree_with_id`.
pub fn create_snapshot_tree(
    forest: &mut TransactionalVersionForest,
    delta_map: &mut TransactionalDeltaMap,
) -> (r: Result<u64, TxError>)
    requires
        snapshot_forest_ok(old(forest).entries(), old(delta_map).entries()),
    ensures
        r matches Err(e) ==> e is Host || e is BadId,
        r matches Err(TxError::BadId(_)) ==> {
            &&& final(forest).entries() == old(forest).entries()
            &&& final(delta_map).entries() == old(delta_map).entries()
        },
        r matches Ok(v) ==> {
            &&& !old(forest).nodes().contains_key(v)
            &&& final(forest).nodes() == old(forest).nodes().insert(v, NodeView { parent: None, children: Seq::empty() })
            &&& final(delta_map).sets() == old(delta_map).sets().insert(v, Seq::empty())
            &&& snapshot_forest_ok(final(forest).entries(), final(delta_map).entries())
        },
{
    let id = match forest.0.generate_id() {
        Err(e) => return Err(TxError::Host(e)),
        Ok(id) => id,
    };
    create_snapshot_tree_with_id(id, forest, delta_map)
}

/// Creates a new tree whose root version is `new_version`, current with an empty
/// delta set. Fails with `BadId`, writing nothing, when `new_version` is
/// `NULL_VERSION` or already in the forest.
pub fn create_snapshot_tree_with_id(
    new_version: u64,
    forest: &mut TransactionalVersionForest,
    delta_map: &mut TransactionalDeltaMap,
) -> (r: Result<u64, TxError>)
    requires
        snapshot_forest_ok(old(forest).entries(), old(delta_map).entries()),
    ensures
        r matches Err(e) ==> e is Host || e is BadId,
        !(r matches Err(TxError::Host(_))) ==> (r is Ok <==> new_version != NULL_VERSION
            && !old(forest).nodes().contains_key(new_version)),
        r matches Err(TxError::BadId(id)) ==> {
            &&& id == new_version
            &&& final(forest).entries() == old(forest).entries()
            &&& final(delta_map).entries() == old(delta_map).entries()
        },
        r matches Ok(v) ==> {
            &&& v == new_version
            &&& !old(forest).nodes().contains_key(v)
            &&& final(forest).nodes() == old(forest).nodes().insert(v, NodeView { parent: None, children: Seq::empty() })
            &&& final(delta_map).sets() == old(delta_map).sets().insert(v, Seq::empty())
            &&& snapshot_forest_ok(final(forest).entries(), final(delta_map).entries())
        },
{
    let v = match forest.create_version_with_id(None, new_version) {
        Err(e) => return Err(e),
        Ok(v) => v,
    };
    let empty: Vec<Delta<Vec<u8>>> = Vec::new();
    match delta_map.write_deltas(v, empty.as_slice()) {
        Err(e) => return Err(e),
        Ok(()) => {},
    }
    proof {
        assert(normalize_all(deltas_view(empty@)) =~= Seq::<DeltaSpec>::empty());
        assert(final(forest).nodes().dom() =~= final(delta_map).sets().dom());
        lemma_current_after_create_tree(old(forest).nodes(), old(delta_map).sets(), v);
    }
    Ok(v)
}

/// Applies `deltas` to the data tree at the current version `current_version`, freezes
/// it with what undoes them, and returns a new child of it that becomes current.
/// Aborts, writing nothing, when `current_version` is not current; else the child's
/// ID comes from the store's counter, and what follows is
/// `create_child_snapshot_with_deltas_and_id`.
pub fn create_child_snapshot_with_deltas(
    current_version: u64,
    forest: &mut TransactionalVersionForest,
    delta_map: &mut TransactionalDeltaMap,
    data_tree: &mut KvTree,
    deltas: &[Delta<Vec<u8>>],
) -> (r: Result<u64, TxError>)
    requires
        snapshot_forest_ok(old(forest).entries(), old(delta_map).entries()),
        deltas@.len() > 0,
    ensures
        (r matches Err(TxError::Abort) || r matches Err(TxError::BadId(_))) ==> {
            &&& final(forest).entries() == old(forest).entries()
            &&& final(delta_map).entries() == old(delta_map).entries()
            &&& final(data_tree).entries() == old(data_tree).entries()
        },
        !(r matches Err(TxError::Host(_))) ==> (r matches Err(TxError::Abort) <==> !is_current(
            old(delta_map).entries(),
            current_version,
        )),
        !(r matches Err(TxError::Host(_))) && !(r matches Err(TxError::BadId(_))) ==> (r is Ok <==> is_current(
            old(delta_map).entries(),
            current_version,
        )),
        r matches Ok(child) ==> {
            &&& !old(forest).nodes().contains_key(child)
            &&& final(forest).nodes() == forest_after_create(old(forest).nodes(), Some(current_version), child)
            &&& final(data_tree).entries() == apply_deltas(old(data_tree).entries(), deltas_view(deltas@))
            &&& final(delta_map).sets() == old(delta_map).sets().insert(
                current_version,
                normalize_all(undo_deltas(old(data_tree).entries(), deltas_view(deltas@)).reverse()),
            ).insert(child, Seq::empty())
            &&& snapshot_forest_ok(final(forest).entries(), final(delta_map).entries())
        },
{
    let current = match delta_map.is_current_version(current_version) {
        Err(e) => return Err(e),
        Ok(b) => b,
    };
    if !current {
        return Err(TxError::Abort);
    }
    let id = match forest.0.generate_id() {
        Err(e) => return Err(TxError::Host(e)),
        Ok(id) => id,
    };
    create_child_snapshot_with_deltas_and_id(current_version, id, forest, delta_map, data_tree, deltas)
}

/// Applies `deltas` to the data tree at the current version `current_version`, freezes
/// it with what undoes them, and makes a new child of it named `new_version` that
/// becomes current. Aborts, writing nothing, when `current_version` is not current;
/// else fails with `BadId`, writing nothing, when `new_version` is `NULL_VERSION` or
/// already in the forest.
pub fn create_child_snapshot_with_deltas_and_id(
    current_version: u64,
    new_version: u64,
    forest: &mut TransactionalVersionForest,
    delta_map: &mut TransactionalDeltaMap,
    data_tree: &mut KvTree,
    deltas: &[Delta<Vec<u8>>],
) -> (r: Result<u64, TxError>)
    requires
        snapshot_forest_ok(old(forest).entries(), old(delta_map).entries()),
        deltas@.len() > 0,
    ensures
        (r matches Err(TxError::Abort) || r matches Err(TxError::BadId(_))) ==> {
            &&& final(forest).entries() == old(forest).entries()
            &&& final(delta_map).entries() == old(delta_map).entries()
            &&& final(data_tree).entries() == old(data_tree).entries()
        },
        r matches Err(TxError::BadId(id)) ==> id == new_version,
        !(r matches Err(TxError::Host(_))) ==> (r matches Err(TxError::Abort) <==> !is_current(
            old(delta_map).entries(),
            current_version,
        )),
        !(r matches Err(TxError::Host(_))) && is_current(old(delta_map).entries(), current_version) ==> (r matches Err(
            TxError::BadId(_),
        ) <==> new_version == NULL_VERSION || old(forest).nodes().contains_key(new_version)),
        !(r matches Err(TxError::Host(_))) ==> (r is Ok <==> is_current(old(delta_map).entries(), current_version)
            && new_version != NULL_VERSION && !old(forest).nodes().contains_key(new_version)),
        r matches Ok(child) ==> child == new_version,
        r matches Ok(child) ==> {
            &&& !old(forest).nodes().contains_key(child)
            &&& final(forest).nodes() == forest_after_create(old(forest).nodes(), Some(current_version), child)
            &&& final(data_tree).entries() == apply_deltas(old(data_tree).entries(), deltas_view(deltas@))
            &&& final(delta_map).sets() == old(delta_map).sets().insert(
                current_version,
                normalize_all(undo_deltas(old(data_tree).entries(), deltas_view(deltas@)).reverse()),
            ).insert(child, Seq::empty())
            &&& snapshot_forest_ok(final(forest).entries(), final(delta_map).entries())
        },
{
    let current = match delta_map.is_current_version(current_version) {
        Err(e) => return Err(e),
        Ok(b) => b,
    };
    if !current {
        return Err(TxError::Abort);
    }
    let child_version = match forest.create_version_with_id(Some(current_version), new_version) {
        Err(e) => return Err(e),
        Ok(v) => v,
    };
    let mut reverse_deltas: Vec<Delta<Vec<u8>>> = Vec::new();
    match apply_delta_seq(deltas, data_tree, &mut reverse_deltas) {
        Err(e) => return Err(e),
        Ok(()) => {},
    }
    assert(deltas_view(reverse_deltas@) =~= undo_deltas(old(data_tree).entries(), deltas_view(deltas@)));
    reverse_vec(&mut reverse_deltas);
    match delta_map.write_deltas(current_version, reverse_deltas.as_slice()) {
        Err(e) => return Err(e),
        Ok(()) => {},
    }
    let empty: Vec<Delta<Vec<u8>>> = Vec::new();
    match delta_map.write_deltas(child_version, empty.as_slice()) {
        Err(e) => return Err(e),
        Ok(()) => {},
    }
    proof {
        assert(normalize_all(deltas_view(empty@)) =~= Seq::<DeltaSpec>::empty());
        assert(final(forest).nodes().dom() =~= final(delta_map).sets().dom());
        let dv = deltas_view(deltas@);
        lemma_undo_restores(old(data_tree).entries(), dv);
        let frozen = normalize_all(undo_deltas(old(data_tree).entries(), dv).reverse());
        assert(frozen.len() == dv.len());
        assert(holds_no_deltas(old(forest).nodes(), old(delta_map).sets(), current_version));
        lemma_current_after_create_child(old(forest).nodes(), old(delta_map).sets(), current_version, child_version, frozen);
    }
    Ok(child_version)
}

/// Appends `deltas` to a non-current leaf snapshot. Aborts, writing nothing, when
/// `version` is missing, current or has children: the data tree and the other
/// snapshots would fall out of step.
pub fn modify_leaf_snapshot(
    version: u64,
    forest: &TransactionalVersionForest,
    delta_map: &mut TransactionalDeltaMap,
    deltas: &[Delta<Vec<u8>>],
) -> (r: Result<(), TxError>)
    requires
        snapshot_forest_ok(forest.entries(), old(delta_map).entries()),
    ensures
        r matches Err(e) ==> e is Host || e is Abort,
        r matches Err(TxError::Abort) ==> final(delta_map).entries() == old(delta_map).entries(),
        !(r matches Err(TxError::Host(_))) ==> (r is Ok <==> {
            &&& forest.nodes().contains_key(version)
            &&& forest.nodes()[version].children.len() == 0
            &&& !is_current(old(delta_map).entries(), version)
        }),
        r is Ok ==> {
            &&& final(delta_map).sets() == old(delta_map).sets().insert(
                version,
                old(delta_map).sets()[version] + normalize_all(deltas_view(deltas@)),
            )
            &&& snapshot_forest_ok(forest.entries(), final(delta_map).entries())
        },
{
    let is_leaf = match forest.get_version(version) {
        Err(e) => return Err(e),
        Ok(None) => false,
        Ok(Some(node)) => node.children.len() == 0,
    };
    if !is_leaf {
        return Err(TxError::Abort);
    }
    match delta_map.is_current_version(version) {
        Err(e) => return Err(e),
        Ok(true) => return Err(TxError::Abort),
        Ok(false) => {},
    }
    let ghost s0 = delta_map.sets();
    match delta_map.append_deltas(version, deltas) {
        Err(e) => return Err(e),
        Ok(()) => {},
    }
    proof {
        let f = forest.nodes();
        let s1 = delta_map.sets();
        assert(s0.contains_key(version));
        assert(s0[version].len() > 0);
        assert(f.dom() =~= s1.dom());
        assert forall|c: u64| #[trigger] holds_no_deltas(f, s1, c) <==> holds_no_deltas(f, s0, c) by {
            if c == version {
                assert(s1[c].len() >= s0[c].len());
            }
        }
        lemma_current_same_emptiness(f, s0, s1);
    }
    Ok(())
}

/// Applies `deltas` directly to the data tree at the current version, which must be a
/// leaf, and records what undoes them in front of the delta set of its parent. Aborts,
/// writing nothing, when `current_version` is missing, not current or has children.
pub fn modify_current_leaf_snapshot(
    current_version: u64,
    forest: &TransactionalVersionForest,
    delta_map: &mut TransactionalDeltaMap,
    data_tree: &mut KvTree,
    deltas: &[Delta<Vec<u8>>],
) -> (r: Result<(), TxError>)
    requires
        snapshot_forest_ok(forest.entries(), old(delta_map).entries()),
    ensures
        r matches Err(e) ==> e is Host || e is Abort,
        r matches Err(TxError::Abort) ==> {
            &&& final(delta_map).entries() == old(delta_map).entries()
            &&& final(data_tree).entries() == old(data_tree).entries()
        },
        !(r matches Err(TxError::Host(_))) ==> (r is Ok <==> {
            &&& forest.nodes().contains_key(current_version)
            &&& forest.nodes()[current_version].children.len() == 0
            &&& is_current(old(delta_map).entries(), current_version)
        }),
        r is Ok ==> {
            &&& final(data_tree).entries() == apply_deltas(old(data_tree).entries(), deltas_view(deltas@))
            &&& final(delta_map).sets() == match forest.nodes()[current_version].parent {
                Some(p) => old(delta_map).sets().insert(
                    p,
                    normalize_all(undo_deltas(old(data_tree).entries(), deltas_view(deltas@)).reverse())
                        + old(delta_map).sets()[p],
                ),
                None => old(delta_map).sets(),
            }
            &&& snapshot_forest_ok(forest.entries(), final(delta_map).entries())
        },
{
    let node = match forest.get_version(current_version) {
        Err(e) => return Err(e),
        Ok(None) => return Err(TxError::Abort),
        Ok(Some(node)) => node,
    };
    if node.children.len() != 0 {
        return Err(TxError::Abort);
    }
    match delta_map.is_current_version(current_version) {
        Err(e) => return Err(e),
        Ok(false) => return Err(TxError::Abort),
        Ok(true) => {},
    }
    let ghost f = forest.nodes();
    let ghost s0 = delta_map.sets();
    let mut reverse_deltas: Vec<Delta<Vec<u8>>> = Vec::new();
    match apply_delta_seq(deltas, data_tree, &mut reverse_deltas) {
        Err(e) => return Err(e),
        Ok(()) => {},
    }
    assert(deltas_view(reverse_deltas@) =~= undo_deltas(old(data_tree).entries(), deltas_view(deltas@)));
    reverse_vec(&mut reverse_deltas);
    if let Some(parent_version) = node.parent {
        proof {
            lemma_wf_children_and_parent(f, current_version);
            lemma_root_of_parent(f, current_version);
            assert(s0.contains_key(parent_version));
            if s0[parent_version].len() == 0 {
                assert(holds_no_deltas(f, s0, parent_version));
                assert(holds_no_deltas(f, s0, current_version));
                crate::current::lemma_current_unique(f, s0, parent_version, current_version);
            }
        }
        match delta_map.prepend_deltas(parent_version, reverse_deltas.as_slice()) {
            Err(e) => return Err(e),
            Ok(()) => {},
        }
        proof {
            let s1 = delta_map.sets();
            assert(f.dom() =~= s1.dom());
            assert forall|c: u64| #[trigger] holds_no_deltas(f, s1, c) <==> holds_no_deltas(f, s0, c) by {
                if c == parent_version {
                    assert(s1[c].len() >= s0[c].len());
                }
            }
            lemma_current_same_emptiness(f, s0, s1);
        }
    }
    Ok(())
}

/// Given a data tree at the current version `current_version`, restores it to the
/// state of `target_version` by nudging along the path between them. Aborts when
/// `current_version` is not current or `target_version` is not in the forest. The two
/// must lie in the same tree.
pub fn set_current_version(
    current_version: u64,
    target_version: u64,
    forest: &mut TransactionalVersionForest,
    delta_map: &mut TransactionalDeltaMap,
    data_tree: &mut KvTree,
) -> (r: Result<(), TxError>)
    requires
        snapshot_forest_ok(old(forest).entries(), old(delta_map).entries()),
        is_current(old(delta_map).entries(), current_version) && old(forest).nodes().contains_key(target_version)
            ==> root_of(old(forest).nodes(), current_version) == root_of(old(forest).nodes(), target_version),
    ensures
        r matches Err(e) ==> e is Host || e is Abort,
        r matches Err(TxError::Abort) ==> {
            &&& final(delta_map).entries() == old(delta_map).entries()
            &&& final(data_tree).entries() == old(data_tree).entries()
        },
        !(r matches Err(TxError::Host(_))) ==> (r is Ok <==> is_current(old(delta_map).entries(), current_version)
            && old(forest).nodes().contains_key(target_version)),
        final(forest).entries() == old(forest).entries(),
        r is Ok ==> {
            &&& (final(data_tree).entries(), final(delta_map).sets()) == restore_walk(
                old(data_tree).entries(),
                old(delta_map).sets(),
                path_between(old(forest).nodes(), current_version, target_version).unwrap(),
            )
            &&& snapshot_forest_ok(final(forest).entries(), final(delta_map).entries())
            &&& is_current(final(delta_map).entries(), target_version)
            &&& current_version != target_version ==> !is_current(final(delta_map).entries(), current_version)
            &&& final(delta_map).sets().dom() == old(delta_map).sets().dom()
            &&& forall|x: u64|
                !#[trigger] path_between(old(forest).nodes(), current_version, target_version).unwrap().contains(x)
                    ==> final(delta_map).sets()[x] == old(delta_map).sets()[x]
        },
{
    // Make sure this is actually the current version.
    let current = match delta_map.is_current_version(current_version) {
        Err(e) => return Err(e),
        Ok(b) => b,
    };
    if !current {
        return Err(TxError::Abort);
    }
    let path = match forest.find_path_between_versions(current_version, target_version) {
        Err(e) => return Err(e),
        Ok(VersionPath::PathExists(path)) => path,
        Ok(VersionPath::NoPathExists) => {
            proof {
                lemma_path_between(forest.nodes(), current_version, target_version);
            }
            return Err(TxError::Abort);
        },
    };
    let ghost f = forest.nodes();
    let ghost d0 = data_tree.entries();
    let ghost s0 = delta_map.sets();
    proof {
        lemma_path_between(f, current_version, target_version);
        assert(path@.skip(0) =~= path@);
        assert(holds_no_deltas(f, s0, path@[0]));
    }
    let pairs = adjacent_pairs(&path);
    let mut i: usize = 0;
    while i < pairs.len()
        invariant
            i <= pairs@.len(),
            pairs@.len() == path@.len() - 1,
            path@.len() > 0,
            forall|j: int| 0 <= j < pairs@.len() ==> #[trigger] pairs@[j] == (path@[j], path@[j + 1]),
            forall|j: int| 0 <= j < path@.len() ==> f.contains_key(#[trigger] path@[j]),
            delta_map_ok(delta_map.entries()),
            f.dom() == delta_map.sets().dom(),
            restore_walk(data_tree.entries(), delta_map.sets(), path@.skip(i as int)) == restore_walk(d0, s0, path@),
            forest_wf(f),
            path@.no_duplicates(),
            forall|j: int|
                0 <= j < path@.len() - 1 ==> f[#[trigger] path@[j]].parent == Some(path@[j + 1]) || f[path@[j
                    + 1]].parent == Some(path@[j]),
            one_current_per_tree(f, delta_map.sets()),
            holds_no_deltas(f, delta_map.sets(), path@[i as int]),
        decreases pairs@.len() - i,
    {
        let (v1, v2) = pairs[i];
        proof {
            assert(pairs@[i as int] == (path@[i as int], path@[i + 1]));
            assert(f.contains_key(path@[i + 1]));
        }
        let ghost before_data = data_tree.entries();
        let ghost before_sets = delta_map.sets();
        match nudge_version(v1, v2, delta_map, data_tree) {
            Err(e) => return Err(e),
            Ok(()) => {},
        }
        proof {
            lemma_walk_step(f, path@, i as int, before_data, before_sets, data_tree.entries(), delta_map.sets());
        }
        i += 1;
    }
    proof {
        assert(path@.skip(i as int).len() == 1);
        assert(path@[i as int] == target_version);
        if current_version != target_version && holds_no_deltas(f, delta_map.sets(), current_version) {
            lemma_current_unique(f, delta_map.sets(), current_version, target_version);
        }
        assert(delta_map.sets().dom() =~= s0.dom());
        assert forall|x: u64| !#[trigger] path@.contains(x) implies delta_map.sets()[x] == s0[x] by {
            lemma_walk_off_path(d0, s0, path@, x);
        }
    }
    Ok(())
}

/// Prepends `ds` to the delta set of each version of `targets`, in order.
pub open spec fn prepend_each(sets: Map<u64, Seq<DeltaSpec>>, targets: Seq<u64>, ds: Seq<DeltaSpec>) -> Map<u64, Seq<DeltaSpec>>
    decreases targets.len(),
{
    if targets.len() == 0 {
        sets
    } else {
        prepend_each(sets.insert(targets[0], ds + sets[targets[0]]), targets.drop_first(), ds)
    }
}

/// Whether some version strictly above the start of `path` is current.
pub open spec fn current_above(de: Map<Seq<u8>, Seq<u8>>, path: Seq<u64>) -> bool {
    exists|i: int| 1 <= i < path.len() && is_current(de, #[trigger] path[i])
}

/// The versions that receive the deltas of a deleted version `v`: its children when
/// the current version is above it, else its parent.
pub open spec fn delete_receivers(f: Map<u64, NodeView>, de: Map<Seq<u8>, Seq<u8>>, v: u64) -> Seq<u64> {
    if current_above(de, root_path(f, v)) {
        f[v].children
    } else {
        seq![f[v].parent.unwrap()]
    }
}

/// The receivers of a deleted version's deltas are other versions that hold deltas,
/// so that each tree keeps one current version.
proof fn lemma_delete_keeps_one_current(fe: Map<Seq<u8>, Seq<u8>>, de: Map<Seq<u8>, Seq<u8>>, v: u64)
    requires
        snapshot_forest_ok(fe, de),
        forest_nodes(fe).contains_key(v),
        forest_nodes(fe)[v].parent is Some,
        !is_current(de, v),
    ensures
        ({
            let f = forest_nodes(fe);
            let s = delta_sets(de);
            let targets = delete_receivers(f, de, v);
            &&& s[v].len() > 0
            &&& forall|i: int| 0 <= i < targets.len() ==> #[trigger] targets[i] != v && s.contains_key(targets[i]) && s[targets[i]].len() > 0
            &&& one_current_per_tree(forest_after_remove(f, v), prepend_each(s.remove(v), targets, s[v]))
        }),
{
    let f = forest_nodes(fe);
    let s = delta_sets(de);
    let targets = delete_receivers(f, de, v);
    let path = root_path(f, v);
    lemma_wf_children_and_parent(f, v);
    lemma_root_path_is(f, v);
    if current_above(de, path) {
        let j = choose|j: int| 1 <= j < path.len() && is_current(de, #[trigger] path[j]);
        assert(holds_no_deltas(f, s, path[j]));
        lemma_children_below_current_are_busy(f, s, v, j);
        assert forall|i: int| 0 <= i < targets.len() implies #[trigger] targets[i] != v && s.contains_key(targets[i])
            && s[targets[i]].len() > 0 by {
            assert(f[v].children.contains(targets[i]));
        }
    } else {
        assert(path[1] == f[v].parent.unwrap());
        assert(!is_current(de, path[1]));
        assert forall|i: int| 0 <= i < targets.len() implies #[trigger] targets[i] != v && s.contains_key(targets[i])
            && s[targets[i]].len() > 0 by {
            assert(targets[i] == path[1]);
        }
    }
    lemma_current_after_delete(f, s, v, targets);
}

/// Prepends `deltas` to the delta set of each version of `targets`, which all have one.
fn prepend_to_each(
    delta_map: &mut TransactionalDeltaMap,
    targets: &Vec<u64>,
    deltas: &Vec<Delta<Vec<u8>>>,
) -> (r: Result<(), TxError>)
    requires
        delta_map_ok(old(delta_map).entries()),
        forall|i: int| 0 <= i < targets@.len() ==> old(delta_map).sets().contains_key(#[trigger] targets@[i]),
        normalize_all(deltas_view(deltas@)) == deltas_view(deltas@),
    ensures
        r matches Err(e) ==> e is Host,
        r is Ok ==> {
            &&& delta_map_ok(final(delta_map).entries())
            &&& final(delta_map).sets() == prepend_each(old(delta_map).sets(), targets@, deltas_view(deltas@))
        },
{
    let ghost s0 = delta_map.sets();
    let ghost dv = deltas_view(deltas@);
    let mut j: usize = 0;
    assert(targets@.skip(0) =~= targets@);
    while j < targets.len()
        invariant
            j <= targets@.len(),
            dv == deltas_view(deltas@),
            normalize_all(dv) == dv,
            delta_map_ok(delta_map.entries()),
            delta_map.sets().dom() == s0.dom(),
            forall|i: int| 0 <= i < targets@.len() ==> s0.contains_key(#[trigger] targets@[i]),
            prepend_each(delta_map.sets(), targets@.skip(j as int), dv) == prepend_each(s0, targets@, dv),
        decreases targets@.len() - j,
    {
        let ghost before = delta_map.sets();
        let target = targets[j];
        assert(s0.contains_key(targets@[j as int]));
        match delta_map.prepend_deltas(target, deltas.as_slice()) {
            Err(e) => return Err(e),
            Ok(()) => {},
        }
        proof {
            let t = targets@.skip(j as int);
            assert(t[0] == target);
            assert(t.drop_first() =~= targets@.skip(j + 1));
            assert(delta_map.sets().dom() =~= s0.dom());
        }
        j += 1;
    }
    Ok(())
}

/// Prepending to versions listed once each puts the deltas in front of each of their
/// sets exactly once.
proof fn lemma_prepend_each_at(sets: Map<u64, Seq<DeltaSpec>>, targets: Seq<u64>, ds: Seq<DeltaSpec>, x: u64)
    requires
        targets.no_duplicates(),
        targets.contains(x),
    ensures
        prepend_each(sets, targets, ds)[x] == ds + sets[x],
    decreases targets.len(),
{
    let next = sets.insert(targets[0], ds + sets[targets[0]]);
    let rest = targets.drop_first();
    assert(rest.no_duplicates()) by {
        assert forall|i: int, j: int| 0 <= i < rest.len() && 0 <= j < rest.len() && i != j implies rest[i] != rest[j] by {
            assert(rest[i] == targets[i + 1] && rest[j] == targets[j + 1]);
        }
    }
    if targets[0] == x {
        assert(!rest.contains(x)) by {
            if rest.contains(x) {
                let i = choose|i: int| 0 <= i < rest.len() && rest[i] == x;
                assert(targets[i + 1] == targets[0]);
            }
        }
        lemma_prepend_each_off(next, rest, ds, x);
    } else {
        let i = choose|i: int| 0 <= i < targets.len() && targets[i] == x;
        assert(rest[i - 1] == x);
        lemma_prepend_each_at(next, rest, ds, x);
    }
}

/// Prepending leaves the sets of versions not listed as they were.
proof fn lemma_prepend_each_off(sets: Map<u64, Seq<DeltaSpec>>, targets: Seq<u64>, ds: Seq<DeltaSpec>, x: u64)
    requires
        !targets.contains(x),
    ensures
        prepend_each(sets, targets, ds)[x] == sets[x],
    decreases targets.len(),
{
    if targets.len() > 0 {
        assert(targets[0] != x);
        let rest = targets.drop_first();
        assert(!rest.contains(x)) by {
            if rest.contains(x) {
                let i = choose|i: int| 0 <= i < rest.len() && rest[i] == x;
                assert(targets[i + 1] == x);
            }
        }
        lemma_prepend_each_off(sets.insert(targets[0], ds + sets[targets[0]]), rest, ds, x);
    }
}

/// Deleting a version keeps what a restoration applies across its place: one hop
/// from its parent to one of its children, when the current version is above it, or
/// from one of its children to its parent, when the current version is below it,
/// applies what the two hops through the deleted version applied before.
pub proof fn lemma_delete_keeps_hops_across(fe: Map<Seq<u8>, Seq<u8>>, de: Map<Seq<u8>, Seq<u8>>, v: u64, data: KvMap)
    requires
        snapshot_forest_ok(fe, de),
        forest_nodes(fe).contains_key(v),
        forest_nodes(fe)[v].parent is Some,
    ensures
        ({
            let f = forest_nodes(fe);
            let s = delta_sets(de);
            let after = prepend_each(s.remove(v), delete_receivers(f, de, v), s[v]);
            &&& current_above(de, root_path(f, v)) ==> forall|c: u64| #[trigger] f[v].children.contains(c)
                ==> apply_deltas(data, after[c]) == apply_deltas(apply_deltas(data, s[v]), s[c])
            &&& !current_above(de, root_path(f, v)) ==> apply_deltas(data, after[f[v].parent.unwrap()])
                == apply_deltas(apply_deltas(data, s[v]), s[f[v].parent.unwrap()])
        }),
{
    let f = forest_nodes(fe);
    let s = delta_sets(de);
    let targets = delete_receivers(f, de, v);
    lemma_wf_children_and_parent(f, v);
    if current_above(de, root_path(f, v)) {
        assert forall|c: u64| #[trigger] f[v].children.contains(c) implies apply_deltas(
            data,
            prepend_each(s.remove(v), targets, s[v])[c],
        ) == apply_deltas(apply_deltas(data, s[v]), s[c]) by {
            lemma_prepend_each_at(s.remove(v), targets, s[v], c);
            crate::delta::lemma_apply_deltas_concat(data, s[v], s[c]);
        }
    } else {
        let p = f[v].parent.unwrap();
        assert(targets[0] == p);
        assert(targets.no_duplicates());
        lemma_prepend_each_at(s.remove(v), targets, s[v], p);
        crate::delta::lemma_apply_deltas_concat(data, s[v], s[p]);
    }
}

/// Deletes the snapshot at `version`, moving its deltas away from the current version:
/// to each of its children when the current version is above it, else to its parent.
/// Aborts, writing nothing, when `version` is missing, current or a root.
pub fn delete_snapshot(
    version: u64,
    forest: &mut TransactionalVersionForest,
    delta_map: &mut TransactionalDeltaMap,
) -> (r: Result<(), TxError>)
    requires
        snapshot_forest_ok(old(forest).entries(), old(delta_map).entries()),
    ensures
        r matches Err(e) ==> e is Host || e is Abort,
        r matches Err(TxError::Abort) ==> {
            &&& final(forest).entries() == old(forest).entries()
            &&& final(delta_map).entries() == old(delta_map).entries()
        },
        !(r matches Err(TxError::Host(_))) ==> (r is Ok <==> {
            &&& old(forest).nodes().contains_key(version)
            &&& !is_current(old(delta_map).entries(), version)
            &&& old(forest).nodes()[version].parent is Some
        }),
        r is Ok ==> {
            &&& final(forest).nodes() == forest_after_remove(old(forest).nodes(), version)
            &&& final(delta_map).sets() == prepend_each(
                old(delta_map).sets().remove(version),
                delete_receivers(old(forest).nodes(), old(delta_map).entries(), version),
                old(delta_map).sets()[version],
            )
            &&& snapshot_forest_ok(final(forest).entries(), final(delta_map).entries())
        },
{
    // Make sure we don't delete the current version.
    match delta_map.is_current_version(version) {
        Err(e) => return Err(e),
        Ok(true) => return Err(TxError::Abort),
        Ok(false) => {},
    }
    // See if the current version is an ancestor.
    let path_to_root = match forest.find_path_to_root(version) {
        Err(e) => return Err(e),
        Ok(p) => p,
    };
    let ghost f = forest.nodes();
    let ghost de = delta_map.entries();
    let mut current_is_ancestor = false;
    let mut i: usize = 1;
    while i < path_to_root.len() && !current_is_ancestor
        invariant
            1 <= i <= path_to_root@.len(),
            de == delta_map.entries(),
            delta_map_ok(de),
            current_is_ancestor <==> current_above(de, path_to_root@.take(i as int)),
            current_above(de, path_to_root@) == (current_above(de, path_to_root@.take(i as int)) || exists|j: int|
                i <= j < path_to_root@.len() && is_current(de, #[trigger] path_to_root@[j])),
        decreases path_to_root@.len() - i,
    {
        let v = path_to_root[i];
        let c = match delta_map.is_current_version(v) {
            Err(e) => return Err(e),
            Ok(c) => c,
        };
        proof {
            let t0 = path_to_root@.take(i as int);
            let t1 = path_to_root@.take(i + 1);
            if c {
                assert(t1[i as int] == v);
            }
            if current_above(de, t1) {
                let j = choose|j: int| 1 <= j < t1.len() && is_current(de, #[trigger] t1[j]);
                if j < i {
                    assert(t0[j] == t1[j]);
                }
            }
            if current_above(de, t0) {
                let j = choose|j: int| 1 <= j < t0.len() && is_current(de, #[trigger] t0[j]);
                assert(t1[j] == t0[j]);
            }
            if current_above(de, path_to_root@) {
                let j = choose|j: int| 1 <= j < path_to_root@.len() && is_current(de, #[trigger] path_to_root@[j]);
                if j < i + 1 {
                    assert(t1[j] == path_to_root@[j]);
                }
            }
            if current_above(de, t1) {
                let j = choose|j: int| 1 <= j < t1.len() && is_current(de, #[trigger] t1[j]);
                assert(t1[j] == path_to_root@[j]);
            }
        }
        if c {
            current_is_ancestor = true;
        }
        i += 1;
    }
    proof {
        if !current_is_ancestor {
            assert(path_to_root@.take(i as int) =~= path_to_root@);
        } else {
            let t = path_to_root@.take(i as int);
            let j = choose|j: int| 1 <= j < t.len() && is_current(de, #[trigger] t[j]);
            assert(t[j] == path_to_root@[j]);
        }
        assert(current_is_ancestor == current_above(de, path_to_root@));
    }
    // Delete the version.
    let rm_node = match forest.remove_version(version) {
        Err(e) => return Err(e),
        // Not reached: `version` was found above.
        Ok(None) => return Err(TxError::Abort),
        Ok(Some(n)) => n,
    };
    // Move the deltas.
    let ghost s0 = delta_map.sets();
    proof {
        assert(f.contains_key(version));
        assert(s0.contains_key(version));
        assert(de.contains_key(crate::be::u64_be(version)));
        lemma_decoded_normal(de[crate::be::u64_be(version)]);
    }
    let deltas = match delta_map.remove(version) {
        Err(e) => return Err(e),
        // Not reached: every version of the forest has an entry.
        Ok(None) => return Err(TxError::Abort),
        Ok(Some(ds)) => ds,
    };
    let targets = if current_is_ancestor {
        // Move the deltas to every child.
        rm_node.children
    } else {
        // Move the deltas to the parent.
        match rm_node.parent {
            Some(p) => vec![p],
            None => return Err(TxError::Abort),
        }
    };
    proof {
        lemma_delete_keeps_one_current(old(forest).entries(), de, version);
        assert(targets@ == delete_receivers(f, de, version));
        assert forall|i: int| 0 <= i < targets@.len() implies delta_map.sets().contains_key(#[trigger] targets@[i]) by {
            assert(targets@[i] != version && s0.contains_key(targets@[i]));
        }
    }
    match prepend_to_each(delta_map, &targets, &deltas) {
        Err(e) => return Err(e),
        Ok(()) => {},
    }
    proof {
        assert(targets@ == delete_receivers(f, de, version));
        lemma_prepend_each_dom(s0.remove(version), targets@, deltas_view(deltas@));
        assert(final(forest).nodes().dom() =~= final(delta_map).sets().dom());
    }
    Ok(())
}

/// Deletes `root` and every snapshot below it, with their delta sets. A missing `root`
/// deletes nothing.
pub fn delete_snapshot_tree(
    root: u64,
    forest: &mut TransactionalVersionForest,
    delta_map: &mut TransactionalDeltaMap,
) -> (r: Result<(), TxError>)
    requires
        snapshot_forest_ok(old(forest).entries(), old(delta_map).entries()),
    ensures
        r matches Err(e) ==> e is Host,
        r is Ok ==> {
            &&& final(forest).nodes() == old(forest).nodes().remove_keys(descendants(old(forest).nodes(), root))
            &&& final(delta_map).sets() == old(delta_map).sets().remove_keys(descendants(old(forest).nodes(), root))
            &&& (old(forest).nodes().contains_key(root) ==> old(forest).nodes()[root].parent is None)
                ==> snapshot_forest_ok(final(forest).entries(), final(delta_map).entries())
        },
{
    let ghost s0 = delta_map.sets();
    let removed = match forest.delete_tree(root) {
        Err(e) => return Err(e),
        Ok(removed) => removed,
    };
    let mut i: usize = 0;
    while i < removed.len()
        invariant
            i <= removed@.len(),
            delta_map_ok(delta_map.entries()),
            delta_map.sets() == s0.remove_keys(removed@.take(i as int).to_set()),
        decreases removed@.len() - i,
    {
        match delta_map.remove(removed[i]) {
            Err(e) => return Err(e),
            Ok(_) => {},
        }
        proof {
            assert(removed@.take(i + 1) =~= removed@.take(i as int).push(removed@[i as int]));
            crate::forest_model::lemma_contains_push(removed@.take(i as int), removed@[i as int]);
            assert(removed@.take(i + 1).to_set() =~= removed@.take(i as int).to_set().insert(removed@[i as int]));
            assert(delta_map.sets() =~= s0.remove_keys(removed@.take(i + 1).to_set()));
        }
        i += 1;
    }
    proof {
        assert(removed@.take(i as int) =~= removed@);
        assert(forest.nodes().dom() =~= delta_map.sets().dom());
        let f = old(forest).nodes();
        if f.contains_key(root) ==> f[root].parent is None {
            lemma_current_after_tree_removal(f, s0, root);
        }
    }
    Ok(())
}

} // verus!
