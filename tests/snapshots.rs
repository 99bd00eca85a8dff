use sled::transaction::{
    ConflictableTransactionError, ConflictableTransactionResult, TransactionError, TransactionalTree,
};
use sled::{IVec, Transactional};
use sled_snapshots::transactions::{
    create_child_snapshot_with_deltas, create_child_snapshot_with_deltas_and_id, create_snapshot_tree,
    create_snapshot_tree_with_id, delete_snapshot, delete_snapshot_tree,
    modify_current_leaf_snapshot, modify_leaf_snapshot, set_current_version,
};
use sled_snapshots::version_forest::version_of_key;
use sled_snapshots::{Delta, KvTree, NULL_VERSION, TransactionalDeltaMap, TransactionalVersionForest, TxError, VersionPath};

fn tx<T>(r: Result<T, TxError>) -> ConflictableTransactionResult<T> {
    match r {
        Ok(v) => Ok(v),
        Err(TxError::Abort) => Err(ConflictableTransactionError::Abort(())),
        Err(TxError::Host(e)) => Err(e.into()),
        Err(TxError::BadId(id)) => panic!("unusable version id {}", id),
    }
}

struct Fixture {
    db: sled::Db,
}

impl Fixture {
    fn open() -> Self {
        let config = sled::Config::new().temporary(true);
        let db = config.open().unwrap();
        Self { db }
    }

    fn trees(&self) -> (sled::Tree, sled::Tree, sled::Tree) {
        (
            self.db.open_tree("data").unwrap(),
            self.db.open_tree("snaps-versions").unwrap(),
            self.db.open_tree("snaps-deltas").unwrap(),
        )
    }

    fn create_three_snapshots(&self) -> (u64, u64, u64) {
        let (data_tree, forest, delta_map) = self.trees();

        // Start with some initial data set.
        data_tree.insert(b"key0", b"value0").unwrap();

        (&data_tree, &forest, &delta_map)
            .transaction(|(data_tree, forest, delta_map)| {
                let (mut forest, mut delta_map, mut data_tree) = views(forest, delta_map, data_tree);
                let v0 = tx(create_snapshot_tree(&mut forest, &mut delta_map))?;

                let v1_deltas = [Delta::Insert(b"key1".to_vec(), b"value1".to_vec())];
                let v1 = tx(create_child_snapshot_with_deltas(
                    v0, &mut forest, &mut delta_map, &mut data_tree, &v1_deltas,
                ))?;

                let v2_deltas = [Delta::Insert(b"key2".to_vec(), b"value2".to_vec())];
                let v2 = tx(create_child_snapshot_with_deltas(
                    v1, &mut forest, &mut delta_map, &mut data_tree, &v2_deltas,
                ))?;

                Ok((v0, v1, v2))
            })
            .unwrap()
    }
}

fn views<'a>(
    forest: &'a TransactionalTree,
    delta_map: &'a TransactionalTree,
    data_tree: &'a TransactionalTree,
) -> (TransactionalVersionForest<'a>, TransactionalDeltaMap<'a>, KvTree<'a>) {
    (
        TransactionalVersionForest(KvTree::new(forest)),
        TransactionalDeltaMap(KvTree::new(delta_map)),
        KvTree::new(data_tree),
    )
}

fn restore(current_version: u64, target_version: u64, data_tree: &sled::Tree, forest: &sled::Tree, delta_map: &sled::Tree) {
    (data_tree, forest, delta_map)
        .transaction(|(data_tree, forest, delta_map)| {
            let (mut forest, mut delta_map, mut data_tree) = views(forest, delta_map, data_tree);
            tx(set_current_version(current_version, target_version, &mut forest, &mut delta_map, &mut data_tree))
        })
        .unwrap();
}

fn assert_contents(data_tree: &sled::Tree, expected_kvs: Vec<(IVec, IVec)>) {
    let kvs = data_tree.iter().collect::<Result<Vec<_>, _>>().unwrap();
    assert_eq!(kvs, expected_kvs);
}

fn collect_versions(forest: &sled::Tree) -> Vec<u64> {
    forest
        .iter()
        .keys()
        .map(|k| version_of_key(&k.unwrap()).unwrap())
        .collect()
}

fn current_versions(delta_map: &sled::Tree) -> Vec<u64> {
    delta_map
        .iter()
        .map(|kv| kv.unwrap())
        .filter(|(_, v)| v.is_empty())
        .map(|(k, _)| version_of_key(&k).unwrap())
        .collect()
}

#[test]
fn initial_snapshot_tree_has_only_v0() {
    let fixture = Fixture::open();
    let (_data, forest, delta_map) = fixture.trees();

    let v0 = (&forest, &delta_map)
        .transaction(|(forest, delta_map)| {
            let mut forest = TransactionalVersionForest(KvTree::new(forest));
            let mut delta_map = TransactionalDeltaMap(KvTree::new(delta_map));
            tx(create_snapshot_tree(&mut forest, &mut delta_map))
        })
        .unwrap();

    assert_eq!(collect_versions(&forest), vec![v0]);
    assert_eq!(current_versions(&delta_map), vec![v0]);
}

#[test]
fn delete_current_version_aborts() {
    let fixture = Fixture::open();
    let (data_tree, forest, delta_map) = fixture.trees();

    let result = (&data_tree, &forest, &delta_map).transaction(|(data_tree, forest, delta_map)| {
        let (mut forest, mut delta_map, mut data_tree) = views(forest, delta_map, data_tree);
        let v0 = tx(create_snapshot_tree(&mut forest, &mut delta_map))?;

        let deltas = [Delta::Insert(b"key".to_vec(), b"value".to_vec())];
        let v1 = tx(create_child_snapshot_with_deltas(v0, &mut forest, &mut delta_map, &mut data_tree, &deltas))?;

        tx(delete_snapshot(v1, &mut forest, &mut delta_map))
    });

    assert_eq!(result, Err(TransactionError::Abort(())));
}

#[test]
fn set_current_version_reverses_noncommutative_deltas_same_key() {
    let fixture = Fixture::open();
    let (data_tree, forest, delta_map) = fixture.trees();

    let (v0, v1) = (&data_tree, &forest, &delta_map)
        .transaction(|(data_tree, forest, delta_map)| {
            let (mut forest, mut delta_map, mut data_tree) = views(forest, delta_map, data_tree);
            let v0 = tx(create_snapshot_tree(&mut forest, &mut delta_map))?;

            let deltas = [
                Delta::Insert(b"key1".to_vec(), b"value1".to_vec()),
                Delta::Remove(b"key1".to_vec()),
            ];
            let v1 = tx(create_child_snapshot_with_deltas(v0, &mut forest, &mut delta_map, &mut data_tree, &deltas))?;

            Ok((v0, v1))
        })
        .unwrap();

    // Deltas were applied.
    assert!(data_tree.is_empty());

    restore(v1, v0, &data_tree, &forest, &delta_map);

    // Deltas were reversed.
    assert!(data_tree.is_empty());
}

#[test]
fn delete_v1_while_v2_and_restore() {
    let fixture = Fixture::open();
    let (v0, v1, v2) = fixture.create_three_snapshots();
    let (data_tree, forest, delta_map) = fixture.trees();

    // Delete v1 while current version is v2.
    (&forest, &delta_map)
        .transaction(|(forest, delta_map)| {
            let mut forest = TransactionalVersionForest(KvTree::new(forest));
            let mut delta_map = TransactionalDeltaMap(KvTree::new(delta_map));
            tx(delete_snapshot(v1, &mut forest, &mut delta_map))
        })
        .unwrap();

    // Expect state at v2.
    assert_contents(
        &data_tree,
        vec![
            (IVec::from(b"key0"), IVec::from(b"value0")),
            (IVec::from(b"key1"), IVec::from(b"value1")),
            (IVec::from(b"key2"), IVec::from(b"value2")),
        ],
    );

    // Restore v0.
    restore(v2, v0, &data_tree, &forest, &delta_map);
    // Expect state at v0.
    assert_contents(&data_tree, vec![(IVec::from(b"key0"), IVec::from(b"value0"))]);

    // Restore v2.
    restore(v0, v2, &data_tree, &forest, &delta_map);
    // Expect state at v2.
    assert_contents(
        &data_tree,
        vec![
            (IVec::from(b"key0"), IVec::from(b"value0")),
            (IVec::from(b"key1"), IVec::from(b"value1")),
            (IVec::from(b"key2"), IVec::from(b"value2")),
        ],
    );
}

#[test]
fn delete_v1_while_v0_and_restore() {
    let fixture = Fixture::open();
    let (v0, v1, v2) = fixture.create_three_snapshots();
    let (data_tree, forest, delta_map) = fixture.trees();

    // Restore v0, then delete v1.
    (&data_tree, &forest, &delta_map)
        .transaction(|(data_tree, forest, delta_map)| {
            let (mut forest, mut delta_map, mut data_tree) = views(forest, delta_map, data_tree);

            tx(set_current_version(v2, v0, &mut forest, &mut delta_map, &mut data_tree))?;

            tx(delete_snapshot(v1, &mut forest, &mut delta_map))
        })
        .unwrap();

    // Expect state at v0.
    assert_contents(&data_tree, vec![(IVec::from(b"key0"), IVec::from(b"value0"))]);

    // Restore v2.
    restore(v0, v2, &data_tree, &forest, &delta_map);
    // Expect state at v2.
    assert_contents(
        &data_tree,
        vec![
            (IVec::from(b"key0"), IVec::from(b"value0")),
            (IVec::from(b"key1"), IVec::from(b"value1")),
            (IVec::from(b"key2"), IVec::from(b"value2")),
        ],
    );

    // Restore v0.
    restore(v2, v0, &data_tree, &forest, &delta_map);
    // Expect state at v0.
    assert_contents(&data_tree, vec![(IVec::from(b"key0"), IVec::from(b"value0"))]);
}

#[test]
fn single_tree_round_trip() {
    let fixture = Fixture::open();
    let (data_tree, forest, delta_map) = fixture.trees();

    let (v0, v1) = (&data_tree, &forest, &delta_map)
        .transaction(|(data_tree, forest, delta_map)| {
            let (mut forest, mut delta_map, mut data_tree) = views(forest, delta_map, data_tree);
            let v0 = tx(create_snapshot_tree(&mut forest, &mut delta_map))?;
            let deltas = [
                Delta::Insert(b"k1".to_vec(), b"v1".to_vec()),
                Delta::Insert(b"k2".to_vec(), b"v2".to_vec()),
            ];
            let v1 = tx(create_child_snapshot_with_deltas(v0, &mut forest, &mut delta_map, &mut data_tree, &deltas))?;
            Ok((v0, v1))
        })
        .unwrap();

    assert_contents(
        &data_tree,
        vec![(IVec::from(b"k1"), IVec::from(b"v1")), (IVec::from(b"k2"), IVec::from(b"v2"))],
    );
    assert_eq!(collect_versions(&forest), vec![v0, v1]);
    assert_eq!(current_versions(&delta_map), vec![v1]);

    restore(v1, v0, &data_tree, &forest, &delta_map);
    assert!(data_tree.is_empty());
    assert_eq!(current_versions(&delta_map), vec![v0]);
}

#[test]
fn create_snapshot_on_non_current_version_aborts() {
    let fixture = Fixture::open();
    let (data_tree, forest, delta_map) = fixture.trees();

    let result = (&data_tree, &forest, &delta_map).transaction(|(data_tree, forest, delta_map)| {
        let (mut forest, mut delta_map, mut data_tree) = views(forest, delta_map, data_tree);
        let v0 = tx(create_snapshot_tree(&mut forest, &mut delta_map))?;
        let deltas = [Delta::Insert(b"k".to_vec(), b"v".to_vec())];
        let _v1 = tx(create_child_snapshot_with_deltas(v0, &mut forest, &mut delta_map, &mut data_tree, &deltas))?;
        tx(create_child_snapshot_with_deltas(v0, &mut forest, &mut delta_map, &mut data_tree, &deltas))
    });
    assert_eq!(result, Err(TransactionError::Abort(())));
    assert!(data_tree.is_empty());
    assert!(forest.is_empty());
}

#[test]
fn restore_from_non_current_version_aborts() {
    let fixture = Fixture::open();
    let (data_tree, forest, delta_map) = fixture.trees();

    let result = (&data_tree, &forest, &delta_map).transaction(|(data_tree, forest, delta_map)| {
        let (mut forest, mut delta_map, mut data_tree) = views(forest, delta_map, data_tree);
        let v0 = tx(create_snapshot_tree(&mut forest, &mut delta_map))?;
        let deltas = [Delta::Insert(b"k".to_vec(), b"v".to_vec())];
        let v1 = tx(create_child_snapshot_with_deltas(v0, &mut forest, &mut delta_map, &mut data_tree, &deltas))?;
        tx(set_current_version(v0, v1, &mut forest, &mut delta_map, &mut data_tree))
    });
    assert_eq!(result, Err(TransactionError::Abort(())));
}

#[test]
fn restore_across_branches_walks_through_the_common_ancestor() {
    let fixture = Fixture::open();
    let (data_tree, forest, delta_map) = fixture.trees();
    data_tree.insert(b"base", b"0").unwrap();

    let (v0, a, b) = (&data_tree, &forest, &delta_map)
        .transaction(|(data_tree, forest, delta_map)| {
            let (mut forest, mut delta_map, mut data_tree) = views(forest, delta_map, data_tree);
            let v0 = tx(create_snapshot_tree(&mut forest, &mut delta_map))?;
            let a = tx(create_child_snapshot_with_deltas(
                v0,
                &mut forest,
                &mut delta_map,
                &mut data_tree,
                &[Delta::Insert(b"base".to_vec(), b"a".to_vec())],
            ))?;
            tx(set_current_version(a, v0, &mut forest, &mut delta_map, &mut data_tree))?;
            let b = tx(create_child_snapshot_with_deltas(
                v0,
                &mut forest,
                &mut delta_map,
                &mut data_tree,
                &[Delta::Remove(b"base".to_vec()), Delta::Insert(b"b".to_vec(), b"1".to_vec())],
            ))?;
            let path = tx(forest.find_path_between_versions(b, a))?;
            assert_eq!(path, VersionPath::PathExists(vec![b, v0, a]));
            Ok((v0, a, b))
        })
        .unwrap();

    assert_contents(&data_tree, vec![(IVec::from(b"b"), IVec::from(b"1"))]);
    restore(b, a, &data_tree, &forest, &delta_map);
    assert_contents(&data_tree, vec![(IVec::from(b"base"), IVec::from(b"a"))]);
    assert_eq!(current_versions(&delta_map), vec![a]);
    restore(a, v0, &data_tree, &forest, &delta_map);
    assert_contents(&data_tree, vec![(IVec::from(b"base"), IVec::from(b"0"))]);
    restore(v0, b, &data_tree, &forest, &delta_map);
    assert_contents(&data_tree, vec![(IVec::from(b"b"), IVec::from(b"1"))]);
}

#[test]
fn delete_root_snapshot_aborts() {
    let fixture = Fixture::open();
    let (v0, _v1, _v2) = fixture.create_three_snapshots();
    let (_data_tree, forest, delta_map) = fixture.trees();
    let result = (&forest, &delta_map).transaction(|(forest, delta_map)| {
        let mut forest = TransactionalVersionForest(KvTree::new(forest));
        let mut delta_map = TransactionalDeltaMap(KvTree::new(delta_map));
        tx(delete_snapshot(v0, &mut forest, &mut delta_map))
    });
    assert_eq!(result, Err(TransactionError::Abort(())));
}

#[test]
fn delete_snapshot_tree_removes_versions_and_deltas() {
    let fixture = Fixture::open();
    let (v0, _v1, _v2) = fixture.create_three_snapshots();
    let (_data_tree, forest, delta_map) = fixture.trees();
    let other = (&forest, &delta_map)
        .transaction(|(forest, delta_map)| {
            let mut forest = TransactionalVersionForest(KvTree::new(forest));
            let mut delta_map = TransactionalDeltaMap(KvTree::new(delta_map));
            let other = tx(create_snapshot_tree(&mut forest, &mut delta_map))?;
            tx(delete_snapshot_tree(v0, &mut forest, &mut delta_map))?;
            // A missing root deletes nothing.
            tx(delete_snapshot_tree(v0, &mut forest, &mut delta_map))?;
            Ok(other)
        })
        .unwrap();
    assert_eq!(collect_versions(&forest), vec![other]);
    assert_eq!(current_versions(&delta_map), vec![other]);
    assert_eq!(delta_map.len(), 1);
}

#[test]
fn disjoint_trees_have_no_path() {
    let fixture = Fixture::open();
    let (_data_tree, forest, delta_map) = fixture.trees();
    (&forest, &delta_map)
        .transaction(|(forest, delta_map)| {
            let mut forest = TransactionalVersionForest(KvTree::new(forest));
            let mut delta_map = TransactionalDeltaMap(KvTree::new(delta_map));
            let r1 = tx(create_snapshot_tree(&mut forest, &mut delta_map))?;
            let r2 = tx(create_snapshot_tree(&mut forest, &mut delta_map))?;
            assert_eq!(tx(forest.find_path_between_versions(r1, r2))?, VersionPath::NoPathExists);
            assert!(tx(delta_map.is_current_version(r1))?);
            assert!(tx(delta_map.is_current_version(r2))?);
            assert!(!tx(delta_map.is_current_version(12345))?);
            Ok(())
        })
        .unwrap();
}

#[test]
fn delta_map_append_and_prepend() {
    let fixture = Fixture::open();
    let (_data_tree, _forest, delta_map) = fixture.trees();
    delta_map
        .transaction(|t| {
            let mut dm = TransactionalDeltaMap(KvTree::new(t));
            let a = Delta::Insert(b"a".to_vec(), b"1".to_vec());
            let b = Delta::Remove(b"b".to_vec());
            let c = Delta::Insert(b"c".to_vec(), b"3".to_vec());
            assert!(matches!(dm.append_deltas(7, &[a.clone()]), Err(TxError::Abort)));
            tx(dm.write_deltas(7, &[b.clone()]))?;
            tx(dm.append_deltas(7, &[c.clone()]))?;
            tx(dm.prepend_deltas(7, &[a.clone()]))?;
            assert_eq!(tx(dm.get(7))?, Some(vec![a.clone(), b.clone(), c.clone()]));
            assert_eq!(tx(dm.remove(7))?, Some(vec![a, b, c]));
            assert_eq!(tx(dm.get(7))?, None);
            Ok(())
        })
        .unwrap();
}

#[test]
fn modify_current_leaf_is_undone_by_restoring_the_parent() {
    let fixture = Fixture::open();
    let (data_tree, forest, delta_map) = fixture.trees();
    let (v0, v1) = (&data_tree, &forest, &delta_map)
        .transaction(|(data_tree, forest, delta_map)| {
            let (mut forest, mut delta_map, mut data_tree) = views(forest, delta_map, data_tree);
            let v0 = tx(create_snapshot_tree(&mut forest, &mut delta_map))?;
            let v1 = tx(create_child_snapshot_with_deltas(
                v0,
                &mut forest,
                &mut delta_map,
                &mut data_tree,
                &[Delta::Insert(b"k1".to_vec(), b"a".to_vec())],
            ))?;
            tx(modify_current_leaf_snapshot(
                v1,
                &forest,
                &mut delta_map,
                &mut data_tree,
                &[Delta::Insert(b"k1".to_vec(), b"b".to_vec()), Delta::Insert(b"k2".to_vec(), b"c".to_vec())],
            ))?;
            // The root is not current any more.
            let r = modify_current_leaf_snapshot(v0, &forest, &mut delta_map, &mut data_tree, &[]);
            assert!(matches!(r, Err(TxError::Abort)));
            Ok((v0, v1))
        })
        .unwrap();
    assert_contents(&data_tree, vec![(IVec::from(b"k1"), IVec::from(b"b")), (IVec::from(b"k2"), IVec::from(b"c"))]);
    restore(v1, v0, &data_tree, &forest, &delta_map);
    assert!(data_tree.is_empty());
    restore(v0, v1, &data_tree, &forest, &delta_map);
    assert_contents(&data_tree, vec![(IVec::from(b"k1"), IVec::from(b"b")), (IVec::from(b"k2"), IVec::from(b"c"))]);
}

#[test]
fn modify_leaf_snapshot_changes_a_frozen_leaf() {
    let fixture = Fixture::open();
    let (data_tree, forest, delta_map) = fixture.trees();
    let (v0, v1) = (&data_tree, &forest, &delta_map)
        .transaction(|(data_tree, forest, delta_map)| {
            let (mut forest, mut delta_map, mut data_tree) = views(forest, delta_map, data_tree);
            let v0 = tx(create_snapshot_tree(&mut forest, &mut delta_map))?;
            let v1 = tx(create_child_snapshot_with_deltas(
                v0,
                &mut forest,
                &mut delta_map,
                &mut data_tree,
                &[Delta::Insert(b"k1".to_vec(), b"a".to_vec())],
            ))?;
            // A current leaf cannot be changed this way.
            let r = modify_leaf_snapshot(v1, &forest, &mut delta_map, &[Delta::Remove(b"k1".to_vec())]);
            assert!(matches!(r, Err(TxError::Abort)));
            tx(set_current_version(v1, v0, &mut forest, &mut delta_map, &mut data_tree))?;
            // A version with children cannot either.
            let r = modify_leaf_snapshot(v0, &forest, &mut delta_map, &[Delta::Remove(b"k1".to_vec())]);
            assert!(matches!(r, Err(TxError::Abort)));
            tx(modify_leaf_snapshot(v1, &forest, &mut delta_map, &[Delta::Insert(b"k2".to_vec(), b"b".to_vec())]))?;
            Ok((v0, v1))
        })
        .unwrap();
    assert!(data_tree.is_empty());
    restore(v0, v1, &data_tree, &forest, &delta_map);
    assert_contents(&data_tree, vec![(IVec::from(b"k1"), IVec::from(b"a")), (IVec::from(b"k2"), IVec::from(b"b"))]);
}

#[test]
fn chosen_ids_are_checked() {
    let fixture = Fixture::open();
    let (data_tree, forest, delta_map) = fixture.trees();
    (&data_tree, &forest, &delta_map)
        .transaction(|(data_tree, forest, delta_map)| {
            let (mut forest, mut delta_map, mut data_tree) = views(forest, delta_map, data_tree);
            let r = create_snapshot_tree_with_id(NULL_VERSION, &mut forest, &mut delta_map);
            assert!(matches!(r, Err(TxError::BadId(NULL_VERSION))));
            let v0 = tx(create_snapshot_tree_with_id(10, &mut forest, &mut delta_map))?;
            assert_eq!(v0, 10);
            let r = create_snapshot_tree_with_id(10, &mut forest, &mut delta_map);
            assert!(matches!(r, Err(TxError::BadId(10))));
            let deltas = [Delta::Insert(b"k".to_vec(), b"v".to_vec())];
            let r = create_child_snapshot_with_deltas_and_id(10, 10, &mut forest, &mut delta_map, &mut data_tree, &deltas);
            assert!(matches!(r, Err(TxError::BadId(10))));
            // Nothing was written by the failed attempts.
            assert!(tx(delta_map.is_current_version(10))?);
            let v1 = tx(create_child_snapshot_with_deltas_and_id(10, 11, &mut forest, &mut delta_map, &mut data_tree, &deltas))?;
            assert_eq!(v1, 11);
            // The parent is no longer current: abort comes before the ID is looked at.
            let r = create_child_snapshot_with_deltas_and_id(10, 10, &mut forest, &mut delta_map, &mut data_tree, &deltas);
            assert!(matches!(r, Err(TxError::Abort)));
            assert_eq!(tx(forest.find_path_to_root(11))?, vec![11, 10]);
            Ok(())
        })
        .unwrap();
    assert_contents(&data_tree, vec![(IVec::from(b"k"), IVec::from(b"v"))]);
}
