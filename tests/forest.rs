use sled::transaction::{ConflictableTransactionError, ConflictableTransactionResult, TransactionError};
use sled_snapshots::{KvTree, TransactionalVersionForest, TxError, VersionPath};

fn tx<T>(r: Result<T, TxError>) -> ConflictableTransactionResult<T> {
    match r {
        Ok(v) => Ok(v),
        Err(TxError::Abort) => Err(ConflictableTransactionError::Abort(())),
        Err(TxError::Host(e)) => Err(e.into()),
        Err(TxError::BadId(id)) => panic!("unusable version id {}", id),
    }
}

fn open_version_tree() -> sled::Tree {
    let db = sled::Config::new().temporary(true).open().unwrap();
    db.open_tree("versions").unwrap()
}

#[test]
fn delete_root_version_aborts() {
    let vtree = open_version_tree();

    let result = vtree.transaction(|t| {
        let mut forest = TransactionalVersionForest(KvTree::new(t));
        let root = tx(forest.create_version(None))?;
        tx(forest.remove_version(root))
    });
    assert!(matches!(result, Err(TransactionError::Abort(()))));
}

#[test]
fn path_to_missing_version_aborts() {
    let vtree = open_version_tree();

    let result = vtree.transaction(|t| {
        let mut t = TransactionalVersionForest(KvTree::new(t));
        let root = tx(t.create_version(None))?;

        let _path = tx(t.find_path_between_versions(root, 666))?;

        Ok(())
    });

    assert_eq!(result, Err(TransactionError::Abort(())));
}

#[test]
fn path_from_missing_version_aborts() {
    let vtree = open_version_tree();

    let result = vtree.transaction(|t| {
        let mut t = TransactionalVersionForest(KvTree::new(t));
        let root = tx(t.create_version(None))?;

        let _path = tx(t.find_path_between_versions(666, root))?;

        Ok(())
    });

    assert_eq!(result, Err(TransactionError::Abort(())));
}

#[test]
fn path_from_root_to_root() {
    let vtree = open_version_tree();

    vtree
        .transaction(|t| {
            let mut t = TransactionalVersionForest(KvTree::new(t));
            let root = tx(t.create_version(None))?;

            let path = tx(t.find_path_between_versions(root, root))?;
            assert_eq!(path, VersionPath::PathExists(vec![root]));

            Ok(())
        })
        .unwrap();
}

#[test]
fn path_from_child_to_root() {
    let vtree = open_version_tree();

    vtree
        .transaction(|t| {
            let mut t = TransactionalVersionForest(KvTree::new(t));
            let root = tx(t.create_version(None))?;
            let child = tx(t.create_version(Some(root)))?;

            let path = tx(t.find_path_between_versions(child, root))?;
            assert_eq!(path, VersionPath::PathExists(vec![child, root]));
            let path = tx(t.find_path_between_versions(root, child))?;
            assert_eq!(path, VersionPath::PathExists(vec![root, child]));

            Ok(())
        })
        .unwrap();
}

#[test]
fn path_between_children() {
    let vtree = open_version_tree();

    vtree
        .transaction(|t| {
            let mut t = TransactionalVersionForest(KvTree::new(t));
            let root = tx(t.create_version(None))?;
            let c1 = tx(t.create_version(Some(root)))?;
            let c2 = tx(t.create_version(Some(root)))?;

            let path = tx(t.find_path_between_versions(c1, c2))?;
            assert_eq!(path, VersionPath::PathExists(vec![c1, root, c2]));
            let path = tx(t.find_path_between_versions(c2, c1))?;
            assert_eq!(path, VersionPath::PathExists(vec![c2, root, c1]));

            Ok(())
        })
        .unwrap();
}

#[test]
fn path_between_nested_children() {
    let vtree = open_version_tree();

    vtree
        .transaction(|t| {
            let mut t = TransactionalVersionForest(KvTree::new(t));
            let root = tx(t.create_version(None))?;
            let c1 = tx(t.create_version(Some(root)))?;
            let c2 = tx(t.create_version(Some(c1)))?;
            let c3 = tx(t.create_version(Some(root)))?;

            let path = tx(t.find_path_between_versions(c2, c3))?;
            assert_eq!(path, VersionPath::PathExists(vec![c2, c1, root, c3]));
            let path = tx(t.find_path_between_versions(c3, c2))?;
            assert_eq!(path, VersionPath::PathExists(vec![c3, root, c1, c2]));

            Ok(())
        })
        .unwrap();
}

#[test]
fn path_between_disconnected_versions_does_not_exist() {
    let vtree = open_version_tree();

    vtree
        .transaction(|t| {
            let mut t = TransactionalVersionForest(KvTree::new(t));
            let root1 = tx(t.create_version(None))?;
            let root2 = tx(t.create_version(None))?;

            let path = tx(t.find_path_between_versions(root1, root2))?;
            assert_eq!(path, VersionPath::NoPathExists);
            let path = tx(t.find_path_between_versions(root2, root1))?;
            assert_eq!(path, VersionPath::NoPathExists);

            Ok(())
        })
        .unwrap();
}

#[test]
fn create_version_under_missing_parent_aborts() {
    let vtree = open_version_tree();
    let result = vtree.transaction(|t| {
        let mut t = TransactionalVersionForest(KvTree::new(t));
        tx(t.create_version(Some(666)))
    });
    assert_eq!(result, Err(TransactionError::Abort(())));
}

#[test]
fn remove_version_reparents_children() {
    let vtree = open_version_tree();
    vtree
        .transaction(|t| {
            let mut t = TransactionalVersionForest(KvTree::new(t));
            let root = tx(t.create_version(None))?;
            let a = tx(t.create_version(Some(root)))?;
            let b = tx(t.create_version(Some(root)))?;
            let c = tx(t.create_version(Some(a)))?;
            let d = tx(t.create_version(Some(a)))?;

            let removed = tx(t.remove_version(a))?.expect("a was in the forest");
            assert_eq!(removed.parent, Some(root));
            assert_eq!(removed.children, vec![c, d]);

            let root_node = tx(t.get_version(root))?.unwrap();
            assert_eq!(root_node.children, vec![b, c, d]);
            assert_eq!(tx(t.get_version(c))?.unwrap().parent, Some(root));
            assert!(tx(t.get_version(a))?.is_none());
            assert_eq!(tx(t.find_path_to_root(d))?, vec![d, root]);

            // Removing a missing version does nothing.
            assert!(tx(t.remove_version(a))?.is_none());
            Ok(())
        })
        .unwrap();
}

#[test]
fn delete_tree_removes_descendants_only() {
    let vtree = open_version_tree();
    vtree
        .transaction(|t| {
            let mut t = TransactionalVersionForest(KvTree::new(t));
            let root = tx(t.create_version(None))?;
            let a = tx(t.create_version(Some(root)))?;
            let b = tx(t.create_version(Some(a)))?;
            let other = tx(t.create_version(None))?;

            let mut removed = tx(t.delete_tree(root))?;
            assert_eq!(removed[0], root);
            removed.sort();
            assert_eq!(removed, vec![root, a, b]);
            assert!(tx(t.get_version(b))?.is_none());
            assert!(tx(t.get_version(other))?.is_some());

            // A missing root deletes nothing.
            assert!(tx(t.delete_tree(root))?.is_empty());
            Ok(())
        })
        .unwrap();
}

#[test]
fn create_version_with_id_rejects_used_ids() {
    let vtree = open_version_tree();
    vtree
        .transaction(|t| {
            let mut t = TransactionalVersionForest(KvTree::new(t));
            let root = tx(t.create_version_with_id(None, 5))?;
            assert_eq!(root, 5);
            assert!(matches!(t.create_version_with_id(Some(5), 5), Err(TxError::BadId(5))));
            assert!(matches!(t.create_version_with_id(Some(77), 6), Err(TxError::Abort)));
            assert_eq!(tx(t.create_version_with_id(Some(5), 6))?, 6);
            assert_eq!(tx(t.get_version(5))?.unwrap().children, vec![6]);
            Ok(())
        })
        .unwrap();
}
