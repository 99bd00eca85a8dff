//! Restoration: how moving the current version along a path of its tree changes the
//! data tree and the delta sets, and why it can be undone.
use crate::current::{holds_no_deltas, lemma_current_after_nudge, one_current_per_tree};
use crate::delta::{apply_deltas, lemma_undo_restores, undo_deltas, Delta, DeltaSpec, KvMap};
use crate::delta_map::delta_sets;
use crate::delta_set::normalize_all;
use crate::forest_model::{
    forest_nodes, forest_wf, lemma_path_between, lemma_path_between_reverse, lemma_root_of_parent,
    path_between, root_of,
};
use crate::transactions::snapshot_forest_ok;
use crate::version_node::NodeView;
use vstd::prelude::*;

verus! {

/// One hop of restoration from the current version `a` to its neighbour `b`: `b`'s
/// deltas are applied to the data, `b` is left with none, which makes it current, and
/// `a` receives what undoes them.
pub open spec fn nudge(data: KvMap, sets: Map<u64, Seq<DeltaSpec>>, a: u64, b: u64) -> (KvMap, Map<u64, Seq<DeltaSpec>>) {
    let ds = sets[b];
    (
        apply_deltas(data, ds),
        sets.insert(b, Seq::empty()).insert(a, normalize_all(undo_deltas(data, ds).reverse())),
    )
}

/// Nudging along each adjacent pair of `path`, in order.
pub open spec fn restore_walk(data: KvMap, sets: Map<u64, Seq<DeltaSpec>>, path: Seq<u64>) -> (KvMap, Map<u64, Seq<DeltaSpec>>)
    decreases path.len(),
{
    if path.len() < 2 {
        (data, sets)
    } else {
        let next = nudge(data, sets, path[0], path[1]);
        restore_walk(next.0, next.1, path.drop_first())
    }
}

/// Every value of `d` is non-empty.
pub open spec fn values_nonempty(d: KvMap) -> bool {
    forall|k: Seq<u8>| #[trigger] d.contains_key(k) ==> d[k].len() > 0
}

/// No delta of `ds` inserts an empty value.
pub open spec fn inserts_nonempty(ds: Seq<DeltaSpec>) -> bool {
    forall|i: int| 0 <= i < ds.len() ==> (#[trigger] ds[i] matches Delta::Insert(_, v) ==> v.len() > 0)
}

pub proof fn lemma_normalize_all_inserts_nonempty(ds: Seq<DeltaSpec>)
    ensures
        inserts_nonempty(normalize_all(ds)),
        inserts_nonempty(ds) ==> normalize_all(ds) == ds,
{
    if inserts_nonempty(ds) {
        assert(normalize_all(ds) =~= ds);
    }
}

pub proof fn lemma_apply_keeps_values_nonempty(d: KvMap, ds: Seq<DeltaSpec>)
    requires
        values_nonempty(d),
        inserts_nonempty(ds),
    ensures
        values_nonempty(apply_deltas(d, ds)),
    decreases ds.len(),
{
    if ds.len() > 0 {
        let d1 = crate::delta::apply_delta(d, ds[0]);
        assert(values_nonempty(d1));
        assert(inserts_nonempty(ds.drop_first())) by {
            assert forall|i: int| 0 <= i < ds.drop_first().len() implies (#[trigger] ds.drop_first()[i] matches Delta::Insert(_, v)
                ==> v.len() > 0) by {
                assert(ds.drop_first()[i] == ds[i + 1]);
            }
        }
        lemma_apply_keeps_values_nonempty(d1, ds.drop_first());
    }
}

pub proof fn lemma_undo_inserts_nonempty(d: KvMap, ds: Seq<DeltaSpec>)
    requires
        values_nonempty(d),
        inserts_nonempty(ds),
    ensures
        inserts_nonempty(undo_deltas(d, ds)),
        inserts_nonempty(undo_deltas(d, ds).reverse()),
    decreases ds.len(),
{
    if ds.len() > 0 {
        let d1 = crate::delta::apply_delta(d, ds[0]);
        assert(values_nonempty(d1));
        assert(inserts_nonempty(ds.drop_first())) by {
            assert forall|i: int| 0 <= i < ds.drop_first().len() implies (#[trigger] ds.drop_first()[i] matches Delta::Insert(_, v)
                ==> v.len() > 0) by {
                assert(ds.drop_first()[i] == ds[i + 1]);
            }
        }
        lemma_undo_inserts_nonempty(d1, ds.drop_first());
        let u = undo_deltas(d, ds);
        assert forall|i: int| 0 <= i < u.len() implies (#[trigger] u[i] matches Delta::Insert(_, v) ==> v.len() > 0) by {
            if i > 0 {
                assert(u[i] == undo_deltas(d1, ds.drop_first())[i - 1]);
            }
        }
    }
    let u = undo_deltas(d, ds);
    assert forall|i: int| 0 <= i < u.reverse().len() implies (#[trigger] u.reverse()[i] matches Delta::Insert(_, v)
        ==> v.len() > 0) by {
        assert(u.reverse()[i] == u[u.len() - 1 - i]);
    }
}

/// Walking a path leaves the delta sets of versions off the path as they were.
pub proof fn lemma_walk_off_path(data: KvMap, sets: Map<u64, Seq<DeltaSpec>>, path: Seq<u64>, x: u64)
    requires
        !path.contains(x),
    ensures
        restore_walk(data, sets, path).1.contains_key(x) == sets.contains_key(x),
        restore_walk(data, sets, path).1[x] == sets[x],
    decreases path.len(),
{
    if path.len() >= 2 {
        assert(path[0] != x && path[1] != x);
        let next = nudge(data, sets, path[0], path[1]);
        assert forall|i: int| 0 <= i < path.drop_first().len() implies path.drop_first()[i] != x by {
            assert(path.drop_first()[i] == path[i + 1]);
        }
        lemma_walk_off_path(next.0, next.1, path.drop_first(), x);
    }
}

/// Walking a path one step longer is walking the path, then one more hop.
pub proof fn lemma_walk_snoc(data: KvMap, sets: Map<u64, Seq<DeltaSpec>>, path: Seq<u64>, x: u64)
    requires
        path.len() >= 1,
    ensures
        restore_walk(data, sets, path.push(x)) == nudge(
            restore_walk(data, sets, path).0,
            restore_walk(data, sets, path).1,
            path.last(),
            x,
        ),
    decreases path.len(),
{
    let p = path.push(x);
    if path.len() == 1 {
        let next = nudge(data, sets, p[0], p[1]);
        assert(p.drop_first() =~= seq![x]);
        assert(restore_walk(next.0, next.1, p.drop_first()) == (next.0, next.1));
    } else {
        let next = nudge(data, sets, path[0], path[1]);
        assert(p.drop_first() =~= path.drop_first().push(x));
        lemma_walk_snoc(next.0, next.1, path.drop_first(), x);
    }
}

/// Restoring along a path and back along the reversed path gives the data back,
/// when no stored value is empty.
pub proof fn lemma_walk_there_and_back(data: KvMap, sets: Map<u64, Seq<DeltaSpec>>, path: Seq<u64>)
    requires
        path.len() >= 1,
        path.no_duplicates(),
        forall|i: int| 0 <= i < path.len() ==> sets.contains_key(#[trigger] path[i]),
        values_nonempty(data),
        forall|v: u64| #[trigger] sets.contains_key(v) ==> inserts_nonempty(sets[v]),
    ensures
        restore_walk(
            restore_walk(data, sets, path).0,
            restore_walk(data, sets, path).1,
            path.reverse(),
        ).0 == data,
    decreases path.len(),
{
    if path.len() == 1 {
        assert(path.reverse() =~= path);
    } else {
        let (a, b) = (path[0], path[1]);
        let next = nudge(data, sets, a, b);
        let (d1, s1) = next;
        let q = path.drop_first();
        lemma_apply_keeps_values_nonempty(data, sets[b]);
        lemma_undo_inserts_nonempty(data, sets[b]);
        lemma_normalize_all_inserts_nonempty(undo_deltas(data, sets[b]).reverse());
        assert forall|v: u64| #[trigger] s1.contains_key(v) implies inserts_nonempty(s1[v]) by {
            if v != a && v != b {
                assert(sets.contains_key(v));
            }
        }
        assert forall|i: int| 0 <= i < q.len() implies s1.contains_key(#[trigger] q[i]) by {
            assert(q[i] == path[i + 1]);
        }
        assert(q.no_duplicates()) by {
            assert forall|i: int, j: int| 0 <= i < q.len() && 0 <= j < q.len() && i != j implies q[i] != q[j] by {
                assert(q[i] == path[i + 1] && q[j] == path[j + 1]);
            }
        }
        lemma_walk_there_and_back(d1, s1, q);
        let x = restore_walk(d1, s1, q);
        assert(restore_walk(data, sets, path) == x);
        assert(!q.contains(a)) by {
            if q.contains(a) {
                let i = choose|i: int| 0 <= i < q.len() && q[i] == a;
                assert(path[i + 1] == path[0]);
            }
        }
        assert(path.reverse() =~= q.reverse().push(a));
        assert(q.reverse().last() == b);
        lemma_walk_snoc(x.0, x.1, q.reverse(), a);
        lemma_walk_off_path(d1, s1, q, a);
        assert(!q.reverse().contains(a)) by {
            if q.reverse().contains(a) {
                let i = choose|i: int| 0 <= i < q.reverse().len() && q.reverse()[i] == a;
                assert(q[q.len() - 1 - i] == a);
            }
        }
        lemma_walk_off_path(x.0, x.1, q.reverse(), a);
        let y = restore_walk(x.0, x.1, q.reverse());
        assert(y.0 == d1);
        assert(y.1[a] == s1[a]);
        lemma_normalize_all_inserts_nonempty(undo_deltas(data, sets[b]).reverse());
        assert(s1[a] == undo_deltas(data, sets[b]).reverse());
        lemma_undo_restores(data, sets[b]);
    }
}

/// Restoring the data tree from the current version to another version of its tree
/// and then back gives the data tree back, whichever versions lie between: the state
/// of a version is where restoration leads. Stored values are taken to be non-empty,
/// as the encoding of deltas cannot hold an empty one.
pub proof fn lemma_restore_round_trip(
    fe: Map<Seq<u8>, Seq<u8>>,
    de: Map<Seq<u8>, Seq<u8>>,
    data: KvMap,
    current_version: u64,
    target_version: u64,
)
    requires
        snapshot_forest_ok(fe, de),
        values_nonempty(data),
        forest_nodes(fe).contains_key(current_version),
        forest_nodes(fe).contains_key(target_version),
        root_of(forest_nodes(fe), current_version) == root_of(forest_nodes(fe), target_version),
    ensures
        ({
            let f = forest_nodes(fe);
            let there = restore_walk(data, delta_sets(de), path_between(f, current_version, target_version).unwrap());
            restore_walk(there.0, there.1, path_between(f, target_version, current_version).unwrap()).0 == data
        }),
{
    let f = forest_nodes(fe);
    let sets = delta_sets(de);
    lemma_path_between(f, current_version, target_version);
    lemma_path_between_reverse(f, current_version, target_version);
    let path = path_between(f, current_version, target_version).unwrap();
    assert forall|v: u64| #[trigger] sets.contains_key(v) implies inserts_nonempty(sets[v]) by {
        assert(de.contains_key(crate::be::u64_be(v)));
        crate::delta_set::lemma_decoded_representable_and_encodes(de[crate::be::u64_be(v)]);
        let ds = sets[v];
        assert forall|i: int| 0 <= i < ds.len() implies (#[trigger] ds[i] matches Delta::Insert(_, w) ==> w.len() > 0) by {
            assert(crate::delta::representable(ds[i]));
        }
    }
    assert forall|i: int| 0 <= i < path.len() implies sets.contains_key(#[trigger] path[i]) by {
        assert(f.contains_key(path[i]));
    }
    lemma_walk_there_and_back(data, sets, path);
}

/// One hop of a restoration walk, from the current version to the next on the path,
/// keeps the delta map covering the forest with one current version per tree.
pub proof fn lemma_walk_step(
    f: Map<u64, NodeView>,
    path: Seq<u64>,
    i: int,
    d: KvMap,
    s: Map<u64, Seq<DeltaSpec>>,
    d2: KvMap,
    s2: Map<u64, Seq<DeltaSpec>>,
)
    requires
        forest_wf(f),
        path.no_duplicates(),
        0 <= i < path.len() - 1,
        forall|j: int| 0 <= j < path.len() ==> f.contains_key(#[trigger] path[j]),
        forall|j: int|
            0 <= j < path.len() - 1 ==> f[#[trigger] path[j]].parent == Some(path[j + 1]) || f[path[j
                + 1]].parent == Some(path[j]),
        f.dom() == s.dom(),
        one_current_per_tree(f, s),
        holds_no_deltas(f, s, path[i]),
        (d2, s2) == nudge(d, s, path[i], path[i + 1]),
    ensures
        f.dom() == s2.dom(),
        one_current_per_tree(f, s2),
        holds_no_deltas(f, s2, path[i + 1]),
        restore_walk(d, s, path.skip(i)) == restore_walk(d2, s2, path.skip(i + 1)),
{
    let (v1, v2) = (path[i], path[i + 1]);
    let t = path.skip(i);
    assert(t[0] == v1 && t[1] == v2);
    assert(t.drop_first() =~= path.skip(i + 1));
    assert(f.contains_key(v1) && f.contains_key(v2));
    assert(s2 == s.insert(v2, Seq::empty()).insert(v1, s2[v1]));
    assert(f.dom() =~= s2.dom());
    lemma_undo_restores(d, s[v2]);
    assert(f[v1].parent == Some(v2) || f[v2].parent == Some(v1));
    if f[v1].parent == Some(v2) {
        lemma_root_of_parent(f, v1);
    } else {
        lemma_root_of_parent(f, v2);
    }
    lemma_current_after_nudge(f, s, v1, v2, s2[v1]);
    assert(holds_no_deltas(f, s2, v2));
}

} // verus!
