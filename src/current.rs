//! The current version of each tree: the one version of the tree whose delta set is
//! empty, and whose state the data tree holds.
use crate::delta::DeltaSpec;
use crate::transactions::prepend_each;
use crate::forest_model::{
    descendants, forest_after_create, forest_after_remove, forest_wf, lemma_root_of_parent,
    lemma_root_path_cons, lemma_root_path_is, lemma_root_path_no_duplicates, lemma_root_path_skip,
    lemma_root_path_unique, lemma_roots_after_create, lemma_roots_after_remove,
    lemma_roots_after_tree_removal, lemma_wf_children_and_parent, root_of, root_path,
};
use crate::version_node::{NodeView, NULL_VERSION};
use vstd::prelude::*;

verus! {

/// `c` is a version whose delta set is empty.
pub open spec fn holds_no_deltas(f: Map<u64, NodeView>, s: Map<u64, Seq<DeltaSpec>>, c: u64) -> bool {
    f.contains_key(c) && s.contains_key(c) && s[c].len() == 0
}

/// Each tree of the forest holds exactly one version whose delta set is empty.
#[verifier::opaque]
pub open spec fn one_current_per_tree(f: Map<u64, NodeView>, s: Map<u64, Seq<DeltaSpec>>) -> bool {
    &&& forall|v: u64| #[trigger] f.contains_key(v) ==> exists|c: u64| #[trigger] holds_no_deltas(f, s, c) && root_of(f, c) == root_of(f, v)
    &&& forall|c1: u64, c2: u64|
        #[trigger] holds_no_deltas(f, s, c1) && #[trigger] holds_no_deltas(f, s, c2) && root_of(f, c1) == root_of(f, c2)
            ==> c1 == c2
}

/// Two versions of one tree with empty delta sets are the same version.
pub proof fn lemma_current_unique(f: Map<u64, NodeView>, s: Map<u64, Seq<DeltaSpec>>, c1: u64, c2: u64)
    requires
        one_current_per_tree(f, s),
        holds_no_deltas(f, s, c1),
        holds_no_deltas(f, s, c2),
        root_of(f, c1) == root_of(f, c2),
    ensures
        c1 == c2,
{
    reveal(one_current_per_tree);
}

/// Changing delta sets without emptying or filling any keeps one current version per
/// tree.
pub proof fn lemma_current_same_emptiness(f: Map<u64, NodeView>, s: Map<u64, Seq<DeltaSpec>>, t: Map<u64, Seq<DeltaSpec>>)
    requires
        one_current_per_tree(f, s),
        forall|c: u64| #[trigger] holds_no_deltas(f, t, c) <==> holds_no_deltas(f, s, c),
    ensures
        one_current_per_tree(f, t),
{
    reveal(one_current_per_tree);
    assert forall|v: u64| #[trigger] f.contains_key(v) implies exists|c: u64| #[trigger] holds_no_deltas(f, t, c)
        && root_of(f, c) == root_of(f, v) by {
        let c = choose|c: u64| #[trigger] holds_no_deltas(f, s, c) && root_of(f, c) == root_of(f, v);
        assert(holds_no_deltas(f, t, c));
    }
}

/// A new tree has its root as its current version.
pub proof fn lemma_current_after_create_tree(f: Map<u64, NodeView>, s: Map<u64, Seq<DeltaSpec>>, id: u64)
    requires
        forest_wf(f),
        !f.contains_key(id),
        id != NULL_VERSION,
        one_current_per_tree(f, s),
    ensures
        one_current_per_tree(forest_after_create(f, None, id), s.insert(id, Seq::empty())),
{
    reveal(one_current_per_tree);
    let g = forest_after_create(f, None, id);
    let t = s.insert(id, Seq::empty());
    lemma_roots_after_create(f, None, id);
    assert forall|v: u64| #[trigger] g.contains_key(v) implies exists|c: u64| #[trigger] holds_no_deltas(g, t, c)
        && root_of(g, c) == root_of(g, v) by {
        if v == id {
            assert(holds_no_deltas(g, t, id));
        } else {
            let c = choose|c: u64| #[trigger] holds_no_deltas(f, s, c) && root_of(f, c) == root_of(f, v);
            assert(holds_no_deltas(g, t, c));
        }
    }
    assert forall|c1: u64, c2: u64| #[trigger] holds_no_deltas(g, t, c1) && #[trigger] holds_no_deltas(g, t, c2)
        && root_of(g, c1) == root_of(g, c2) implies c1 == c2 by {
        if c1 != id && c2 != id {
            assert(holds_no_deltas(f, s, c1) && holds_no_deltas(f, s, c2));
        } else if c1 != id {
            lemma_root_of_parent(f, c1);
        } else if c2 != id {
            lemma_root_of_parent(f, c2);
        }
    }
}

/// Freezing the current version with deltas and giving it a new, current child keeps
/// one current version per tree.
pub proof fn lemma_current_after_create_child(
    f: Map<u64, NodeView>,
    s: Map<u64, Seq<DeltaSpec>>,
    cur: u64,
    child: u64,
    frozen: Seq<DeltaSpec>,
)
    requires
        forest_wf(f),
        !f.contains_key(child),
        child != NULL_VERSION,
        holds_no_deltas(f, s, cur),
        frozen.len() > 0,
        one_current_per_tree(f, s),
    ensures
        one_current_per_tree(forest_after_create(f, Some(cur), child), s.insert(cur, frozen).insert(child, Seq::empty())),
{
    reveal(one_current_per_tree);
    let g = forest_after_create(f, Some(cur), child);
    let t = s.insert(cur, frozen).insert(child, Seq::empty());
    lemma_roots_after_create(f, Some(cur), child);
    assert forall|v: u64| #[trigger] g.contains_key(v) implies exists|c: u64| #[trigger] holds_no_deltas(g, t, c)
        && root_of(g, c) == root_of(g, v) by {
        if v == child || root_of(f, v) == root_of(f, cur) {
            assert(holds_no_deltas(g, t, child));
        } else {
            let c = choose|c: u64| #[trigger] holds_no_deltas(f, s, c) && root_of(f, c) == root_of(f, v);
            assert(holds_no_deltas(g, t, c));
        }
    }
    assert forall|c1: u64, c2: u64| #[trigger] holds_no_deltas(g, t, c1) && #[trigger] holds_no_deltas(g, t, c2)
        && root_of(g, c1) == root_of(g, c2) implies c1 == c2 by {
        if c1 != child && c2 != child {
            assert(holds_no_deltas(f, s, c1) && holds_no_deltas(f, s, c2));
        } else if c1 != child {
            assert(holds_no_deltas(f, s, c1));
            assert(c1 != cur);
        } else if c2 != child {
            assert(holds_no_deltas(f, s, c2));
            assert(c2 != cur);
        }
    }
}

/// One hop of restoration between neighbours of a tree moves the current version
/// from `a` to `b`; `a` is left with as many deltas as `b` had, which are some.
pub proof fn lemma_current_after_nudge(
    f: Map<u64, NodeView>,
    s: Map<u64, Seq<DeltaSpec>>,
    a: u64,
    b: u64,
    frozen: Seq<DeltaSpec>,
)
    requires
        forest_wf(f),
        f.contains_key(b),
        a != b,
        root_of(f, a) == root_of(f, b),
        holds_no_deltas(f, s, a),
        s.contains_key(b),
        frozen.len() == s[b].len(),
        one_current_per_tree(f, s),
    ensures
        frozen.len() > 0,
        one_current_per_tree(f, s.insert(b, Seq::empty()).insert(a, frozen)),
{
    reveal(one_current_per_tree);
    if s[b].len() == 0 {
        assert(holds_no_deltas(f, s, b));
    }
    let t = s.insert(b, Seq::empty()).insert(a, frozen);
    assert forall|v: u64| #[trigger] f.contains_key(v) implies exists|c: u64| #[trigger] holds_no_deltas(f, t, c)
        && root_of(f, c) == root_of(f, v) by {
        if root_of(f, v) == root_of(f, a) {
            assert(holds_no_deltas(f, t, b));
        } else {
            let c = choose|c: u64| #[trigger] holds_no_deltas(f, s, c) && root_of(f, c) == root_of(f, v);
            assert(holds_no_deltas(f, t, c));
        }
    }
    assert forall|c1: u64, c2: u64| #[trigger] holds_no_deltas(f, t, c1) && #[trigger] holds_no_deltas(f, t, c2)
        && root_of(f, c1) == root_of(f, c2) implies c1 == c2 by {
        if c1 != b && c2 != b {
            assert(holds_no_deltas(f, s, c1) && holds_no_deltas(f, s, c2));
        } else if c1 != b {
            assert(holds_no_deltas(f, s, c1));
        } else if c2 != b {
            assert(holds_no_deltas(f, s, c2));
        }
    }
}

/// Prepending some deltas to versions that have some leaves the versions with none
/// as they were.
pub proof fn lemma_prepend_each_busy(s: Map<u64, Seq<DeltaSpec>>, t: Seq<u64>, ds: Seq<DeltaSpec>)
    requires
        ds.len() > 0,
        forall|i: int| 0 <= i < t.len() ==> s.contains_key(#[trigger] t[i]) && s[t[i]].len() > 0,
    ensures
        prepend_each(s, t, ds).dom() == s.dom(),
        forall|w: u64| #[trigger] s.contains_key(w) ==> (prepend_each(s, t, ds)[w].len() == 0 <==> s[w].len() == 0),
    decreases t.len(),
{
    if t.len() > 0 {
        let next = s.insert(t[0], ds + s[t[0]]);
        assert(next.dom() =~= s.dom());
        assert forall|i: int| 0 <= i < t.drop_first().len() implies next.contains_key(#[trigger] t.drop_first()[i])
            && next[t.drop_first()[i]].len() > 0 by {
            assert(t.drop_first()[i] == t[i + 1]);
        }
        lemma_prepend_each_busy(next, t.drop_first(), ds);
    }
}

/// Deleting a version that holds deltas, and handing them to versions that hold some,
/// keeps one current version per tree.
pub proof fn lemma_current_after_delete(
    f: Map<u64, NodeView>,
    s: Map<u64, Seq<DeltaSpec>>,
    v: u64,
    receivers: Seq<u64>,
)
    requires
        forest_wf(f),
        f.contains_key(v),
        f[v].parent is Some,
        s.contains_key(v),
        s[v].len() > 0,
        f.dom() == s.dom(),
        forall|i: int| 0 <= i < receivers.len() ==> #[trigger] receivers[i] != v && s.contains_key(receivers[i]) && s[receivers[i]].len() > 0,
        one_current_per_tree(f, s),
    ensures
        one_current_per_tree(forest_after_remove(f, v), prepend_each(s.remove(v), receivers, s[v])),
{
    reveal(one_current_per_tree);
    let g = forest_after_remove(f, v);
    let r = s.remove(v);
    let t = prepend_each(r, receivers, s[v]);
    lemma_prepend_each_busy(r, receivers, s[v]);
    lemma_roots_after_remove(f, v);
    assert forall|c: u64| #[trigger] holds_no_deltas(g, t, c) <==> holds_no_deltas(f, s, c) && c != v by {
        if f.contains_key(c) && c != v {
            assert(r.contains_key(c));
        }
    }
    assert forall|w: u64| #[trigger] g.contains_key(w) implies exists|c: u64| #[trigger] holds_no_deltas(g, t, c)
        && root_of(g, c) == root_of(g, w) by {
        let c = choose|c: u64| #[trigger] holds_no_deltas(f, s, c) && root_of(f, c) == root_of(f, w);
        assert(holds_no_deltas(g, t, c));
    }
    assert forall|c1: u64, c2: u64| #[trigger] holds_no_deltas(g, t, c1) && #[trigger] holds_no_deltas(g, t, c2)
        && root_of(g, c1) == root_of(g, c2) implies c1 == c2 by {
        assert(holds_no_deltas(f, s, c1) && holds_no_deltas(f, s, c2));
    }
}

/// Taking out the whole tree of a root keeps one current version per tree.
pub proof fn lemma_current_after_tree_removal(f: Map<u64, NodeView>, s: Map<u64, Seq<DeltaSpec>>, root: u64)
    requires
        forest_wf(f),
        f.contains_key(root) ==> f[root].parent is None,
        one_current_per_tree(f, s),
    ensures
        one_current_per_tree(
            f.remove_keys(descendants(f, root)),
            s.remove_keys(descendants(f, root)),
        ),
{
    reveal(one_current_per_tree);
    let d = descendants(f, root);
    let g = f.remove_keys(d);
    let t = s.remove_keys(d);
    lemma_roots_after_tree_removal(f, root);
    assert forall|w: u64| #[trigger] g.contains_key(w) implies exists|c: u64| #[trigger] holds_no_deltas(g, t, c)
        && root_of(g, c) == root_of(g, w) by {
        let c = choose|c: u64| #[trigger] holds_no_deltas(f, s, c) && root_of(f, c) == root_of(f, w);
        if d.contains(c) {
            assert(root_of(f, c) == root);
        }
        assert(holds_no_deltas(g, t, c));
    }
    assert forall|c1: u64, c2: u64| #[trigger] holds_no_deltas(g, t, c1) && #[trigger] holds_no_deltas(g, t, c2)
        && root_of(g, c1) == root_of(g, c2) implies c1 == c2 by {
        assert(holds_no_deltas(f, s, c1) && holds_no_deltas(f, s, c2));
    }
}

/// When `v` is deleted, no version that receives its deltas is current: its children
/// are not when the current version is above it, and its parent is not otherwise.
pub proof fn lemma_children_below_current_are_busy(f: Map<u64, NodeView>, s: Map<u64, Seq<DeltaSpec>>, v: u64, j: int)
    requires
        forest_wf(f),
        one_current_per_tree(f, s),
        f.contains_key(v),
        f.dom() == s.dom(),
        1 <= j < root_path(f, v).len(),
        holds_no_deltas(f, s, root_path(f, v)[j]),
    ensures
        forall|c: u64| #[trigger] f[v].children.contains(c) ==> c != v && s.contains_key(c) && s[c].len() > 0,
{
    lemma_root_path_is(f, v);
    lemma_wf_children_and_parent(f, v);
    let pv = root_path(f, v);
    let cur = pv[j];
    lemma_root_path_skip(f, v, pv, j);
    lemma_root_path_is(f, cur);
    lemma_root_path_unique(f, cur, pv.subrange(j, pv.len() as int), root_path(f, cur));
    assert(root_of(f, cur) == root_of(f, v));
    assert forall|c: u64| #[trigger] f[v].children.contains(c) implies c != v && s.contains_key(c) && s[c].len() > 0 by {
        reveal(forest_wf);
        let i = choose|i: int| 0 <= i < f[v].children.len() && f[v].children[i] == c;
        assert(f.contains_key(f[v].children[i]));
        assert(f[c].parent == Some(v));
        lemma_root_of_parent(f, c);
        if s[c].len() == 0 {
            assert(holds_no_deltas(f, s, c));
            lemma_current_unique(f, s, c, cur);
            lemma_root_path_cons(f, c, v, pv);
            lemma_root_path_no_duplicates(f, c, seq![c] + pv);
            assert((seq![c] + pv)[j + 1] == cur);
        }
    }
}

} // verus!
