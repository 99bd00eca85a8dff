//! The abstract version forest: each version's path up to the root of its tree, what
//! makes a forest well-formed, and how making, removing and deleting versions change
//! it. The paths between versions, and their lowest common ancestors, are defined here.
use crate::version_node::{decode_node, node_bytes_ok, NodeView, NULL_VERSION};
use crate::kv::by_version;
use vstd::prelude::*;

verus! {


/// The decoded nodes of a forest's entries.
pub open spec fn forest_nodes(c: Map<Seq<u8>, Seq<u8>>) -> Map<u64, NodeView> {
    by_version(c, |b: Seq<u8>| decode_node(b))
}

/// Every entry keyed by a version holds a decodable node.
pub open spec fn forest_bytes_ok(c: Map<Seq<u8>, Seq<u8>>) -> bool {
    forall|v: u64| #[trigger] c.contains_key(crate::be::u64_be(v)) ==> node_bytes_ok(c[crate::be::u64_be(v)])
}

/// `path` leads from `v` through parents up to a root, all of it in `f`.
pub open spec fn is_root_path(f: Map<u64, NodeView>, v: u64, path: Seq<u64>) -> bool {
    &&& path.len() > 0
    &&& path[0] == v
    &&& forall|i: int| 0 <= i < path.len() ==> f.contains_key(#[trigger] path[i])
    &&& forall|i: int| 0 <= i < path.len() - 1 ==> f[#[trigger] path[i]].parent == Some(path[i + 1])
    &&& f[path.last()].parent is None
}

/// The path from `v` up to the root of its tree.
pub open spec fn root_path(f: Map<u64, NodeView>, v: u64) -> Seq<u64> {
    choose|path: Seq<u64>| is_root_path(f, v, path)
}

/// The root of the tree that holds `v`.
pub open spec fn root_of(f: Map<u64, NodeView>, v: u64) -> u64 {
    root_path(f, v).last()
}

/// Each parent lists its children, each once, and each listed child points back; no
/// version is `NULL_VERSION`; every version reaches a root, so there are no cycles.
#[verifier::opaque]
pub open spec fn forest_wf(f: Map<u64, NodeView>) -> bool {
    &&& !f.contains_key(NULL_VERSION)
    &&& forall|p: u64| #[trigger] f.contains_key(p) ==> f[p].children.no_duplicates()
    &&& forall|v: u64|
        #![trigger f.contains_key(v)]
        f.contains_key(v) && f[v].parent is Some ==> f.contains_key(f[v].parent.unwrap())
            && f[f[v].parent.unwrap()].children.contains(v)
    &&& forall|p: u64, i: int|
        f.contains_key(p) && 0 <= i < f[p].children.len() ==> f.contains_key(#[trigger] f[p].children[i])
            && f[f[p].children[i]].parent == Some(p)
    &&& forall|v: u64| f.contains_key(v) ==> exists|path: Seq<u64>| #[trigger] is_root_path(f, v, path)
}

pub proof fn lemma_wf_no_null(f: Map<u64, NodeView>)
    requires
        forest_wf(f),
    ensures
        !f.contains_key(NULL_VERSION),
{
    reveal(forest_wf);
}

/// The children and the parent of a version are in the forest, and differ from it.
pub proof fn lemma_wf_children_and_parent(f: Map<u64, NodeView>, v: u64)
    requires
        forest_wf(f),
        f.contains_key(v),
    ensures
        forall|c: u64| #[trigger] f[v].children.contains(c) ==> f.contains_key(c) && c != v,
        f[v].parent matches Some(p) ==> f.contains_key(p) && p != v,
        f[v].children.no_duplicates(),
{
    reveal(forest_wf);
    lemma_root_path_is(f, v);
    assert forall|c: u64| #[trigger] f[v].children.contains(c) implies f.contains_key(c) && c != v by {
        let i = choose|i: int| 0 <= i < f[v].children.len() && f[v].children[i] == c;
        assert(f.contains_key(f[v].children[i]));
        lemma_root_path_cons(f, c, v, root_path(f, v));
        lemma_root_path_no_duplicates(f, c, seq![c] + root_path(f, v));
        assert((seq![c] + root_path(f, v))[1] == v);
    }
    if f[v].parent is Some {
        assert(root_path(f, v)[1] == f[v].parent.unwrap());
    }
}

/// Prepending to versions that have delta sets adds none.
pub proof fn lemma_prepend_each_dom(sets: Map<u64, Seq<crate::delta::DeltaSpec>>, targets: Seq<u64>, ds: Seq<crate::delta::DeltaSpec>)
    requires
        forall|i: int| 0 <= i < targets.len() ==> sets.contains_key(#[trigger] targets[i]),
    ensures
        crate::transactions::prepend_each(sets, targets, ds).dom() == sets.dom(),
    decreases targets.len(),
{
    if targets.len() > 0 {
        let next = sets.insert(targets[0], ds + sets[targets[0]]);
        assert(next.dom() =~= sets.dom());
        assert forall|i: int| 0 <= i < targets.drop_first().len() implies next.contains_key(#[trigger] targets.drop_first()[i]) by {
            assert(targets.drop_first()[i] == targets[i + 1]);
        }
        lemma_prepend_each_dom(next, targets.drop_first(), ds);
    }
}

/// A root path stays one where the nodes on it keep their parents.
pub proof fn lemma_root_path_kept(f: Map<u64, NodeView>, g: Map<u64, NodeView>, v: u64, path: Seq<u64>)
    requires
        is_root_path(f, v, path),
        forall|i: int| 0 <= i < path.len() ==> g.contains_key(#[trigger] path[i]) && g[path[i]].parent == f[path[i]].parent,
    ensures
        is_root_path(g, v, path),
{
    assert(g[path.last()].parent == f[path.last()].parent);
    assert forall|i: int| 0 <= i < path.len() - 1 implies g[#[trigger] path[i]].parent == Some(path[i + 1]) by {
        assert(f[path[i]].parent == Some(path[i + 1]));
    }
}

/// There is one root path from a version.
pub proof fn lemma_root_path_unique(f: Map<u64, NodeView>, v: u64, p: Seq<u64>, q: Seq<u64>)
    requires
        is_root_path(f, v, p),
        is_root_path(f, v, q),
    ensures
        p == q,
    decreases p.len(),
{
    if p.len() == 1 {
        if q.len() > 1 {
            assert(f[q[0]].parent == Some(q[1]));
        }
        assert(p =~= q);
    } else {
        assert(f[p[0]].parent == Some(p[1]));
        if q.len() == 1 {
            assert(q.last() == q[0]);
        }
        assert(f[q[0]].parent == Some(q[1]));
        let ps = p.drop_first();
        let qs = q.drop_first();
        assert forall|i: int| 0 <= i < ps.len() - 1 implies f[#[trigger] ps[i]].parent == Some(ps[i + 1]) by {
            assert(ps[i] == p[i + 1]);
        }
        assert forall|i: int| 0 <= i < qs.len() - 1 implies f[#[trigger] qs[i]].parent == Some(qs[i + 1]) by {
            assert(qs[i] == q[i + 1]);
        }
        assert forall|i: int| 0 <= i < ps.len() implies f.contains_key(#[trigger] ps[i]) by {
            assert(ps[i] == p[i + 1]);
        }
        assert forall|i: int| 0 <= i < qs.len() implies f.contains_key(#[trigger] qs[i]) by {
            assert(qs[i] == q[i + 1]);
        }
        lemma_root_path_unique(f, p[1], ps, qs);
        assert(p =~= seq![v] + ps);
        assert(q =~= seq![v] + qs);
    }
}

/// The tail of a root path is the root path of where it starts.
pub proof fn lemma_root_path_skip(f: Map<u64, NodeView>, v: u64, p: Seq<u64>, k: int)
    requires
        is_root_path(f, v, p),
        0 <= k < p.len(),
    ensures
        is_root_path(f, p[k], p.subrange(k, p.len() as int)),
{
    let s = p.subrange(k, p.len() as int);
    assert forall|i: int| 0 <= i < s.len() - 1 implies f[#[trigger] s[i]].parent == Some(s[i + 1]) by {
        assert(s[i] == p[i + k]);
        assert(s[i + 1] == p[i + k + 1]);
    }
    assert forall|i: int| 0 <= i < s.len() implies f.contains_key(#[trigger] s[i]) by {
        assert(s[i] == p[i + k]);
    }
    assert(s.last() == p.last());
}

/// A root path never visits a version twice.
pub proof fn lemma_root_path_no_duplicates(f: Map<u64, NodeView>, v: u64, p: Seq<u64>)
    requires
        is_root_path(f, v, p),
    ensures
        p.no_duplicates(),
{
    assert forall|i: int, j: int| 0 <= i < p.len() && 0 <= j < p.len() && i != j implies p[i] != p[j] by {
        if p[i] == p[j] {
            lemma_root_path_skip(f, v, p, i);
            lemma_root_path_skip(f, v, p, j);
            lemma_root_path_unique(f, p[i], p.subrange(i, p.len() as int), p.subrange(j, p.len() as int));
        }
    }
}

/// One more step up: a child's root path is the child followed by its parent's.
pub proof fn lemma_root_path_cons(f: Map<u64, NodeView>, c: u64, p: u64, path: Seq<u64>)
    requires
        is_root_path(f, p, path),
        f.contains_key(c),
        f[c].parent == Some(p),
    ensures
        is_root_path(f, c, seq![c] + path),
{
    let s = seq![c] + path;
    assert forall|i: int| 0 <= i < s.len() - 1 implies f[#[trigger] s[i]].parent == Some(s[i + 1]) by {
        if i > 0 {
            assert(s[i] == path[i - 1]);
            assert(s[i + 1] == path[i]);
        }
    }
    assert forall|i: int| 0 <= i < s.len() implies f.contains_key(#[trigger] s[i]) by {
        if i > 0 {
            assert(s[i] == path[i - 1]);
        }
    }
    assert(s.last() == path.last());
}

/// In a well-formed forest, `root_path` is a root path.
pub proof fn lemma_root_path_is(f: Map<u64, NodeView>, v: u64)
    requires
        forest_wf(f),
        f.contains_key(v),
    ensures
        is_root_path(f, v, root_path(f, v)),
        root_path(f, v).no_duplicates(),
        forall|p: Seq<u64>| is_root_path(f, v, p) ==> p == root_path(f, v),
{
    reveal(forest_wf);
    assert(exists|path: Seq<u64>| is_root_path(f, v, path));
    lemma_root_path_no_duplicates(f, v, root_path(f, v));
    assert forall|p: Seq<u64>| is_root_path(f, v, p) implies p == root_path(f, v) by {
        lemma_root_path_unique(f, v, p, root_path(f, v));
    }
}

/// The forest after `create_version` has made `id`, under `parent` if it is given.
pub open spec fn forest_after_create(f: Map<u64, NodeView>, parent: Option<u64>, id: u64) -> Map<u64, NodeView> {
    match parent {
        None => f.insert(id, NodeView { parent: None, children: Seq::empty() }),
        Some(p) => f.insert(id, NodeView { parent: Some(p), children: Seq::empty() }).insert(
            p,
            NodeView { parent: f[p].parent, children: f[p].children.push(id) },
        ),
    }
}

pub proof fn lemma_create_preserves_wf(f: Map<u64, NodeView>, parent: Option<u64>, id: u64)
    requires
        forest_wf(f),
        !f.contains_key(id),
        id != NULL_VERSION,
        parent matches Some(p) ==> f.contains_key(p),
    ensures
        forest_wf(forest_after_create(f, parent, id)),
{
    reveal(forest_wf);
    let g = forest_after_create(f, parent, id);
    assert forall|p: u64| #[trigger] g.contains_key(p) implies g[p].children.no_duplicates() by {
        if parent == Some(p) {
            let c = f[p].children;
            assert forall|i: int, j: int| 0 <= i < c.push(id).len() && 0 <= j < c.push(id).len() && i != j
                implies c.push(id)[i] != c.push(id)[j] by {
                if i < c.len() {
                    assert(f.contains_key(f[p].children[i]));
                }
                if j < c.len() {
                    assert(f.contains_key(f[p].children[j]));
                }
            }
        }
    }
    assert forall|v: u64| g.contains_key(v) && g[v].parent is Some implies g.contains_key(g[v].parent.unwrap())
        && g[g[v].parent.unwrap()].children.contains(v) by {
        if v != id {
            let q = f[v].parent.unwrap();
            assert(f[q].children.contains(v));
            if parent == Some(q) {
                let i = choose|i: int| 0 <= i < f[q].children.len() && f[q].children[i] == v;
                assert(g[q].children[i] == v);
            }
        } else {
            assert(g[parent.unwrap()].children.last() == id);
        }
    }
    assert forall|p: u64, i: int| g.contains_key(p) && 0 <= i < g[p].children.len() implies g.contains_key(
        #[trigger] g[p].children[i],
    ) && g[g[p].children[i]].parent == Some(p) by {
        if p != id {
            if parent == Some(p) && i == f[p].children.len() {
            } else {
                assert(g[p].children[i] == f[p].children[i]);
                assert(f.contains_key(f[p].children[i]));
            }
        }
    }
    assert forall|v: u64| g.contains_key(v) implies exists|path: Seq<u64>| #[trigger] is_root_path(g, v, path) by {
        if v != id {
            lemma_root_path_is(f, v);
            let path = root_path(f, v);
            lemma_root_path_kept(f, g, v, path);
        } else {
            match parent {
                None => {
                    assert(is_root_path(g, id, seq![id]));
                },
                Some(p) => {
                    lemma_root_path_is(f, p);
                    lemma_root_path_kept(f, g, p, root_path(f, p));
                    lemma_root_path_cons(g, id, p, root_path(f, p));
                },
            }
        }
    }
}

/// `s` without any occurrence of `v`, in order.
pub open spec fn without(s: Seq<u64>, v: u64) -> Seq<u64>
    decreases s.len(),
{
    if s.len() == 0 {
        s
    } else if s.last() == v {
        without(s.drop_last(), v)
    } else {
        without(s.drop_last(), v).push(s.last())
    }
}

pub proof fn lemma_contains_push(s: Seq<u64>, y: u64)
    ensures
        forall|x: u64| #[trigger] s.push(y).contains(x) <==> s.contains(x) || x == y,
{
    assert forall|x: u64| #[trigger] s.push(y).contains(x) <==> s.contains(x) || x == y by {
        if s.push(y).contains(x) {
            let i = choose|i: int| 0 <= i < s.push(y).len() && s.push(y)[i] == x;
            if i < s.len() {
                assert(s[i] == x);
            }
        }
        if s.contains(x) {
            let i = choose|i: int| 0 <= i < s.len() && s[i] == x;
            assert(s.push(y)[i] == x);
        }
        if x == y {
            assert(s.push(y)[s.len() as int] == x);
        }
    }
}

pub proof fn lemma_without(s: Seq<u64>, v: u64)
    ensures
        forall|x: u64| #[trigger] without(s, v).contains(x) <==> s.contains(x) && x != v,
    decreases s.len(),
{
    if s.len() > 0 {
        let t = s.drop_last();
        lemma_without(t, v);
        lemma_contains_push(t, s.last());
        assert(t.push(s.last()) =~= s);
        lemma_contains_push(without(t, v), s.last());
    }
}

/// The forest after `remove_version(v)`: `v` is gone, its children point to its
/// parent, and its parent lists them after its other children.
pub open spec fn forest_after_remove(f: Map<u64, NodeView>, v: u64) -> Map<u64, NodeView> {
    let p = f[v].parent.unwrap();
    let ch = f[v].children;
    Map::new(
        |w: u64| f.contains_key(w) && w != v,
        |w: u64|
            if w == p {
                NodeView { parent: f[p].parent, children: without(f[p].children, v) + ch }
            } else if ch.contains(w) {
                NodeView { parent: Some(p), children: f[w].children }
            } else {
                f[w]
            },
    )
}

/// Facts about the neighbourhood of a non-root `v` that rule out short cycles.
pub proof fn lemma_no_short_cycles(f: Map<u64, NodeView>, v: u64)
    requires
        forest_wf(f),
        f.contains_key(v),
        f[v].parent is Some,
    ensures
        f[v].parent.unwrap() != v,
        f[f[v].parent.unwrap()].parent != Some(v),
        !f[v].children.contains(v),
        !f[v].children.contains(f[v].parent.unwrap()),
        forall|c: u64| #[trigger] f[v].children.contains(c) ==> f[c].parent == Some(v) && f.contains_key(c),
        f.contains_key(f[v].parent.unwrap()),
        f[f[v].parent.unwrap()].children.contains(v),
        forall|c: u64, d: u64| #[trigger] f[v].children.contains(c) && #[trigger] f.contains_key(d) && f[d].parent == Some(c)
            ==> d != f[v].parent.unwrap() && d != v,
{
    reveal(forest_wf);
    let p = f[v].parent.unwrap();
    lemma_root_path_is(f, v);
    let pv = root_path(f, v);
    assert(pv[1] == p);
    if f[p].parent == Some(v) {
        assert(pv.len() > 2);
        assert(pv[2] == v);
    }
    assert forall|c: u64| #[trigger] f[v].children.contains(c) implies f[c].parent == Some(v) && f.contains_key(c) by {
        let i = choose|i: int| 0 <= i < f[v].children.len() && f[v].children[i] == c;
        assert(f.contains_key(f[v].children[i]));
    }
    assert forall|c: u64| #[trigger] f[v].children.contains(c) implies c != v && c != p by {
        lemma_root_path_cons(f, c, v, pv);
        lemma_root_path_no_duplicates(f, c, seq![c] + pv);
        assert((seq![c] + pv)[1] == v);
        assert((seq![c] + pv)[2] == p);
    }
    assert forall|c: u64, d: u64| #[trigger] f[v].children.contains(c) && #[trigger] f.contains_key(d) && f[d].parent == Some(c)
        implies d != p && d != v by {
        lemma_root_path_cons(f, c, v, pv);
        lemma_root_path_cons(f, d, c, seq![c] + pv);
        let pd = seq![d] + (seq![c] + pv);
        lemma_root_path_no_duplicates(f, d, pd);
        assert(pd[2] == v);
        assert(pd[3] == p);
    }
}

pub proof fn lemma_remove_parents(f: Map<u64, NodeView>, v: u64)
    requires
        forest_wf(f),
        f.contains_key(v),
        f[v].parent is Some,
    ensures
        forall|w: u64|
            #![trigger forest_after_remove(f, v).contains_key(w)]
            forest_after_remove(f, v).contains_key(w) && forest_after_remove(f, v)[w].parent is Some
                ==> forest_after_remove(f, v).contains_key(forest_after_remove(f, v)[w].parent.unwrap())
                && forest_after_remove(f, v)[forest_after_remove(f, v)[w].parent.unwrap()].children.contains(w),
{
    reveal(forest_wf);
    let g = forest_after_remove(f, v);
    let p = f[v].parent.unwrap();
    let ch = f[v].children;
    lemma_no_short_cycles(f, v);
    lemma_without(f[p].children, v);
    assert forall|w: u64| g.contains_key(w) && g[w].parent is Some implies g.contains_key(g[w].parent.unwrap())
        && g[g[w].parent.unwrap()].children.contains(w) by {
        if w == p {
            let q = f[p].parent.unwrap();
            assert(f[q].children.contains(p));
            lemma_root_path_is(f, v);
            let pv = root_path(f, v);
            assert(pv[1] == p);
            assert(pv[2] == q);
            if ch.contains(q) {
                assert(f[q].parent == Some(v));
                assert(pv[3] == v);
            }
            assert(q != v);
            assert(q != p);
        } else if ch.contains(w) {
            let i = choose|i: int| 0 <= i < ch.len() && ch[i] == w;
            assert((without(f[p].children, v) + ch)[without(f[p].children, v).len() + i] == w);
        } else {
            let q = f[w].parent.unwrap();
            assert(f[q].children.contains(w));
            if q == v {
                assert(ch.contains(w));
            }
            if q == p {
                assert(without(f[p].children, v).contains(w));
                let i = choose|i: int| 0 <= i < without(f[p].children, v).len() && without(f[p].children, v)[i] == w;
                assert((without(f[p].children, v) + ch)[i] == w);
            }
        }
    }
}

pub proof fn lemma_remove_children(f: Map<u64, NodeView>, v: u64)
    requires
        forest_wf(f),
        f.contains_key(v),
        f[v].parent is Some,
    ensures
        forall|q: u64, i: int|
            forest_after_remove(f, v).contains_key(q) && 0 <= i < forest_after_remove(f, v)[q].children.len()
                ==> forest_after_remove(f, v).contains_key(#[trigger] forest_after_remove(f, v)[q].children[i])
                && forest_after_remove(f, v)[forest_after_remove(f, v)[q].children[i]].parent == Some(q),
{
    reveal(forest_wf);
    let g = forest_after_remove(f, v);
    let p = f[v].parent.unwrap();
    let ch = f[v].children;
    lemma_no_short_cycles(f, v);
    lemma_without(f[p].children, v);
    assert forall|q: u64, i: int| g.contains_key(q) && 0 <= i < g[q].children.len() implies g.contains_key(
        #[trigger] g[q].children[i],
    ) && g[g[q].children[i]].parent == Some(q) by {
        let c = g[q].children[i];
        if q == p {
            let wo = without(f[p].children, v);
            if i < wo.len() {
                assert(c == wo[i]);
                assert(wo.contains(c));
                let j = choose|j: int| 0 <= j < f[p].children.len() && f[p].children[j] == c;
                assert(f.contains_key(f[p].children[j]));
                if ch.contains(c) {
                    assert(f[c].parent == Some(v));
                }
            } else {
                assert(c == ch[i - wo.len()]);
                assert(ch.contains(c));
                assert(f.contains_key(ch[i - wo.len()]));
            }
        } else if ch.contains(q) {
            assert(f.contains_key(f[q].children[i]));
            assert(f[c].parent == Some(q));
            if ch.contains(c) {
                assert(f[c].parent == Some(v));
            }
        } else {
            assert(f.contains_key(f[q].children[i]));
            assert(f[c].parent == Some(q));
            if c == v {
                assert(q == p);
            }
            if ch.contains(c) {
                assert(f[c].parent == Some(v));
            }
        }
    }
}

pub proof fn lemma_remove_root_path_through(f: Map<u64, NodeView>, v: u64, w: u64, pw: Seq<u64>, k: int)
    requires
        forest_wf(f),
        f.contains_key(v),
        f[v].parent is Some,
        w != v,
        pw == root_path(f, w),
        is_root_path(f, w, pw),
        pw.no_duplicates(),
        0 <= k < pw.len(),
        pw[k] == v,
    ensures
        is_root_path(forest_after_remove(f, v), w, pw.subrange(0, k) + pw.subrange(k + 1, pw.len() as int)),
{
    let g = forest_after_remove(f, v);
    let p = f[v].parent.unwrap();
    let ch = f[v].children;
    lemma_no_short_cycles(f, v);
    assert(k > 0);
    assert(k < pw.len() - 1);
    assert(pw[k + 1] == p);
    let pg = pw.subrange(0, k) + pw.subrange(k + 1, pw.len() as int);
    assert forall|i: int| 0 <= i < pg.len() implies g.contains_key(#[trigger] pg[i]) by {
        if i < k {
            assert(pg[i] == pw[i]);
        } else {
            assert(pg[i] == pw[i + 1]);
        }
    }
    assert forall|i: int| 0 <= i < pg.len() - 1 implies g[#[trigger] pg[i]].parent == Some(pg[i + 1]) by {
        if i < k - 1 {
            assert(pg[i] == pw[i]);
            assert(pg[i + 1] == pw[i + 1]);
            if ch.contains(pw[i]) {
                assert(f[pw[i]].parent == Some(v));
                assert(pw[i + 1] == v);
            }
        } else if i == k - 1 {
            assert(pg[i] == pw[k - 1]);
            assert(pg[i + 1] == pw[k + 1]);
            assert(f[pw[k - 1]].parent == Some(v));
            reveal(forest_wf);
            assert(f[v].children.contains(pw[k - 1]));
        } else {
            assert(pg[i] == pw[i + 1]);
            assert(pg[i + 1] == pw[i + 2]);
            if ch.contains(pw[i + 1]) {
                assert(f[pw[i + 1]].parent == Some(v));
                assert(pw[i + 2] == v);
            }
        }
    }
    assert(pg.last() == pw.last());
    if ch.contains(pw.last()) {
        assert(f[pw.last()].parent == Some(v));
    }
}

pub proof fn lemma_remove_root_paths(f: Map<u64, NodeView>, v: u64)
    requires
        forest_wf(f),
        f.contains_key(v),
        f[v].parent is Some,
    ensures
        forall|w: u64| forest_after_remove(f, v).contains_key(w) ==> exists|path: Seq<u64>| #[trigger] is_root_path(forest_after_remove(f, v), w, path),
{
    let g = forest_after_remove(f, v);
    let ch = f[v].children;
    lemma_no_short_cycles(f, v);
    assert forall|w: u64| g.contains_key(w) implies exists|path: Seq<u64>| #[trigger] is_root_path(g, w, path) by {
        lemma_root_path_is(f, w);
        let pw = root_path(f, w);
        if pw.contains(v) {
            let k = choose|k: int| 0 <= k < pw.len() && pw[k] == v;
            lemma_remove_root_path_through(f, v, w, pw, k);
        } else {
            assert forall|i: int| 0 <= i < pw.len() implies g.contains_key(#[trigger] pw[i]) && g[pw[i]].parent
                == f[pw[i]].parent by {
                if ch.contains(pw[i]) {
                    assert(f[pw[i]].parent == Some(v));
                    if i < pw.len() - 1 {
                        assert(pw[i + 1] == v);
                    }
                }
            }
            lemma_root_path_kept(f, g, w, pw);
        }
    }
}

pub proof fn lemma_without_no_duplicates(s: Seq<u64>, v: u64)
    requires
        s.no_duplicates(),
    ensures
        without(s, v).no_duplicates(),
    decreases s.len(),
{
    if s.len() > 0 {
        let t = s.drop_last();
        assert(t.no_duplicates()) by {
            assert forall|i: int, j: int| 0 <= i < t.len() && 0 <= j < t.len() && i != j implies t[i] != t[j] by {
                assert(t[i] == s[i] && t[j] == s[j]);
            }
        }
        lemma_without_no_duplicates(t, v);
        lemma_without(t, v);
        if s.last() != v {
            let w = without(t, v);
            assert(!t.contains(s.last())) by {
                if t.contains(s.last()) {
                    let i = choose|i: int| 0 <= i < t.len() && t[i] == s.last();
                    assert(s[i] == s[s.len() - 1]);
                }
            }
            assert(!w.contains(s.last()));
            assert forall|i: int, j: int| 0 <= i < w.push(s.last()).len() && 0 <= j < w.push(s.last()).len() && i != j
                implies w.push(s.last())[i] != w.push(s.last())[j] by {
                if i == w.len() {
                    assert(w.contains(w[j]));
                } else if j == w.len() {
                    assert(w.contains(w[i]));
                }
            }
        }
    }
}

proof fn lemma_remove_no_duplicates(f: Map<u64, NodeView>, v: u64)
    requires
        forest_wf(f),
        f.contains_key(v),
        f[v].parent is Some,
    ensures
        forall|q: u64| #[trigger] forest_after_remove(f, v).contains_key(q) ==> forest_after_remove(f, v)[q].children.no_duplicates(),
{
    reveal(forest_wf);
    let g = forest_after_remove(f, v);
    let p = f[v].parent.unwrap();
    let ch = f[v].children;
    lemma_no_short_cycles(f, v);
    lemma_without(f[p].children, v);
    assert forall|q: u64| #[trigger] g.contains_key(q) implies g[q].children.no_duplicates() by {
        assert(f.contains_key(q));
        if q == p {
            let w = without(f[p].children, v);
            lemma_without_no_duplicates(f[p].children, v);
            assert(ch.no_duplicates());
            let all = w + ch;
            assert forall|i: int, j: int| 0 <= i < all.len() && 0 <= j < all.len() && i < j implies all[i] != all[j] by {
                if j < w.len() {
                    assert(all[i] == w[i] && all[j] == w[j]);
                } else if i >= w.len() {
                    assert(all[i] == ch[i - w.len()] && all[j] == ch[j - w.len()]);
                } else {
                    let x = w[i];
                    assert(all[j] == ch[j - w.len()]);
                    if x == ch[j - w.len()] {
                        assert(w.contains(x));
                        assert(f[p].children.contains(x));
                        let k = choose|k: int| 0 <= k < f[p].children.len() && f[p].children[k] == x;
                        assert(f.contains_key(f[p].children[k]));
                        assert(f[x].parent == Some(p));
                        assert(ch.contains(x));
                        assert(f[x].parent == Some(v));
                    }
                }
            }
        }
    }
}

pub proof fn lemma_remove_preserves_wf(f: Map<u64, NodeView>, v: u64)
    requires
        forest_wf(f),
        f.contains_key(v),
        f[v].parent is Some,
    ensures
        forest_wf(forest_after_remove(f, v)),
{
    lemma_remove_no_duplicates(f, v);
    lemma_remove_parents(f, v);
    lemma_remove_children(f, v);
    lemma_remove_root_paths(f, v);
    reveal(forest_wf);
}

/// How many elements at the ends of `a` and `b` agree, counting on from `k`.
pub open spec fn common_tail_len(a: Seq<u64>, b: Seq<u64>, k: nat) -> nat
    decreases a.len() - k,
{
    if k < a.len() && k < b.len() && a[a.len() - 1 - k] == b[b.len() - 1 - k] {
        common_tail_len(a, b, k + 1)
    } else {
        k
    }
}

/// The elements `j` places before the ends of `a` and `b` agree.
pub open spec fn tail_eq(a: Seq<u64>, b: Seq<u64>, j: int) -> bool {
    a[a.len() - 1 - j] == b[b.len() - 1 - j]
}

pub proof fn lemma_common_tail_len(a: Seq<u64>, b: Seq<u64>, k: nat)
    requires
        k <= a.len(),
        k <= b.len(),
    ensures
        k <= common_tail_len(a, b, k) <= a.len(),
        common_tail_len(a, b, k) <= b.len(),
        forall|j: int| k <= j < common_tail_len(a, b, k) ==> #[trigger] tail_eq(a, b, j),
        common_tail_len(a, b, k) == a.len() || common_tail_len(a, b, k) == b.len() || a[a.len() - 1
            - common_tail_len(a, b, k)] != b[b.len() - 1 - common_tail_len(a, b, k)],
    decreases a.len() - k,
{
    if k < a.len() && k < b.len() && a[a.len() - 1 - k] == b[b.len() - 1 - k] {
        lemma_common_tail_len(a, b, k + 1);
    }
}

/// The path between two versions: up from `start` to the lowest common ancestor, then
/// down to `finish`; `None` when they lie in different trees.
pub open spec fn path_between(f: Map<u64, NodeView>, start: u64, finish: u64) -> Option<Seq<u64>> {
    let pa = root_path(f, start);
    let pb = root_path(f, finish);
    if pa.last() != pb.last() {
        None
    } else {
        let k = common_tail_len(pa, pb, 0) as int;
        Some(pa.take(pa.len() - k + 1) + pb.take(pb.len() - k).reverse())
    }
}

/// The lowest common ancestor of two versions of the same tree.
pub open spec fn lowest_common_ancestor(f: Map<u64, NodeView>, a: u64, b: u64) -> u64 {
    let pa = root_path(f, a);
    pa[pa.len() - common_tail_len(pa, root_path(f, b), 0)]
}

pub proof fn lemma_lca_facts(f: Map<u64, NodeView>, a: u64, b: u64)
    requires
        forest_wf(f),
        f.contains_key(a),
        f.contains_key(b),
        root_path(f, a).last() == root_path(f, b).last(),
    ensures
        ({
            let pa = root_path(f, a);
            let pb = root_path(f, b);
            let k = common_tail_len(pa, pb, 0) as int;
            let l = lowest_common_ancestor(f, a, b);
            &&& is_root_path(f, a, pa)
            &&& is_root_path(f, b, pb)
            &&& pa.no_duplicates()
            &&& pb.no_duplicates()
            &&& 1 <= k <= pa.len()
            &&& k <= pb.len()
            &&& l == pa[pa.len() - k]
            &&& l == pb[pb.len() - k]
            &&& f.contains_key(l)
            &&& root_path(f, l) == pa.subrange(pa.len() - k, pa.len() as int)
            &&& root_path(f, l) == pb.subrange(pb.len() - k, pb.len() as int)
            &&& forall|x: u64| pa.contains(x) && pb.contains(x) ==> #[trigger] root_path(f, l).contains(x)
        }),
{
    lemma_root_path_is(f, a);
    lemma_root_path_is(f, b);
    let pa = root_path(f, a);
    let pb = root_path(f, b);
    let la = pa.len() as int;
    let lb = pb.len() as int;
    lemma_common_tail_len(pa, pb, 0);
    let k = common_tail_len(pa, pb, 0) as int;
    assert(tail_eq(pa, pb, 0));
    let l = pa[la - k];
    lemma_root_path_skip(f, a, pa, la - k);
    lemma_root_path_skip(f, b, pb, lb - k);
    assert(tail_eq(pa, pb, k - 1));
    lemma_root_path_is(f, l);
    lemma_root_path_unique(f, l, pa.subrange(la - k, la), root_path(f, l));
    lemma_root_path_unique(f, l, pb.subrange(lb - k, lb), root_path(f, l));
    assert forall|x: u64| pa.contains(x) && pb.contains(x) implies #[trigger] root_path(f, l).contains(x) by {
        let i = choose|i: int| 0 <= i < la && pa[i] == x;
        let j = choose|j: int| 0 <= j < lb && pb[j] == x;
        lemma_root_path_skip(f, a, pa, i);
        lemma_root_path_skip(f, b, pb, j);
        lemma_root_path_unique(f, x, pa.subrange(i, la), pb.subrange(j, lb));
        assert(la - i == lb - j);
        let m = la - i;
        assert forall|t: int| 0 <= t < m implies #[trigger] tail_eq(pa, pb, t) by {
            assert(pa.subrange(i, la)[m - 1 - t] == pb.subrange(j, lb)[m - 1 - t]);
        }
        if m > k {
            assert(tail_eq(pa, pb, k));
        }
        assert(root_path(f, l)[i - (la - k)] == pa[i]);
    }
}

pub proof fn lemma_path_between_shape(f: Map<u64, NodeView>, a: u64, b: u64)
    requires
        forest_wf(f),
        f.contains_key(a),
        f.contains_key(b),
        root_path(f, a).last() == root_path(f, b).last(),
    ensures
        path_between(f, a, b) matches Some(path) && {
            &&& path[0] == a
            &&& path.last() == b
            &&& forall|i: int| 0 <= i < path.len() ==> f.contains_key(#[trigger] path[i])
            &&& forall|i: int|
                0 <= i < path.len() - 1 ==> f[#[trigger] path[i]].parent == Some(path[i + 1]) || f[path[i
                    + 1]].parent == Some(path[i])
            &&& path[root_path(f, a).len() - common_tail_len(root_path(f, a), root_path(f, b), 0)]
                == lowest_common_ancestor(f, a, b)
        },
{
    lemma_lca_facts(f, a, b);
    let pa = root_path(f, a);
    let pb = root_path(f, b);
    let la = pa.len() as int;
    let lb = pb.len() as int;
    let k = common_tail_len(pa, pb, 0) as int;
    let up = pa.take(la - k + 1);
    let down = pb.take(lb - k).reverse();
    let path = up + down;
    assert(path[0] == a);
    if lb - k > 0 {
        assert(path.last() == pb[0]);
    } else {
        assert(path.last() == pa[la - k]);
    }
    assert forall|i: int| 0 <= i < path.len() implies f.contains_key(#[trigger] path[i]) by {
        if i < up.len() {
            assert(path[i] == pa[i]);
        } else {
            assert(path[i] == pb[lb - k - 1 - (i - up.len())]);
        }
    }
    assert forall|i: int| 0 <= i < path.len() - 1 implies f[#[trigger] path[i]].parent == Some(path[i + 1])
        || f[path[i + 1]].parent == Some(path[i]) by {
        if i < up.len() - 1 {
            assert(path[i] == pa[i]);
            assert(path[i + 1] == pa[i + 1]);
        } else if i == up.len() - 1 {
            assert(path[i] == pb[lb - k]);
            assert(path[i + 1] == pb[lb - k - 1]);
            assert(f[pb[lb - k - 1]].parent == Some(pb[lb - k]));
        } else {
            let j = lb - k - 1 - (i - up.len());
            assert(path[i] == pb[j]);
            assert(path[i + 1] == pb[j - 1]);
            assert(f[pb[j - 1]].parent == Some(pb[j]));
        }
    }
    assert(path[la - k] == pa[la - k]);
}

pub proof fn lemma_path_between_simple(f: Map<u64, NodeView>, a: u64, b: u64)
    requires
        forest_wf(f),
        f.contains_key(a),
        f.contains_key(b),
        root_path(f, a).last() == root_path(f, b).last(),
    ensures
        path_between(f, a, b) matches Some(path) && path.no_duplicates(),
{
    lemma_lca_facts(f, a, b);
    let pa = root_path(f, a);
    let pb = root_path(f, b);
    let la = pa.len() as int;
    let lb = pb.len() as int;
    let k = common_tail_len(pa, pb, 0) as int;
    let l = lowest_common_ancestor(f, a, b);
    let up = pa.take(la - k + 1);
    let down = pb.take(lb - k).reverse();
    let path = up + down;
    assert forall|i: int, j: int| 0 <= i < path.len() && 0 <= j < path.len() && i < j implies path[i]
        != path[j] by {
        if j < up.len() {
            assert(path[i] == pa[i] && path[j] == pa[j]);
        } else if i >= up.len() {
            assert(path[i] == pb[lb - k - 1 - (i - up.len())]);
            assert(path[j] == pb[lb - k - 1 - (j - up.len())]);
        } else {
            let jb = lb - k - 1 - (j - up.len());
            assert(path[i] == pa[i]);
            assert(path[j] == pb[jb]);
            if pa[i] == pb[jb] {
                let x = pa[i];
                assert(pa.contains(x));
                assert(pb.contains(x));
                assert(root_path(f, l).contains(x));
                let t = choose|t: int| 0 <= t < root_path(f, l).len() && root_path(f, l)[t] == x;
                assert(pb[lb - k + t] == x);
            }
        }
    }
}

pub proof fn lemma_common_tail_len_symmetric(a: Seq<u64>, b: Seq<u64>, k: nat)
    ensures
        common_tail_len(a, b, k) == common_tail_len(b, a, k),
    decreases a.len() - k,
{
    if k < a.len() && k < b.len() && a[a.len() - 1 - k] == b[b.len() - 1 - k] {
        lemma_common_tail_len_symmetric(a, b, k + 1);
    }
}

/// The path back is the path there, reversed.
pub proof fn lemma_path_between_reverse(f: Map<u64, NodeView>, a: u64, b: u64)
    requires
        forest_wf(f),
        f.contains_key(a),
        f.contains_key(b),
        root_of(f, a) == root_of(f, b),
    ensures
        path_between(f, a, b) is Some,
        path_between(f, b, a) == Some(path_between(f, a, b).unwrap().reverse()),
{
    lemma_lca_facts(f, a, b);
    lemma_common_tail_len_symmetric(root_path(f, a), root_path(f, b), 0);
    let pa = root_path(f, a);
    let pb = root_path(f, b);
    let la = pa.len() as int;
    let lb = pb.len() as int;
    let k = common_tail_len(pa, pb, 0) as int;
    let p1 = pa.take(la - k + 1) + pb.take(lb - k).reverse();
    let p2 = pb.take(lb - k + 1) + pa.take(la - k).reverse();
    assert(p1.len() == p2.len());
    assert forall|i: int| 0 <= i < p2.len() implies p2[i] == p1.reverse()[i] by {
        let n = p1.len();
        assert(p1.reverse()[i] == p1[n - 1 - i]);
        if i < lb - k {
            assert(p2[i] == pb[i]);
            assert(p1[n - 1 - i] == pb[i]);
        } else if i == lb - k {
            assert(p2[i] == pb[lb - k]);
            assert(p1[n - 1 - i] == pa[la - k]);
        } else {
            assert(p2[i] == pa[la - k - 1 - (i - (lb - k + 1))]);
            assert(p1[n - 1 - i] == pa[n - 1 - i]);
        }
    }
    assert(p2 =~= p1.reverse());
}

/// For two versions of one tree, the path between them starts at the first, ends at
/// the second, visits no version twice, steps along parent links only, and passes
/// through their lowest common ancestor: an ancestor of both, below every other
/// common ancestor. For versions of different trees there is no path.
pub proof fn lemma_path_between(f: Map<u64, NodeView>, a: u64, b: u64)
    requires
        forest_wf(f),
        f.contains_key(a),
        f.contains_key(b),
    ensures
        root_of(f, a) != root_of(f, b) <==> path_between(f, a, b) is None,
        path_between(f, a, b) matches Some(path) ==> {
            &&& path[0] == a
            &&& path.last() == b
            &&& path.no_duplicates()
            &&& forall|i: int| 0 <= i < path.len() ==> f.contains_key(#[trigger] path[i])
            &&& forall|i: int|
                0 <= i < path.len() - 1 ==> f[#[trigger] path[i]].parent == Some(path[i + 1]) || f[path[i
                    + 1]].parent == Some(path[i])
            &&& path.contains(lowest_common_ancestor(f, a, b))
            &&& root_path(f, a).contains(lowest_common_ancestor(f, a, b))
            &&& root_path(f, b).contains(lowest_common_ancestor(f, a, b))
            &&& forall|x: u64|
                root_path(f, a).contains(x) && root_path(f, b).contains(x) ==> #[trigger] root_path(
                    f,
                    lowest_common_ancestor(f, a, b),
                ).contains(x)
        },
{
    if root_path(f, a).last() == root_path(f, b).last() {
        lemma_lca_facts(f, a, b);
        lemma_path_between_shape(f, a, b);
        lemma_path_between_simple(f, a, b);
        let pa = root_path(f, a);
        let pb = root_path(f, b);
        let k = common_tail_len(pa, pb, 0) as int;
        let path = path_between(f, a, b).unwrap();
        assert(path[pa.len() - k] == lowest_common_ancestor(f, a, b));
        assert(pa[pa.len() - k] == lowest_common_ancestor(f, a, b));
        assert(pb[pb.len() - k] == lowest_common_ancestor(f, a, b));
    }
}

/// `root` and every version below it.
pub open spec fn descendants(f: Map<u64, NodeView>, root: u64) -> Set<u64> {
    Set::new(|w: u64| f.contains_key(w) && root_path(f, w).contains(root))
}

/// With `root` taken and every child of a taken version taken, all of `root`'s
/// descendants are taken.
pub proof fn lemma_closed_takes_descendants(f: Map<u64, NodeView>, root: u64, taken: Set<u64>)
    requires
        forest_wf(f),
        f.contains_key(root) ==> taken.contains(root),
        forall|r: u64, c: u64| #[trigger] taken.contains(r) && f.contains_key(r) && #[trigger] f[r].children.contains(c)
            ==> taken.contains(c),
    ensures
        forall|w: u64| #[trigger] descendants(f, root).contains(w) ==> taken.contains(w),
{
    assert forall|w: u64| #[trigger] descendants(f, root).contains(w) implies taken.contains(w) by {
        lemma_root_path_is(f, w);
        let pw = root_path(f, w);
        let m = choose|m: int| 0 <= m < pw.len() && pw[m] == root;
        lemma_taken_down(f, taken, w, pw, m);
    }
}

pub proof fn lemma_taken_down(f: Map<u64, NodeView>, taken: Set<u64>, w: u64, pw: Seq<u64>, j: int)
    requires
        forest_wf(f),
        is_root_path(f, w, pw),
        0 <= j < pw.len(),
        taken.contains(pw[j]),
        forall|r: u64, c: u64| #[trigger] taken.contains(r) && f.contains_key(r) && #[trigger] f[r].children.contains(c)
            ==> taken.contains(c),
    ensures
        taken.contains(w),
    decreases j,
{
    if j > 0 {
        assert(f[pw[j - 1]].parent == Some(pw[j]));
        reveal(forest_wf);
        assert(f.contains_key(pw[j - 1]));
        assert(f[pw[j]].children.contains(pw[j - 1]));
        lemma_taken_down(f, taken, w, pw, j - 1);
    }
}

/// Taking a whole tree out of a forest leaves a well-formed forest.
pub proof fn lemma_remove_tree_preserves_wf(f: Map<u64, NodeView>, root: u64)
    requires
        forest_wf(f),
        f.contains_key(root) ==> f[root].parent is None,
    ensures
        forest_wf(f.remove_keys(descendants(f, root))),
{
    let d = descendants(f, root);
    let g = f.remove_keys(d);
    assert forall|w: u64| g.contains_key(w) && g[w].parent is Some implies g.contains_key(g[w].parent.unwrap())
        && g[g[w].parent.unwrap()].children.contains(w) by {
        reveal(forest_wf);
        let p = f[w].parent.unwrap();
        lemma_root_path_is(f, p);
        lemma_root_path_cons(f, w, p, root_path(f, p));
        lemma_root_path_is(f, w);
        if d.contains(p) {
            let i = choose|i: int| 0 <= i < root_path(f, p).len() && root_path(f, p)[i] == root;
            assert(root_path(f, w)[i + 1] == root);
        }
    }
    assert forall|q: u64, i: int| g.contains_key(q) && 0 <= i < g[q].children.len() implies g.contains_key(
        #[trigger] g[q].children[i],
    ) && g[g[q].children[i]].parent == Some(q) by {
        reveal(forest_wf);
        let c = f[q].children[i];
        assert(f.contains_key(c));
        lemma_root_path_is(f, q);
        lemma_root_path_cons(f, c, q, root_path(f, q));
        lemma_root_path_is(f, c);
        if d.contains(c) {
            let j = choose|j: int| 0 <= j < root_path(f, c).len() && root_path(f, c)[j] == root;
            if j == 0 {
                assert(c == root);
            } else {
                assert(root_path(f, q)[j - 1] == root);
            }
        }
    }
    assert forall|w: u64| g.contains_key(w) implies exists|path: Seq<u64>| #[trigger] is_root_path(g, w, path) by {
        lemma_root_path_is(f, w);
        let pw = root_path(f, w);
        assert forall|i: int| 0 <= i < pw.len() implies g.contains_key(#[trigger] pw[i]) && g[pw[i]].parent
            == f[pw[i]].parent by {
            lemma_root_path_skip(f, w, pw, i);
            lemma_root_path_is(f, pw[i]);
            lemma_root_path_unique(f, pw[i], pw.subrange(i, pw.len() as int), root_path(f, pw[i]));
            if d.contains(pw[i]) {
                let j = choose|j: int| 0 <= j < root_path(f, pw[i]).len() && root_path(f, pw[i])[j] == root;
                assert(pw[i + j] == root);
            }
        }
        lemma_root_path_kept(f, g, w, pw);
    }
    reveal(forest_wf);
}

/// A version and its parent lie in the same tree, and a root is its own tree's root.
pub proof fn lemma_root_of_parent(f: Map<u64, NodeView>, x: u64)
    requires
        forest_wf(f),
        f.contains_key(x),
    ensures
        f.contains_key(root_of(f, x)),
        f[x].parent matches Some(y) ==> f.contains_key(y) && root_of(f, x) == root_of(f, y),
        f[x].parent is None ==> root_of(f, x) == x,
{
    lemma_root_path_is(f, x);
    let px = root_path(f, x);
    assert(f.contains_key(px[px.len() - 1]));
    if f[x].parent is Some {
        let y = f[x].parent.unwrap();
        lemma_wf_children_and_parent(f, x);
        lemma_root_path_is(f, y);
        lemma_root_path_cons(f, x, y, root_path(f, y));
        assert((seq![x] + root_path(f, y)).last() == root_path(f, y).last());
    } else {
        assert(is_root_path(f, x, seq![x]));
    }
}

/// A root path of `f` that is still one in `g` gives the same root there.
pub proof fn lemma_same_root(f: Map<u64, NodeView>, g: Map<u64, NodeView>, w: u64, path: Seq<u64>)
    requires
        forest_wf(f),
        forest_wf(g),
        f.contains_key(w),
        g.contains_key(w),
        is_root_path(f, w, path),
        is_root_path(g, w, path),
    ensures
        root_of(g, w) == root_of(f, w),
{
    lemma_root_path_is(f, w);
    lemma_root_path_is(g, w);
}

/// Making a version changes no other version's root; a new root is its own root and
/// a new child has its parent's.
pub proof fn lemma_roots_after_create(f: Map<u64, NodeView>, parent: Option<u64>, id: u64)
    requires
        forest_wf(f),
        !f.contains_key(id),
        id != NULL_VERSION,
        parent matches Some(p) ==> f.contains_key(p),
    ensures
        forest_wf(forest_after_create(f, parent, id)),
        forall|w: u64| #[trigger] f.contains_key(w) ==> root_of(forest_after_create(f, parent, id), w) == root_of(f, w),
        root_of(forest_after_create(f, parent, id), id) == match parent {
            Some(p) => root_of(f, p),
            None => id,
        },
{
    let g = forest_after_create(f, parent, id);
    lemma_create_preserves_wf(f, parent, id);
    assert forall|w: u64| #[trigger] f.contains_key(w) implies root_of(g, w) == root_of(f, w) by {
        lemma_root_path_is(f, w);
        lemma_root_path_kept(f, g, w, root_path(f, w));
        lemma_same_root(f, g, w, root_path(f, w));
    }
    lemma_root_of_parent(g, id);
    if let Some(p) = parent {
        assert(f.contains_key(p));
    }
}

/// Removing a non-root version changes no other version's root.
pub proof fn lemma_roots_after_remove(f: Map<u64, NodeView>, v: u64)
    requires
        forest_wf(f),
        f.contains_key(v),
        f[v].parent is Some,
    ensures
        forest_wf(forest_after_remove(f, v)),
        forall|w: u64| #[trigger] forest_after_remove(f, v).contains_key(w) ==> root_of(forest_after_remove(f, v), w)
            == root_of(f, w),
{
    let g = forest_after_remove(f, v);
    lemma_remove_preserves_wf(f, v);
    lemma_no_short_cycles(f, v);
    assert forall|w: u64| #[trigger] g.contains_key(w) implies root_of(g, w) == root_of(f, w) by {
        lemma_root_path_is(f, w);
        let pw = root_path(f, w);
        lemma_root_path_is(g, w);
        if pw.contains(v) {
            let k = choose|k: int| 0 <= k < pw.len() && pw[k] == v;
            lemma_remove_root_path_through(f, v, w, pw, k);
            let pg = pw.subrange(0, k) + pw.subrange(k + 1, pw.len() as int);
            assert(k < pw.len() - 1);
            assert(pg.last() == pw.last());
        } else {
            let ch = f[v].children;
            assert forall|i: int| 0 <= i < pw.len() implies g.contains_key(#[trigger] pw[i]) && g[pw[i]].parent
                == f[pw[i]].parent by {
                if ch.contains(pw[i]) {
                    assert(f[pw[i]].parent == Some(v));
                    if i < pw.len() - 1 {
                        assert(pw[i + 1] == v);
                    }
                }
            }
            lemma_root_path_kept(f, g, w, pw);
        }
    }
}

/// Taking out the whole tree of a root changes no other version's root, and the
/// versions left are in other trees.
pub proof fn lemma_roots_after_tree_removal(f: Map<u64, NodeView>, root: u64)
    requires
        forest_wf(f),
        f.contains_key(root) ==> f[root].parent is None,
    ensures
        forest_wf(f.remove_keys(descendants(f, root))),
        forall|w: u64| #[trigger] f.remove_keys(descendants(f, root)).contains_key(w) ==> root_of(
            f.remove_keys(descendants(f, root)),
            w,
        ) == root_of(f, w) && root_of(f, w) != root,
        forall|w: u64| #[trigger] descendants(f, root).contains(w) ==> root_of(f, w) == root,
{
    let d = descendants(f, root);
    let g = f.remove_keys(d);
    lemma_remove_tree_preserves_wf(f, root);
    assert forall|w: u64| #[trigger] g.contains_key(w) implies root_of(g, w) == root_of(f, w) && root_of(f, w)
        != root by {
        lemma_root_path_is(f, w);
        let pw = root_path(f, w);
        assert forall|i: int| 0 <= i < pw.len() implies g.contains_key(#[trigger] pw[i]) && g[pw[i]].parent
            == f[pw[i]].parent by {
            lemma_root_path_skip(f, w, pw, i);
            lemma_root_path_is(f, pw[i]);
            lemma_root_path_unique(f, pw[i], pw.subrange(i, pw.len() as int), root_path(f, pw[i]));
            if d.contains(pw[i]) {
                let j = choose|j: int| 0 <= j < root_path(f, pw[i]).len() && root_path(f, pw[i])[j] == root;
                assert(pw[i + j] == root);
            }
        }
        lemma_root_path_kept(f, g, w, pw);
        lemma_root_path_is(g, w);
        assert(pw[pw.len() - 1] == pw.last());
    }
    assert forall|w: u64| #[trigger] d.contains(w) implies root_of(f, w) == root by {
        lemma_root_path_is(f, w);
        let pw = root_path(f, w);
        let j = choose|j: int| 0 <= j < pw.len() && pw[j] == root;
        if j < pw.len() - 1 {
            assert(f[pw[j]].parent == Some(pw[j + 1]));
        }
    }
}

} // verus!
