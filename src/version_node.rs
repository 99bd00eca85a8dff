//! A version's place in its tree: its parent and its children, and their encoding
//! `parent (8) ‖ num_children (8) ‖ child₁ (8) ‖ … ‖ childₙ (8)`, big-endian, where a
//! parent of `NULL_VERSION` marks a root.
use crate::be::{
    lemma_u64_be_round_trip, push_u64_be, u64_be, u64_from_be,
    u64_from_be_slice, u64_to_be_vec,
};
use std::ops::Range;
use vstd::prelude::*;

verus! {

/// A version that's never valid because it has a special purpose internally.
pub const NULL_VERSION: u64 = 0xffff_ffff_ffff_ffff;

/// The abstract form of a version node.
pub struct NodeView {
    pub parent: Option<u64>,
    pub children: Seq<u64>,
}

pub struct VersionNode {
    pub parent: Option<u64>,
    pub children: Vec<u64>,
}

impl View for VersionNode {
    type V = NodeView;

    open spec fn view(&self) -> NodeView {
        NodeView { parent: self.parent, children: self.children@ }
    }
}

/// The parent as stored: `NULL_VERSION` for none.
pub open spec fn parent_word(p: Option<u64>) -> u64 {
    match p {
        Some(v) => v,
        None => NULL_VERSION,
    }
}

/// The bytes of a sequence of versions, eight per version.
pub open spec fn encode_versions(s: Seq<u64>) -> Seq<u8>
    decreases s.len(),
{
    if s.len() == 0 {
        Seq::empty()
    } else {
        encode_versions(s.drop_last()) + u64_be(s.last())
    }
}

/// The bytes of a node.
pub open spec fn encode_node(n: NodeView) -> Seq<u8> {
    u64_be(parent_word(n.parent)) + u64_be(n.children.len() as u64) + encode_versions(n.children)
}

/// A node that the encoding gives back unchanged.
pub open spec fn node_representable(n: NodeView) -> bool {
    &&& n.parent != Some(NULL_VERSION)
    &&& n.children.len() <= u64::MAX
}

/// The number of children recorded in the bytes of a node.
pub open spec fn node_num_children(b: Seq<u8>) -> int {
    u64_from_be(b.subrange(8, 16)) as int
}

/// Whether the lengths recorded in `b` stay within it.
pub open spec fn node_bytes_ok(b: Seq<u8>) -> bool {
    b.len() >= 16 && 16 + 8 * node_num_children(b) <= b.len()
}

/// The node encoded at the front of `b`.
pub open spec fn decode_node(b: Seq<u8>) -> NodeView {
    let p = u64_from_be(b.subrange(0, 8));
    NodeView {
        parent: if p == NULL_VERSION { None } else { Some(p) },
        children: Seq::new(
            node_num_children(b) as nat,
            |i: int| u64_from_be(b.subrange(16 + 8 * i, 16 + 8 * i + 8)),
        ),
    }
}

proof fn lemma_encode_versions(s: Seq<u64>)
    ensures
        encode_versions(s).len() == 8 * s.len(),
        forall|i: int|
            0 <= i < s.len() ==> #[trigger] encode_versions(s).subrange(8 * i, 8 * i + 8) == u64_be(
                s[i],
            ),
    decreases s.len(),
{
    if s.len() > 0 {
        let p = s.drop_last();
        lemma_encode_versions(p);
        lemma_u64_be_round_trip(s.last());
        let e = encode_versions(s);
        assert(e == encode_versions(p) + u64_be(s.last()));
        assert forall|i: int| 0 <= i < s.len() implies #[trigger] e.subrange(8 * i, 8 * i + 8)
            == u64_be(s[i]) by {
            if i < s.len() - 1 {
                assert(e.subrange(8 * i, 8 * i + 8) =~= encode_versions(p).subrange(8 * i, 8 * i + 8));
                assert(p[i] == s[i]);
            } else {
                assert(e.subrange(8 * i, 8 * i + 8) =~= u64_be(s.last()));
            }
        }
    }
}

/// Decoding the encoding of a representable node, followed by anything, gives it back.
pub proof fn lemma_node_round_trip(n: NodeView, rest: Seq<u8>)
    requires
        node_representable(n),
    ensures
        node_bytes_ok(encode_node(n) + rest),
        decode_node(encode_node(n) + rest) == n,
        encode_node(n).len() == 16 + 8 * n.children.len(),
{
    let b = encode_node(n) + rest;
    lemma_u64_be_round_trip(parent_word(n.parent));
    lemma_u64_be_round_trip(n.children.len() as u64);
    lemma_encode_versions(n.children);
    assert(b.subrange(0, 8) =~= u64_be(parent_word(n.parent)));
    assert(b.subrange(8, 16) =~= u64_be(n.children.len() as u64));
    let d = decode_node(b);
    assert forall|i: int| 0 <= i < n.children.len() implies d.children[i] == n.children[i] by {
        assert(b.subrange(16 + 8 * i, 16 + 8 * i + 8) =~= encode_versions(n.children).subrange(
            8 * i,
            8 * i + 8,
        ));
        lemma_u64_be_round_trip(n.children[i]);
    }
    assert(d.children =~= n.children);
}

impl VersionNode {
    pub fn new_orphan() -> (r: Self)
        ensures
            r@ == (NodeView { parent: None, children: Seq::empty() }),
    {
        Self { parent: None, children: Vec::new() }
    }

    pub fn new_with_parent(parent: u64) -> (r: Self)
        requires
            parent != NULL_VERSION,
        ensures
            r@ == (NodeView { parent: Some(parent), children: Seq::empty() }),
    {
        Self { parent: Some(parent), children: Vec::new() }
    }

    pub fn new_maybe_with_parent(parent: Option<u64>) -> (r: Self)
        requires
            parent != Some(NULL_VERSION),
        ensures
            r@ == (NodeView { parent: parent, children: Seq::empty() }),
    {
        if let Some(parent) = parent {
            Self::new_with_parent(parent)
        } else {
            Self::new_orphan()
        }
    }

    /// Appends the encoding of this node to `writer`.
    pub fn encode(&self, writer: &mut Vec<u8>)
        ensures
            final(writer)@ == old(writer)@ + encode_node(self@),
    {
        self.encode_parent(writer);
        self.encode_children(writer);
        assert(final(writer)@ =~= old(writer)@ + encode_node(self@));
    }

    pub fn encode_parent(&self, writer: &mut Vec<u8>)
        ensures
            final(writer)@ == old(writer)@ + u64_be(parent_word(self.parent)),
    {
        push_u64_be(writer, self.parent_word());
    }

    fn parent_word(&self) -> (r: u64)
        ensures
            r == parent_word(self.parent),
    {
        match self.parent {
            Some(p) => p,
            None => NULL_VERSION,
        }
    }

    /// The stored form of the parent.
    pub fn parent_be_bytes(&self) -> (r: Vec<u8>)
        ensures
            r@ == u64_be(parent_word(self.parent)),
    {
        u64_to_be_vec(self.parent_word())
    }

    pub fn encode_children(&self, writer: &mut Vec<u8>)
        ensures
            final(writer)@ == old(writer)@ + u64_be(self.children@.len() as u64) + encode_versions(
                self.children@,
            ),
    {
        push_u64_be(writer, self.children.len() as u64);
        let ghost start = writer@;
        let mut i: usize = 0;
        while i < self.children.len()
            invariant
                i <= self.children@.len(),
                writer@ == start + encode_versions(self.children@.take(i as int)),
            decreases self.children@.len() - i,
        {
            push_u64_be(writer, self.children[i]);
            proof {
                let t = self.children@.take(i + 1);
                assert(t.drop_last() =~= self.children@.take(i as int));
            }
            i += 1;
        }
        assert(self.children@.take(i as int) =~= self.children@);
    }

    /// The number of bytes that `encode` writes.
    pub fn encoded_size(&self) -> (r: usize)
        requires
            8 * (2 + self.children@.len()) <= usize::MAX,
        ensures
            r == encode_node(self@).len(),
    {
        proof {
            lemma_encode_versions(self.children@);
        }
        8 * (2 + self.children.len())
    }

    /// The encoding of this node.
    pub fn to_bytes(&self) -> (r: Vec<u8>)
        ensures
            r@ == encode_node(self@),
    {
        let mut bytes: Vec<u8> = Vec::new();
        self.encode(&mut bytes);
        assert(bytes@ =~= encode_node(self@));
        bytes
    }
}

/// A view of an encoded version node. Holds only bytes whose recorded number of
/// children stays within them.
#[derive(Clone)]
pub struct RawVersionNode<'a> {
    bytes: &'a [u8],
}

impl<'a> RawVersionNode<'a> {
    pub closed spec fn bytes(&self) -> Seq<u8> {
        self.bytes@
    }

    pub open spec fn wf(&self) -> bool {
        node_bytes_ok(self.bytes()) && self.bytes().len() <= usize::MAX
    }

    /// Wraps `bytes`, when the recorded number of children stays within them.
    pub fn new(bytes: &'a [u8]) -> (r: Option<Self>)
        ensures
            r is Some <==> node_bytes_ok(bytes@),
            r matches Some(raw) ==> raw.bytes() == bytes@ && raw.wf(),
    {
        let len = bytes.len();
        if len < 16 {
            return None;
        }
        let n = u64_from_be_slice(bytes, 8);
        if n > ((len - 16) / 8) as u64 {
            return None;
        }
        Some(RawVersionNode { bytes })
    }

    /// The parent version of this snapshot, i.e. the version that came immediately before this one.
    pub fn parent(&self) -> (r: Option<u64>)
        requires
            self.wf(),
        ensures
            r == decode_node(self.bytes()).parent,
    {
        let parent = u64_from_be_slice(self.bytes, 0);
        if parent == NULL_VERSION {
            None
        } else {
            Some(parent)
        }
    }

    pub fn num_children(&self) -> (r: usize)
        requires
            self.wf(),
        ensures
            r == decode_node(self.bytes()).children.len(),
    {
        u64_from_be_slice(self.bytes, 8) as usize
    }

    /// All children versions, in order.
    pub fn iter_children(&self) -> (r: Vec<u64>)
        requires
            self.wf(),
        ensures
            r@ == decode_node(self.bytes()).children,
    {
        let n = self.num_children();
        let mut out: Vec<u64> = Vec::new();
        let mut i: usize = 0;
        while i < n
            invariant
                self.wf(),
                n == decode_node(self.bytes()).children.len(),
                i <= n,
                out@ == decode_node(self.bytes()).children.take(i as int),
            decreases n - i,
        {
            let c = u64_from_be_slice(self.bytes, 16 + 8 * i);
            out.push(c);
            assert(out@ =~= decode_node(self.bytes()).children.take(i + 1));
            i += 1;
        }
        assert(out@ =~= decode_node(self.bytes()).children);
        out
    }

    /// The bytes that the encoded node takes, from the front.
    pub fn range(&self) -> (r: Range<usize>)
        requires
            self.wf(),
        ensures
            r.start == 0,
            r.end == 16 + 8 * node_num_children(self.bytes()),
    {
        0..self.children_range().end
    }

    fn children_range(&self) -> (r: Range<usize>)
        requires
            self.wf(),
        ensures
            r.start == 16,
            r.end == 16 + 8 * node_num_children(self.bytes()),
    {
        16..16 + self.num_children() * 8
    }

    /// The decoded node.
    pub fn to_node(&self) -> (r: VersionNode)
        requires
            self.wf(),
        ensures
            r@ == decode_node(self.bytes()),
    {
        VersionNode { parent: self.parent(), children: self.iter_children() }
    }
}

} // verus!
