//! The byte image of a book in persistent storage: a header of 32 bytes and
//! one slot of 88 bytes for each node, 8 bytes of tag space before 80 bytes
//! of body. Integers are little-endian; bytes that hold nothing are zero.

use vstd::bytes::{
    lemma_auto_spec_u128_to_from_le_bytes, lemma_auto_spec_u32_to_from_le_bytes,
    lemma_auto_spec_u64_to_from_le_bytes, spec_u128_from_le_bytes, spec_u128_to_le_bytes,
    spec_u32_from_le_bytes, spec_u32_to_le_bytes, spec_u64_from_le_bytes, spec_u64_to_le_bytes,
    u128_from_le_bytes, u128_to_le_bytes, u32_from_le_bytes, u32_to_le_bytes, u64_from_le_bytes,
    u64_to_le_bytes,
};
use vstd::prelude::*;
use vstd::slice::slice_subrange;

use crate::constants::{FREE_NODE, INNER_NODE, LEAF_NODE, NODE_SIZE, SLAB_HEADER_LEN, UNINITIALIZED};
use crate::error::PerpError;
use crate::state::slab::{AnyNode, FreeNode, InnerNode, LeafNode, NodeBody, Slab, SlabHeader};

verus! {

/// `n` zero bytes.
pub open spec fn zeros(n: nat) -> Seq<u8> {
    Seq::new(n, |i: int| 0u8)
}

/// The 32 bytes of a header: its four counters in the order of their declaration.
pub open spec fn encode_header(header: SlabHeader) -> Seq<u8> {
    spec_u64_to_le_bytes(header.leaf_count) + spec_u64_to_le_bytes(header.bump_index)
        + spec_u64_to_le_bytes(header.free_list_head) + spec_u64_to_le_bytes(header.root)
}

/// The 80 bytes of a slot's body.
pub open spec fn encode_body(body: NodeBody) -> Seq<u8> {
    match body {
        NodeBody::Uninitialized => zeros(80),
        NodeBody::Inner(inner) => spec_u64_to_le_bytes(inner.prefix_len) + spec_u128_to_le_bytes(
            inner.key,
        ) + spec_u32_to_le_bytes(inner.children[0]) + spec_u32_to_le_bytes(inner.children[1])
            + zeros(48),
        NodeBody::Leaf(leaf) => spec_u128_to_le_bytes(leaf.key) + leaf.owner@
            + spec_u64_to_le_bytes(leaf.quantity) + spec_u64_to_le_bytes(leaf.timestamp as u64)
            + seq![leaf.fee_tier] + zeros(15),
        NodeBody::Free(free) => spec_u64_to_le_bytes(free.next) + zeros(72),
    }
}

/// The 88 bytes of a slot: the tag, four bytes of padding, and the body.
pub open spec fn encode_node(node: AnyNode) -> Seq<u8> {
    spec_u32_to_le_bytes(node.spec_tag()) + zeros(4) + encode_body(node.node)
}

/// The node that `bytes` are the image of, if they are the image of one.
pub open spec fn decode_node(bytes: Seq<u8>) -> Option<AnyNode> {
    if exists|node: AnyNode| encode_node(node) == bytes {
        Some(choose|node: AnyNode| encode_node(node) == bytes)
    } else {
        None
    }
}

/// The bytes of slot `index` in the image `bytes` of a book.
pub open spec fn slot_bytes(bytes: Seq<u8>, index: int) -> Seq<u8> {
    bytes.subrange(32 + 88 * index, 32 + 88 * index + 88)
}

/// Whether `bytes` are the image of a book with header `header` and nodes `nodes`.
pub open spec fn is_image(bytes: Seq<u8>, header: SlabHeader, nodes: Seq<AnyNode>) -> bool {
    &&& bytes.len() == 32 + 88 * nodes.len()
    &&& bytes.subrange(0, 32) == encode_header(header)
    &&& forall|i: int| 0 <= i < nodes.len() ==> slot_bytes(bytes, i) == encode_node(#[trigger] nodes[i])
}

/// The layout of a slot: where each field of each kind of node lies.
pub proof fn lemma_node_layout(node: AnyNode)
    ensures
        encode_node(node).len() == 88,
        encode_node(node).subrange(0, 4) == spec_u32_to_le_bytes(node.spec_tag()),
        encode_node(node).subrange(4, 8) == zeros(4),
        encode_node(node).subrange(8, 88) == encode_body(node.node),
        match node.node {
            NodeBody::Uninitialized => true,
            NodeBody::Inner(inner) => {
                &&& encode_node(node).subrange(8, 16) == spec_u64_to_le_bytes(inner.prefix_len)
                &&& encode_node(node).subrange(16, 32) == spec_u128_to_le_bytes(inner.key)
                &&& encode_node(node).subrange(32, 36) == spec_u32_to_le_bytes(inner.children[0])
                &&& encode_node(node).subrange(36, 40) == spec_u32_to_le_bytes(inner.children[1])
                &&& encode_node(node).subrange(40, 88) == zeros(48)
            },
            NodeBody::Leaf(leaf) => {
                &&& encode_node(node).subrange(8, 24) == spec_u128_to_le_bytes(leaf.key)
                &&& encode_node(node).subrange(24, 56) == leaf.owner@
                &&& encode_node(node).subrange(56, 64) == spec_u64_to_le_bytes(leaf.quantity)
                &&& encode_node(node).subrange(64, 72) == spec_u64_to_le_bytes(
                    leaf.timestamp as u64,
                )
                &&& encode_node(node)[72] == leaf.fee_tier
                &&& encode_node(node).subrange(73, 88) == zeros(15)
            },
            NodeBody::Free(free) => {
                &&& encode_node(node).subrange(8, 16) == spec_u64_to_le_bytes(free.next)
                &&& encode_node(node).subrange(16, 88) == zeros(72)
            },
        },
{
    lemma_auto_spec_u32_to_from_le_bytes();
    lemma_auto_spec_u64_to_from_le_bytes();
    lemma_auto_spec_u128_to_from_le_bytes();
    let e = encode_node(node);
    assert(e.subrange(0, 4) =~= spec_u32_to_le_bytes(node.spec_tag()));
    assert(e.subrange(4, 8) =~= zeros(4));
    assert(e.subrange(8, 88) =~= encode_body(node.node));
    match node.node {
        NodeBody::Uninitialized => {},
        NodeBody::Inner(inner) => {
            assert(e.subrange(8, 16) =~= spec_u64_to_le_bytes(inner.prefix_len));
            assert(e.subrange(16, 32) =~= spec_u128_to_le_bytes(inner.key));
            assert(e.subrange(32, 36) =~= spec_u32_to_le_bytes(inner.children[0]));
            assert(e.subrange(36, 40) =~= spec_u32_to_le_bytes(inner.children[1]));
            assert(e.subrange(40, 88) =~= zeros(48));
        },
        NodeBody::Leaf(leaf) => {
            assert(leaf.owner@.len() == 32);
            assert(e.subrange(8, 24) =~= spec_u128_to_le_bytes(leaf.key));
            assert(e.subrange(24, 56) =~= leaf.owner@);
            assert(e.subrange(56, 64) =~= spec_u64_to_le_bytes(leaf.quantity));
            assert(e.subrange(64, 72) =~= spec_u64_to_le_bytes(leaf.timestamp as u64));
            assert(e.subrange(73, 88) =~= zeros(15));
        },
        NodeBody::Free(free) => {
            assert(e.subrange(8, 16) =~= spec_u64_to_le_bytes(free.next));
            assert(e.subrange(16, 88) =~= zeros(72));
        },
    }
}

/// Different nodes have different images.
pub proof fn lemma_node_injective(a: AnyNode, b: AnyNode)
    requires
        encode_node(a) == encode_node(b),
    ensures
        a == b,
{
    lemma_auto_spec_u32_to_from_le_bytes();
    lemma_auto_spec_u64_to_from_le_bytes();
    lemma_auto_spec_u128_to_from_le_bytes();
    lemma_node_layout(a);
    lemma_node_layout(b);
    assert(spec_u32_from_le_bytes(spec_u32_to_le_bytes(a.spec_tag())) == spec_u32_from_le_bytes(
        spec_u32_to_le_bytes(b.spec_tag()),
    ));
    assert(a.spec_tag() == b.spec_tag());
    match (a.node, b.node) {
        (NodeBody::Inner(x), NodeBody::Inner(y)) => {
            assert(spec_u64_from_le_bytes(spec_u64_to_le_bytes(x.prefix_len))
                == spec_u64_from_le_bytes(spec_u64_to_le_bytes(y.prefix_len)));
            assert(spec_u128_from_le_bytes(spec_u128_to_le_bytes(x.key))
                == spec_u128_from_le_bytes(spec_u128_to_le_bytes(y.key)));
            assert(spec_u32_from_le_bytes(spec_u32_to_le_bytes(x.children[0]))
                == spec_u32_from_le_bytes(spec_u32_to_le_bytes(y.children[0])));
            assert(spec_u32_from_le_bytes(spec_u32_to_le_bytes(x.children[1]))
                == spec_u32_from_le_bytes(spec_u32_to_le_bytes(y.children[1])));
            assert(x.children =~= y.children);
        },
        (NodeBody::Leaf(x), NodeBody::Leaf(y)) => {
            assert(spec_u128_from_le_bytes(spec_u128_to_le_bytes(x.key))
                == spec_u128_from_le_bytes(spec_u128_to_le_bytes(y.key)));
            assert(spec_u64_from_le_bytes(spec_u64_to_le_bytes(x.quantity))
                == spec_u64_from_le_bytes(spec_u64_to_le_bytes(y.quantity)));
            assert(spec_u64_from_le_bytes(spec_u64_to_le_bytes(x.timestamp as u64))
                == spec_u64_from_le_bytes(spec_u64_to_le_bytes(y.timestamp as u64)));
            assert(x.owner =~= y.owner);
            let s = x.timestamp;
            let t = y.timestamp;
            assert((s as u64) == (t as u64) ==> s == t) by (bit_vector);
        },
        (NodeBody::Free(x), NodeBody::Free(y)) => {
            assert(spec_u64_from_le_bytes(spec_u64_to_le_bytes(x.next)) == spec_u64_from_le_bytes(
                spec_u64_to_le_bytes(y.next),
            ));
        },
        _ => {},
    }
}

/// Reading a node's image gives the node back.
pub proof fn lemma_node_round_trip(node: AnyNode)
    ensures
        decode_node(encode_node(node)) == Some(node),
{
    let back = choose|other: AnyNode| encode_node(other) == encode_node(node);
    lemma_node_injective(back, node);
}

/// Writes `count` zero bytes at the end of `out`.
pub fn put_zeros(out: &mut Vec<u8>, count: usize)
    ensures
        final(out)@ == old(out)@ + zeros(count as nat),
{
    let ghost start = out@;
    let mut i: usize = 0;
    proof {
        assert(out@ =~= start + zeros(0));
    }
    while i < count
        invariant
            i <= count,
            out@ == start + zeros(i as nat),
        decreases count - i,
    {
        out.push(0);
        i += 1;
        assert(out@ =~= start + zeros(i as nat));
    }
}

/// Whether the bytes of `bytes` from `from` up to `to` are zero.
pub fn all_zero(bytes: &[u8], from: usize, to: usize) -> (zero: bool)
    requires
        from <= to <= bytes.len(),
    ensures
        zero == (bytes@.subrange(from as int, to as int) == zeros((to - from) as nat)),
{
    let mut i: usize = from;
    while i < to
        invariant
            from <= i <= to <= bytes.len(),
            forall|j: int| from <= j < i ==> bytes@[j] == 0,
        decreases to - i,
    {
        if bytes[i] != 0 {
            proof {
                assert(bytes@.subrange(from as int, to as int)[i - from] == bytes@[i as int]);
                assert(zeros((to - from) as nat)[i - from] == 0);
            }
            return false;
        }
        i += 1;
    }
    assert(bytes@.subrange(from as int, to as int) =~= zeros((to - from) as nat));
    true
}

/// Writes the image of `node` at the end of `out`.
fn put_node(out: &mut Vec<u8>, node: &AnyNode)
    ensures
        final(out)@ == old(out)@ + encode_node(*node),
{
    let ghost start = out@;
    let mut tag = u32_to_le_bytes(node.tag());
    out.append(&mut tag);
    put_zeros(out, 4);
    match &node.node {
        NodeBody::Uninitialized => {
            put_zeros(out, 80);
        },
        NodeBody::Inner(inner) => {
            let mut prefix = u64_to_le_bytes(inner.prefix_len);
            out.append(&mut prefix);
            let mut key = u128_to_le_bytes(inner.key);
            out.append(&mut key);
            let mut left = u32_to_le_bytes(inner.left());
            out.append(&mut left);
            let mut right = u32_to_le_bytes(inner.right());
            out.append(&mut right);
            put_zeros(out, 48);
        },
        NodeBody::Leaf(leaf) => {
            let mut key = u128_to_le_bytes(leaf.key);
            out.append(&mut key);
            let mut i: usize = 0;
            let ghost before = out@;
            while i < 32
                invariant
                    i <= 32,
                    out@ == before + leaf.owner@.subrange(0, i as int),
                decreases 32 - i,
            {
                out.push(leaf.owner[i]);
                i += 1;
                assert(out@ =~= before + leaf.owner@.subrange(0, i as int));
            }
            assert(leaf.owner@.subrange(0, 32) =~= leaf.owner@);
            let mut quantity = u64_to_le_bytes(leaf.quantity);
            out.append(&mut quantity);
            let mut stamp = u64_to_le_bytes(#[verifier::truncate] (leaf.timestamp as u64));
            out.append(&mut stamp);
            out.push(leaf.fee_tier);
            put_zeros(out, 15);
        },
        NodeBody::Free(free) => {
            let mut next = u64_to_le_bytes(free.next);
            out.append(&mut next);
            put_zeros(out, 72);
        },
    }
    proof {
        assert(out@ =~= start + encode_node(*node));
    }
}

/// Reads the node whose image starts at `at`; `None` when no node has that image.
fn take_node(bytes: &[u8], at: usize) -> (node: Option<AnyNode>)
    requires
        at + 88 <= bytes.len(),
    ensures
        node == decode_node(bytes@.subrange(at as int, at + 88)),
{
    let ghost image = bytes@.subrange(at as int, at + 88);
    let tag: u32 = u32_from_le_bytes(slice_subrange(bytes, at, at + 4));
    let padded: bool = all_zero(bytes, at + 4, at + 8);
    proof {
        lemma_auto_spec_u32_to_from_le_bytes();
        lemma_auto_spec_u64_to_from_le_bytes();
        lemma_auto_spec_u128_to_from_le_bytes();
        assert(image.subrange(0, 4) =~= bytes@.subrange(at as int, at + 4));
        assert(image.subrange(4, 8) =~= bytes@.subrange(at + 4, at + 8));
        assert(image.subrange(8, 16) =~= bytes@.subrange(at + 8, at + 16));
        assert(image.subrange(16, 32) =~= bytes@.subrange(at + 16, at + 32));
        assert(image.subrange(32, 36) =~= bytes@.subrange(at + 32, at + 36));
        assert(image.subrange(36, 40) =~= bytes@.subrange(at + 36, at + 40));
        assert(image.subrange(40, 88) =~= bytes@.subrange(at + 40, at + 88));
        assert(image.subrange(8, 24) =~= bytes@.subrange(at + 8, at + 24));
        assert(image.subrange(24, 56) =~= bytes@.subrange(at + 24, at + 56));
        assert(image.subrange(56, 64) =~= bytes@.subrange(at + 56, at + 64));
        assert(image.subrange(64, 72) =~= bytes@.subrange(at + 64, at + 72));
        assert(image.subrange(73, 88) =~= bytes@.subrange(at + 73, at + 88));
        assert(image.subrange(16, 88) =~= bytes@.subrange(at + 16, at + 88));
        assert(image.subrange(8, 88) =~= bytes@.subrange(at + 8, at + 88));
    }
    let found: Option<AnyNode> = if !padded {
        None
    } else if tag == UNINITIALIZED {
        if all_zero(bytes, at + 8, at + 88) {
            Some(AnyNode { node: NodeBody::Uninitialized })
        } else {
            None
        }
    } else if tag == INNER_NODE {
        if all_zero(bytes, at + 40, at + 88) {
            Some(
                AnyNode {
                    node: NodeBody::Inner(
                        InnerNode {
                            prefix_len: u64_from_le_bytes(slice_subrange(bytes, at + 8, at + 16)),
                            key: u128_from_le_bytes(slice_subrange(bytes, at + 16, at + 32)),
                            children: [
                                u32_from_le_bytes(slice_subrange(bytes, at + 32, at + 36)),
                                u32_from_le_bytes(slice_subrange(bytes, at + 36, at + 40)),
                            ],
                        },
                    ),
                },
            )
        } else {
            None
        }
    } else if tag == LEAF_NODE {
        if all_zero(bytes, at + 73, at + 88) {
            let mut owner: [u8; 32] = [0u8; 32];
            let mut i: usize = 0;
            while i < 32
                invariant
                    i <= 32,
                    at + 88 <= bytes.len(),
                    forall|j: int| 0 <= j < i ==> owner@[j] == bytes@[at + 24 + j],
                decreases 32 - i,
            {
                owner[i] = bytes[at + 24 + i];
                i += 1;
            }
            assert(owner@ =~= bytes@.subrange(at + 24, at + 56));
            let stamp: u64 = u64_from_le_bytes(slice_subrange(bytes, at + 64, at + 72));
            proof {
                assert((stamp as i64) as u64 == stamp) by (bit_vector);
            }
            Some(
                AnyNode {
                    node: NodeBody::Leaf(
                        LeafNode {
                            key: u128_from_le_bytes(slice_subrange(bytes, at + 8, at + 24)),
                            owner,
                            quantity: u64_from_le_bytes(slice_subrange(bytes, at + 56, at + 64)),
                            timestamp: #[verifier::truncate] (stamp as i64),
                            fee_tier: bytes[at + 72],
                        },
                    ),
                },
            )
        } else {
            None
        }
    } else if tag == FREE_NODE {
        if all_zero(bytes, at + 16, at + 88) {
            Some(
                AnyNode {
                    node: NodeBody::Free(
                        FreeNode { next: u64_from_le_bytes(slice_subrange(bytes, at + 8, at + 16)) },
                    ),
                },
            )
        } else {
            None
        }
    } else {
        None
    };
    proof {
        match found {
            Some(node) => {
                lemma_node_layout(node);
                assert(encode_node(node) =~= image);
                lemma_node_round_trip(node);
            },
            None => {
                assert forall|other: AnyNode| encode_node(other) != image by {
                    lemma_node_layout(other);
                    if encode_node(other) == image {
                        assert(spec_u32_from_le_bytes(spec_u32_to_le_bytes(other.spec_tag()))
                            == tag);
                    }
                }
            },
        }
    }
    found
}

impl Slab {
    /// The image of the book.
    pub fn to_bytes(&self) -> (bytes: Vec<u8>)
        ensures
            is_image(bytes@, self.header, self.nodes@),
    {
        let mut out: Vec<u8> = u64_to_le_bytes(self.header.leaf_count);
        let mut bump = u64_to_le_bytes(self.header.bump_index);
        out.append(&mut bump);
        let mut head = u64_to_le_bytes(self.header.free_list_head);
        out.append(&mut head);
        let mut root = u64_to_le_bytes(self.header.root);
        out.append(&mut root);
        proof {
            lemma_auto_spec_u64_to_from_le_bytes();
            assert(out@ =~= encode_header(self.header));
        }
        let mut i: usize = 0;
        while i < self.nodes.len()
            invariant
                i <= self.nodes.len(),
                out@.len() == 32 + 88 * i,
                out@.subrange(0, 32) == encode_header(self.header),
                forall|j: int| 0 <= j < i ==> slot_bytes(out@, j) == encode_node(#[trigger] self.nodes@[j]),
            decreases self.nodes.len() - i,
        {
            let ghost before = out@;
            put_node(&mut out, &self.nodes[i]);
            proof {
                lemma_node_layout(self.nodes@[i as int]);
                assert(out@.subrange(0, 32) =~= before.subrange(0, 32));
                assert forall|j: int| 0 <= j < i + 1 implies slot_bytes(out@, j) == encode_node(
                    #[trigger] self.nodes@[j],
                ) by {
                    if j < i {
                        assert(slot_bytes(out@, j) =~= slot_bytes(before, j));
                    } else {
                        assert(slot_bytes(out@, j) =~= encode_node(self.nodes@[j]));
                    }
                }
            }
            i += 1;
        }
        out
    }

    /// The book whose image `bytes` begin with. The book has as many slots
    /// as `bytes` hold whole; bytes beyond them are not looked at.
    ///
    /// Fails with `InsufficientSpace` when `bytes` are too few for a header,
    /// with `InvalidNodeType` when a slot is the image of no node, and with
    /// `InvalidTree` when the book does not satisfy its invariant.
    pub fn from_bytes(bytes: &[u8]) -> (result: Result<Slab, PerpError>)
        ensures
            match result {
                Ok(slab) => {
                    &&& bytes.len() >= 32
                    &&& slab.nodes.len() == (bytes.len() - 32) / 88
                    &&& is_image(
                        bytes@.take(32 + 88 * slab.nodes.len()),
                        slab.header,
                        slab.nodes@,
                    )
                    &&& slab.wf()
                },
                Err(e) => if bytes.len() < 32 {
                    e == PerpError::InsufficientSpace
                } else if exists|i: int|
                    0 <= i < (bytes.len() - 32) / 88 && decode_node(slot_bytes(bytes@, i))
                        is None {
                    e == PerpError::InvalidNodeType
                } else {
                    &&& e == PerpError::InvalidTree
                    &&& forall|slab: Slab|
                        is_image(
                            bytes@.take(32 + 88 * ((bytes.len() - 32) / 88)),
                            slab.header,
                            slab.nodes@,
                        ) ==> !slab.wf()
                },
            },
    {
        if bytes.len() < SLAB_HEADER_LEN {
            return Err(PerpError::InsufficientSpace);
        }
        let capacity: usize = (bytes.len() - SLAB_HEADER_LEN) / NODE_SIZE;
        let header = SlabHeader {
            leaf_count: u64_from_le_bytes(slice_subrange(bytes, 0, 8)),
            bump_index: u64_from_le_bytes(slice_subrange(bytes, 8, 16)),
            free_list_head: u64_from_le_bytes(slice_subrange(bytes, 16, 24)),
            root: u64_from_le_bytes(slice_subrange(bytes, 24, 32)),
        };
        let ghost image = bytes@.take(32 + 88 * capacity);
        proof {
            lemma_auto_spec_u64_to_from_le_bytes();
            assert(image.subrange(0, 32) =~= encode_header(header));
        }
        let mut nodes: Vec<AnyNode> = Vec::new();
        let mut i: usize = 0;
        while i < capacity
            invariant
                i <= capacity,
                32 + 88 * capacity <= bytes.len(),
                nodes.len() == i,
                forall|j: int|
                    0 <= j < i ==> slot_bytes(bytes@, j) == encode_node(#[trigger] nodes@[j]),
            decreases capacity - i,
        {
            match take_node(bytes, SLAB_HEADER_LEN + NODE_SIZE * i) {
                Some(node) => {
                    proof {
                        assert(decode_node(slot_bytes(bytes@, i as int)) == Some(node));
                        assert(encode_node(node) == slot_bytes(bytes@, i as int));
                    }
                    nodes.push(node);
                },
                None => {
                    return Err(PerpError::InvalidNodeType);
                },
            }
            i += 1;
        }
        let slab = Slab { header, nodes };
        proof {
            assert forall|j: int| 0 <= j < capacity implies slot_bytes(image, j) == encode_node(
                #[trigger] slab.nodes@[j],
            ) by {
                assert(slot_bytes(image, j) =~= slot_bytes(bytes@, j));
            }
            assert forall|j: int| 0 <= j < capacity implies decode_node(slot_bytes(bytes@, j))
                is Some by {
                assert(encode_node(slab.nodes@[j]) == slot_bytes(bytes@, j));
            }
        }
        if !slab.is_well_formed() {
            proof {
                assert forall|other: Slab|
                    is_image(image, other.header, other.nodes@) implies !other.wf() by {
                    lemma_image_injective(image, slab, other);
                    Slab::lemma_wf_of_parts(slab, other);
                }
            }
            return Err(PerpError::InvalidTree);
        }
        Ok(slab)
    }
}

/// Two books with one image have the same header and the same nodes.
pub proof fn lemma_image_injective(bytes: Seq<u8>, a: Slab, b: Slab)
    requires
        is_image(bytes, a.header, a.nodes@),
        is_image(bytes, b.header, b.nodes@),
    ensures
        a.header == b.header,
        a.nodes@ == b.nodes@,
{
    lemma_auto_spec_u64_to_from_le_bytes();
    let x = encode_header(a.header);
    let y = encode_header(b.header);
    assert(x.subrange(0, 8) =~= spec_u64_to_le_bytes(a.header.leaf_count));
    assert(y.subrange(0, 8) =~= spec_u64_to_le_bytes(b.header.leaf_count));
    assert(x.subrange(8, 16) =~= spec_u64_to_le_bytes(a.header.bump_index));
    assert(y.subrange(8, 16) =~= spec_u64_to_le_bytes(b.header.bump_index));
    assert(x.subrange(16, 24) =~= spec_u64_to_le_bytes(a.header.free_list_head));
    assert(y.subrange(16, 24) =~= spec_u64_to_le_bytes(b.header.free_list_head));
    assert(x.subrange(24, 32) =~= spec_u64_to_le_bytes(a.header.root));
    assert(y.subrange(24, 32) =~= spec_u64_to_le_bytes(b.header.root));
    assert(spec_u64_from_le_bytes(spec_u64_to_le_bytes(a.header.leaf_count))
        == spec_u64_from_le_bytes(spec_u64_to_le_bytes(b.header.leaf_count)));
    assert(spec_u64_from_le_bytes(spec_u64_to_le_bytes(a.header.bump_index))
        == spec_u64_from_le_bytes(spec_u64_to_le_bytes(b.header.bump_index)));
    assert(spec_u64_from_le_bytes(spec_u64_to_le_bytes(a.header.free_list_head))
        == spec_u64_from_le_bytes(spec_u64_to_le_bytes(b.header.free_list_head)));
    assert(spec_u64_from_le_bytes(spec_u64_to_le_bytes(a.header.root)) == spec_u64_from_le_bytes(
        spec_u64_to_le_bytes(b.header.root),
    ));
    assert(a.nodes@.len() == b.nodes@.len());
    assert forall|i: int| 0 <= i < a.nodes@.len() implies a.nodes@[i] == b.nodes@[i] by {
        assert(encode_node(a.nodes@[i]) == slot_bytes(bytes, i));
        assert(encode_node(b.nodes@[i]) == slot_bytes(bytes, i));
        lemma_node_injective(a.nodes@[i], b.nodes@[i]);
    }
    assert(a.nodes@ =~= b.nodes@);
}

} // verus!
