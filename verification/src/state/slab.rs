//! The order book: a crit-bit tree of resting orders kept in a fixed pool of slots.

use vstd::prelude::*;

use crate::constants::{
    FREE_NODE, INNER_NODE, INVALID_INDEX, LEAF_NODE, NODE_SIZE, SLAB_HEADER_LEN, UNINITIALIZED,
};
use crate::error::PerpError;
use crate::keybits::{
    bit_at, critical_bit, key_bit, lemma_share_prefix_bits, lemma_share_prefix_shorter,
    lemma_share_prefix_step, share_prefix,
};
use crate::state::tree::{
    below, branch_at, descend, edge_leaf, grafted, insert_spot, is_branch, is_leaf, leaf_at,
    lemma_branch_has_two, lemma_children_in_slots, lemma_descend, lemma_edge_leaf, lemma_graft,
    lemma_insert_spot, lemma_leaf_facts, lemma_leaf_rewritten, lemma_parent_unique, lemma_prune,
    lemma_root_has_no_parent, lemma_slot_count, lemma_top_in_slots, lemma_remove_spot, lemma_sides_disjoint, lemma_slot_facts,
    lemma_subtree_finite, lemma_under_side, lemma_walk_step, pruned, remove_spot, side_anchor,
    slot_key, subtree_leaves, subtree_ok, subtree_slots, walk_continues,
};

verus! {

/// Bookkeeping of a book: how many orders rest in it and where its pools start.
#[derive(Clone, Copy, Debug, PartialEq, Eq)]
pub struct SlabHeader {
    /// Number of resting orders.
    pub leaf_count: u64,
    /// First slot that was never handed out.
    pub bump_index: u64,
    /// First recycled slot, or the invalid index.
    pub free_list_head: u64,
    /// Slot of the tree's root, or the invalid index.
    pub root: u64,
}

impl SlabHeader {
    /// The header of a book with no order and no recycled slot.
    pub fn new() -> (header: Self)
        ensures
            header.leaf_count == 0,
            header.bump_index == 0,
            header.free_list_head == INVALID_INDEX as u64,
            header.root == INVALID_INDEX as u64,
    {
        Self {
            leaf_count: 0,
            bump_index: 0,
            free_list_head: INVALID_INDEX as u64,
            root: INVALID_INDEX as u64,
        }
    }

    /// Whether no order rests in the book.
    pub fn is_empty(&self) -> (empty: bool)
        ensures
            empty == (self.leaf_count == 0),
    {
        self.leaf_count == 0
    }
}

/// A branching node: every key below it shares the first `prefix_len` bits of
/// `key`; keys with a clear bit at `prefix_len` are below `children[0]`, the
/// others below `children[1]`.
#[derive(Clone, Copy, Debug, PartialEq, Eq)]
pub struct InnerNode {
    pub prefix_len: u64,
    pub key: u128,
    pub children: [u32; 2],
}

impl InnerNode {
    /// A branching node with no children yet.
    pub fn new(prefix_len: u64, key: u128) -> (node: Self)
        ensures
            node.prefix_len == prefix_len,
            node.key == key,
            node.children[0] == INVALID_INDEX,
            node.children[1] == INVALID_INDEX,
    {
        Self { prefix_len, key, children: [INVALID_INDEX, INVALID_INDEX] }
    }

    /// The child below which the keys with a clear bit at `prefix_len` are.
    pub fn left(&self) -> (child: u32)
        ensures
            child == self.children[0],
    {
        self.children[0]
    }

    /// The child below which the keys with a set bit at `prefix_len` are.
    pub fn right(&self) -> (child: u32)
        ensures
            child == self.children[1],
    {
        self.children[1]
    }

    /// Makes `child` the left child.
    pub fn set_left(&mut self, child: u32)
        ensures
            final(self).children[0] == child,
            final(self).children[1] == old(self).children[1],
            final(self).prefix_len == old(self).prefix_len,
            final(self).key == old(self).key,
    {
        self.children = [child, self.children[1]];
    }

    /// Makes `child` the right child.
    pub fn set_right(&mut self, child: u32)
        ensures
            final(self).children[0] == old(self).children[0],
            final(self).children[1] == child,
            final(self).prefix_len == old(self).prefix_len,
            final(self).key == old(self).key,
    {
        self.children = [self.children[0], child];
    }

    /// The child on the side of `key`.
    pub open spec fn child_toward(self, key: u128) -> u32 {
        if bit_at(key, self.prefix_len) {
            self.children[1]
        } else {
            self.children[0]
        }
    }

    /// The child on the other side.
    pub open spec fn child_away(self, key: u128) -> u32 {
        if bit_at(key, self.prefix_len) {
            self.children[0]
        } else {
            self.children[1]
        }
    }

    /// The child to follow when looking for `key`: the right one when the bit
    /// of `key` at `prefix_len` is set, the left one otherwise.
    pub fn walk_down(&self, key: u128) -> (child: u32)
        requires
            self.prefix_len < 128,
        ensures
            child == self.child_toward(key),
    {
        if key_bit(key, self.prefix_len) {
            self.children[1]
        } else {
            self.children[0]
        }
    }
}

/// A resting order.
#[derive(Clone, Copy, Debug, PartialEq, Eq)]
pub struct LeafNode {
    /// Price key in the high 64 bits, sequence number in the low 64 bits.
    pub key: u128,
    pub owner: [u8; 32],
    pub quantity: u64,
    pub timestamp: i64,
    pub fee_tier: u8,
}

/// The high half of a key.
pub open spec fn key_price(key: u128) -> u64 {
    (key >> 64u128) as u64
}

/// The low half of a key.
pub open spec fn key_sequence(key: u128) -> u64 {
    (key & 0xFFFF_FFFF_FFFF_FFFFu128) as u64
}

/// The key with `price` as its high half and `sequence` as its low half.
pub open spec fn compose_key(price: u64, sequence: u64) -> u128 {
    ((price as u128) << 64u128) | (sequence as u128)
}

impl LeafNode {
    /// A resting order of `quantity` units under `key`.
    pub fn new(key: u128, owner: [u8; 32], quantity: u64, fee_tier: u8, timestamp: i64) -> (leaf:
        Self)
        ensures
            leaf == (LeafNode { key, owner, quantity, timestamp, fee_tier }),
    {
        Self { key, owner, quantity, timestamp, fee_tier }
    }

    /// The price half of the key.
    pub fn price(&self) -> (price: u64)
        ensures
            price == key_price(self.key),
    {
        let key: u128 = self.key;
        let high: u128 = key >> 64u64;
        assert(high <= 0xFFFF_FFFF_FFFF_FFFFu128) by (bit_vector)
            requires
                high == key >> 64u128,
        ;
        high as u64
    }

    /// The sequence half of the key.
    pub fn sequence_number(&self) -> (sequence: u64)
        ensures
            sequence == key_sequence(self.key),
    {
        let key: u128 = self.key;
        let low: u128 = key & 0xFFFF_FFFF_FFFF_FFFFu128;
        assert(low <= 0xFFFF_FFFF_FFFF_FFFFu128) by (bit_vector)
            requires
                low == key & 0xFFFF_FFFF_FFFF_FFFFu128,
        ;
        low as u64
    }

    /// The key of an order at `price` with sequence number `sequence`.
    pub fn price_key(price: u64, sequence: u64) -> (key: u128)
        ensures
            key == compose_key(price, sequence),
            key_price(key) == price,
            key_sequence(key) == sequence,
    {
        let key: u128 = ((price as u128) << 64u64) | (sequence as u128);
        proof {
            lemma_compose_key(price, sequence);
        }
        key
    }
}

/// Both halves can be read back from a composed key.
pub proof fn lemma_compose_key(price: u64, sequence: u64)
    ensures
        key_price(compose_key(price, sequence)) == price,
        key_sequence(compose_key(price, sequence)) == sequence,
{
    let p: u128 = price as u128;
    let s: u128 = sequence as u128;
    let key: u128 = (p << 64u128) | s;
    assert((key >> 64u128) == p && (key & 0xFFFF_FFFF_FFFF_FFFFu128) == s) by (bit_vector)
        requires
            key == (p << 64u128) | s,
            p <= 0xFFFF_FFFF_FFFF_FFFFu128,
            s <= 0xFFFF_FFFF_FFFF_FFFFu128,
    ;
}

/// A slot of the free list.
#[derive(Clone, Copy, Debug, PartialEq, Eq)]
pub struct FreeNode {
    /// The next recycled slot, or the invalid index at the end of the list.
    pub next: u64,
}

impl FreeNode {
    /// A free slot that is followed by slot `next` in the free list.
    pub fn new(next: u64) -> (node: Self)
        ensures
            node.next == next,
    {
        Self { next }
    }
}

/// What a slot holds.
#[derive(Clone, Copy, Debug, PartialEq, Eq)]
pub enum NodeBody {
    Uninitialized,
    Inner(InnerNode),
    Leaf(LeafNode),
    Free(FreeNode),
}

/// One slot of the pool.
#[derive(Clone, Copy, Debug, PartialEq, Eq)]
pub struct AnyNode {
    pub node: NodeBody,
}

impl AnyNode {
    /// The tag that tells what the slot holds.
    pub open spec fn spec_tag(&self) -> u32 {
        match self.node {
            NodeBody::Uninitialized => UNINITIALIZED,
            NodeBody::Inner(_) => INNER_NODE,
            NodeBody::Leaf(_) => LEAF_NODE,
            NodeBody::Free(_) => FREE_NODE,
        }
    }

    /// The tag that tells what the slot holds.
    #[verifier::when_used_as_spec(spec_tag)]
    pub fn tag(&self) -> (tag: u32)
        ensures
            tag == self.spec_tag(),
    {
        match self.node {
            NodeBody::Uninitialized => UNINITIALIZED,
            NodeBody::Inner(_) => INNER_NODE,
            NodeBody::Leaf(_) => LEAF_NODE,
            NodeBody::Free(_) => FREE_NODE,
        }
    }

    /// The branching node in a slot that holds one.
    pub fn as_inner(&self) -> (inner: &InnerNode)
        requires
            self.tag() == INNER_NODE,
        ensures
            self.node == NodeBody::Inner(*inner),
    {
        match &self.node {
            NodeBody::Inner(inner) => inner,
            _ => vstd::pervasive::unreached(),
        }
    }

    /// The order in a slot that holds one.
    pub fn as_leaf(&self) -> (leaf: &LeafNode)
        requires
            self.tag() == LEAF_NODE,
        ensures
            self.node == NodeBody::Leaf(*leaf),
    {
        match &self.node {
            NodeBody::Leaf(leaf) => leaf,
            _ => vstd::pervasive::unreached(),
        }
    }

    /// The link in a slot of the free list.
    pub fn as_free(&self) -> (free: &FreeNode)
        requires
            self.tag() == FREE_NODE,
        ensures
            self.node == NodeBody::Free(*free),
    {
        match &self.node {
            NodeBody::Free(free) => free,
            _ => vstd::pervasive::unreached(),
        }
    }

    /// The branching node in a slot that holds one, to be changed in place.
    pub fn as_inner_mut(&mut self) -> (inner: &mut InnerNode)
        requires
            old(self).tag() == INNER_NODE,
        ensures
            old(self).node == NodeBody::Inner(*inner),
            final(self).node == NodeBody::Inner(*final(inner)),
    {
        match &mut self.node {
            NodeBody::Inner(inner) => inner,
            _ => vstd::pervasive::unreached(),
        }
    }

    /// The order in a slot that holds one, to be changed in place.
    pub fn as_leaf_mut(&mut self) -> (leaf: &mut LeafNode)
        requires
            old(self).tag() == LEAF_NODE,
        ensures
            old(self).node == NodeBody::Leaf(*leaf),
            final(self).node == NodeBody::Leaf(*final(leaf)),
    {
        match &mut self.node {
            NodeBody::Leaf(leaf) => leaf,
            _ => vstd::pervasive::unreached(),
        }
    }

    /// The link in a slot of the free list, to be changed in place.
    pub fn as_free_mut(&mut self) -> (free: &mut FreeNode)
        requires
            old(self).tag() == FREE_NODE,
        ensures
            old(self).node == NodeBody::Free(*free),
            final(self).node == NodeBody::Free(*final(free)),
    {
        match &mut self.node {
            NodeBody::Free(free) => free,
            _ => vstd::pervasive::unreached(),
        }
    }
}

/// Whether `chain` lists the recycled slots in the order in which they are
/// linked, starting at `head`.
pub open spec fn free_chain(nodes: Seq<AnyNode>, head: u64, chain: Seq<int>) -> bool {
    &&& head == if chain.len() > 0 {
        chain[0]
    } else {
        INVALID_INDEX as int
    }
    &&& forall|i: int|
        0 <= i < chain.len() ==> {
            &&& 0 <= #[trigger] chain[i] < nodes.len()
            &&& nodes[chain[i]].node is Free
            &&& nodes[chain[i]].node->Free_0.next == if i + 1 < chain.len() {
                chain[i + 1]
            } else {
                INVALID_INDEX as int
            }
        }
    &&& chain.no_duplicates()
}

/// The chain that starts at the slot after the first one.
pub proof fn lemma_chain_tail(nodes: Seq<AnyNode>, head: u64, chain: Seq<int>)
    requires
        free_chain(nodes, head, chain),
        chain.len() > 0,
    ensures
        free_chain(nodes, nodes[chain[0]].node->Free_0.next, chain.drop_first()),
        !chain.drop_first().contains(chain[0]),
{
    let tail = chain.drop_first();
    assert forall|i: int| 0 <= i < tail.len() implies {
        &&& 0 <= #[trigger] tail[i] < nodes.len()
        &&& nodes[tail[i]].node is Free
        &&& nodes[tail[i]].node->Free_0.next == if i + 1 < tail.len() {
            tail[i + 1]
        } else {
            INVALID_INDEX as int
        }
    } by {
        assert(tail[i] == chain[i + 1]);
    }
    assert(nodes[chain[0]].node->Free_0.next == if tail.len() > 0 {
        tail[0]
    } else {
        INVALID_INDEX as int
    });
}

/// At most one chain starts at a given head.
pub proof fn lemma_chain_unique(nodes: Seq<AnyNode>, head: u64, a: Seq<int>, b: Seq<int>)
    requires
        nodes.len() <= INVALID_INDEX,
        free_chain(nodes, head, a),
        free_chain(nodes, head, b),
    ensures
        a == b,
    decreases a.len(),
{
    if a.len() == 0 {
        if b.len() > 0 {
            assert(0 <= b[0] < nodes.len());
        }
        assert(a =~= b);
    } else {
        assert(0 <= a[0] < nodes.len());
        if b.len() == 0 {
            assert(false);
        }
        lemma_chain_tail(nodes, head, a);
        lemma_chain_tail(nodes, head, b);
        lemma_chain_unique(
            nodes,
            nodes[a[0]].node->Free_0.next,
            a.drop_first(),
            b.drop_first(),
        );
        assert(a =~= seq![a[0]] + a.drop_first());
        assert(b =~= seq![b[0]] + b.drop_first());
    }
}

/// A chain depends only on its own slots.
pub proof fn lemma_chain_frame(
    nodes: Seq<AnyNode>,
    other: Seq<AnyNode>,
    head: u64,
    chain: Seq<int>,
)
    requires
        free_chain(nodes, head, chain),
        other.len() == nodes.len(),
        forall|i: int| 0 <= i < chain.len() ==> other[#[trigger] chain[i]] == nodes[chain[i]],
    ensures
        free_chain(other, head, chain),
{
}

/// Putting a slot in front of a chain gives a chain.
pub proof fn lemma_chain_push(nodes: Seq<AnyNode>, head: u64, chain: Seq<int>, slot: int)
    requires
        free_chain(nodes, head, chain),
        0 <= slot < nodes.len(),
        slot < INVALID_INDEX,
        !chain.contains(slot),
    ensures
        free_chain(
            nodes.update(slot, AnyNode { node: NodeBody::Free(FreeNode { next: head }) }),
            slot as u64,
            seq![slot] + chain,
        ),
{
    let after = nodes.update(slot, AnyNode { node: NodeBody::Free(FreeNode { next: head }) });
    let longer = seq![slot] + chain;
    assert forall|i: int| 0 <= i < longer.len() implies {
        &&& 0 <= #[trigger] longer[i] < after.len()
        &&& after[longer[i]].node is Free
        &&& after[longer[i]].node->Free_0.next == if i + 1 < longer.len() {
            longer[i + 1]
        } else {
            INVALID_INDEX as int
        }
    } by {
        if i > 0 {
            assert(longer[i] == chain[i - 1]);
            assert(chain.contains(chain[i - 1]));
            if i + 1 < longer.len() {
                assert(longer[i + 1] == chain[i]);
            }
        } else {
            if chain.len() > 0 {
                assert(longer[1] == chain[0]);
            }
        }
    }
    assert forall|i: int, j: int| 0 <= i < longer.len() && 0 <= j < longer.len() && i
        != j implies longer[i] != longer[j] by {
        if i > 0 {
            assert(longer[i] == chain[i - 1]);
            assert(chain.contains(chain[i - 1]));
        }
        if j > 0 {
            assert(longer[j] == chain[j - 1]);
            assert(chain.contains(chain[j - 1]));
        }
    }
}

/// A book: its header and its pool of slots.
pub struct Slab {
    pub header: SlabHeader,
    pub nodes: Vec<AnyNode>,
}

impl View for Slab {
    type V = Map<u128, LeafNode>;

    /// The resting orders by key.
    open spec fn view(&self) -> Map<u128, LeafNode> {
        Map::new(
            |key: u128| self.slot_map().contains_key(key),
            |key: u128| leaf_at(self.nodes@, self.slot_map()[key]),
        )
    }
}

impl Slab {
    /// The slot of each resting order, by key.
    pub open spec fn slot_map(&self) -> Map<u128, u32> {
        if self.header.root == INVALID_INDEX as u64 {
            Map::empty()
        } else {
            subtree_leaves(self.nodes@, self.header.root as u32, 0)
        }
    }

    /// The slots that make up the tree.
    pub open spec fn tree_slots(&self) -> Set<int> {
        if self.header.root == INVALID_INDEX as u64 {
            Set::empty()
        } else {
            subtree_slots(self.nodes@, self.header.root as u32, 0)
        }
    }

    /// The recycled slots, first to be handed out first.
    pub open spec fn free_list(&self) -> Seq<int> {
        choose|chain: Seq<int>| free_chain(self.nodes@, self.header.free_list_head, chain)
    }

    /// Whether slot `slot` was never handed out.
    pub open spec fn never_used(&self, slot: int) -> bool {
        self.header.bump_index <= slot < self.nodes.len()
    }

    /// Whether slot `slot` is in exactly one of the tree, the free list and
    /// the never-used range.
    pub open spec fn slot_accounted(&self, slot: int) -> bool {
        let in_tree = self.tree_slots().contains(slot);
        let in_list = self.free_list().contains(slot);
        let unused = self.never_used(slot);
        &&& in_tree || in_list || unused
        &&& !(in_tree && in_list)
        &&& !(in_tree && unused)
        &&& !(in_list && unused)
    }

    /// What the invariant of a book says: the tree is a crit-bit tree, the
    /// header counts its leaves, the free list is a chain of free slots, and
    /// every slot of the pool has exactly one role.
    pub open spec fn well_formed(&self) -> bool {
        &&& self.nodes.len() < INVALID_INDEX
        &&& self.header.bump_index <= self.nodes.len()
        &&& self.header.root != INVALID_INDEX as u64 ==> {
            &&& self.header.root < self.nodes.len()
            &&& subtree_ok(self.nodes@, self.header.root as u32, 0, 0)
        }
        &&& self.header.leaf_count == self.slot_map().len()
        &&& free_chain(self.nodes@, self.header.free_list_head, self.free_list())
        &&& forall|slot: int| 0 <= slot < self.nodes.len() ==> #[trigger] self.slot_accounted(slot)
        &&& forall|slot: int| #[trigger]
            self.never_used(slot) ==> self.nodes[slot].node is Uninitialized
    }

    /// The invariant of a book, kept folded outside this file so that it does
    /// not weigh on every proof that only hands a book on.
    pub closed spec fn wf(&self) -> bool {
        self.well_formed()
    }

    /// The invariant speaks of the header and of the nodes alone.
    pub proof fn lemma_wf_of_parts(a: Slab, b: Slab)
        requires
            a.header == b.header,
            a.nodes@ == b.nodes@,
        ensures
            a.wf() == b.wf(),
    {
        assert(a.free_list() == b.free_list());
        assert(a.tree_slots() == b.tree_slots());
        assert(a.slot_map() == b.slot_map());
        assert forall|slot: int| a.slot_accounted(slot) == b.slot_accounted(slot) by {}
        assert forall|slot: int| a.never_used(slot) == b.never_used(slot) by {}
    }

    /// `wf` is `well_formed`.
    pub proof fn lemma_wf(&self)
        ensures
            self.wf() == self.well_formed(),
    {
    }

    /// Whether `after` is `before` with `leaf` put in at slot `index`: into
    /// an empty book as its root; else under a new branching node that takes
    /// the place of one slot of the tree, which becomes the leaf's sibling.
    /// No other slot of the tree is touched.
    pub open spec fn inserted(before: Slab, after: Slab, leaf: LeafNode, index: u32) -> bool {
        &&& after.nodes.len() == before.nodes.len()
        &&& (index as int) < before.nodes.len()
        &&& !before.tree_slots().contains(index as int)
        &&& after.nodes@[index as int].node == NodeBody::Leaf(leaf)
        &&& if before.header.root == INVALID_INDEX as u64 {
            &&& after.header.root == index as u64
            &&& after.tree_slots() == set![index as int]
        } else {
            exists|parent: u32, spot: u32, inner_slot: u32, crit: u64|
                {
                    &&& #[trigger] grafted(
                        before.nodes@,
                        after.nodes@,
                        parent,
                        spot,
                        index,
                        inner_slot,
                        leaf,
                        crit,
                    )
                    &&& !before.tree_slots().contains(inner_slot as int)
                    &&& before.tree_slots().contains(spot as int)
                    &&& after.tree_slots() == before.tree_slots().insert(index as int).insert(
                        inner_slot as int,
                    )
                    &&& if parent == INVALID_INDEX {
                        &&& spot as u64 == before.header.root
                        &&& after.header.root == inner_slot as u64
                    } else {
                        &&& before.tree_slots().contains(parent as int)
                        &&& branch_at(before.nodes@, parent).child_toward(leaf.key) == spot
                        &&& after.header.root == before.header.root
                    }
                }
        }
    }

    /// Whether `after` is `before` with the order in slot `index` taken out:
    /// out of a book that held it alone, or else together with the branching
    /// node above it, whose place the order's sibling takes. No other slot of
    /// the tree is touched.
    pub open spec fn removed(before: Slab, after: Slab, index: u32) -> bool {
        let key = leaf_at(before.nodes@, index).key;
        &&& after.nodes.len() == before.nodes.len()
        &&& is_leaf(before.nodes@, index)
        &&& if before.header.root == index as u64 {
            &&& after.header.root == INVALID_INDEX as u64
            &&& after.tree_slots() == Set::<int>::empty()
        } else {
            exists|grand: u32, parent: u32, sibling: u32|
                {
                    &&& #[trigger] pruned(
                        before.nodes@,
                        after.nodes@,
                        grand,
                        parent,
                        index,
                        sibling,
                        key,
                    )
                    &&& before.tree_slots().contains(parent as int)
                    &&& before.nodes@[parent as int].node is Inner
                    &&& branch_at(before.nodes@, parent).child_toward(key) == index
                    &&& branch_at(before.nodes@, parent).child_away(key) == sibling
                    &&& after.tree_slots() == before.tree_slots().remove(index as int).remove(
                        parent as int,
                    )
                    &&& if grand == INVALID_INDEX {
                        &&& parent as u64 == before.header.root
                        &&& after.header.root == sibling as u64
                    } else {
                        &&& before.tree_slots().contains(grand as int)
                        &&& before.nodes@[grand as int].node is Inner
                        &&& branch_at(before.nodes@, grand).child_toward(key) == parent
                        &&& after.header.root == before.header.root
                    }
                }
        }
    }

    /// Whether `after` has `count` spare slots fewer than `before`, handed
    /// out as slots are: from the head of the free list as far as it goes,
    /// then never-used slots in rising order. `first` is the first of them.
    pub open spec fn handed_out(before: Slab, after: Slab, first: u32, count: nat) -> bool {
        let listed = if count <= before.free_list().len() {
            count
        } else {
            before.free_list().len()
        };
        &&& after.free_list() == before.free_list().skip(listed as int)
        &&& after.header.bump_index == before.header.bump_index + count - listed
        &&& first == if before.free_list().len() > 0 {
            before.free_list()[0]
        } else {
            before.header.bump_index as int
        }
    }

    /// Whether `after` has `count` spare slots more than `before`, taken back
    /// as slots are: each put in front of the free list, `first` before the
    /// others.
    pub open spec fn taken_back(before: Slab, after: Slab, first: u32, count: nat) -> bool {
        &&& after.free_list().len() == before.free_list().len() + count
        &&& after.free_list().skip(count as int) == before.free_list()
        &&& after.free_list()[count - 1] == first
        &&& after.header.bump_index == before.header.bump_index
    }

    /// Number of slots that can still be handed out.
    pub open spec fn spare_slots(&self) -> int {
        self.free_list().len() + self.nodes.len() - self.header.bump_index
    }

    /// The free list is the one chain that starts at the header's head.
    pub proof fn lemma_free_list_is(&self, chain: Seq<int>)
        requires
            self.nodes.len() <= INVALID_INDEX,
            free_chain(self.nodes@, self.header.free_list_head, chain),
        ensures
            self.free_list() == chain,
    {
        lemma_chain_unique(self.nodes@, self.header.free_list_head, self.free_list(), chain);
    }

    /// A book of `capacity` slots, all of them free and linked in rising
    /// order, for which `space` bytes of storage are at hand.
    ///
    /// Fails with `InsufficientSpace` when the book takes more bytes than that.
    pub fn initialize(space: usize, capacity: usize) -> (result: Result<Slab, PerpError>)
        requires
            capacity < INVALID_INDEX,
        ensures
            result is Err <==> space < SLAB_HEADER_LEN + capacity * NODE_SIZE,
            result matches Err(e) ==> e == PerpError::InsufficientSpace,
            result matches Ok(slab) ==> {
                &&& slab.wf()
                &&& slab@ == Map::<u128, LeafNode>::empty()
                &&& slab.nodes.len() == capacity
                &&& slab.header.leaf_count == 0
                &&& slab.header.bump_index == capacity
                &&& slab.header.root == INVALID_INDEX as u64
                &&& slab.free_list() == Seq::new(capacity as nat, |i: int| i)
            },
    {
        assert(capacity * NODE_SIZE <= 0xFFFF_FFFF * 88) by (nonlinear_arith)
            requires
                capacity <= 0xFFFF_FFFF,
                NODE_SIZE == 88,
        ;
        let needed: u64 = SLAB_HEADER_LEN as u64 + (capacity as u64) * (NODE_SIZE as u64);
        if (space as u64) < needed {
            return Err(PerpError::InsufficientSpace);
        }
        Ok(Self::with_capacity(capacity))
    }

    /// A book of `capacity` slots, all of them free and linked in rising order.
    pub fn with_capacity(capacity: usize) -> (slab: Slab)
        requires
            capacity < INVALID_INDEX,
        ensures
            slab.wf(),
            slab@ == Map::<u128, LeafNode>::empty(),
            slab.nodes.len() == capacity,
            slab.header.leaf_count == 0,
            slab.header.bump_index == capacity,
            slab.header.root == INVALID_INDEX as u64,
            slab.free_list() == Seq::new(capacity as nat, |i: int| i),
    {
        let mut nodes: Vec<AnyNode> = Vec::new();
        let mut i: usize = 0;
        while i < capacity
            invariant
                i <= capacity,
                capacity < INVALID_INDEX,
                nodes.len() == i,
                forall|j: int|
                    0 <= j < i ==> (#[trigger] nodes[j]).node == NodeBody::Free(
                        FreeNode {
                            next: if j + 1 < capacity {
                                (j + 1) as u64
                            } else {
                                INVALID_INDEX as u64
                            },
                        },
                    ),
            decreases capacity - i,
        {
            let next: u64 = if i + 1 < capacity {
                (i + 1) as u64
            } else {
                INVALID_INDEX as u64
            };
            nodes.push(AnyNode { node: NodeBody::Free(FreeNode::new(next)) });
            i += 1;
        }
        let mut header = SlabHeader::new();
        header.bump_index = capacity as u64;
        header.free_list_head = if capacity > 0 {
            0
        } else {
            INVALID_INDEX as u64
        };
        let slab = Slab { header, nodes };
        proof {
            let chain = Seq::new(capacity as nat, |i: int| i);
            assert(free_chain(slab.nodes@, slab.header.free_list_head, chain));
            slab.lemma_free_list_is(chain);
            assert forall|slot: int| 0 <= slot < slab.nodes.len() implies #[trigger]
                slab.slot_accounted(slot) by {
                assert(chain[slot] == slot);
            }
            assert(slab.slot_map().dom() =~= Set::empty());
            assert(slab@ =~= Map::<u128, LeafNode>::empty());
        }
        slab
    }

    /// The part of the invariant that handing out and taking back slots rests on.
    pub open spec fn pools_ok(&self) -> bool {
        &&& self.nodes.len() < INVALID_INDEX
        &&& self.header.bump_index <= self.nodes.len()
        &&& free_chain(self.nodes@, self.header.free_list_head, self.free_list())
        &&& forall|slot: int|
            !(#[trigger] self.free_list().contains(slot) && self.never_used(slot))
    }

    /// The number of slots that a book of up to `orders` orders takes.
    pub open spec fn slots_for_orders(orders: int) -> int {
        if orders <= 0 {
            0
        } else {
            2 * orders - 1
        }
    }

    /// The number of slots that a book of up to `orders` orders takes: a
    /// book of that many slots has room for its last order, and for no more.
    pub fn slots_for(orders: usize) -> (slots: usize)
        requires
            2 * orders <= usize::MAX,
        ensures
            slots == Self::slots_for_orders(orders as int),
            orders > 0 ==> 2 * (orders - 1) + 1 <= slots,
            2 * orders + 1 > slots,
    {
        if orders == 0 {
            0
        } else {
            2 * orders - 1
        }
    }

    /// Whether the pool can take one more order: a tree of `n` orders takes
    /// `2n - 1` slots, and one of `n + 1` orders must fit.
    pub open spec fn has_room(&self) -> bool {
        2 * self.header.leaf_count + 1 <= self.nodes.len()
    }

    /// The slots that cannot be handed out are those of the tree, of which
    /// a book of `n` orders has `2n - 1`.
    pub proof fn lemma_room(&self)
        requires
            self.wf(),
        ensures
            self.tree_slots().finite(),
            self.spare_slots() == self.nodes.len() - self.tree_slots().len(),
            self.tree_slots().len() == if self.header.leaf_count == 0 {
                0int
            } else {
                2 * self.header.leaf_count - 1
            },
    {
        let len = self.nodes.len() as int;
        let tree = self.tree_slots();
        let chain = self.free_list();
        let listed = chain.to_set();
        let unused = vstd::set_lib::set_int_range(self.header.bump_index as int, len);
        let all = vstd::set_lib::set_int_range(0, len);
        if self.header.root != INVALID_INDEX as u64 {
            lemma_slot_count(self.nodes@, self.header.root as u32, 0, 0);
            lemma_subtree_finite(self.nodes@, self.header.root as u32, 0, 0);
            assert forall|slot: int| tree.contains(slot) implies 0 <= slot < len by {
                lemma_slot_facts(self.nodes@, self.header.root as u32, 0, 0, slot);
            }
        } else {
            assert(self.slot_map().dom() =~= Set::empty());
        }
        chain.unique_seq_to_set();
        vstd::set_lib::lemma_int_range(self.header.bump_index as int, len);
        vstd::set_lib::lemma_int_range(0, len);
        assert forall|slot: int| listed.contains(slot) implies 0 <= slot < len by {
            let i = choose|i: int| 0 <= i < chain.len() && chain[i] == slot;
            assert(0 <= chain[i] < len);
        }
        assert forall|slot: int| all.contains(slot) implies (tree + listed + unused).contains(
            slot,
        ) by {
            assert(self.slot_accounted(slot));
        }
        assert(all =~= tree + listed + unused);
        assert forall|slot: int| tree.contains(slot) implies !listed.contains(slot)
            && !unused.contains(slot) by {
            assert(self.slot_accounted(slot));
        }
        assert forall|slot: int| listed.contains(slot) implies !unused.contains(slot) by {
            assert(self.slot_accounted(slot));
        }
        assert(tree.disjoint(listed));
        assert((tree + listed).disjoint(unused));
        vstd::set_lib::lemma_set_disjoint_lens(tree, listed);
        vstd::set_lib::lemma_set_disjoint_lens(tree + listed, unused);
    }

    /// Whether at least `needed` slots can still be handed out.
    fn has_spare(&self, needed: u64) -> (enough: bool)
        requires
            self.pools_ok(),
            1 <= needed <= 2,
        ensures
            enough == (self.spare_slots() >= needed),
    {
        let unused: u64 = self.nodes.len() as u64 - self.header.bump_index;
        let head: u64 = self.header.free_list_head;
        let ghost chain = self.free_list();
        let listed: u64 = if head == INVALID_INDEX as u64 {
            0
        } else {
            assert(chain.len() > 0 && head == chain[0]) by {
                if chain.len() == 0 {
                    assert(false);
                }
            }
            let next: u64 = self.nodes[head as usize].as_free().next;
            proof {
                if chain.len() > 1 {
                    assert(0 <= chain[1] < self.nodes.len());
                }
            }
            if next == INVALID_INDEX as u64 {
                1
            } else {
                2
            }
        };
        proof {
            if chain.len() > 0 {
                assert(0 <= chain[0] < self.nodes.len());
            }
        }
        listed + unused >= needed
    }

    /// Hands out a slot: the head of the free list if there is one, the first
    /// never-used slot otherwise.
    fn allocate_node(&mut self) -> (index: u32)
        requires
            old(self).pools_ok(),
            old(self).spare_slots() >= 1,
        ensures
            final(self).pools_ok(),
            final(self).nodes@ == old(self).nodes@,
            final(self).header.root == old(self).header.root,
            final(self).header.leaf_count == old(self).header.leaf_count,
            (index as int) < old(self).nodes.len(),
            old(self).free_list().contains(index as int) || old(self).never_used(index as int),
            final(self).spare_slots() == old(self).spare_slots() - 1,
            forall|slot: int|
                final(self).free_list().contains(slot) <==> (old(self).free_list().contains(slot)
                    && slot != index),
            forall|slot: int|
                final(self).never_used(slot) <==> (old(self).never_used(slot) && slot != index),
            if old(self).free_list().len() > 0 {
                &&& index == old(self).free_list()[0]
                &&& final(self).free_list() == old(self).free_list().skip(1)
                &&& final(self).header.bump_index == old(self).header.bump_index
            } else {
                &&& index == old(self).header.bump_index
                &&& final(self).free_list() == old(self).free_list()
                &&& final(self).header.bump_index == old(self).header.bump_index + 1
            },
    {
        let ghost chain = self.free_list();
        let ghost before = *self;
        if self.header.free_list_head != INVALID_INDEX as u64 {
            assert(chain.len() > 0) by {
                if chain.len() == 0 {
                    assert(false);
                }
            }
            assert(0 <= chain[0] < self.nodes.len());
            let index: u32 = self.header.free_list_head as u32;
            let next: u64 = self.nodes[index as usize].as_free().next;
            self.header.free_list_head = next;
            proof {
                lemma_chain_tail(before.nodes@, before.header.free_list_head, chain);
                self.lemma_free_list_is(chain.drop_first());
                let tail = chain.drop_first();
                assert(tail =~= chain.skip(1));
                assert forall|slot: int| tail.contains(slot) <==> (chain.contains(slot) && slot
                    != index) by {
                    if tail.contains(slot) {
                        let i = choose|i: int| 0 <= i < tail.len() && tail[i] == slot;
                        assert(chain[i + 1] == slot);
                    }
                    if chain.contains(slot) && slot != index {
                        let i = choose|i: int| 0 <= i < chain.len() && chain[i] == slot;
                        assert(tail[i - 1] == slot);
                    }
                }
                assert(chain.contains(chain[0]));
            }
            index
        } else {
            assert(chain.len() == 0) by {
                if chain.len() > 0 {
                    assert(0 <= chain[0] < self.nodes.len());
                }
            }
            let index: u32 = self.header.bump_index as u32;
            self.header.bump_index = self.header.bump_index + 1;
            proof {
                self.lemma_free_list_is(chain);
            }
            index
        }
    }

    /// Takes a slot back: links it in front of the free list.
    fn free_node(&mut self, index: u32)
        requires
            old(self).nodes.len() < INVALID_INDEX,
            (index as int) < old(self).nodes.len(),
            free_chain(
                old(self).nodes@,
                old(self).header.free_list_head,
                old(self).free_list(),
            ),
            !old(self).free_list().contains(index as int),
        ensures
            final(self).nodes@ == old(self).nodes@.update(
                index as int,
                AnyNode {
                    node: NodeBody::Free(FreeNode { next: old(self).header.free_list_head }),
                },
            ),
            final(self).header == (SlabHeader {
                free_list_head: index as u64,
                ..old(self).header
            }),
            final(self).free_list() == seq![index as int] + old(self).free_list(),
            free_chain(
                final(self).nodes@,
                final(self).header.free_list_head,
                final(self).free_list(),
            ),
            forall|slot: int|
                final(self).free_list().contains(slot) <==> (old(self).free_list().contains(slot)
                    || slot == index),
    {
        let ghost chain = self.free_list();
        let ghost head = self.header.free_list_head;
        let ghost before = self.nodes@;
        self.nodes[index as usize] = AnyNode {
            node: NodeBody::Free(FreeNode::new(self.header.free_list_head)),
        };
        self.header.free_list_head = index as u64;
        proof {
            lemma_chain_push(before, head, chain, index as int);
            let longer = seq![index as int] + chain;
            self.lemma_free_list_is(longer);
            assert forall|slot: int| longer.contains(slot) <==> (chain.contains(slot) || slot
                == index) by {
                if longer.contains(slot) {
                    let i = choose|i: int| 0 <= i < longer.len() && longer[i] == slot;
                    if i >= 1 {
                        assert(chain[i - 1] == slot);
                    }
                }
                if chain.contains(slot) {
                    let i = choose|i: int| 0 <= i < chain.len() && chain[i] == slot;
                    assert(longer[i + 1] == slot);
                }
                assert(longer[0] == index);
            }
        }
    }

    /// Bytes that a book of `capacity` slots takes in persistent storage.
    pub fn compute_allocation_size(capacity: usize) -> (size: usize)
        requires
            SLAB_HEADER_LEN + capacity * NODE_SIZE <= usize::MAX,
        ensures
            size == SLAB_HEADER_LEN + capacity * NODE_SIZE,
    {
        SLAB_HEADER_LEN + capacity * NODE_SIZE
    }

    /// Number of slots in the pool.
    pub fn capacity(&self) -> (capacity: usize)
        ensures
            capacity == self.nodes.len(),
    {
        self.nodes.len()
    }

    /// Grafting a leaf into a well-formed book, on slots that were free or
    /// never used, leaves a well-formed book that holds one more order.
    proof fn lemma_insert_keeps_wf(
        before: Slab,
        taken: Slab,
        after: Slab,
        parent: u32,
        spot: u32,
        leaf_slot: u32,
        inner_slot: u32,
        leaf: LeafNode,
        crit: u64,
    )
        requires
            before.wf(),
            before.header.root != INVALID_INDEX as u64,
            insert_spot(before.nodes@, INVALID_INDEX, before.header.root as u32, 0, leaf.key) == (
                parent,
                spot,
            ),
            crit < 128,
            share_prefix(leaf.key, slot_key(before.nodes@[spot as int]), crit),
            bit_at(leaf.key, crit) != bit_at(slot_key(before.nodes@[spot as int]), crit),
            before.nodes@[spot as int].node is Inner ==> crit < branch_at(
                before.nodes@,
                spot,
            ).prefix_len,
            taken.pools_ok(),
            taken.nodes@ == before.nodes@,
            before.free_list().contains(leaf_slot as int) || before.never_used(leaf_slot as int),
            before.free_list().contains(inner_slot as int) || before.never_used(inner_slot as int),
            forall|slot: int|
                taken.free_list().contains(slot) <==> (before.free_list().contains(slot) && slot
                    != leaf_slot && slot != inner_slot),
            forall|slot: int|
                taken.never_used(slot) <==> (before.never_used(slot) && slot != leaf_slot && slot
                    != inner_slot),
            grafted(before.nodes@, after.nodes@, parent, spot, leaf_slot, inner_slot, leaf, crit),
            after.header.free_list_head == taken.header.free_list_head,
            after.header.bump_index == taken.header.bump_index,
            after.header.leaf_count == before.header.leaf_count + 1,
            after.header.root == if parent == INVALID_INDEX {
                inner_slot as u64
            } else {
                before.header.root
            },
        ensures
            after.wf(),
            !before@.contains_key(leaf.key),
            after.slot_map() == before.slot_map().insert(leaf.key, leaf_slot),
            after@ == before@.insert(leaf.key, leaf),
            !before.tree_slots().contains(leaf_slot as int),
            after.free_list() == taken.free_list(),
            Self::inserted(before, after, leaf, leaf_slot),
    {
        let root = before.header.root as u32;
        let old_nodes = before.nodes@;
        let new_nodes = after.nodes@;
        assert(before.slot_accounted(leaf_slot as int));
        assert(before.slot_accounted(inner_slot as int));
        lemma_insert_spot(old_nodes, INVALID_INDEX, root, 0, 0, leaf.key);
        if subtree_slots(old_nodes, root, 0).contains(INVALID_INDEX as int) {
            lemma_slot_facts(old_nodes, root, 0, 0, INVALID_INDEX as int);
        }
        lemma_graft(
            old_nodes,
            new_nodes,
            root,
            0,
            0,
            INVALID_INDEX,
            parent,
            spot,
            leaf_slot,
            inner_slot,
            leaf,
            crit,
        );
        assert(spot == root <==> parent == INVALID_INDEX);
        assert(after.header.root as u32 == if root == spot {
            inner_slot
        } else {
            root
        });
        lemma_subtree_finite(old_nodes, root, 0, 0);
        // The free list keeps its links: none of the rewritten slots is on it.
        let chain = taken.free_list();
        assert forall|i: int| 0 <= i < chain.len() implies new_nodes[#[trigger] chain[i]]
            == old_nodes[chain[i]] by {
            assert(chain.contains(chain[i]));
            if parent != INVALID_INDEX {
                assert(before.slot_accounted(parent as int));
            }
        }
        lemma_chain_frame(old_nodes, new_nodes, taken.header.free_list_head, chain);
        after.lemma_free_list_is(chain);
        assert forall|slot: int| 0 <= slot < after.nodes.len() implies #[trigger]
            after.slot_accounted(slot) by {
            assert(before.slot_accounted(slot));
        }
        assert forall|slot: int| #[trigger] after.never_used(slot) implies after.nodes[slot].node
            is Uninitialized by {
            assert(taken.never_used(slot));
            assert(before.never_used(slot));
            assert(before.slot_accounted(slot));
            if parent != INVALID_INDEX {
                assert(before.slot_accounted(parent as int));
            }
        }
        assert(after.slot_map().dom() =~= before.slot_map().dom().insert(leaf.key));
        assert forall|key: u128| before.slot_map().contains_key(key) implies leaf_at(
            new_nodes,
            before.slot_map()[key],
        ) == leaf_at(old_nodes, before.slot_map()[key]) by {
            lemma_leaf_facts(old_nodes, root, 0, 0, key);
            let slot = before.slot_map()[key];
            assert(before.slot_accounted(slot as int));
        }
        assert(after@ =~= before@.insert(leaf.key, leaf));
        assert(grafted(old_nodes, new_nodes, parent, spot, leaf_slot, inner_slot, leaf, crit));
    }

    /// What a successful `insert_leaf` of `leaf` that returns `index` leaves.
    pub open spec fn put_in(before: Slab, after: Slab, leaf: LeafNode, index: u32) -> bool {
        &&& after.wf()
        &&& after.nodes.len() == before.nodes.len()
        &&& !before@.contains_key(leaf.key)
        &&& after.slot_map() == before.slot_map().insert(leaf.key, index)
        &&& after@ == before@.insert(leaf.key, leaf)
        &&& after.header.leaf_count == before.header.leaf_count + 1
        &&& Self::inserted(before, after, leaf, index)
        &&& Self::handed_out(
            before,
            after,
            index,
            if before.header.leaf_count == 0 {
                1
            } else {
                2
            },
        )
    }

    /// Puts `leaf` into a book that holds no order: the leaf becomes the root.
    fn insert_first(&mut self, leaf: &LeafNode) -> (index: u32)
        requires
            old(self).wf(),
            old(self).header.root == INVALID_INDEX as u64,
            old(self).has_room(),
        ensures
            Self::put_in(*old(self), *final(self), *leaf, index),
    {
        let ghost before = *self;
        proof {
            self.lemma_view_facts();
            self.lemma_room();
            assert(before.slot_map().dom() =~= Set::empty());
        }
        let key: u128 = leaf.key;
        let index: u32 = self.allocate_node();
        let ghost taken = *self;
        self.nodes[index as usize] = AnyNode { node: NodeBody::Leaf(*leaf) };
        self.header.root = index as u64;
        self.header.leaf_count = self.header.leaf_count + 1;
        proof {
            let old_nodes = before.nodes@;
            assert(before.slot_accounted(index as int));
            assert(share_prefix(key, 0, 0));
            assert(subtree_ok(self.nodes@, index, 0, 0));
            assert(self.slot_map() =~= before.slot_map().insert(key, index));
            assert(self.slot_map().dom() =~= set![key]);
            assert(self@ =~= before@.insert(key, *leaf));
            assert(self.tree_slots() =~= set![index as int]);
            assert(before.tree_slots() =~= Set::<int>::empty());
            let chain = taken.free_list();
            assert forall|i: int| 0 <= i < chain.len() implies self.nodes@[#[trigger] chain[i]]
                == old_nodes[chain[i]] by {
                assert(chain.contains(chain[i]));
            }
            lemma_chain_frame(old_nodes, self.nodes@, taken.header.free_list_head, chain);
            self.lemma_free_list_is(chain);
            assert forall|slot: int| 0 <= slot < self.nodes.len() implies #[trigger]
                self.slot_accounted(slot) by {
                assert(before.slot_accounted(slot));
            }
            assert forall|slot: int| #[trigger] self.never_used(slot) implies self.nodes[slot].node
                is Uninitialized by {
                assert(taken.never_used(slot));
                assert(before.never_used(slot));
            }
            assert(before.free_list().skip(0) =~= before.free_list());
        }
        index
    }

    /// Walks from the root to the spot at which an order with key `key` is
    /// to be grafted. Returns the slot above the spot, or the invalid index
    /// when the spot is the root; the spot; and the first position at which
    /// `key` differs from the spot's key, which is 128 when the book holds
    /// `key` already.
    fn find_spot(&self, key: u128) -> (found: (u32, u32, u64))
        requires
            self.wf(),
            self.header.root != INVALID_INDEX as u64,
        ensures
            insert_spot(self.nodes@, INVALID_INDEX, self.header.root as u32, 0, key) == (
                found.0,
                found.1,
            ),
            found.2 <= 128,
            share_prefix(key, slot_key(self.nodes@[found.1 as int]), found.2),
            found.2 < 128 ==> bit_at(key, found.2) != bit_at(
                slot_key(self.nodes@[found.1 as int]),
                found.2,
            ),
            self.nodes@[found.1 as int].node is Inner ==> found.2 < branch_at(
                self.nodes@,
                found.1,
            ).prefix_len,
            found.2 == 128 ==> self@.contains_key(key),
    {
        let root: u32 = self.header.root as u32;
        let mut parent: u32 = INVALID_INDEX;
        let mut current: u32 = root;
        let mut crit: u64 = 0;
        let ghost mut lower: u64 = 0;
        let ghost mut anchor: u128 = 0;
        loop
            invariant
                subtree_ok(self.nodes@, current, lower, anchor),
                share_prefix(key, anchor, lower),
                insert_spot(self.nodes@, INVALID_INDEX, root, 0, key) == insert_spot(
                    self.nodes@,
                    parent,
                    current,
                    lower,
                    key,
                ),
                subtree_leaves(self.nodes@, current, lower).contains_key(key)
                    ==> subtree_leaves(self.nodes@, root, 0).contains_key(key),
            ensures
                insert_spot(self.nodes@, INVALID_INDEX, root, 0, key) == (parent, current),
                crit <= 128,
                share_prefix(key, slot_key(self.nodes@[current as int]), crit),
                crit < 128 ==> bit_at(key, crit) != bit_at(
                    slot_key(self.nodes@[current as int]),
                    crit,
                ),
                self.nodes@[current as int].node is Inner ==> crit < branch_at(
                    self.nodes@,
                    current,
                ).prefix_len,
                crit == 128 ==> subtree_leaves(self.nodes@, root, 0).contains_key(key),
            decreases 128 - lower,
        {
            match &self.nodes[current as usize].node {
                NodeBody::Inner(inner) => {
                    crit = critical_bit(key, inner.key);
                    if crit < inner.prefix_len {
                        proof {
                            if share_prefix(key, inner.key, inner.prefix_len) {
                                lemma_share_prefix_bits(key, inner.key, inner.prefix_len, crit);
                            }
                        }
                        break ;
                    }
                    proof {
                        lemma_share_prefix_shorter(key, inner.key, crit, inner.prefix_len);
                        lemma_walk_step(self.nodes@, current, lower, anchor, key);
                        anchor = side_anchor(*inner, bit_at(key, inner.prefix_len));
                        lower = below(*inner);
                    }
                    parent = current;
                    current = inner.walk_down(key);
                },
                _ => {
                    crit = critical_bit(key, self.nodes[current as usize].as_leaf().key);
                    break ;
                },
            }
        }
        (parent, current, crit)
    }

    /// Grafts `leaf` at the spot that `find_spot` found for its key.
    #[verifier::rlimit(40)]
    fn graft(&mut self, leaf: &LeafNode, parent: u32, spot: u32, crit: u64) -> (index: u32)
        requires
            old(self).wf(),
            old(self).header.root != INVALID_INDEX as u64,
            old(self).has_room(),
            insert_spot(
                old(self).nodes@,
                INVALID_INDEX,
                old(self).header.root as u32,
                0,
                leaf.key,
            ) == (parent, spot),
            crit < 128,
            share_prefix(leaf.key, slot_key(old(self).nodes@[spot as int]), crit),
            bit_at(leaf.key, crit) != bit_at(slot_key(old(self).nodes@[spot as int]), crit),
            old(self).nodes@[spot as int].node is Inner ==> crit < branch_at(
                old(self).nodes@,
                spot,
            ).prefix_len,
        ensures
            Self::put_in(*old(self), *final(self), *leaf, index),
    {
        let ghost before = *self;
        let key: u128 = leaf.key;
        proof {
            let root = self.header.root as u32;
            self.lemma_view_facts();
            self.lemma_room();
            lemma_subtree_finite(self.nodes@, root, 0, 0);
            lemma_insert_spot(self.nodes@, INVALID_INDEX, root, 0, 0, key);
            if parent != INVALID_INDEX {
                lemma_slot_facts(self.nodes@, root, 0, 0, parent as int);
                assert(self.slot_accounted(parent as int));
            }
            if subtree_slots(self.nodes@, root, 0).contains(INVALID_INDEX as int) {
                lemma_slot_facts(self.nodes@, root, 0, 0, INVALID_INDEX as int);
            }
        }
        let leaf_slot: u32 = self.allocate_node();
        let inner_slot: u32 = self.allocate_node();
        let ghost taken = *self;
        proof {
            Self::lemma_two_handed_out(before, taken, leaf_slot);
        }
        self.nodes[leaf_slot as usize] = AnyNode { node: NodeBody::Leaf(*leaf) };
        let mut inner = InnerNode::new(crit, key);
        if key_bit(key, crit) {
            inner.set_left(spot);
            inner.set_right(leaf_slot);
        } else {
            inner.set_left(leaf_slot);
            inner.set_right(spot);
        }
        self.nodes[inner_slot as usize] = AnyNode { node: NodeBody::Inner(inner) };
        if parent == INVALID_INDEX {
            self.header.root = inner_slot as u64;
        } else {
            let above = self.nodes[parent as usize].as_inner_mut();
            if key_bit(key, above.prefix_len) {
                above.set_right(inner_slot);
            } else {
                above.set_left(inner_slot);
            }
        }
        self.header.leaf_count = self.header.leaf_count + 1;
        proof {
            Self::lemma_insert_keeps_wf(
                before,
                taken,
                *self,
                parent,
                spot,
                leaf_slot,
                inner_slot,
                *leaf,
                crit,
            );
        }
        leaf_slot
    }

    /// Two slots handed out one after the other are two slots handed out.
    proof fn lemma_two_handed_out(before: Slab, taken: Slab, first: u32)
        requires
            before.free_list().len() >= 2 ==> {
                &&& first == before.free_list()[0]
                &&& taken.free_list() == before.free_list().skip(1).skip(1)
                &&& taken.header.bump_index == before.header.bump_index
            },
            before.free_list().len() == 1 ==> {
                &&& first == before.free_list()[0]
                &&& taken.free_list() == before.free_list().skip(1)
                &&& taken.header.bump_index == before.header.bump_index + 1
            },
            before.free_list().len() == 0 ==> {
                &&& first == before.header.bump_index
                &&& taken.free_list() == before.free_list()
                &&& taken.header.bump_index == before.header.bump_index + 2
            },
        ensures
            Self::handed_out(before, taken, first, 2),
    {
        let chain = before.free_list();
        assert(chain.skip(0) =~= chain);
        if chain.len() >= 2 {
            assert(chain.skip(1).skip(1) =~= chain.skip(2));
        }
    }

    /// Puts `leaf` into the book and returns the slot it was given.
    ///
    /// Fails with `SlabFull` when the pool cannot take one more order, and
    /// with `InvalidTree` when the book already holds an order with the key of
    /// `leaf`; the book is then unchanged.
    pub fn insert_leaf(&mut self, leaf: &LeafNode) -> (result: Result<u32, PerpError>)
        requires
            old(self).wf(),
        ensures
            final(self).wf(),
            final(self).nodes.len() == old(self).nodes.len(),
            match result {
                Ok(index) => {
                    &&& old(self).has_room()
                    &&& !old(self)@.contains_key(leaf.key)
                    &&& final(self).slot_map() == old(self).slot_map().insert(leaf.key, index)
                    &&& final(self)@ == old(self)@.insert(leaf.key, *leaf)
                    &&& final(self).header.leaf_count == old(self).header.leaf_count + 1
                    &&& Self::inserted(*old(self), *final(self), *leaf, index)
                    &&& Self::handed_out(
                        *old(self),
                        *final(self),
                        index,
                        if old(self).header.leaf_count == 0 {
                            1
                        } else {
                            2
                        },
                    )
                },
                Err(e) => {
                    &&& final(self).header == old(self).header
                    &&& final(self).nodes@ == old(self).nodes@
                    &&& if !old(self).has_room() {
                        e == PerpError::SlabFull
                    } else {
                        e == PerpError::InvalidTree && old(self)@.contains_key(leaf.key)
                    }
                },
            },
    {
        proof {
            self.lemma_view_facts();
            self.lemma_room();
            self.lemma_wf();
        }
        if self.header.leaf_count >= self.nodes.len() as u64 {
            return Err(PerpError::SlabFull);
        }
        let empty: bool = self.header.root == INVALID_INDEX as u64;
        proof {
            if !empty {
                lemma_subtree_finite(self.nodes@, self.header.root as u32, 0, 0);
            } else {
                assert(self.slot_map().dom() =~= Set::empty());
            }
        }
        if !self.has_spare(if empty {
            1
        } else {
            2
        }) {
            return Err(PerpError::SlabFull);
        }
        if empty {
            return Ok(self.insert_first(leaf));
        }
        let (parent, spot, crit) = self.find_spot(leaf.key);
        if crit == 128 {
            return Err(PerpError::InvalidTree);
        }
        Ok(self.graft(leaf, parent, spot, crit))
    }

    /// A slot that holds an order is a slot of the tree, listed under the
    /// order's key.
    pub proof fn lemma_leaf_is_listed(&self, index: u32)
        requires
            self.wf(),
            is_leaf(self.nodes@, index),
        ensures
            self.header.root != INVALID_INDEX as u64,
            self.tree_slots().contains(index as int),
            self.slot_map().contains_key(leaf_at(self.nodes@, index).key),
            self.slot_map()[leaf_at(self.nodes@, index).key] == index,
    {
        assert(self.slot_accounted(index as int));
        if self.free_list().contains(index as int) {
            let i = choose|i: int| 0 <= i < self.free_list().len() && self.free_list()[i] == index;
            assert(self.nodes@[self.free_list()[i]].node is Free);
        }
        lemma_slot_facts(self.nodes@, self.header.root as u32, 0, 0, index as int);
    }

    /// Walks from the root along `key` to the branching node directly above
    /// the leaf in slot `target`; also gives the node above that one, or the
    /// invalid index when there is none.
    fn locate(&self, key: u128, target: u32) -> (found: (u32, u32))
        requires
            self.wf(),
            is_leaf(self.nodes@, target),
            leaf_at(self.nodes@, target).key == key,
            self.header.root != target as u64,
        ensures
            self.header.root != INVALID_INDEX as u64,
            found == remove_spot(
                self.nodes@,
                INVALID_INDEX,
                self.header.root as u32,
                0,
                key,
                target,
            ),
            (found.1 as int) < self.nodes.len(),
            self.nodes@[found.1 as int].node is Inner,
            branch_at(self.nodes@, found.1).prefix_len < 128,
            branch_at(self.nodes@, found.1).child_toward(key) == target,
            self.tree_slots().contains(found.1 as int),
            found.0 != INVALID_INDEX ==> {
                &&& (found.0 as int) < self.nodes.len()
                &&& self.nodes@[found.0 as int].node is Inner
                &&& branch_at(self.nodes@, found.0).prefix_len < 128
                &&& self.tree_slots().contains(found.0 as int)
            },
    {
        proof {
            self.lemma_leaf_is_listed(target);
        }
        let root: u32 = self.header.root as u32;
        let mut grand: u32 = INVALID_INDEX;
        let mut parent: u32 = root;
        let ghost mut lower: u64 = 0;
        let ghost mut anchor: u128 = 0;
        loop
            invariant
                subtree_ok(self.nodes@, parent, lower, anchor),
                subtree_leaves(self.nodes@, parent, lower).contains_key(key),
                subtree_leaves(self.nodes@, parent, lower)[key] == target,
                parent != target,
                remove_spot(self.nodes@, INVALID_INDEX, root, 0, key, target) == remove_spot(
                    self.nodes@,
                    grand,
                    parent,
                    lower,
                    key,
                    target,
                ),
            ensures
                (grand, parent) == remove_spot(self.nodes@, INVALID_INDEX, root, 0, key, target),
            decreases 128 - lower,
        {
            proof {
                lemma_remove_spot(self.nodes@, grand, parent, lower, anchor, key, target);
                lemma_walk_step(self.nodes@, parent, lower, anchor, key);
            }
            let inner = self.nodes[parent as usize].as_inner();
            let child: u32 = inner.walk_down(key);
            if child == target {
                break ;
            }
            proof {
                anchor = side_anchor(*inner, bit_at(key, inner.prefix_len));
                lower = below(*inner);
            }
            grand = parent;
            parent = child;
        }
        proof {
            lemma_remove_spot(self.nodes@, INVALID_INDEX, root, 0, 0, key, target);
            lemma_slot_facts(self.nodes@, root, 0, 0, parent as int);
            if grand != INVALID_INDEX {
                lemma_slot_facts(self.nodes@, root, 0, 0, grand as int);
            }
        }
        (grand, parent)
    }

    /// The branching node directly above the leaf in slot `child_index`, and
    /// that node's other child.
    ///
    /// Fails with `NodeIsRoot` when the slot is the root, and with
    /// `InvalidNodeType` when it holds no order.
    pub fn find_parent_and_sibling(&self, child_index: u32) -> (result: Result<
        (u32, u32),
        PerpError,
    >)
        requires
            self.wf(),
            (child_index as int) < self.nodes.len(),
        ensures
            match result {
                Ok((parent, sibling)) => {
                    &&& self.header.root != child_index as u64
                    &&& is_leaf(self.nodes@, child_index)
                    &&& self.tree_slots().contains(parent as int)
                    &&& self.nodes@[parent as int].node is Inner
                    &&& branch_at(self.nodes@, parent).child_toward(
                        leaf_at(self.nodes@, child_index).key,
                    ) == child_index
                    &&& branch_at(self.nodes@, parent).child_away(
                        leaf_at(self.nodes@, child_index).key,
                    ) == sibling
                },
                Err(e) => if self.header.root == child_index as u64 {
                    e == PerpError::NodeIsRoot
                } else {
                    e == PerpError::InvalidNodeType && !is_leaf(self.nodes@, child_index)
                },
            },
    {
        if self.header.root == child_index as u64 {
            return Err(PerpError::NodeIsRoot);
        }
        let key: u128 = match &self.nodes[child_index as usize].node {
            NodeBody::Leaf(leaf) => leaf.key,
            _ => {
                return Err(PerpError::InvalidNodeType);
            },
        };
        let (_, parent) = self.locate(key, child_index);
        let inner = self.nodes[parent as usize].as_inner();
        let sibling: u32 = if key_bit(key, inner.prefix_len) {
            inner.left()
        } else {
            inner.right()
        };
        Ok((parent, sibling))
    }

    /// The branching node directly above the leaf in slot `child_index`.
    ///
    /// Fails as `find_parent_and_sibling` does.
    pub fn find_parent(&self, child_index: u32) -> (result: Result<u32, PerpError>)
        requires
            self.wf(),
            (child_index as int) < self.nodes.len(),
        ensures
            match result {
                Ok(parent) => {
                    &&& self.header.root != child_index as u64
                    &&& is_leaf(self.nodes@, child_index)
                    &&& self.tree_slots().contains(parent as int)
                    &&& self.nodes@[parent as int].node is Inner
                    &&& branch_at(self.nodes@, parent).child_toward(
                        leaf_at(self.nodes@, child_index).key,
                    ) == child_index
                },
                Err(e) => if self.header.root == child_index as u64 {
                    e == PerpError::NodeIsRoot
                } else {
                    e == PerpError::InvalidNodeType && !is_leaf(self.nodes@, child_index)
                },
            },
    {
        match self.find_parent_and_sibling(child_index) {
            Ok((parent, _)) => Ok(parent),
            Err(e) => Err(e),
        }
    }

    /// Cutting a leaf out of a well-formed book leaves a well-formed tree
    /// without that order; the slots of the leaf and of its parent leave it.
    proof fn lemma_remove_tree(
        before: Slab,
        after: Slab,
        grand: u32,
        parent: u32,
        leaf_slot: u32,
        sibling: u32,
        key: u128,
    )
        requires
            before.wf(),
            is_leaf(before.nodes@, leaf_slot),
            leaf_at(before.nodes@, leaf_slot).key == key,
            before.header.root != leaf_slot as u64,
            remove_spot(
                before.nodes@,
                INVALID_INDEX,
                before.header.root as u32,
                0,
                key,
                leaf_slot,
            ) == (grand, parent),
            sibling == branch_at(before.nodes@, parent).child_away(key),
            pruned(before.nodes@, after.nodes@, grand, parent, leaf_slot, sibling, key),
            after.header.root == if grand == INVALID_INDEX {
                sibling as u64
            } else {
                before.header.root
            },
        ensures
            after.header.root != INVALID_INDEX as u64,
            after.header.root < after.nodes.len(),
            subtree_ok(after.nodes@, after.header.root as u32, 0, 0),
            after.slot_map() == before.slot_map().remove(key),
            after.tree_slots() == before.tree_slots().remove(leaf_slot as int).remove(
                parent as int,
            ),
            before.tree_slots().contains(parent as int),
            before.tree_slots().contains(leaf_slot as int),
            before.slot_map().contains_key(key),
            before.slot_map().dom().finite(),
            grand != INVALID_INDEX ==> before.tree_slots().contains(grand as int),
            forall|other: u128|
                after.slot_map().contains_key(other) ==> leaf_at(
                    after.nodes@,
                    #[trigger] after.slot_map()[other],
                ) == leaf_at(before.nodes@, before.slot_map()[other]),
    {
        before.lemma_leaf_is_listed(leaf_slot);
        let root = before.header.root as u32;
        let old_nodes = before.nodes@;
        let new_nodes = after.nodes@;
        lemma_remove_spot(old_nodes, INVALID_INDEX, root, 0, 0, key, leaf_slot);
        if subtree_slots(old_nodes, root, 0).contains(INVALID_INDEX as int) {
            lemma_slot_facts(old_nodes, root, 0, 0, INVALID_INDEX as int);
        }
        lemma_prune(
            old_nodes,
            new_nodes,
            root,
            0,
            0,
            INVALID_INDEX,
            grand,
            parent,
            leaf_slot,
            sibling,
            key,
        );
        lemma_slot_facts(old_nodes, root, 0, 0, parent as int);
        lemma_subtree_finite(old_nodes, root, 0, 0);
        let top = if root == parent {
            sibling
        } else {
            root
        };
        assert(after.header.root as u32 == top);
        assert(subtree_slots(new_nodes, top, 0).contains(top as int));
        assert forall|other: u128| after.slot_map().contains_key(other) implies leaf_at(
            new_nodes,
            #[trigger] after.slot_map()[other],
        ) == leaf_at(old_nodes, before.slot_map()[other]) by {
            lemma_leaf_facts(old_nodes, root, 0, 0, other);
            lemma_leaf_facts(new_nodes, top, 0, 0, other);
            lemma_slot_facts(old_nodes, root, 0, 0, before.slot_map()[other] as int);
            if grand != INVALID_INDEX {
                lemma_slot_facts(old_nodes, root, 0, 0, grand as int);
            }
        }
    }

    /// Cutting a leaf out as `remove_leaf` does it is a removal.
    proof fn lemma_removed(
        before: Slab,
        after: Slab,
        grand: u32,
        parent: u32,
        leaf_slot: u32,
        sibling: u32,
        key: u128,
    )
        requires
            before.wf(),
            is_leaf(before.nodes@, leaf_slot),
            leaf_at(before.nodes@, leaf_slot).key == key,
            before.header.root != leaf_slot as u64,
            remove_spot(
                before.nodes@,
                INVALID_INDEX,
                before.header.root as u32,
                0,
                key,
                leaf_slot,
            ) == (grand, parent),
            sibling == branch_at(before.nodes@, parent).child_away(key),
            pruned(before.nodes@, after.nodes@, grand, parent, leaf_slot, sibling, key),
            after.header.root == if grand == INVALID_INDEX {
                sibling as u64
            } else {
                before.header.root
            },
            after.tree_slots() == before.tree_slots().remove(leaf_slot as int).remove(
                parent as int,
            ),
        ensures
            Self::removed(before, after, leaf_slot),
    {
        before.lemma_leaf_is_listed(leaf_slot);
        let root = before.header.root as u32;
        lemma_remove_spot(before.nodes@, INVALID_INDEX, root, 0, 0, key, leaf_slot);
        if subtree_slots(before.nodes@, root, 0).contains(INVALID_INDEX as int) {
            lemma_slot_facts(before.nodes@, root, 0, 0, INVALID_INDEX as int);
        }
        assert(pruned(before.nodes@, after.nodes@, grand, parent, leaf_slot, sibling, key));
    }

    /// Cutting a leaf out of a well-formed book, and putting its slot and its
    /// parent's on the free list, leaves a well-formed book without that order.
    proof fn lemma_remove_keeps_wf(
        before: Slab,
        after: Slab,
        grand: u32,
        parent: u32,
        leaf_slot: u32,
        sibling: u32,
        key: u128,
    )
        requires
            before.wf(),
            is_leaf(before.nodes@, leaf_slot),
            leaf_at(before.nodes@, leaf_slot).key == key,
            before.header.root != leaf_slot as u64,
            remove_spot(
                before.nodes@,
                INVALID_INDEX,
                before.header.root as u32,
                0,
                key,
                leaf_slot,
            ) == (grand, parent),
            sibling == branch_at(before.nodes@, parent).child_away(key),
            pruned(before.nodes@, after.nodes@, grand, parent, leaf_slot, sibling, key),
            forall|slot: int|
                after.free_list().contains(slot) <==> (before.free_list().contains(slot) || slot
                    == parent || slot == leaf_slot),
            free_chain(after.nodes@, after.header.free_list_head, after.free_list()),
            after.header.bump_index == before.header.bump_index,
            after.header.leaf_count == before.header.leaf_count - 1,
            after.header.root == if grand == INVALID_INDEX {
                sibling as u64
            } else {
                before.header.root
            },
        ensures
            after.wf(),
            after.slot_map() == before.slot_map().remove(key),
            after@ == before@.remove(key),
    {
        Self::lemma_remove_tree(before, after, grand, parent, leaf_slot, sibling, key);
        assert(after.slot_map().dom() =~= before.slot_map().dom().remove(key));
        assert(after.header.leaf_count == after.slot_map().len());
        assert forall|slot: int| 0 <= slot < after.nodes.len() implies #[trigger]
            after.slot_accounted(slot) by {
            assert(before.slot_accounted(slot));
        }
        assert forall|slot: int| #[trigger] after.never_used(slot) implies after.nodes[slot].node
            is Uninitialized by {
            assert(before.never_used(slot));
            assert(before.slot_accounted(slot));
            assert(before.slot_accounted(parent as int));
            assert(before.slot_accounted(leaf_slot as int));
            if grand != INVALID_INDEX {
                assert(before.slot_accounted(grand as int));
            }
        }
        assert(after@ =~= before@.remove(key));
    }

    /// What a successful `remove_leaf` of slot `index` leaves.
    pub open spec fn taken_out(before: Slab, after: Slab, index: u32) -> bool {
        let key = leaf_at(before.nodes@, index).key;
        &&& after.wf()
        &&& after.nodes.len() == before.nodes.len()
        &&& after.slot_map() == before.slot_map().remove(key)
        &&& after@ == before@.remove(key)
        &&& after.header.leaf_count == before.header.leaf_count - 1
        &&& Self::removed(before, after, index)
        &&& Self::taken_back(
            before,
            after,
            index,
            if before.header.leaf_count == 1 {
                1
            } else {
                2
            },
        )
    }

    /// Takes out the order that is the root: the book holds no order afterwards.
    fn remove_root(&mut self, leaf_index: u32)
        requires
            old(self).wf(),
            is_leaf(old(self).nodes@, leaf_index),
            old(self).header.root == leaf_index as u64,
        ensures
            Self::taken_out(*old(self), *final(self), leaf_index),
    {
        let ghost before = *self;
        let ghost key = leaf_at(self.nodes@, leaf_index).key;
        proof {
            self.lemma_leaf_is_listed(leaf_index);
            lemma_subtree_finite(self.nodes@, self.header.root as u32, 0, 0);
            assert(self.slot_accounted(leaf_index as int));
            assert(before.slot_map() =~= map![key => leaf_index]);
            assert(before.slot_map().dom() =~= set![key]);
            assert(before.tree_slots() =~= set![leaf_index as int]);
        }
        self.header.root = INVALID_INDEX as u64;
        self.free_node(leaf_index);
        self.header.leaf_count = self.header.leaf_count - 1;
        proof {
            assert(self.slot_map() =~= before.slot_map().remove(key));
            assert(self.slot_map().dom() =~= Set::empty());
            assert(self.tree_slots() =~= Set::<int>::empty());
            assert(self.free_list().skip(1) =~= before.free_list());
            assert(self@ =~= before@.remove(key));
            assert forall|slot: int| 0 <= slot < self.nodes.len() implies #[trigger]
                self.slot_accounted(slot) by {
                assert(before.slot_accounted(slot));
            }
            assert forall|slot: int| #[trigger] self.never_used(slot) implies self.nodes[slot].node
                is Uninitialized by {
                assert(before.never_used(slot));
                assert(before.slot_accounted(slot));
            }
        }
    }

    /// Takes out the order in slot `leaf_index`, which has the branching node
    /// in slot `parent` above it, and above that the one in slot `grand`, if any.
    #[verifier::rlimit(40)]
    fn cut_out(&mut self, leaf_index: u32, grand: u32, parent: u32)
        requires
            old(self).wf(),
            is_leaf(old(self).nodes@, leaf_index),
            old(self).header.root != leaf_index as u64,
            old(self).header.root != INVALID_INDEX as u64,
            (grand, parent) == remove_spot(
                old(self).nodes@,
                INVALID_INDEX,
                old(self).header.root as u32,
                0,
                leaf_at(old(self).nodes@, leaf_index).key,
                leaf_index,
            ),
            (parent as int) < old(self).nodes.len(),
            old(self).nodes@[parent as int].node is Inner,
            branch_at(old(self).nodes@, parent).prefix_len < 128,
            old(self).tree_slots().contains(parent as int),
            grand != INVALID_INDEX ==> {
                &&& (grand as int) < old(self).nodes.len()
                &&& old(self).nodes@[grand as int].node is Inner
                &&& branch_at(old(self).nodes@, grand).prefix_len < 128
                &&& old(self).tree_slots().contains(grand as int)
            },
        ensures
            Self::taken_out(*old(self), *final(self), leaf_index),
    {
        let ghost before = *self;
        let key: u128 = self.nodes[leaf_index as usize].as_leaf().key;
        let inner = self.nodes[parent as usize].as_inner();
        let sibling: u32 = if key_bit(key, inner.prefix_len) {
            inner.left()
        } else {
            inner.right()
        };
        proof {
            self.lemma_leaf_is_listed(leaf_index);
            lemma_subtree_finite(self.nodes@, self.header.root as u32, 0, 0);
            lemma_branch_has_two(self.nodes@, self.header.root as u32, 0, 0);
            assert(self.slot_accounted(leaf_index as int));
            assert(self.slot_accounted(parent as int));
            if grand != INVALID_INDEX {
                assert(self.slot_accounted(grand as int));
            }
            lemma_remove_spot(
                self.nodes@,
                INVALID_INDEX,
                self.header.root as u32,
                0,
                0,
                key,
                leaf_index,
            );
        }
        if grand == INVALID_INDEX {
            self.header.root = sibling as u64;
        } else {
            let above = self.nodes[grand as usize].as_inner_mut();
            if key_bit(key, above.prefix_len) {
                above.set_right(sibling);
            } else {
                above.set_left(sibling);
            }
        }
        proof {
            let chain = before.free_list();
            assert forall|i: int| 0 <= i < chain.len() implies self.nodes@[#[trigger] chain[i]]
                == before.nodes@[chain[i]] by {
                assert(chain.contains(chain[i]));
            }
            lemma_chain_frame(before.nodes@, self.nodes@, before.header.free_list_head, chain);
            self.lemma_free_list_is(chain);
        }
        self.free_node(leaf_index);
        self.free_node(parent);
        self.header.leaf_count = self.header.leaf_count - 1;
        proof {
            Self::lemma_remove_keeps_wf(before, *self, grand, parent, leaf_index, sibling, key);
            Self::lemma_remove_tree(before, *self, grand, parent, leaf_index, sibling, key);
            Self::lemma_removed(before, *self, grand, parent, leaf_index, sibling, key);
            assert(self.free_list().skip(2) =~= before.free_list());
        }
    }

    /// Takes the order in slot `leaf_index` out of the book and returns it.
    ///
    /// Fails with `InvalidNodeType` when the slot holds no order; the book is
    /// then unchanged.
    pub fn remove_leaf(&mut self, leaf_index: u32) -> (result: Result<LeafNode, PerpError>)
        requires
            old(self).wf(),
            (leaf_index as int) < old(self).nodes.len(),
        ensures
            final(self).wf(),
            final(self).nodes.len() == old(self).nodes.len(),
            match result {
                Ok(removed) => {
                    &&& is_leaf(old(self).nodes@, leaf_index)
                    &&& removed == leaf_at(old(self).nodes@, leaf_index)
                    &&& final(self).slot_map() == old(self).slot_map().remove(removed.key)
                    &&& final(self)@ == old(self)@.remove(removed.key)
                    &&& final(self).header.leaf_count == old(self).header.leaf_count - 1
                    &&& Self::removed(*old(self), *final(self), leaf_index)
                    &&& Self::taken_back(
                        *old(self),
                        *final(self),
                        leaf_index,
                        if old(self).header.leaf_count == 1 {
                            1
                        } else {
                            2
                        },
                    )
                },
                Err(e) => {
                    &&& e == PerpError::InvalidNodeType
                    &&& !is_leaf(old(self).nodes@, leaf_index)
                    &&& final(self).header == old(self).header
                    &&& final(self).nodes@ == old(self).nodes@
                },
            },
    {
        let removed: LeafNode = match &self.nodes[leaf_index as usize].node {
            NodeBody::Leaf(leaf) => *leaf,
            _ => {
                return Err(PerpError::InvalidNodeType);
            },
        };
        if self.header.root == leaf_index as u64 {
            self.remove_root(leaf_index);
            return Ok(removed);
        }
        let (grand, parent) = self.locate(removed.key, leaf_index);
        self.cut_out(leaf_index, grand, parent);
        Ok(removed)
    }

    /// Sets the quantity of the order in slot `index`.
    pub fn set_leaf_quantity(&mut self, index: u32, quantity: u64)
        requires
            old(self).wf(),
            is_leaf(old(self).nodes@, index),
        ensures
            final(self).wf(),
            final(self).header == old(self).header,
            final(self).nodes.len() == old(self).nodes.len(),
            final(self).slot_map() == old(self).slot_map(),
            final(self)@ == old(self)@.insert(
                leaf_at(old(self).nodes@, index).key,
                LeafNode { quantity, ..leaf_at(old(self).nodes@, index) },
            ),
    {
        let ghost before = *self;
        proof {
            self.lemma_leaf_is_listed(index);
        }
        let leaf = self.nodes[index as usize].as_leaf_mut();
        leaf.quantity = quantity;
        proof {
            let root = before.header.root as u32;
            lemma_leaf_rewritten(before.nodes@, self.nodes@, index, root, 0, 0);
            let chain = before.free_list();
            assert(before.slot_accounted(index as int));
            assert forall|i: int| 0 <= i < chain.len() implies self.nodes@[#[trigger] chain[i]]
                == before.nodes@[chain[i]] by {
                assert(chain.contains(chain[i]));
            }
            lemma_chain_frame(before.nodes@, self.nodes@, before.header.free_list_head, chain);
            self.lemma_free_list_is(chain);
            assert forall|slot: int| 0 <= slot < self.nodes.len() implies #[trigger]
                self.slot_accounted(slot) by {
                assert(before.slot_accounted(slot));
            }
            assert forall|slot: int| #[trigger] self.never_used(slot) implies self.nodes[slot].node
                is Uninitialized by {
                assert(before.never_used(slot));
                assert(before.slot_accounted(slot));
            }
            let changed = leaf_at(before.nodes@, index).key;
            let expected = before@.insert(
                changed,
                LeafNode { quantity, ..leaf_at(before.nodes@, index) },
            );
            assert(self.slot_map() == before.slot_map());
            assert(self@.dom() =~= expected.dom());
            assert forall|key: u128| self@.dom().contains(key) implies self@[key]
                == expected[key] by {
                lemma_leaf_facts(before.nodes@, root, 0, 0, key);
                let slot = before.slot_map()[key];
                if key != changed {
                    assert(slot != index);
                    assert(self.nodes@[slot as int] == before.nodes@[slot as int]);
                } else {
                    assert(slot == index);
                }
            }
            assert(self@ =~= expected);
        }
    }

    /// The header counts the resting orders, of which there are finitely
    /// many, each stored under its own key.
    pub proof fn lemma_view_facts(&self)
        requires
            self.wf(),
        ensures
            self@.dom().finite(),
            self@.dom() == self.slot_map().dom(),
            self@.dom().len() == self.header.leaf_count,
            forall|key: u128| #[trigger] self@.contains_key(key) ==> self@[key].key == key,
    {
        assert(self@.dom() =~= self.slot_map().dom());
        if self.header.root != INVALID_INDEX as u64 {
            let root = self.header.root as u32;
            lemma_subtree_finite(self.nodes@, root, 0, 0);
            assert forall|key: u128| #[trigger] self@.contains_key(key) implies self@[key].key
                == key by {
                lemma_leaf_facts(self.nodes@, root, 0, 0, key);
            }
        }
    }

    /// The slot listed under a key holds the order with that key.
    pub proof fn lemma_key_is_listed(&self, key: u128)
        requires
            self.wf(),
            self@.contains_key(key),
        ensures
            is_leaf(self.nodes@, self.slot_map()[key]),
            leaf_at(self.nodes@, self.slot_map()[key]) == self@[key],
            self@[key].key == key,
    {
        lemma_leaf_facts(self.nodes@, self.header.root as u32, 0, 0, key);
    }

    /// Every slot of the pool is in exactly one of three sets: the slots of
    /// the tree, the slots of the free list, and the slots never handed out.
    pub proof fn lemma_pool_partition(&self)
        requires
            self.wf(),
        ensures
            self.tree_slots() + self.free_list().to_set() + vstd::set_lib::set_int_range(
                self.header.bump_index as int,
                self.nodes.len() as int,
            ) == vstd::set_lib::set_int_range(0, self.nodes.len() as int),
            self.tree_slots().disjoint(self.free_list().to_set()),
            self.tree_slots().disjoint(
                vstd::set_lib::set_int_range(
                    self.header.bump_index as int,
                    self.nodes.len() as int,
                ),
            ),
            self.free_list().to_set().disjoint(
                vstd::set_lib::set_int_range(
                    self.header.bump_index as int,
                    self.nodes.len() as int,
                ),
            ),
            self.free_list().no_duplicates(),
            self.header.bump_index <= self.nodes.len(),
    {
        let len = self.nodes.len() as int;
        let tree = self.tree_slots();
        let chain = self.free_list();
        let listed = chain.to_set();
        let unused = vstd::set_lib::set_int_range(self.header.bump_index as int, len);
        let all = vstd::set_lib::set_int_range(0, len);
        if self.header.root != INVALID_INDEX as u64 {
            assert forall|slot: int| tree.contains(slot) implies 0 <= slot < len by {
                lemma_slot_facts(self.nodes@, self.header.root as u32, 0, 0, slot);
            }
        }
        assert forall|slot: int| listed.contains(slot) implies 0 <= slot < len by {
            let i = choose|i: int| 0 <= i < chain.len() && chain[i] == slot;
            assert(0 <= chain[i] < len);
        }
        assert forall|slot: int| all.contains(slot) implies (tree + listed + unused).contains(
            slot,
        ) by {
            assert(self.slot_accounted(slot));
        }
        assert(all =~= tree + listed + unused);
        assert forall|slot: int| tree.contains(slot) implies !listed.contains(slot)
            && !unused.contains(slot) by {
            assert(self.slot_accounted(slot));
        }
        assert forall|slot: int| listed.contains(slot) implies !unused.contains(slot) by {
            assert(self.slot_accounted(slot));
        }
    }

    /// Putting an order in and taking it out again by the slot it was given
    /// restores the book: the same orders in the same slots, the same count,
    /// and the order taken out is the order put in.
    ///
    /// `before`, `between` and `after` are the book before `insert_leaf`,
    /// after it, and after `remove_leaf`; `index` is what `insert_leaf`
    /// returned and `removed` what `remove_leaf` returned.
    pub proof fn lemma_insert_then_remove(
        before: Slab,
        between: Slab,
        after: Slab,
        leaf: LeafNode,
        index: u32,
        removed: LeafNode,
    )
        requires
            before.wf(),
            !before@.contains_key(leaf.key),
            between.slot_map() == before.slot_map().insert(leaf.key, index),
            between@ == before@.insert(leaf.key, leaf),
            between.header.leaf_count == before.header.leaf_count + 1,
            between.nodes.len() == before.nodes.len(),
            is_leaf(between.nodes@, index),
            removed == leaf_at(between.nodes@, index),
            after.slot_map() == between.slot_map().remove(removed.key),
            after@ == between@.remove(removed.key),
            after.header.leaf_count == between.header.leaf_count - 1,
            after.nodes.len() == between.nodes.len(),
        ensures
            removed == leaf,
            after@ == before@,
            after.slot_map() == before.slot_map(),
            after.header.leaf_count == before.header.leaf_count,
            after.nodes.len() == before.nodes.len(),
            after.has_room() == before.has_room(),
    {
        before.lemma_view_facts();
        assert(between@.contains_key(leaf.key));
        assert(between@[leaf.key] == leaf);
        assert(between.slot_map().contains_key(leaf.key));
        assert(between.slot_map()[leaf.key] == index);
        assert(after@ =~= before@);
        assert(after.slot_map() =~= before.slot_map());
    }

    /// The restoration of the tree, for given witnesses of the insertion and
    /// of the removal.
    proof fn lemma_restores_with(
        before: Slab,
        between: Slab,
        after: Slab,
        leaf: LeafNode,
        index: u32,
        parent: u32,
        spot: u32,
        inner_slot: u32,
        crit: u64,
        grand: u32,
        above: u32,
        sibling: u32,
    )
        requires
            before.nodes.len() < INVALID_INDEX,
            before.header.root != INVALID_INDEX as u64,
            before.header.root < before.nodes.len(),
            subtree_ok(before.nodes@, before.header.root as u32, 0, 0),
            between.header.root != INVALID_INDEX as u64,
            subtree_ok(between.nodes@, between.header.root as u32, 0, 0),
            !before.tree_slots().contains(index as int),
            grafted(before.nodes@, between.nodes@, parent, spot, index, inner_slot, leaf, crit),
            !before.tree_slots().contains(inner_slot as int),
            before.tree_slots().contains(spot as int),
            between.tree_slots() == before.tree_slots().insert(index as int).insert(
                inner_slot as int,
            ),
            if parent == INVALID_INDEX {
                &&& spot as u64 == before.header.root
                &&& between.header.root == inner_slot as u64
            } else {
                &&& before.tree_slots().contains(parent as int)
                &&& branch_at(before.nodes@, parent).child_toward(leaf.key) == spot
                &&& between.header.root == before.header.root
            },
            pruned(between.nodes@, after.nodes@, grand, above, index, sibling, leaf.key),
            between.tree_slots().contains(above as int),
            between.nodes@[above as int].node is Inner,
            branch_at(between.nodes@, above).child_toward(leaf.key) == index,
            branch_at(between.nodes@, above).child_away(leaf.key) == sibling,
            after.tree_slots() == between.tree_slots().remove(index as int).remove(above as int),
            if grand == INVALID_INDEX {
                &&& above as u64 == between.header.root
                &&& after.header.root == sibling as u64
            } else {
                &&& between.tree_slots().contains(grand as int)
                &&& between.nodes@[grand as int].node is Inner
                &&& branch_at(between.nodes@, grand).child_toward(leaf.key) == above
                &&& after.header.root == between.header.root
            },
        ensures
            after.header.root == before.header.root,
            after.tree_slots() == before.tree_slots(),
            forall|slot: int|
                before.tree_slots().contains(slot) ==> #[trigger] after.nodes@[slot]
                    == before.nodes@[slot],
    {
        let key = leaf.key;
        let root = before.header.root as u32;
        let top = between.header.root as u32;
        // The node above the leaf is the node that came with it.
        assert(above == inner_slot) by {
            lemma_parent_unique(between.nodes@, top, 0, 0, index, inner_slot, above);
        }
        assert(sibling == spot);
        if parent == INVALID_INDEX {
            assert(grand == INVALID_INDEX) by {
                if grand != INVALID_INDEX {
                    lemma_root_has_no_parent(between.nodes@, top, grand);
                }
            }
        } else {
            lemma_slot_facts(before.nodes@, root, 0, 0, parent as int);
            assert(between.nodes@[parent as int].node is Inner);
            assert(grand == parent) by {
                if grand == INVALID_INDEX {
                    lemma_root_has_no_parent(between.nodes@, top, parent);
                } else {
                    lemma_parent_unique(between.nodes@, top, 0, 0, inner_slot, parent, grand);
                }
            }
            let restored = branch_at(after.nodes@, parent);
            let first = branch_at(before.nodes@, parent);
            assert(restored.children =~= first.children);
            assert(after.nodes@[parent as int] == before.nodes@[parent as int]);
        }
        assert(after.tree_slots() =~= before.tree_slots());
        assert forall|slot: int| before.tree_slots().contains(slot) implies #[trigger]
            after.nodes@[slot] == before.nodes@[slot] by {
            lemma_slot_facts(before.nodes@, root, 0, 0, slot);
            if slot != parent {
                assert(between.nodes@[slot] == before.nodes@[slot]);
                assert(after.nodes@[slot] == between.nodes@[slot]);
            }
        }
    }

    /// Putting an order in and taking it out again by the slot it was given
    /// restores the tree slot by slot: the same root, the same slots, and in
    /// each of them the same node. Only the pools of spare slots may differ:
    /// the two slots that were used come back to the free list.
    ///
    /// `before`, `between` and `after` are the book before `insert_leaf`,
    /// after it, and after `remove_leaf` of `index`, the slot that
    /// `insert_leaf` returned.
    pub proof fn lemma_insert_then_remove_restores_tree(
        before: Slab,
        between: Slab,
        after: Slab,
        leaf: LeafNode,
        index: u32,
    )
        requires
            before.wf(),
            between.wf(),
            Self::inserted(before, between, leaf, index),
            Self::removed(between, after, index),
        ensures
            after.header.root == before.header.root,
            after.tree_slots() == before.tree_slots(),
            forall|slot: int|
                before.tree_slots().contains(slot) ==> #[trigger] after.nodes@[slot]
                    == before.nodes@[slot],
    {
        if before.header.root == INVALID_INDEX as u64 {
            assert(before.tree_slots() =~= Set::<int>::empty());
        } else {
            let (parent, spot, inner_slot, crit): (u32, u32, u32, u64) = choose|
                parent: u32,
                spot: u32,
                inner_slot: u32,
                crit: u64,
            |
                {
                    &&& #[trigger] grafted(
                        before.nodes@,
                        between.nodes@,
                        parent,
                        spot,
                        index,
                        inner_slot,
                        leaf,
                        crit,
                    )
                    &&& !before.tree_slots().contains(inner_slot as int)
                    &&& before.tree_slots().contains(spot as int)
                    &&& between.tree_slots() == before.tree_slots().insert(index as int).insert(
                        inner_slot as int,
                    )
                    &&& if parent == INVALID_INDEX {
                        &&& spot as u64 == before.header.root
                        &&& between.header.root == inner_slot as u64
                    } else {
                        &&& before.tree_slots().contains(parent as int)
                        &&& branch_at(before.nodes@, parent).child_toward(leaf.key) == spot
                        &&& between.header.root == before.header.root
                    }
                };
            assert(between.tree_slots().contains(index as int));
            assert(between.header.root != INVALID_INDEX as u64);
            lemma_top_in_slots(before.nodes@, before.header.root as u32, 0, 0);
            assert(between.header.root != index as u64);
            let (grand, above, sibling): (u32, u32, u32) = choose|
                grand: u32,
                above: u32,
                sibling: u32,
            |
                {
                    &&& #[trigger] pruned(
                        between.nodes@,
                        after.nodes@,
                        grand,
                        above,
                        index,
                        sibling,
                        leaf.key,
                    )
                    &&& between.tree_slots().contains(above as int)
                    &&& between.nodes@[above as int].node is Inner
                    &&& branch_at(between.nodes@, above).child_toward(leaf.key) == index
                    &&& branch_at(between.nodes@, above).child_away(leaf.key) == sibling
                    &&& after.tree_slots() == between.tree_slots().remove(index as int).remove(
                        above as int,
                    )
                    &&& if grand == INVALID_INDEX {
                        &&& above as u64 == between.header.root
                        &&& after.header.root == sibling as u64
                    } else {
                        &&& between.tree_slots().contains(grand as int)
                        &&& between.nodes@[grand as int].node is Inner
                        &&& branch_at(between.nodes@, grand).child_toward(leaf.key) == above
                        &&& after.header.root == between.header.root
                    }
                };
            Self::lemma_restores_with(
                before,
                between,
                after,
                leaf,
                index,
                parent,
                spot,
                inner_slot,
                crit,
                grand,
                above,
                sibling,
            );
        }
    }

    /// An order stays in the slot it was given: putting another order in, or
    /// taking another order out, moves no order, so that a lookup by key
    /// keeps returning the slot that `insert_leaf` returned for the key.
    ///
    /// `before` and `after` are the book before and after an `insert_leaf`
    /// of `changed` (`inserted`) or a `remove_leaf` of it.
    pub proof fn lemma_slots_are_stable(
        before: Slab,
        after: Slab,
        changed: u128,
        index: u32,
        inserted: bool,
        key: u128,
    )
        requires
            after.slot_map() == if inserted {
                before.slot_map().insert(changed, index)
            } else {
                before.slot_map().remove(changed)
            },
            key != changed,
        ensures
            after.slot_map().contains_key(key) == before.slot_map().contains_key(key),
            before.slot_map().contains_key(key) ==> after.slot_map()[key] == before.slot_map()[key],
            inserted ==> after.slot_map().contains_key(changed) && after.slot_map()[changed]
                == index,
    {
    }

    /// The slot of the order with the largest key, if the book holds any order.
    pub fn find_max(&self) -> (found: Option<u32>)
        requires
            self.wf(),
        ensures
            found is None <==> self@.dom() =~= Set::empty(),
            found matches Some(idx) ==> {
                &&& is_leaf(self.nodes@, idx)
                &&& self.slot_map().contains_key(leaf_at(self.nodes@, idx).key)
                &&& self.slot_map()[leaf_at(self.nodes@, idx).key] == idx
                &&& forall|key: u128| #[trigger]
                    self@.contains_key(key) ==> key <= leaf_at(self.nodes@, idx).key
            },
    {
        self.find_edge(true)
    }

    /// The slot of the order with the smallest key, if the book holds any order.
    pub fn find_min(&self) -> (found: Option<u32>)
        requires
            self.wf(),
        ensures
            found is None <==> self@.dom() =~= Set::empty(),
            found matches Some(idx) ==> {
                &&& is_leaf(self.nodes@, idx)
                &&& self.slot_map().contains_key(leaf_at(self.nodes@, idx).key)
                &&& self.slot_map()[leaf_at(self.nodes@, idx).key] == idx
                &&& forall|key: u128| #[trigger]
                    self@.contains_key(key) ==> leaf_at(self.nodes@, idx).key <= key
            },
    {
        self.find_edge(false)
    }

    /// Walks from the root, always to the right (`right`) or always to the left.
    fn find_edge(&self, right: bool) -> (found: Option<u32>)
        requires
            self.wf(),
        ensures
            found is None <==> self@.dom() =~= Set::empty(),
            found matches Some(idx) ==> {
                &&& is_leaf(self.nodes@, idx)
                &&& self.slot_map().contains_key(leaf_at(self.nodes@, idx).key)
                &&& self.slot_map()[leaf_at(self.nodes@, idx).key] == idx
                &&& forall|key: u128| #[trigger]
                    self@.contains_key(key) ==> if right {
                        key <= leaf_at(self.nodes@, idx).key
                    } else {
                        leaf_at(self.nodes@, idx).key <= key
                    }
            },
    {
        if self.header.root == INVALID_INDEX as u64 {
            return None;
        }
        let root: u32 = self.header.root as u32;
        let mut current: u32 = root;
        let ghost mut lower: u64 = 0;
        let ghost mut anchor: u128 = 0;
        loop
            invariant
                subtree_ok(self.nodes@, current, lower, anchor),
                edge_leaf(self.nodes@, root, 0, right) == edge_leaf(
                    self.nodes@,
                    current,
                    lower,
                    right,
                ),
            ensures
                current == edge_leaf(self.nodes@, root, 0, right),
            decreases 128 - lower,
        {
            match &self.nodes[current as usize].node {
                NodeBody::Inner(inner) => {
                    proof {
                        anchor = crate::state::tree::side_anchor(*inner, right);
                        lower = crate::state::tree::below(*inner);
                    }
                    current = if right {
                        inner.right()
                    } else {
                        inner.left()
                    };
                },
                _ => {
                    break ;
                },
            }
        }
        proof {
            lemma_edge_leaf(self.nodes@, root, 0, 0, right);
            let edge_key = leaf_at(self.nodes@, current).key;
            assert(self.slot_map().contains_key(edge_key));
            assert(self@.dom().contains(edge_key));
        }
        Some(current)
    }

    /// The slot of the order with key `key`, if the book holds it.
    pub fn find_by_key(&self, key: u128) -> (found: Option<u32>)
        requires
            self.wf(),
        ensures
            found is Some <==> self@.contains_key(key),
            found matches Some(idx) ==> self.slot_map()[key] == idx,
    {
        if self.header.root == INVALID_INDEX as u64 {
            return None;
        }
        let root: u32 = self.header.root as u32;
        let mut current: u32 = root;
        let ghost mut lower: u64 = 0;
        let ghost mut anchor: u128 = 0;
        proof {
            lemma_descend(self.nodes@, root, 0, 0, key);
        }
        loop
            invariant
                subtree_ok(self.nodes@, current, lower, anchor),
                descend(self.nodes@, root, 0, key) == descend(self.nodes@, current, lower, key),
            ensures
                current == descend(self.nodes@, root, 0, key),
            decreases 128 - lower,
        {
            match &self.nodes[current as usize].node {
                NodeBody::Inner(inner) => {
                    proof {
                        anchor = crate::state::tree::side_anchor(
                            *inner,
                            bit_at(key, inner.prefix_len),
                        );
                        lower = crate::state::tree::below(*inner);
                    }
                    current = inner.walk_down(key);
                },
                _ => {
                    break ;
                },
            }
        }
        let leaf = self.nodes[current as usize].as_leaf();
        if leaf.key == key {
            Some(current)
        } else {
            None
        }
    }
}

} // verus!
