//! What a pool of slots means as a crit-bit tree.
//!
//! A subtree is described by the slot of its top node, a lower bound on the
//! prefix lengths found in it, and an anchor key: every key in the subtree
//! shares its first `lower` bits with the anchor. Prefix lengths grow strictly
//! on the way down, which bounds every walk by 128 steps.

use vstd::prelude::*;

use crate::keybits::{
    bit_at, lemma_branch_orders, lemma_share_prefix_bits, lemma_share_prefix_refl,
    lemma_share_prefix_shorter, lemma_share_prefix_step, lemma_share_prefix_sym,
    lemma_share_prefix_trans, share_prefix, with_bit,
};
use crate::state::slab::{AnyNode, InnerNode, LeafNode, NodeBody};

verus! {

/// Whether slot `idx` holds a branching node whose prefix length is at least `lower`.
pub open spec fn is_branch(nodes: Seq<AnyNode>, idx: u32, lower: u64) -> bool {
    &&& (idx as int) < nodes.len()
    &&& nodes[idx as int].node is Inner
    &&& lower <= nodes[idx as int].node->Inner_0.prefix_len < 128
}

/// The branching node in slot `idx`.
pub open spec fn branch_at(nodes: Seq<AnyNode>, idx: u32) -> InnerNode {
    nodes[idx as int].node->Inner_0
}

/// The order in slot `idx`.
pub open spec fn leaf_at(nodes: Seq<AnyNode>, idx: u32) -> LeafNode {
    nodes[idx as int].node->Leaf_0
}

/// Whether slot `idx` holds an order.
pub open spec fn is_leaf(nodes: Seq<AnyNode>, idx: u32) -> bool {
    (idx as int) < nodes.len() && nodes[idx as int].node is Leaf
}

/// The lower bound that holds below the branching node `inner`.
pub open spec fn below(inner: InnerNode) -> u64 {
    (inner.prefix_len + 1) as u64
}

/// The anchor of the subtree on side `side` of `inner`.
pub open spec fn side_anchor(inner: InnerNode, side: bool) -> u128 {
    with_bit(inner.key, inner.prefix_len, side)
}

/// Whether the nodes reached from slot `idx` form a crit-bit tree whose keys
/// all share their first `lower` bits with `anchor`.
pub open spec fn subtree_ok(nodes: Seq<AnyNode>, idx: u32, lower: u64, anchor: u128) -> bool
    decreases 128 - lower,
{
    if is_leaf(nodes, idx) {
        share_prefix(leaf_at(nodes, idx).key, anchor, lower)
    } else if is_branch(nodes, idx, lower) {
        let inner = branch_at(nodes, idx);
        &&& share_prefix(inner.key, anchor, lower)
        &&& subtree_ok(nodes, inner.children[0], below(inner), side_anchor(inner, false))
        &&& subtree_ok(nodes, inner.children[1], below(inner), side_anchor(inner, true))
    } else {
        false
    }
}

/// The slots reached from slot `idx`.
pub open spec fn subtree_slots(nodes: Seq<AnyNode>, idx: u32, lower: u64) -> Set<int>
    decreases 128 - lower,
{
    if is_leaf(nodes, idx) {
        set![idx as int]
    } else if is_branch(nodes, idx, lower) {
        let inner = branch_at(nodes, idx);
        (subtree_slots(nodes, inner.children[0], below(inner)) + subtree_slots(
            nodes,
            inner.children[1],
            below(inner),
        )).insert(idx as int)
    } else {
        Set::empty()
    }
}

/// The orders reached from slot `idx`: each key with the slot of its leaf.
pub open spec fn subtree_leaves(nodes: Seq<AnyNode>, idx: u32, lower: u64) -> Map<u128, u32>
    decreases 128 - lower,
{
    if is_leaf(nodes, idx) {
        map![leaf_at(nodes, idx).key => idx]
    } else if is_branch(nodes, idx, lower) {
        let inner = branch_at(nodes, idx);
        subtree_leaves(nodes, inner.children[0], below(inner)).union_prefer_right(
            subtree_leaves(nodes, inner.children[1], below(inner)),
        )
    } else {
        Map::empty()
    }
}

/// The key that stands in a tree node: an order's key, or a branching node's
/// reference key.
pub open spec fn slot_key(node: AnyNode) -> u128 {
    match node.node {
        NodeBody::Leaf(leaf) => leaf.key,
        NodeBody::Inner(inner) => inner.key,
        _ => 0,
    }
}

/// A key found on side `side` of a branching node shares the node's prefix
/// and has `side` as its next bit; it also shares the prefix of whatever
/// anchor the node itself answers to.
pub proof fn lemma_under_side(x: u128, inner: InnerNode, side: bool, lower: u64, anchor: u128)
    requires
        lower <= inner.prefix_len < 128,
        share_prefix(x, side_anchor(inner, side), below(inner)),
        share_prefix(inner.key, anchor, lower),
    ensures
        share_prefix(x, inner.key, inner.prefix_len),
        bit_at(x, inner.prefix_len) == side,
        share_prefix(x, anchor, lower),
{
    lemma_share_prefix_step(x, inner.key, inner.prefix_len, side);
    lemma_share_prefix_shorter(x, inner.key, inner.prefix_len, lower);
    lemma_share_prefix_trans(x, inner.key, anchor, lower);
}

/// Every slot of a well-formed subtree holds a tree node whose key shares the
/// anchor's prefix; a branching node's prefix length respects the lower bound,
/// and a leaf is listed under its key.
pub proof fn lemma_slot_facts(nodes: Seq<AnyNode>, idx: u32, lower: u64, anchor: u128, slot: int)
    requires
        subtree_ok(nodes, idx, lower, anchor),
        subtree_slots(nodes, idx, lower).contains(slot),
    ensures
        0 <= slot < nodes.len(),
        slot <= u32::MAX,
        nodes[slot].node is Leaf || nodes[slot].node is Inner,
        share_prefix(slot_key(nodes[slot]), anchor, lower),
        nodes[slot].node is Inner ==> lower <= nodes[slot].node->Inner_0.prefix_len < 128,
        nodes[slot].node is Leaf ==> subtree_leaves(nodes, idx, lower).contains_key(
            slot_key(nodes[slot]),
        ) && subtree_leaves(nodes, idx, lower)[slot_key(nodes[slot])] == slot,
    decreases 128 - lower,
{
    if is_leaf(nodes, idx) {
    } else {
        let inner = branch_at(nodes, idx);
        if slot != idx as int {
            let side = subtree_slots(nodes, inner.children[1], below(inner)).contains(slot);
            let child = if side {
                inner.children[1]
            } else {
                inner.children[0]
            };
            lemma_slot_facts(nodes, child, below(inner), side_anchor(inner, side), slot);
            lemma_under_side(slot_key(nodes[slot]), inner, side, lower, anchor);
            if nodes[slot].node is Leaf && !side {
                // A left leaf is not shadowed by the right map.
                let key = slot_key(nodes[slot]);
                if subtree_leaves(nodes, inner.children[1], below(inner)).contains_key(key) {
                    lemma_leaf_facts(
                        nodes,
                        inner.children[1],
                        below(inner),
                        side_anchor(inner, true),
                        key,
                    );
                    lemma_under_side(key, inner, true, lower, anchor);
                }
            }
        }
    }
}

/// Every listed key of a well-formed subtree shares the anchor's prefix and
/// names a slot of the subtree that holds the leaf with that key.
pub proof fn lemma_leaf_facts(nodes: Seq<AnyNode>, idx: u32, lower: u64, anchor: u128, key: u128)
    requires
        subtree_ok(nodes, idx, lower, anchor),
        subtree_leaves(nodes, idx, lower).contains_key(key),
    ensures
        share_prefix(key, anchor, lower),
        subtree_slots(nodes, idx, lower).contains(subtree_leaves(nodes, idx, lower)[key] as int),
        is_leaf(nodes, subtree_leaves(nodes, idx, lower)[key]),
        leaf_at(nodes, subtree_leaves(nodes, idx, lower)[key]).key == key,
    decreases 128 - lower,
{
    if is_leaf(nodes, idx) {
    } else {
        let inner = branch_at(nodes, idx);
        let side = subtree_leaves(nodes, inner.children[1], below(inner)).contains_key(key);
        let child = if side {
            inner.children[1]
        } else {
            inner.children[0]
        };
        lemma_leaf_facts(nodes, child, below(inner), side_anchor(inner, side), key);
        lemma_under_side(key, inner, side, lower, anchor);
    }
}

/// The two sides of a branching node have no slot and no key in common, and
/// the node's own slot is on neither side.
pub proof fn lemma_sides_disjoint(nodes: Seq<AnyNode>, idx: u32, lower: u64, anchor: u128)
    requires
        subtree_ok(nodes, idx, lower, anchor),
        is_branch(nodes, idx, lower),
    ensures
        subtree_slots(nodes, branch_at(nodes, idx).children[0], below(branch_at(nodes, idx)))
            .disjoint(
            subtree_slots(nodes, branch_at(nodes, idx).children[1], below(branch_at(nodes, idx))),
        ),
        !subtree_slots(nodes, branch_at(nodes, idx).children[0], below(branch_at(nodes, idx)))
            .contains(idx as int),
        !subtree_slots(nodes, branch_at(nodes, idx).children[1], below(branch_at(nodes, idx)))
            .contains(idx as int),
        subtree_leaves(nodes, branch_at(nodes, idx).children[0], below(branch_at(nodes, idx)))
            .dom().disjoint(
            subtree_leaves(nodes, branch_at(nodes, idx).children[1], below(branch_at(nodes, idx)))
                .dom(),
        ),
{
    let inner = branch_at(nodes, idx);
    let left = subtree_slots(nodes, inner.children[0], below(inner));
    let right = subtree_slots(nodes, inner.children[1], below(inner));
    assert forall|slot: int| left.contains(slot) implies !right.contains(slot) && slot
        != idx as int by {
        lemma_slot_facts(nodes, inner.children[0], below(inner), side_anchor(inner, false), slot);
        lemma_under_side(slot_key(nodes[slot]), inner, false, lower, anchor);
        if right.contains(slot) {
            lemma_slot_facts(
                nodes,
                inner.children[1],
                below(inner),
                side_anchor(inner, true),
                slot,
            );
            lemma_under_side(slot_key(nodes[slot]), inner, true, lower, anchor);
        }
    }
    assert forall|slot: int| right.contains(slot) implies slot != idx as int by {
        lemma_slot_facts(nodes, inner.children[1], below(inner), side_anchor(inner, true), slot);
    }
    let left_keys = subtree_leaves(nodes, inner.children[0], below(inner));
    let right_keys = subtree_leaves(nodes, inner.children[1], below(inner));
    assert forall|key: u128| left_keys.dom().contains(key) implies !right_keys.dom().contains(
        key,
    ) by {
        lemma_leaf_facts(nodes, inner.children[0], below(inner), side_anchor(inner, false), key);
        lemma_under_side(key, inner, false, lower, anchor);
        if right_keys.dom().contains(key) {
            lemma_leaf_facts(
                nodes,
                inner.children[1],
                below(inner),
                side_anchor(inner, true),
                key,
            );
            lemma_under_side(key, inner, true, lower, anchor);
        }
    }
}

/// A subtree depends only on its own slots: a pool that agrees with `nodes`
/// on them holds the same subtree.
pub proof fn lemma_frame(
    nodes: Seq<AnyNode>,
    other: Seq<AnyNode>,
    idx: u32,
    lower: u64,
    anchor: u128,
)
    requires
        subtree_ok(nodes, idx, lower, anchor),
        other.len() == nodes.len(),
        forall|slot: int| #[trigger]
            subtree_slots(nodes, idx, lower).contains(slot) ==> other[slot] == nodes[slot],
    ensures
        subtree_ok(other, idx, lower, anchor),
        subtree_slots(other, idx, lower) == subtree_slots(nodes, idx, lower),
        subtree_leaves(other, idx, lower) == subtree_leaves(nodes, idx, lower),
    decreases 128 - lower,
{
    assert(subtree_slots(nodes, idx, lower).contains(idx as int));
    if is_leaf(nodes, idx) {
    } else {
        let inner = branch_at(nodes, idx);
        let all = subtree_slots(nodes, idx, lower);
        assert forall|slot: int| #[trigger]
            subtree_slots(nodes, inner.children[0], below(inner)).contains(
                slot,
            ) implies other[slot] == nodes[slot] by {
            assert(all.contains(slot));
        }
        assert forall|slot: int| #[trigger]
            subtree_slots(nodes, inner.children[1], below(inner)).contains(
                slot,
            ) implies other[slot] == nodes[slot] by {
            assert(all.contains(slot));
        }
        lemma_frame(nodes, other, inner.children[0], below(inner), side_anchor(inner, false));
        lemma_frame(nodes, other, inner.children[1], below(inner), side_anchor(inner, true));
    }
}

/// A well-formed subtree can answer to another bound and anchor, as long as
/// its top node respects them; its slots and keys do not change.
pub proof fn lemma_rebase(
    nodes: Seq<AnyNode>,
    idx: u32,
    lower: u64,
    anchor: u128,
    new_lower: u64,
    new_anchor: u128,
)
    requires
        subtree_ok(nodes, idx, lower, anchor),
        new_lower <= 128,
        share_prefix(slot_key(nodes[idx as int]), new_anchor, new_lower),
        nodes[idx as int].node is Inner ==> new_lower <= branch_at(nodes, idx).prefix_len,
    ensures
        subtree_ok(nodes, idx, new_lower, new_anchor),
        subtree_slots(nodes, idx, new_lower) == subtree_slots(nodes, idx, lower),
        subtree_leaves(nodes, idx, new_lower) == subtree_leaves(nodes, idx, lower),
{
}

/// A well-formed subtree has finitely many slots and keys, and at least one key.
pub proof fn lemma_subtree_finite(nodes: Seq<AnyNode>, idx: u32, lower: u64, anchor: u128)
    requires
        subtree_ok(nodes, idx, lower, anchor),
    ensures
        subtree_slots(nodes, idx, lower).finite(),
        subtree_leaves(nodes, idx, lower).dom().finite(),
        subtree_leaves(nodes, idx, lower).len() >= 1,
    decreases 128 - lower,
{
    if is_leaf(nodes, idx) {
        let key = leaf_at(nodes, idx).key;
        assert(subtree_leaves(nodes, idx, lower).dom() =~= set![key]);
    } else {
        let inner = branch_at(nodes, idx);
        lemma_subtree_finite(nodes, inner.children[0], below(inner), side_anchor(inner, false));
        lemma_subtree_finite(nodes, inner.children[1], below(inner), side_anchor(inner, true));
        let left = subtree_leaves(nodes, inner.children[0], below(inner));
        let right = subtree_leaves(nodes, inner.children[1], below(inner));
        assert(subtree_leaves(nodes, idx, lower).dom() =~= left.dom() + right.dom());
        vstd::set_lib::lemma_len_union(left.dom(), right.dom());
        vstd::set_lib::lemma_len_subset(left.dom(), left.dom() + right.dom());
    }
}

/// A subtree whose top node branches holds at least two keys.
pub proof fn lemma_branch_has_two(nodes: Seq<AnyNode>, idx: u32, lower: u64, anchor: u128)
    requires
        subtree_ok(nodes, idx, lower, anchor),
        !is_leaf(nodes, idx),
    ensures
        subtree_leaves(nodes, idx, lower).len() >= 2,
{
    let inner = branch_at(nodes, idx);
    lemma_subtree_finite(nodes, inner.children[0], below(inner), side_anchor(inner, false));
    lemma_subtree_finite(nodes, inner.children[1], below(inner), side_anchor(inner, true));
    lemma_sides_disjoint(nodes, idx, lower, anchor);
    let left = subtree_leaves(nodes, inner.children[0], below(inner));
    let right = subtree_leaves(nodes, inner.children[1], below(inner));
    assert(subtree_leaves(nodes, idx, lower).dom() =~= left.dom() + right.dom());
    vstd::set_lib::lemma_set_disjoint_lens(left.dom(), right.dom());
}

/// A well-formed subtree of `n` keys takes `2n - 1` slots.
pub proof fn lemma_slot_count(nodes: Seq<AnyNode>, idx: u32, lower: u64, anchor: u128)
    requires
        subtree_ok(nodes, idx, lower, anchor),
    ensures
        subtree_slots(nodes, idx, lower).finite(),
        subtree_slots(nodes, idx, lower).len() == 2 * subtree_leaves(nodes, idx, lower).len() - 1,
    decreases 128 - lower,
{
    lemma_subtree_finite(nodes, idx, lower, anchor);
    if is_leaf(nodes, idx) {
        let key = leaf_at(nodes, idx).key;
        assert(subtree_leaves(nodes, idx, lower).dom() =~= set![key]);
    } else {
        let inner = branch_at(nodes, idx);
        lemma_slot_count(nodes, inner.children[0], below(inner), side_anchor(inner, false));
        lemma_slot_count(nodes, inner.children[1], below(inner), side_anchor(inner, true));
        lemma_subtree_finite(nodes, inner.children[0], below(inner), side_anchor(inner, false));
        lemma_subtree_finite(nodes, inner.children[1], below(inner), side_anchor(inner, true));
        lemma_sides_disjoint(nodes, idx, lower, anchor);
        let left = subtree_leaves(nodes, inner.children[0], below(inner));
        let right = subtree_leaves(nodes, inner.children[1], below(inner));
        let left_slots = subtree_slots(nodes, inner.children[0], below(inner));
        let right_slots = subtree_slots(nodes, inner.children[1], below(inner));
        assert(subtree_leaves(nodes, idx, lower).dom() =~= left.dom() + right.dom());
        vstd::set_lib::lemma_set_disjoint_lens(left.dom(), right.dom());
        vstd::set_lib::lemma_set_disjoint_lens(left_slots, right_slots);
        assert(subtree_slots(nodes, idx, lower) =~= (left_slots + right_slots).insert(idx as int));
    }
}

/// A well-formed subtree has no slot outside the pool, and no more keys
/// than the pool has slots.
pub proof fn lemma_leaf_bound(nodes: Seq<AnyNode>, idx: u32, lower: u64, anchor: u128)
    requires
        subtree_ok(nodes, idx, lower, anchor),
    ensures
        subtree_leaves(nodes, idx, lower).len() <= nodes.len(),
        subtree_slots(nodes, idx, lower).len() <= nodes.len(),
{
    lemma_slot_count(nodes, idx, lower, anchor);
    lemma_subtree_finite(nodes, idx, lower, anchor);
    let slots = subtree_slots(nodes, idx, lower);
    let all = vstd::set_lib::set_int_range(0, nodes.len() as int);
    vstd::set_lib::lemma_int_range(0, nodes.len() as int);
    assert forall|slot: int| slots.contains(slot) implies all.contains(slot) by {
        lemma_slot_facts(nodes, idx, lower, anchor, slot);
    }
    vstd::set_lib::lemma_len_subset(slots, all);
}

/// The slot reached from `idx` by always taking the right child (`right`) or
/// always the left one.
pub open spec fn edge_leaf(nodes: Seq<AnyNode>, idx: u32, lower: u64, right: bool) -> u32
    decreases 128 - lower,
{
    if is_branch(nodes, idx, lower) {
        let inner = branch_at(nodes, idx);
        edge_leaf(
            nodes,
            if right {
                inner.children[1]
            } else {
                inner.children[0]
            },
            below(inner),
            right,
        )
    } else {
        idx
    }
}

/// The slot reached from `idx` by following the bits of `key`.
pub open spec fn descend(nodes: Seq<AnyNode>, idx: u32, lower: u64, key: u128) -> u32
    decreases 128 - lower,
{
    if is_branch(nodes, idx, lower) {
        let inner = branch_at(nodes, idx);
        descend(nodes, inner.child_toward(key), below(inner), key)
    } else {
        idx
    }
}

/// The leftmost leaf of a well-formed subtree holds its smallest key, the
/// rightmost leaf its largest.
pub proof fn lemma_edge_leaf(nodes: Seq<AnyNode>, idx: u32, lower: u64, anchor: u128, right: bool)
    requires
        subtree_ok(nodes, idx, lower, anchor),
    ensures
        is_leaf(nodes, edge_leaf(nodes, idx, lower, right)),
        subtree_leaves(nodes, idx, lower).contains_key(
            leaf_at(nodes, edge_leaf(nodes, idx, lower, right)).key,
        ),
        subtree_leaves(nodes, idx, lower)[leaf_at(nodes, edge_leaf(nodes, idx, lower, right)).key]
            == edge_leaf(nodes, idx, lower, right),
        forall|key: u128| #[trigger]
            subtree_leaves(nodes, idx, lower).contains_key(key) ==> if right {
                key <= leaf_at(nodes, edge_leaf(nodes, idx, lower, right)).key
            } else {
                leaf_at(nodes, edge_leaf(nodes, idx, lower, right)).key <= key
            },
    decreases 128 - lower,
{
    if is_leaf(nodes, idx) {
    } else {
        let inner = branch_at(nodes, idx);
        let near = if right {
            inner.children[1]
        } else {
            inner.children[0]
        };
        let far = if right {
            inner.children[0]
        } else {
            inner.children[1]
        };
        let edge = edge_leaf(nodes, idx, lower, right);
        let edge_key = leaf_at(nodes, edge).key;
        lemma_edge_leaf(nodes, near, below(inner), side_anchor(inner, right), right);
        lemma_sides_disjoint(nodes, idx, lower, anchor);
        lemma_leaf_facts(nodes, near, below(inner), side_anchor(inner, right), edge_key);
        lemma_under_side(edge_key, inner, right, lower, anchor);
        assert forall|key: u128| #[trigger]
            subtree_leaves(nodes, idx, lower).contains_key(key) implies if right {
            key <= edge_key
        } else {
            edge_key <= key
        } by {
            if subtree_leaves(nodes, far, below(inner)).contains_key(key) {
                lemma_leaf_facts(nodes, far, below(inner), side_anchor(inner, !right), key);
                lemma_under_side(key, inner, !right, lower, anchor);
                lemma_share_prefix_sym(key, inner.key, inner.prefix_len);
                if right {
                    lemma_share_prefix_sym(edge_key, inner.key, inner.prefix_len);
                    lemma_share_prefix_trans(key, inner.key, edge_key, inner.prefix_len);
                    lemma_branch_orders(key, edge_key, inner.prefix_len);
                } else {
                    lemma_share_prefix_trans(edge_key, inner.key, key, inner.prefix_len);
                    lemma_branch_orders(edge_key, key, inner.prefix_len);
                }
            } else {
                assert(subtree_leaves(nodes, near, below(inner)).contains_key(key));
            }
        }
    }
}

/// Following the bits of `key` through a well-formed subtree ends at the leaf
/// that holds `key`, if any leaf does.
pub proof fn lemma_descend(nodes: Seq<AnyNode>, idx: u32, lower: u64, anchor: u128, key: u128)
    requires
        subtree_ok(nodes, idx, lower, anchor),
    ensures
        is_leaf(nodes, descend(nodes, idx, lower, key)),
        subtree_slots(nodes, idx, lower).contains(descend(nodes, idx, lower, key) as int),
        subtree_leaves(nodes, idx, lower).contains_key(key) <==> leaf_at(
            nodes,
            descend(nodes, idx, lower, key),
        ).key == key,
        subtree_leaves(nodes, idx, lower).contains_key(key) ==> subtree_leaves(
            nodes,
            idx,
            lower,
        )[key] == descend(nodes, idx, lower, key),
    decreases 128 - lower,
{
    if is_leaf(nodes, idx) {
    } else {
        let inner = branch_at(nodes, idx);
        let side = bit_at(key, inner.prefix_len);
        let near = inner.child_toward(key);
        let far = if side {
            inner.children[0]
        } else {
            inner.children[1]
        };
        lemma_descend(nodes, near, below(inner), side_anchor(inner, side), key);
        if subtree_leaves(nodes, far, below(inner)).contains_key(key) {
            lemma_leaf_facts(nodes, far, below(inner), side_anchor(inner, !side), key);
            lemma_under_side(key, inner, !side, lower, anchor);
        }
    }
}

/// Whether the walk that places `key` goes on below slot `idx`: the slot
/// branches, and `key` shares the prefix of everything below it.
pub open spec fn walk_continues(nodes: Seq<AnyNode>, idx: u32, lower: u64, key: u128) -> bool {
    &&& is_branch(nodes, idx, lower)
    &&& share_prefix(key, branch_at(nodes, idx).key, branch_at(nodes, idx).prefix_len)
}

/// Where `key` is to be grafted below slot `idx`: the slot whose place the new
/// branching node takes, and before it the slot above that one (`parent` when
/// the walk stops at `idx` itself).
pub open spec fn insert_spot(nodes: Seq<AnyNode>, parent: u32, idx: u32, lower: u64, key: u128) -> (
    u32,
    u32,
)
    decreases 128 - lower,
{
    if walk_continues(nodes, idx, lower, key) {
        let inner = branch_at(nodes, idx);
        insert_spot(nodes, idx, inner.child_toward(key), below(inner), key)
    } else {
        (parent, idx)
    }
}

/// The pool `after` is `before` with a leaf grafted in: slot `leaf_slot` holds
/// `leaf`, slot `inner_slot` a new branching node over it and `spot`, and
/// `parent`, if there is one, points to the new node where it pointed to `spot`.
pub open spec fn grafted(
    before: Seq<AnyNode>,
    after: Seq<AnyNode>,
    parent: u32,
    spot: u32,
    leaf_slot: u32,
    inner_slot: u32,
    leaf: LeafNode,
    crit: u64,
) -> bool {
    &&& after.len() == before.len()
    &&& leaf_slot != inner_slot
    &&& (leaf_slot as int) < before.len()
    &&& (inner_slot as int) < before.len()
    &&& after[leaf_slot as int].node == NodeBody::Leaf(leaf)
    &&& after[inner_slot as int].node is Inner
    &&& branch_at(after, inner_slot).prefix_len == crit
    &&& branch_at(after, inner_slot).key == leaf.key
    &&& branch_at(after, inner_slot).child_toward(leaf.key) == leaf_slot
    &&& branch_at(after, inner_slot).children[if bit_at(leaf.key, crit) {
        0int
    } else {
        1int
    }] == spot
    &&& parent != leaf_slot
    &&& parent != inner_slot
    &&& (parent as int) < before.len() ==> {
        &&& before[parent as int].node is Inner
        &&& after[parent as int].node is Inner
        &&& branch_at(after, parent).prefix_len == branch_at(before, parent).prefix_len
        &&& branch_at(after, parent).key == branch_at(before, parent).key
        &&& branch_at(after, parent).child_toward(leaf.key) == inner_slot
        &&& branch_at(after, parent).children[if bit_at(
            leaf.key,
            branch_at(before, parent).prefix_len,
        ) {
            0int
        } else {
            1int
        }] == branch_at(before, parent).children[if bit_at(
            leaf.key,
            branch_at(before, parent).prefix_len,
        ) {
            0int
        } else {
            1int
        }]
    }
    &&& forall|slot: int|
        0 <= slot < before.len() && slot != leaf_slot && slot != inner_slot && slot
            != parent ==> #[trigger] after[slot] == before[slot]
}

/// The spot found below `idx` is a slot of that subtree. Unless the walk
/// stopped at `idx` itself, the slot above the spot is one too, and it is a
/// branching node whose child on the side of `key` is the spot.
pub proof fn lemma_insert_spot(
    nodes: Seq<AnyNode>,
    parent: u32,
    idx: u32,
    lower: u64,
    anchor: u128,
    key: u128,
)
    requires
        subtree_ok(nodes, idx, lower, anchor),
    ensures
        ({
            let (above, spot) = insert_spot(nodes, parent, idx, lower, key);
            &&& subtree_slots(nodes, idx, lower).contains(spot as int)
            &&& spot == idx ==> above == parent
            &&& spot != idx ==> {
                &&& subtree_slots(nodes, idx, lower).contains(above as int)
                &&& nodes[above as int].node is Inner
                &&& branch_at(nodes, above).prefix_len < 128
                &&& branch_at(nodes, above).child_toward(key) == spot
            }
        }),
    decreases 128 - lower,
{
    if walk_continues(nodes, idx, lower, key) {
        let inner = branch_at(nodes, idx);
        let side = bit_at(key, inner.prefix_len);
        let near = inner.child_toward(key);
        lemma_insert_spot(nodes, idx, near, below(inner), side_anchor(inner, side), key);
        lemma_sides_disjoint(nodes, idx, lower, anchor);
    }
}

/// One step of a walk that follows `key`: the child on the side of `key` is
/// a well-formed subtree that `key` belongs under, and it holds `key` only if
/// the subtree at `idx` does.
pub proof fn lemma_walk_step(nodes: Seq<AnyNode>, idx: u32, lower: u64, anchor: u128, key: u128)
    requires
        subtree_ok(nodes, idx, lower, anchor),
        walk_continues(nodes, idx, lower, key),
    ensures
        ({
            let inner = branch_at(nodes, idx);
            let side = bit_at(key, inner.prefix_len);
            &&& subtree_ok(nodes, inner.child_toward(key), below(inner), side_anchor(inner, side))
            &&& share_prefix(key, side_anchor(inner, side), below(inner))
            &&& subtree_leaves(nodes, inner.child_toward(key), below(inner)).contains_key(key)
                <==> subtree_leaves(nodes, idx, lower).contains_key(key)
            &&& subtree_leaves(nodes, idx, lower).contains_key(key) ==> subtree_leaves(
                nodes,
                idx,
                lower,
            )[key] == subtree_leaves(nodes, inner.child_toward(key), below(inner))[key]
        }),
{
    let inner = branch_at(nodes, idx);
    let side = bit_at(key, inner.prefix_len);
    lemma_share_prefix_step(key, inner.key, inner.prefix_len, side);
    let far = if side {
        inner.children[0]
    } else {
        inner.children[1]
    };
    if subtree_leaves(nodes, far, below(inner)).contains_key(key) {
        lemma_leaf_facts(nodes, far, below(inner), side_anchor(inner, !side), key);
        lemma_under_side(key, inner, !side, lower, anchor);
    }
}

/// Grafting a leaf at the spot found for its key keeps the subtree
/// well-formed, adds the two new slots to it, and adds the key to its keys.
pub proof fn lemma_graft(
    before: Seq<AnyNode>,
    after: Seq<AnyNode>,
    idx: u32,
    lower: u64,
    anchor: u128,
    above: u32,
    parent: u32,
    spot: u32,
    leaf_slot: u32,
    inner_slot: u32,
    leaf: LeafNode,
    crit: u64,
)
    requires
        subtree_ok(before, idx, lower, anchor),
        share_prefix(leaf.key, anchor, lower),
        insert_spot(before, above, idx, lower, leaf.key) == (parent, spot),
        !subtree_slots(before, idx, lower).contains(above as int),
        !subtree_slots(before, idx, lower).contains(leaf_slot as int),
        !subtree_slots(before, idx, lower).contains(inner_slot as int),
        crit < 128,
        share_prefix(leaf.key, slot_key(before[spot as int]), crit),
        bit_at(leaf.key, crit) != bit_at(slot_key(before[spot as int]), crit),
        before[spot as int].node is Inner ==> crit < branch_at(before, spot).prefix_len,
        grafted(before, after, parent, spot, leaf_slot, inner_slot, leaf, crit),
    ensures
        ({
            let top = if idx == spot {
                inner_slot
            } else {
                idx
            };
            &&& subtree_ok(after, top, lower, anchor)
            &&& subtree_slots(after, top, lower) == subtree_slots(before, idx, lower).insert(
                leaf_slot as int,
            ).insert(inner_slot as int)
            &&& subtree_leaves(after, top, lower) == subtree_leaves(before, idx, lower).insert(
                leaf.key,
                leaf_slot,
            )
            &&& !subtree_leaves(before, idx, lower).contains_key(leaf.key)
        }),
    decreases 128 - lower,
{
    let key = leaf.key;
    lemma_insert_spot(before, above, idx, lower, anchor, key);
    if walk_continues(before, idx, lower, key) {
        let inner = branch_at(before, idx);
        let side = bit_at(key, inner.prefix_len);
        let near = inner.child_toward(key);
        let far = if side {
            inner.children[0]
        } else {
            inner.children[1]
        };
        lemma_sides_disjoint(before, idx, lower, anchor);
        lemma_insert_spot(before, idx, near, below(inner), side_anchor(inner, side), key);
        lemma_share_prefix_step(key, inner.key, inner.prefix_len, side);
        assert(subtree_slots(before, idx, lower).contains(idx as int));
        assert forall|slot: int| #[trigger]
            subtree_slots(before, near, below(inner)).contains(slot) implies subtree_slots(
            before,
            idx,
            lower,
        ).contains(slot) by {}
        assert forall|slot: int| #[trigger]
            subtree_slots(before, far, below(inner)).contains(slot) implies subtree_slots(
            before,
            idx,
            lower,
        ).contains(slot) by {}
        lemma_graft(
            before,
            after,
            near,
            below(inner),
            side_anchor(inner, side),
            idx,
            parent,
            spot,
            leaf_slot,
            inner_slot,
            leaf,
            crit,
        );
        assert forall|slot: int| #[trigger]
            subtree_slots(before, far, below(inner)).contains(slot) implies after[slot]
            == before[slot] by {
            lemma_slot_facts(before, far, below(inner), side_anchor(inner, !side), slot);
        }
        lemma_frame(before, after, far, below(inner), side_anchor(inner, !side));
        let new_near = if near == spot {
            inner_slot
        } else {
            near
        };
        assert(after[idx as int].node is Inner);
        assert(branch_at(after, idx).prefix_len == inner.prefix_len);
        assert(branch_at(after, idx).key == inner.key);
        assert(branch_at(after, idx).child_toward(key) == new_near);
        assert(branch_at(after, idx).children[if side {
            0int
        } else {
            1int
        }] == far);
        if subtree_leaves(before, far, below(inner)).contains_key(key) {
            lemma_leaf_facts(before, far, below(inner), side_anchor(inner, !side), key);
            lemma_under_side(key, inner, !side, lower, anchor);
        }
        let top = idx;
        assert(subtree_slots(after, top, lower) =~= subtree_slots(before, idx, lower).insert(
            leaf_slot as int,
        ).insert(inner_slot as int));
        assert(subtree_leaves(after, top, lower) =~= subtree_leaves(before, idx, lower).insert(
            key,
            leaf_slot,
        ));
    } else {
        // The walk stops here: the new branching node takes the place of `idx`.
        assert(idx == spot && parent == above);
        let spot_key = slot_key(before[spot as int]);
        let side = bit_at(key, crit);
        let grown = branch_at(after, inner_slot);
        assert(subtree_slots(before, idx, lower).contains(idx as int));
        lemma_slot_facts(before, idx, lower, anchor, idx as int);
        lemma_share_prefix_sym(spot_key, anchor, lower);
        lemma_share_prefix_trans(key, anchor, spot_key, lower);
        if crit < lower {
            lemma_share_prefix_bits(key, spot_key, lower, crit);
        }
        lemma_share_prefix_refl(key, crit);
        lemma_share_prefix_step(key, key, crit, side);
        lemma_share_prefix_sym(key, spot_key, crit);
        lemma_share_prefix_step(spot_key, key, crit, !side);
        lemma_rebase(before, idx, lower, anchor, (crit + 1) as u64, side_anchor(grown, !side));
        assert forall|slot: int| #[trigger]
            subtree_slots(before, idx, (crit + 1) as u64).contains(slot) implies after[slot]
            == before[slot] by {
            lemma_slot_facts(before, idx, lower, anchor, slot);
        }
        lemma_frame(before, after, idx, (crit + 1) as u64, side_anchor(grown, !side));
        assert(is_leaf(after, leaf_slot));
        assert(subtree_ok(after, leaf_slot, below(grown), side_anchor(grown, side)));
        assert(is_branch(after, inner_slot, lower));
        if subtree_leaves(before, idx, lower).contains_key(key) {
            lemma_leaf_facts(
                before,
                idx,
                (crit + 1) as u64,
                side_anchor(grown, !side),
                key,
            );
            lemma_share_prefix_step(key, key, crit, !side);
        }
        assert(below(grown) == (crit + 1) as u64);
        assert(subtree_slots(after, leaf_slot, below(grown)) =~= set![leaf_slot as int]);
        assert(subtree_leaves(after, leaf_slot, below(grown)) =~= map![key => leaf_slot]);
        assert(subtree_slots(after, idx, below(grown)) == subtree_slots(before, idx, lower));
        assert(subtree_leaves(after, idx, below(grown)) == subtree_leaves(before, idx, lower));
        if side {
            assert(grown.children[1] == leaf_slot && grown.children[0] == idx);
        } else {
            assert(grown.children[0] == leaf_slot && grown.children[1] == idx);
        }
        assert(subtree_slots(after, inner_slot, lower) =~= subtree_slots(before, idx, lower).insert(
            leaf_slot as int,
        ).insert(inner_slot as int));
        assert(subtree_leaves(after, inner_slot, lower) =~= subtree_leaves(
            before,
            idx,
            lower,
        ).insert(key, leaf_slot));
    }
}

/// The branching node directly above slot `target` on the walk that follows
/// `key` from slot `idx`, and before it the slot above that node (`grand` when
/// the node is `idx` itself).
pub open spec fn remove_spot(
    nodes: Seq<AnyNode>,
    grand: u32,
    idx: u32,
    lower: u64,
    key: u128,
    target: u32,
) -> (u32, u32)
    decreases 128 - lower,
{
    if is_branch(nodes, idx, lower) && branch_at(nodes, idx).child_toward(key) != target {
        let inner = branch_at(nodes, idx);
        remove_spot(nodes, idx, inner.child_toward(key), below(inner), key, target)
    } else {
        (grand, idx)
    }
}

/// The pool `after` is `before` with a leaf cut out: `grand`, if there is one,
/// points to the leaf's sibling where it pointed to the leaf's parent. What
/// the slots of the leaf and of its parent hold afterwards is left open.
pub open spec fn pruned(
    before: Seq<AnyNode>,
    after: Seq<AnyNode>,
    grand: u32,
    parent: u32,
    leaf_slot: u32,
    sibling: u32,
    key: u128,
) -> bool {
    &&& after.len() == before.len()
    &&& grand != parent
    &&& grand != leaf_slot
    &&& (grand as int) < before.len() ==> {
        &&& before[grand as int].node is Inner
        &&& after[grand as int].node is Inner
        &&& branch_at(after, grand).prefix_len == branch_at(before, grand).prefix_len
        &&& branch_at(after, grand).key == branch_at(before, grand).key
        &&& branch_at(after, grand).child_toward(key) == sibling
        &&& branch_at(after, grand).child_away(key) == branch_at(before, grand).child_away(key)
    }
    &&& forall|slot: int|
        0 <= slot < before.len() && slot != leaf_slot && slot != parent && slot
            != grand ==> #[trigger] after[slot] == before[slot]
}

/// In a well-formed subtree that lists `key` at slot `target` below its top,
/// the walk that follows `key` finds the branching node directly above
/// `target`, and the node above that one unless the walk stopped at `idx`.
pub proof fn lemma_remove_spot(
    nodes: Seq<AnyNode>,
    grand: u32,
    idx: u32,
    lower: u64,
    anchor: u128,
    key: u128,
    target: u32,
)
    requires
        subtree_ok(nodes, idx, lower, anchor),
        subtree_leaves(nodes, idx, lower).contains_key(key),
        subtree_leaves(nodes, idx, lower)[key] == target,
        idx != target,
    ensures
        walk_continues(nodes, idx, lower, key),
        ({
            let (above, parent) = remove_spot(nodes, grand, idx, lower, key, target);
            &&& subtree_slots(nodes, idx, lower).contains(parent as int)
            &&& nodes[parent as int].node is Inner
            &&& branch_at(nodes, parent).prefix_len < 128
            &&& branch_at(nodes, parent).child_toward(key) == target
            &&& parent == idx ==> above == grand
            &&& parent != idx ==> {
                &&& subtree_slots(nodes, idx, lower).contains(above as int)
                &&& nodes[above as int].node is Inner
                &&& branch_at(nodes, above).prefix_len < 128
                &&& branch_at(nodes, above).child_toward(key) == parent
            }
        }),
    decreases 128 - lower,
{
    lemma_leaf_facts(nodes, idx, lower, anchor, key);
    let inner = branch_at(nodes, idx);
    let side = bit_at(key, inner.prefix_len);
    let in_right = subtree_leaves(nodes, inner.children[1], below(inner)).contains_key(key);
    let holder = if in_right {
        inner.children[1]
    } else {
        inner.children[0]
    };
    lemma_leaf_facts(nodes, holder, below(inner), side_anchor(inner, in_right), key);
    lemma_under_side(key, inner, in_right, lower, anchor);
    lemma_walk_step(nodes, idx, lower, anchor, key);
    lemma_sides_disjoint(nodes, idx, lower, anchor);
    let near = inner.child_toward(key);
    if near != target {
        lemma_remove_spot(nodes, idx, near, below(inner), side_anchor(inner, side), key, target);
    }
}

/// Cutting out the leaf found for its key keeps the subtree well-formed,
/// takes the slots of the leaf and of its parent out of it, and takes the
/// key out of its keys.
pub proof fn lemma_prune(
    before: Seq<AnyNode>,
    after: Seq<AnyNode>,
    idx: u32,
    lower: u64,
    anchor: u128,
    above: u32,
    grand: u32,
    parent: u32,
    leaf_slot: u32,
    sibling: u32,
    key: u128,
)
    requires
        subtree_ok(before, idx, lower, anchor),
        subtree_leaves(before, idx, lower).contains_key(key),
        subtree_leaves(before, idx, lower)[key] == leaf_slot,
        idx != leaf_slot,
        remove_spot(before, above, idx, lower, key, leaf_slot) == (grand, parent),
        !subtree_slots(before, idx, lower).contains(above as int),
        sibling == branch_at(before, parent).child_away(key),
        pruned(before, after, grand, parent, leaf_slot, sibling, key),
    ensures
        ({
            let top = if idx == parent {
                sibling
            } else {
                idx
            };
            &&& subtree_ok(after, top, lower, anchor)
            &&& subtree_slots(after, top, lower) == subtree_slots(before, idx, lower).remove(
                leaf_slot as int,
            ).remove(parent as int)
            &&& subtree_leaves(after, top, lower) == subtree_leaves(before, idx, lower).remove(key)
        }),
    decreases 128 - lower,
{
    lemma_remove_spot(before, above, idx, lower, anchor, key, leaf_slot);
    lemma_leaf_facts(before, idx, lower, anchor, key);
    let inner = branch_at(before, idx);
    let side = bit_at(key, inner.prefix_len);
    let near = inner.child_toward(key);
    let far = inner.child_away(key);
    lemma_walk_step(before, idx, lower, anchor, key);
    lemma_sides_disjoint(before, idx, lower, anchor);
    lemma_leaf_facts(before, near, below(inner), side_anchor(inner, side), key);
    assert(subtree_slots(before, idx, lower).contains(idx as int));
    assert forall|slot: int| #[trigger]
        subtree_slots(before, far, below(inner)).contains(slot) implies subtree_slots(
        before,
        idx,
        lower,
    ).contains(slot) by {}
    assert forall|slot: int| #[trigger]
        subtree_slots(before, near, below(inner)).contains(slot) implies subtree_slots(
        before,
        idx,
        lower,
    ).contains(slot) by {}
    assert(subtree_ok(before, far, below(inner), side_anchor(inner, !side)));
    assert(subtree_slots(before, far, below(inner)).contains(far as int));
    if near == leaf_slot {
        // `idx` is the parent: the sibling takes its place.
        assert(idx == parent && above == grand && far == sibling);
        lemma_slot_facts(before, far, below(inner), side_anchor(inner, !side), far as int);
        lemma_under_side(slot_key(before[far as int]), inner, !side, lower, anchor);
        lemma_rebase(before, far, below(inner), side_anchor(inner, !side), lower, anchor);
        assert forall|slot: int| #[trigger]
            subtree_slots(before, far, lower).contains(slot) implies after[slot]
            == before[slot] by {
            lemma_slot_facts(before, far, below(inner), side_anchor(inner, !side), slot);
        }
        lemma_frame(before, after, far, lower, anchor);
        assert(is_leaf(before, near));
        assert(subtree_slots(before, near, below(inner)) =~= set![near as int]);
        assert(subtree_leaves(before, near, below(inner)) =~= map![key => near]);
        assert(subtree_slots(after, far, lower) =~= subtree_slots(before, idx, lower).remove(
            leaf_slot as int,
        ).remove(parent as int));
        assert(subtree_leaves(after, far, lower) =~= subtree_leaves(before, idx, lower).remove(
            key,
        ));
    } else {
        lemma_remove_spot(
            before,
            idx,
            near,
            below(inner),
            side_anchor(inner, side),
            key,
            leaf_slot,
        );
        lemma_prune(
            before,
            after,
            near,
            below(inner),
            side_anchor(inner, side),
            idx,
            grand,
            parent,
            leaf_slot,
            sibling,
            key,
        );
        assert forall|slot: int| #[trigger]
            subtree_slots(before, far, below(inner)).contains(slot) implies after[slot]
            == before[slot] by {
            lemma_slot_facts(before, far, below(inner), side_anchor(inner, !side), slot);
        }
        lemma_frame(before, after, far, below(inner), side_anchor(inner, !side));
        let new_near = if near == parent {
            sibling
        } else {
            near
        };
        assert(after[idx as int].node is Inner);
        assert(branch_at(after, idx).prefix_len == inner.prefix_len);
        assert(branch_at(after, idx).key == inner.key);
        assert(branch_at(after, idx).child_toward(key) == new_near);
        assert(branch_at(after, idx).child_away(key) == far);
        if subtree_leaves(before, far, below(inner)).contains_key(key) {
            lemma_leaf_facts(before, far, below(inner), side_anchor(inner, !side), key);
            lemma_under_side(key, inner, !side, lower, anchor);
        }
        assert(subtree_slots(after, idx, lower) =~= subtree_slots(before, idx, lower).remove(
            leaf_slot as int,
        ).remove(parent as int));
        assert(subtree_leaves(after, idx, lower) =~= subtree_leaves(before, idx, lower).remove(
            key,
        ));
    }
}

/// A slot below the top of a well-formed subtree holds an order or a
/// branching node with a longer prefix than the top's.
pub proof fn lemma_deeper(nodes: Seq<AnyNode>, idx: u32, lower: u64, anchor: u128, slot: u32)
    requires
        subtree_ok(nodes, idx, lower, anchor),
        subtree_slots(nodes, idx, lower).contains(slot as int),
        slot != idx,
    ensures
        is_branch(nodes, idx, lower),
        nodes[slot as int].node is Inner ==> branch_at(nodes, slot).prefix_len > branch_at(
            nodes,
            idx,
        ).prefix_len,
{
    let top = branch_at(nodes, idx);
    let on_right = subtree_slots(nodes, top.children[1], below(top)).contains(slot as int);
    let side = if on_right {
        top.children[1]
    } else {
        top.children[0]
    };
    lemma_slot_facts(nodes, side, below(top), side_anchor(top, on_right), slot as int);
}

/// The top of a well-formed subtree is one of its slots.
pub proof fn lemma_top_in_slots(nodes: Seq<AnyNode>, idx: u32, lower: u64, anchor: u128)
    requires
        subtree_ok(nodes, idx, lower, anchor),
    ensures
        subtree_slots(nodes, idx, lower).contains(idx as int),
{
}

/// The children of a branching node of a well-formed subtree are slots of
/// the subtree, other than the node's own.
pub proof fn lemma_children_in_slots(
    nodes: Seq<AnyNode>,
    idx: u32,
    lower: u64,
    anchor: u128,
    slot: u32,
)
    requires
        subtree_ok(nodes, idx, lower, anchor),
        subtree_slots(nodes, idx, lower).contains(slot as int),
        nodes[slot as int].node is Inner,
    ensures
        subtree_slots(nodes, idx, lower).contains(branch_at(nodes, slot).children[0] as int),
        subtree_slots(nodes, idx, lower).contains(branch_at(nodes, slot).children[1] as int),
        branch_at(nodes, slot).children[0] != slot,
        branch_at(nodes, slot).children[1] != slot,
    decreases 128 - lower,
{
    if is_leaf(nodes, idx) {
    } else {
        let top = branch_at(nodes, idx);
        let left = top.children[0];
        let right = top.children[1];
        lemma_top_in_slots(nodes, left, below(top), side_anchor(top, false));
        lemma_top_in_slots(nodes, right, below(top), side_anchor(top, true));
        lemma_sides_disjoint(nodes, idx, lower, anchor);
        if slot == idx {
        } else if subtree_slots(nodes, left, below(top)).contains(slot as int) {
            lemma_children_in_slots(nodes, left, below(top), side_anchor(top, false), slot);
        } else {
            lemma_children_in_slots(nodes, right, below(top), side_anchor(top, true), slot);
        }
    }
}

/// No slot of a well-formed subtree is the child of two of its branching nodes.
pub proof fn lemma_parent_unique(
    nodes: Seq<AnyNode>,
    idx: u32,
    lower: u64,
    anchor: u128,
    child: u32,
    a: u32,
    b: u32,
)
    requires
        subtree_ok(nodes, idx, lower, anchor),
        subtree_slots(nodes, idx, lower).contains(a as int),
        subtree_slots(nodes, idx, lower).contains(b as int),
        nodes[a as int].node is Inner,
        nodes[b as int].node is Inner,
        branch_at(nodes, a).children[0] == child || branch_at(nodes, a).children[1] == child,
        branch_at(nodes, b).children[0] == child || branch_at(nodes, b).children[1] == child,
    ensures
        a == b,
    decreases 128 - lower,
{
    if a != b {
        if is_leaf(nodes, idx) {
        } else {
            let top = branch_at(nodes, idx);
            let left = top.children[0];
            let right = top.children[1];
            let left_slots = subtree_slots(nodes, left, below(top));
            let right_slots = subtree_slots(nodes, right, below(top));
            lemma_sides_disjoint(nodes, idx, lower, anchor);
            lemma_top_in_slots(nodes, left, below(top), side_anchor(top, false));
            lemma_top_in_slots(nodes, right, below(top), side_anchor(top, true));
            if a == idx || b == idx {
                let other = if a == idx {
                    b
                } else {
                    a
                };
                // `child` is the top of one side; `other` lies on a side and has it
                // as a child, so that `child` is the top of the side of `other`.
                let on_right = right_slots.contains(other as int);
                let side = if on_right {
                    right
                } else {
                    left
                };
                lemma_children_in_slots(
                    nodes,
                    side,
                    below(top),
                    side_anchor(top, on_right),
                    other,
                );
                assert(child == side);
                // But a node lies deeper than what it lies under.
                lemma_deeper(nodes, side, below(top), side_anchor(top, on_right), other);
                lemma_slot_facts(
                    nodes,
                    side,
                    below(top),
                    side_anchor(top, on_right),
                    other as int,
                );
                lemma_child_is_deeper(nodes, side, below(top), side_anchor(top, on_right), other);
            } else {
                let a_right = right_slots.contains(a as int);
                let b_right = right_slots.contains(b as int);
                let a_side = if a_right {
                    right
                } else {
                    left
                };
                let b_side = if b_right {
                    right
                } else {
                    left
                };
                if a_right == b_right {
                    lemma_parent_unique(
                        nodes,
                        a_side,
                        below(top),
                        side_anchor(top, a_right),
                        child,
                        a,
                        b,
                    );
                } else {
                    lemma_children_in_slots(nodes, a_side, below(top), side_anchor(top, a_right), a);
                    lemma_children_in_slots(nodes, b_side, below(top), side_anchor(top, b_right), b);
                }
            }
        }
    }
}

/// The top of a well-formed tree is the child of none of its nodes.
pub proof fn lemma_root_has_no_parent(nodes: Seq<AnyNode>, root: u32, slot: u32)
    requires
        subtree_ok(nodes, root, 0, 0),
        subtree_slots(nodes, root, 0).contains(slot as int),
        nodes[slot as int].node is Inner,
    ensures
        branch_at(nodes, slot).children[0] != root,
        branch_at(nodes, slot).children[1] != root,
{
    lemma_children_in_slots(nodes, root, 0, 0, slot);
    lemma_child_is_deeper(nodes, root, 0, 0, slot);
    if slot != root {
        lemma_deeper(nodes, root, 0, 0, slot);
    }
}

/// A child that branches has a longer prefix than the node above it.
pub proof fn lemma_child_is_deeper(
    nodes: Seq<AnyNode>,
    idx: u32,
    lower: u64,
    anchor: u128,
    slot: u32,
)
    requires
        subtree_ok(nodes, idx, lower, anchor),
        subtree_slots(nodes, idx, lower).contains(slot as int),
        nodes[slot as int].node is Inner,
    ensures
        nodes[branch_at(nodes, slot).children[0] as int].node is Inner ==> branch_at(
            nodes,
            branch_at(nodes, slot).children[0],
        ).prefix_len > branch_at(nodes, slot).prefix_len,
        nodes[branch_at(nodes, slot).children[1] as int].node is Inner ==> branch_at(
            nodes,
            branch_at(nodes, slot).children[1],
        ).prefix_len > branch_at(nodes, slot).prefix_len,
    decreases 128 - lower,
{
    if is_leaf(nodes, idx) {
    } else {
        let top = branch_at(nodes, idx);
        let left = top.children[0];
        let right = top.children[1];
        lemma_top_in_slots(nodes, left, below(top), side_anchor(top, false));
        lemma_top_in_slots(nodes, right, below(top), side_anchor(top, true));
        if slot == idx {
            lemma_slot_facts(nodes, left, below(top), side_anchor(top, false), left as int);
            lemma_slot_facts(nodes, right, below(top), side_anchor(top, true), right as int);
        } else if subtree_slots(nodes, left, below(top)).contains(slot as int) {
            lemma_child_is_deeper(nodes, left, below(top), side_anchor(top, false), slot);
        } else {
            lemma_child_is_deeper(nodes, right, below(top), side_anchor(top, true), slot);
        }
    }
}

/// Whether `other` is `nodes` with the order in slot `slot` replaced by one
/// with the same key.
pub open spec fn same_but_leaf(nodes: Seq<AnyNode>, other: Seq<AnyNode>, slot: u32) -> bool {
    &&& other.len() == nodes.len()
    &&& is_leaf(nodes, slot)
    &&& is_leaf(other, slot)
    &&& leaf_at(other, slot).key == leaf_at(nodes, slot).key
    &&& forall|i: int| 0 <= i < nodes.len() && i != slot ==> #[trigger] other[i] == nodes[i]
}

/// The tree does not depend on what an order holds beside its key.
pub proof fn lemma_leaf_rewritten(
    nodes: Seq<AnyNode>,
    other: Seq<AnyNode>,
    slot: u32,
    idx: u32,
    lower: u64,
    anchor: u128,
)
    requires
        subtree_ok(nodes, idx, lower, anchor),
        same_but_leaf(nodes, other, slot),
    ensures
        subtree_ok(other, idx, lower, anchor),
        subtree_slots(other, idx, lower) == subtree_slots(nodes, idx, lower),
        subtree_leaves(other, idx, lower) == subtree_leaves(nodes, idx, lower),
    decreases 128 - lower,
{
    if is_leaf(nodes, idx) {
    } else {
        let inner = branch_at(nodes, idx);
        assert(other[idx as int] == nodes[idx as int]);
        lemma_leaf_rewritten(
            nodes,
            other,
            slot,
            inner.children[0],
            below(inner),
            side_anchor(inner, false),
        );
        lemma_leaf_rewritten(
            nodes,
            other,
            slot,
            inner.children[1],
            below(inner),
            side_anchor(inner, true),
        );
    }
}

} // verus!
