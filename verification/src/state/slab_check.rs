//! Checking a book against its invariant, as is needed for a book that comes
//! from storage.

use vstd::prelude::*;

use crate::constants::INVALID_INDEX;
use crate::keybits::{force_bit, shares_prefix};
use crate::state::slab::{
    free_chain, lemma_chain_tail, AnyNode, NodeBody, Slab,
};
use crate::state::tree::{
    below, branch_at, is_branch, is_leaf, leaf_at, lemma_leaf_bound, lemma_sides_disjoint,
    lemma_slot_facts, lemma_subtree_finite, side_anchor, subtree_leaves, subtree_ok,
    subtree_slots,
};

verus! {

/// Checks the subtree at slot `idx` and marks its slots in `seen`. Returns
/// the number of its keys, or `None` when it is not well-formed.
fn check_subtree(nodes: &Vec<AnyNode>, idx: u32, lower: u64, anchor: u128, seen: &mut Vec<bool>) -> (leaves:
    Option<u64>)
    requires
        lower <= 128,
        old(seen).len() == nodes.len(),
        nodes.len() < INVALID_INDEX,
    ensures
        final(seen).len() == nodes.len(),
        leaves is Some <==> subtree_ok(nodes@, idx, lower, anchor),
        leaves matches Some(count) ==> {
            &&& count == subtree_leaves(nodes@, idx, lower).len()
            &&& forall|slot: int|
                0 <= slot < nodes.len() ==> final(seen)[slot] == (old(seen)[slot] || subtree_slots(
                    nodes@,
                    idx,
                    lower,
                ).contains(slot))
        },
    decreases 128 - lower,
{
    if idx as usize >= nodes.len() {
        return None;
    }
    match &nodes[idx as usize].node {
        NodeBody::Leaf(leaf) => {
            if !shares_prefix(leaf.key, anchor, lower) {
                return None;
            }
            seen[idx as usize] = true;
            proof {
                assert(subtree_leaves(nodes@, idx, lower).dom() =~= set![leaf.key]);
            }
            Some(1)
        },
        NodeBody::Inner(inner) => {
            if inner.prefix_len < lower || inner.prefix_len >= 128 {
                return None;
            }
            if !shares_prefix(inner.key, anchor, lower) {
                return None;
            }
            let next: u64 = inner.prefix_len + 1;
            let left_anchor: u128 = force_bit(inner.key, inner.prefix_len, false);
            let right_anchor: u128 = force_bit(inner.key, inner.prefix_len, true);
            let left: u64 = match check_subtree(nodes, inner.left(), next, left_anchor, seen) {
                Some(count) => count,
                None => {
                    return None;
                },
            };
            let right: u64 = match check_subtree(nodes, inner.right(), next, right_anchor, seen) {
                Some(count) => count,
                None => {
                    return None;
                },
            };
            seen[idx as usize] = true;
            proof {
                lemma_leaf_bound(nodes@, inner.children[0], next, left_anchor);
                lemma_leaf_bound(nodes@, inner.children[1], next, right_anchor);
                lemma_subtree_finite(nodes@, inner.children[0], next, left_anchor);
                lemma_subtree_finite(nodes@, inner.children[1], next, right_anchor);
                lemma_sides_disjoint(nodes@, idx, lower, anchor);
                let left_keys = subtree_leaves(nodes@, inner.children[0], next);
                let right_keys = subtree_leaves(nodes@, inner.children[1], next);
                assert(subtree_leaves(nodes@, idx, lower).dom() =~= left_keys.dom()
                    + right_keys.dom());
                vstd::set_lib::lemma_set_disjoint_lens(left_keys.dom(), right_keys.dom());
            }
            Some(left + right)
        },
        _ => None,
    }
}

/// Whether `chain` lists free slots as they are linked from `head`, up to
/// a slot whose link is `current`.
pub open spec fn partial_chain(nodes: Seq<AnyNode>, head: u64, chain: Seq<int>, current: u64) -> bool {
    &&& if chain.len() > 0 {
        chain[0] == head
    } else {
        current == head
    }
    &&& forall|i: int|
        0 <= i < chain.len() ==> {
            &&& 0 <= #[trigger] chain[i] < nodes.len()
            &&& nodes[chain[i]].node is Free
            &&& nodes[chain[i]].node->Free_0.next == if i + 1 < chain.len() {
                chain[i + 1]
            } else {
                current as int
            }
        }
    &&& chain.no_duplicates()
}

/// Whether `seen` marks the slots of `tree` and of `chain`, and no other.
pub open spec fn marks(seen: Seq<bool>, tree: Set<int>, chain: Seq<int>) -> bool {
    forall|slot: int|
        0 <= slot < seen.len() ==> #[trigger] seen[slot] == (tree.contains(slot) || chain.contains(
            slot,
        ))
}

/// Whether no slot of `chain` is a slot of `tree`.
pub open spec fn avoids(chain: Seq<int>, tree: Set<int>) -> bool {
    forall|i: int| 0 <= i < chain.len() ==> !tree.contains(#[trigger] chain[i])
}

/// A chain of different slots of a pool is no longer than the pool.
proof fn lemma_chain_fits(chain: Seq<int>, len: int)
    requires
        0 <= len,
        chain.no_duplicates(),
        forall|i: int| 0 <= i < chain.len() ==> 0 <= #[trigger] chain[i] < len,
    ensures
        chain.len() <= len,
{
    chain.unique_seq_to_set();
    let all = vstd::set_lib::set_int_range(0, len);
    vstd::set_lib::lemma_int_range(0, len);
    assert forall|slot: int| chain.to_set().contains(slot) implies all.contains(slot) by {
        let i = choose|i: int| 0 <= i < chain.len() && chain[i] == slot;
        assert(0 <= chain[i] < len);
    }
    vstd::set_lib::lemma_len_subset(chain.to_set(), all);
}

/// A partial chain grows by the slot that its last link names.
proof fn lemma_partial_extend(
    nodes: Seq<AnyNode>,
    head: u64,
    chain: Seq<int>,
    current: u64,
    next: u64,
)
    requires
        partial_chain(nodes, head, chain, current),
        current < nodes.len(),
        nodes[current as int].node is Free,
        nodes[current as int].node->Free_0.next == next,
        !chain.contains(current as int),
    ensures
        partial_chain(nodes, head, chain.push(current as int), next),
        chain.push(current as int).len() <= nodes.len(),
{
    let longer = chain.push(current as int);
    assert forall|i: int| 0 <= i < longer.len() implies {
        &&& 0 <= #[trigger] longer[i] < nodes.len()
        &&& nodes[longer[i]].node is Free
        &&& nodes[longer[i]].node->Free_0.next == if i + 1 < longer.len() {
            longer[i + 1]
        } else {
            next as int
        }
    } by {
        if i < chain.len() {
            assert(longer[i] == chain[i]);
            if i + 1 < chain.len() {
                assert(longer[i + 1] == chain[i + 1]);
            }
        }
    }
    assert forall|i: int, j: int| 0 <= i < longer.len() && 0 <= j < longer.len() && i
        != j implies longer[i] != longer[j] by {
        if i < chain.len() {
            assert(chain.contains(chain[i]));
        }
        if j < chain.len() {
            assert(chain.contains(chain[j]));
        }
    }
    lemma_chain_fits(longer, nodes.len() as int);
}

/// Marking one more slot marks the chain that grew by it.
proof fn lemma_marks_extend(
    seen: Seq<bool>,
    after: Seq<bool>,
    tree: Set<int>,
    chain: Seq<int>,
    slot: int,
)
    requires
        marks(seen, tree, chain),
        0 <= slot < seen.len(),
        after == seen.update(slot, true),
    ensures
        marks(after, tree, chain.push(slot)),
{
    let longer = chain.push(slot);
    assert forall|sl: int| 0 <= sl < after.len() implies #[trigger] after[sl] == (tree.contains(sl)
        || longer.contains(sl)) by {
        assert(seen[sl] == (tree.contains(sl) || chain.contains(sl)));
        if chain.contains(sl) {
            let i = choose|i: int| 0 <= i < chain.len() && chain[i] == sl;
            assert(longer[i] == sl);
        }
        if longer.contains(sl) && sl != slot {
            let i = choose|i: int| 0 <= i < longer.len() && longer[i] == sl;
            assert(chain[i] == sl);
        }
        assert(longer[chain.len() as int] == slot);
    }
}

impl Slab {
    /// In a well-formed book, the slot after a beginning of the free list is
    /// a free slot outside the tree that was not listed yet.
    proof fn lemma_next_listed(&self, chain: Seq<int>, current: u64)
        requires
            self.well_formed(),
            chain.len() <= self.free_list().len(),
            chain == self.free_list().take(chain.len() as int),
            current == if chain.len() < self.free_list().len() {
                self.free_list()[chain.len() as int]
            } else {
                INVALID_INDEX as int
            },
            current != INVALID_INDEX as u64,
        ensures
            current < self.nodes.len(),
            self.nodes[current as int].node is Free,
            !self.tree_slots().contains(current as int),
            !chain.contains(current as int),
            chain.len() + 1 <= self.free_list().len(),
            chain.push(current as int) == self.free_list().take(chain.len() as int + 1),
            self.nodes[current as int].node->Free_0.next == if chain.len() + 1
                < self.free_list().len() {
                self.free_list()[chain.len() as int + 1]
            } else {
                INVALID_INDEX as int
            },
    {
        let listed = self.free_list();
        let at = chain.len() as int;
        assert(at < listed.len());
        assert(0 <= listed[at] < self.nodes.len());
        assert(self.slot_accounted(listed[at]));
        assert(listed.contains(listed[at]));
        if chain.contains(listed[at]) {
            let i = choose|i: int| 0 <= i < chain.len() && chain[i] == listed[at];
            assert(listed[i] == chain[i]);
        }
        assert(chain.push(current as int) =~= listed.take(at + 1));
    }

    /// Whether the book satisfies its invariant.
    pub fn is_well_formed(&self) -> (ok: bool)
        ensures
            ok == self.wf(),
    {
        proof {
            self.lemma_wf();
        }
        let len: usize = self.nodes.len();
        if len >= INVALID_INDEX as usize {
            return false;
        }
        if self.header.bump_index > len as u64 {
            return false;
        }
        let mut seen: Vec<bool> = Vec::new();
        let mut i: usize = 0;
        while i < len
            invariant
                i <= len,
                seen.len() == i,
                forall|j: int| 0 <= j < i ==> !seen[j],
            decreases len - i,
        {
            seen.push(false);
            i += 1;
        }
        // The tree.
        let root: u64 = self.header.root;
        if root != INVALID_INDEX as u64 {
            if root >= len as u64 {
                return false;
            }
            match check_subtree(&self.nodes, root as u32, 0, 0, &mut seen) {
                Some(count) => {
                    if count != self.header.leaf_count {
                        return false;
                    }
                },
                None => {
                    return false;
                },
            }
        } else {
            proof {
                assert(self.slot_map().dom() =~= Set::empty());
            }
            if self.header.leaf_count != 0 {
                return false;
            }
        }
        // The free list.
        let ghost tree = self.tree_slots();
        let ghost mut chain: Seq<int> = Seq::empty();
        let head: u64 = self.header.free_list_head;
        let mut current: u64 = head;
        assert(marks(seen@, tree, chain));
        assert(chain =~= self.free_list().take(0));
        while current != INVALID_INDEX as u64
            invariant
                len == self.nodes.len(),
                len < INVALID_INDEX,
                seen.len() == len,
                tree == self.tree_slots(),
                head == self.header.free_list_head,
                self.wf() == self.well_formed(),
                chain.len() <= len,
                marks(seen@, tree, chain),
                avoids(chain, tree),
                partial_chain(self.nodes@, head, chain, current),
                self.well_formed() ==> chain.len() <= self.free_list().len() && chain
                    == self.free_list().take(chain.len() as int),
                self.well_formed() ==> current == if chain.len() < self.free_list().len() {
                    self.free_list()[chain.len() as int]
                } else {
                    INVALID_INDEX as int
                },
            decreases len - chain.len(),
        {
            proof {
                if self.well_formed() {
                    self.lemma_next_listed(chain, current);
                }
            }
            if current >= len as u64 {
                return false;
            }
            let slot: usize = current as usize;
            if seen[slot] {
                return false;
            }
            let next: u64 = match &self.nodes[slot].node {
                NodeBody::Free(free) => free.next,
                _ => {
                    return false;
                },
            };
            let ghost before = seen@;
            seen[slot] = true;
            proof {
                assert(before[slot as int] == (tree.contains(slot as int) || chain.contains(
                    slot as int,
                )));
                lemma_partial_extend(self.nodes@, head, chain, current, next);
                lemma_marks_extend(before, seen@, tree, chain, slot as int);
                chain = chain.push(slot as int);
            }
            current = next;
        }
        proof {
            assert(free_chain(self.nodes@, head, chain));
            self.lemma_free_list_is(chain);
        }
        // The slots never handed out, and the rest.
        let bump: usize = self.header.bump_index as usize;
        let mut slot: usize = 0;
        while slot < len
            invariant
                slot <= len,
                len == self.nodes.len(),
                seen.len() == len,
                bump == self.header.bump_index,
                bump <= len,
                tree == self.tree_slots(),
                self.wf() == self.well_formed(),
                self.free_list() == chain,
                marks(seen@, tree, chain),
                avoids(chain, tree),
                forall|sl: int| 0 <= sl < slot ==> #[trigger] self.slot_accounted(sl),
                forall|sl: int|
                    0 <= sl < slot && #[trigger] self.never_used(sl)
                        ==> self.nodes[sl].node is Uninitialized,
            decreases len - slot,
        {
            proof {
                assert(seen@[slot as int] == (tree.contains(slot as int) || chain.contains(
                    slot as int,
                )));
                if self.well_formed() {
                    assert(self.slot_accounted(slot as int));
                    if self.never_used(slot as int) {
                        assert(self.nodes[slot as int].node is Uninitialized);
                    }
                }
                if chain.contains(slot as int) {
                    let i = choose|i: int| 0 <= i < chain.len() && chain[i] == slot;
                    assert(!tree.contains(chain[i]));
                }
            }
            if slot >= bump {
                if seen[slot] {
                    return false;
                }
                match &self.nodes[slot].node {
                    NodeBody::Uninitialized => {},
                    _ => {
                        return false;
                    },
                }
            } else if !seen[slot] {
                return false;
            }
            slot += 1;
        }
        true
    }
}

} // verus!
