use perp_dex::constants::{FREE_NODE, INNER_NODE, INVALID_INDEX, LEAF_NODE, UNINITIALIZED};
use perp_dex::error::PerpError;
use perp_dex::keybits::{critical_bit, key_bit};
use perp_dex::state::slab::{AnyNode, FreeNode, InnerNode, LeafNode, NodeBody, Slab, SlabHeader};

fn leaf(key: u128, quantity: u64) -> LeafNode {
    LeafNode::new(key, [7u8; 32], quantity, 1, 42)
}

fn book(capacity: usize) -> Slab {
    Slab::initialize(32 + 88 * capacity, capacity).unwrap()
}

fn key_at(slab: &Slab, index: u32) -> u128 {
    slab.nodes[index as usize].as_leaf().key
}

/// Slots reached from the root, leaves first counted apart.
fn reachable(slab: &Slab) -> (Vec<u32>, usize) {
    let mut slots = Vec::new();
    let mut leaves = 0;
    if slab.header.root == INVALID_INDEX as u64 {
        return (slots, leaves);
    }
    let mut stack = vec![slab.header.root as u32];
    while let Some(index) = stack.pop() {
        slots.push(index);
        match slab.nodes[index as usize].node {
            NodeBody::Leaf(_) => leaves += 1,
            NodeBody::Inner(inner) => {
                stack.push(inner.left());
                stack.push(inner.right());
            }
            _ => panic!("slot {} of the tree holds no tree node", index),
        }
    }
    (slots, leaves)
}

fn free_slots(slab: &Slab) -> Vec<u32> {
    let mut slots = Vec::new();
    let mut next = slab.header.free_list_head;
    while next != INVALID_INDEX as u64 {
        slots.push(next as u32);
        assert!(slots.len() <= slab.capacity());
        next = slab.nodes[next as usize].as_free().next;
    }
    slots
}

fn assert_partition(slab: &Slab) {
    let (tree, leaves) = reachable(slab);
    let free = free_slots(slab);
    let mut seen = vec![0u8; slab.capacity()];
    for index in tree.iter().chain(free.iter()) {
        seen[*index as usize] += 1;
    }
    for index in slab.header.bump_index as usize..slab.capacity() {
        seen[index] += 1;
    }
    assert!(seen.iter().all(|count| *count == 1));
    assert_eq!(leaves as u64, slab.header.leaf_count);
    if leaves > 0 {
        assert_eq!(tree.len(), 2 * leaves - 1);
    }
}

#[test]
fn header_starts_empty() {
    let header = SlabHeader::new();
    assert_eq!(header.leaf_count, 0);
    assert_eq!(header.bump_index, 0);
    assert_eq!(header.free_list_head, INVALID_INDEX as u64);
    assert_eq!(header.root, INVALID_INDEX as u64);
    assert!(header.is_empty());
}

#[test]
fn inner_node_accessors() {
    let mut inner = InnerNode::new(127, 1);
    assert_eq!(inner.left(), INVALID_INDEX);
    assert_eq!(inner.right(), INVALID_INDEX);
    inner.set_left(3);
    inner.set_right(4);
    assert_eq!(inner.left(), 3);
    assert_eq!(inner.right(), 4);
    assert_eq!(inner.prefix_len, 127);
    assert_eq!(inner.key, 1);
    // The bit at position 127 is the lowest one.
    assert_eq!(inner.walk_down(0), 3);
    assert_eq!(inner.walk_down(1), 4);
    assert_eq!(inner.walk_down(2), 3);
    let top = InnerNode { prefix_len: 0, key: 0, children: [8, 9] };
    assert_eq!(top.walk_down(1u128 << 127), 9);
    assert_eq!(top.walk_down((1u128 << 127) - 1), 8);
}

#[test]
fn leaf_key_halves() {
    let key = LeafNode::price_key(100, 7);
    assert_eq!(key, (100u128 << 64) | 7);
    let order = leaf(key, 5);
    assert_eq!(order.price(), 100);
    assert_eq!(order.sequence_number(), 7);
    assert_eq!(order.quantity, 5);
    assert_eq!(order.fee_tier, 1);
    assert_eq!(order.timestamp, 42);
    assert_eq!(order.owner, [7u8; 32]);
    let top = leaf(LeafNode::price_key(u64::MAX, u64::MAX), 1);
    assert_eq!(top.key, u128::MAX);
    assert_eq!(top.price(), u64::MAX);
    assert_eq!(top.sequence_number(), u64::MAX);
}

#[test]
fn node_tags() {
    assert_eq!(AnyNode { node: NodeBody::Uninitialized }.tag(), UNINITIALIZED);
    assert_eq!(AnyNode { node: NodeBody::Inner(InnerNode::new(1, 2)) }.tag(), INNER_NODE);
    assert_eq!(AnyNode { node: NodeBody::Leaf(leaf(1, 1)) }.tag(), LEAF_NODE);
    assert_eq!(AnyNode { node: NodeBody::Free(FreeNode::new(3)) }.tag(), FREE_NODE);
    let mut slot = AnyNode { node: NodeBody::Leaf(leaf(1, 1)) };
    slot.as_leaf_mut().quantity = 9;
    assert_eq!(slot.as_leaf().quantity, 9);
    let mut branch = AnyNode { node: NodeBody::Inner(InnerNode::new(1, 2)) };
    branch.as_inner_mut().set_left(5);
    assert_eq!(branch.as_inner().left(), 5);
    let mut free = AnyNode { node: NodeBody::Free(FreeNode::new(3)) };
    free.as_free_mut().next = 4;
    assert_eq!(free.as_free().next, 4);
}

#[test]
fn critical_bit_positions() {
    assert_eq!(critical_bit(0, 0), 128);
    assert_eq!(critical_bit(5, 5), 128);
    assert_eq!(critical_bit(0, 1), 127);
    assert_eq!(critical_bit(0b100, 0b111), 126);
    assert_eq!(critical_bit(0, 1u128 << 127), 0);
    assert_eq!(critical_bit(1u128 << 64, 0), 63);
    assert_eq!(critical_bit(1u128 << 63, 0), 64);
    assert_eq!(critical_bit(u128::MAX, 0), 0);
    assert!(key_bit(1u128 << 127, 0));
    assert!(!key_bit(1u128 << 127, 1));
    assert!(key_bit(1, 127));
}

#[test]
fn slots_for_a_number_of_orders() {
    assert_eq!(Slab::slots_for(0), 0);
    assert_eq!(Slab::slots_for(1), 1);
    assert_eq!(Slab::slots_for(2), 3);
    assert_eq!(Slab::slots_for(1000), 1999);
    let mut slab = book(Slab::slots_for(3));
    for key in 0..3u128 {
        slab.insert_leaf(&leaf(key, 1)).unwrap();
    }
    assert!(matches!(slab.insert_leaf(&leaf(3, 1)), Err(PerpError::SlabFull)));
}

#[test]
fn allocation_size() {
    assert_eq!(Slab::compute_allocation_size(0), 32);
    assert_eq!(Slab::compute_allocation_size(1), 120);
    assert_eq!(Slab::compute_allocation_size(1000), 88_032);
}

#[test]
fn initialize_links_every_slot() {
    let slab = book(4);
    assert_eq!(slab.capacity(), 4);
    assert_eq!(slab.header.leaf_count, 0);
    assert_eq!(slab.header.root, INVALID_INDEX as u64);
    assert_eq!(slab.header.free_list_head, 0);
    assert_eq!(slab.header.bump_index, 4);
    assert_eq!(free_slots(&slab), vec![0, 1, 2, 3]);
    assert_partition(&slab);
}

#[test]
fn initialize_of_no_slot() {
    let slab = Slab::initialize(32, 0).unwrap();
    assert_eq!(slab.capacity(), 0);
    assert_eq!(slab.header.free_list_head, INVALID_INDEX as u64);
    assert_eq!(slab.find_min(), None);
}

#[test]
fn initialize_needs_space() {
    assert!(matches!(Slab::initialize(32 + 88 * 4 - 1, 4), Err(PerpError::InsufficientSpace)));
    assert!(matches!(Slab::initialize(0, 0), Err(PerpError::InsufficientSpace)));
    assert!(Slab::initialize(32 + 88 * 4, 4).is_ok());
    assert!(Slab::initialize(32 + 88 * 4 + 1000, 4).is_ok());
}

#[test]
fn empty_book_has_no_best() {
    let slab = book(8);
    assert_eq!(slab.find_min(), None);
    assert_eq!(slab.find_max(), None);
    assert_eq!(slab.find_by_key(1), None);
}

#[test]
fn single_leaf_is_root() {
    let mut slab = book(8);
    let index = slab.insert_leaf(&leaf(5, 1)).unwrap();
    assert_eq!(index, 0);
    assert_eq!(slab.header.root, 0);
    assert_eq!(slab.header.leaf_count, 1);
    assert_eq!(slab.find_min(), Some(index));
    assert_eq!(slab.find_max(), Some(index));
    assert_eq!(slab.find_by_key(5), Some(index));
    assert_partition(&slab);
}

#[test]
fn insert_then_find() {
    let mut slab = book(8);
    let a = slab.insert_leaf(&leaf(5, 1)).unwrap();
    let b = slab.insert_leaf(&leaf(3, 2)).unwrap();
    let c = slab.insert_leaf(&leaf(9, 3)).unwrap();
    assert_eq!(slab.find_min(), Some(b));
    assert_eq!(slab.find_max(), Some(c));
    assert_eq!(slab.find_by_key(5), Some(a));
    assert_eq!(slab.find_by_key(3), Some(b));
    assert_eq!(slab.find_by_key(9), Some(c));
    assert_eq!(slab.find_by_key(4), None);
    assert_eq!(slab.header.leaf_count, 3);
    assert_partition(&slab);
}

#[test]
fn smallest_key_is_found_below_an_older_branch() {
    // 0b100 and 0b111 branch at their second bit; 0b010 branches above that.
    let mut slab = book(8);
    slab.insert_leaf(&leaf(0b100, 1)).unwrap();
    slab.insert_leaf(&leaf(0b111, 1)).unwrap();
    let low = slab.insert_leaf(&leaf(0b010, 1)).unwrap();
    assert_eq!(slab.find_min(), Some(low));
    assert_eq!(key_at(&slab, slab.find_max().unwrap()), 0b111);
    let mid = slab.insert_leaf(&leaf(0b101, 1)).unwrap();
    assert_eq!(slab.find_by_key(0b101), Some(mid));
    assert_eq!(key_at(&slab, slab.find_min().unwrap()), 0b010);
    assert_partition(&slab);
}

#[test]
fn branching_node_holds_the_common_prefix_length() {
    let mut slab = book(8);
    slab.insert_leaf(&leaf(0b100, 1)).unwrap();
    slab.insert_leaf(&leaf(0b111, 1)).unwrap();
    let root = slab.nodes[slab.header.root as usize].as_inner();
    assert_eq!(root.prefix_len, 126);
    assert_eq!(key_at(&slab, root.left()), 0b100);
    assert_eq!(key_at(&slab, root.right()), 0b111);
}

#[test]
fn same_key_twice_is_refused() {
    let mut slab = book(8);
    slab.insert_leaf(&leaf(5, 1)).unwrap();
    slab.insert_leaf(&leaf(6, 1)).unwrap();
    let before = slab.header;
    assert!(matches!(slab.insert_leaf(&leaf(5, 9)), Err(PerpError::InvalidTree)));
    assert!(matches!(slab.insert_leaf(&leaf(6, 9)), Err(PerpError::InvalidTree)));
    assert_eq!(slab.header, before);
    assert_eq!(slab.nodes[slab.find_by_key(5).unwrap() as usize].as_leaf().quantity, 1);
    assert_partition(&slab);
}

#[test]
fn pool_of_five_slots_takes_three_orders() {
    let mut slab = book(5);
    slab.insert_leaf(&leaf(1, 1)).unwrap();
    slab.insert_leaf(&leaf(2, 1)).unwrap();
    slab.insert_leaf(&leaf(3, 1)).unwrap();
    let before = slab.header;
    assert!(matches!(slab.insert_leaf(&leaf(4, 1)), Err(PerpError::SlabFull)));
    assert_eq!(slab.header, before);
    assert_partition(&slab);
}

#[test]
fn pool_of_no_slot_takes_no_order() {
    let mut slab = book(0);
    assert!(matches!(slab.insert_leaf(&leaf(4, 1)), Err(PerpError::SlabFull)));
    let mut two = book(2);
    two.insert_leaf(&leaf(4, 1)).unwrap();
    assert!(matches!(two.insert_leaf(&leaf(5, 1)), Err(PerpError::SlabFull)));
}

#[test]
fn full_pool_reports_full_before_a_taken_key() {
    let mut slab = book(1);
    slab.insert_leaf(&leaf(4, 1)).unwrap();
    assert!(matches!(slab.insert_leaf(&leaf(4, 1)), Err(PerpError::SlabFull)));
}

#[test]
fn never_used_slots_are_handed_out_after_the_free_list() {
    let mut slab = Slab {
        header: SlabHeader::new(),
        nodes: vec![AnyNode { node: NodeBody::Uninitialized }; 3],
    };
    let a = slab.insert_leaf(&leaf(1, 1)).unwrap();
    assert_eq!(a, 0);
    assert_eq!(slab.header.bump_index, 1);
    let b = slab.insert_leaf(&leaf(2, 1)).unwrap();
    assert_eq!(b, 1);
    assert_eq!(slab.header.bump_index, 3);
    assert_partition(&slab);
    slab.remove_leaf(a).unwrap();
    assert_eq!(slab.header.bump_index, 3);
    assert_eq!(free_slots(&slab).len(), 2);
    assert_partition(&slab);
    let c = slab.insert_leaf(&leaf(3, 1)).unwrap();
    assert_eq!(slab.find_by_key(3), Some(c));
    assert_partition(&slab);
}

#[test]
fn remove_root_leaf_empties_the_book() {
    let mut slab = book(4);
    let index = slab.insert_leaf(&leaf(5, 3)).unwrap();
    let removed = slab.remove_leaf(index).unwrap();
    assert_eq!(removed, leaf(5, 3));
    assert_eq!(slab.header.root, INVALID_INDEX as u64);
    assert_eq!(slab.header.leaf_count, 0);
    assert_eq!(slab.find_min(), None);
    assert_partition(&slab);
}

#[test]
fn remove_promotes_sibling() {
    let mut slab = book(8);
    let a = slab.insert_leaf(&leaf(5, 1)).unwrap();
    let b = slab.insert_leaf(&leaf(3, 2)).unwrap();
    let removed = slab.remove_leaf(a).unwrap();
    assert_eq!(removed.key, 5);
    assert_eq!(slab.header.root, b as u64);
    assert_eq!(slab.find_by_key(5), None);
    assert_eq!(slab.find_by_key(3), Some(b));
    assert_eq!(slab.header.leaf_count, 1);
    assert_partition(&slab);
}

#[test]
fn remove_below_the_root_splices_the_grandparent() {
    let mut slab = book(16);
    let keys = [8u128, 4, 12, 2, 6, 10, 14];
    let mut slots = Vec::new();
    for key in keys {
        slots.push(slab.insert_leaf(&leaf(key, 1)).unwrap());
    }
    slab.remove_leaf(slots[3]).unwrap();
    assert_eq!(slab.find_by_key(2), None);
    for (key, slot) in keys.iter().zip(slots.iter()) {
        if *key != 2 {
            assert_eq!(slab.find_by_key(*key), Some(*slot));
        }
    }
    assert_eq!(key_at(&slab, slab.find_min().unwrap()), 4);
    assert_eq!(key_at(&slab, slab.find_max().unwrap()), 14);
    assert_partition(&slab);
}

#[test]
fn remove_of_a_slot_without_order_is_refused() {
    let mut slab = book(8);
    slab.insert_leaf(&leaf(5, 1)).unwrap();
    slab.insert_leaf(&leaf(3, 2)).unwrap();
    let inner = slab.header.root as u32;
    let before = slab.header;
    assert!(matches!(slab.remove_leaf(inner), Err(PerpError::InvalidNodeType)));
    assert!(matches!(slab.remove_leaf(7), Err(PerpError::InvalidNodeType)));
    assert_eq!(slab.header, before);
    assert_partition(&slab);
}

#[test]
fn insert_then_remove_restores_the_tree() {
    let mut slab = book(16);
    let keys = [8u128, 4, 12, 2];
    let mut slots = Vec::new();
    for key in keys {
        slots.push(slab.insert_leaf(&leaf(key, 1)).unwrap());
    }
    let root = slab.header.root;
    let count = slab.header.leaf_count;
    let (tree, _) = reachable(&slab);
    let nodes: Vec<AnyNode> = tree.iter().map(|slot| slab.nodes[*slot as usize]).collect();
    let added = slab.insert_leaf(&leaf(5, 1)).unwrap();
    let removed = slab.remove_leaf(added).unwrap();
    assert_eq!(removed, leaf(5, 1));
    assert_eq!(slab.header.root, root);
    assert_eq!(slab.header.leaf_count, count);
    let (tree_after, _) = reachable(&slab);
    assert_eq!(tree_after, tree);
    for (slot, node) in tree.iter().zip(nodes.iter()) {
        assert_eq!(slab.nodes[*slot as usize], *node);
    }
    for (key, slot) in keys.iter().zip(slots.iter()) {
        assert_eq!(slab.find_by_key(*key), Some(*slot));
    }
    assert_partition(&slab);
}

#[test]
fn parent_and_sibling() {
    let mut slab = book(8);
    let a = slab.insert_leaf(&leaf(5, 1)).unwrap();
    assert!(matches!(slab.find_parent_and_sibling(a), Err(PerpError::NodeIsRoot)));
    assert!(matches!(slab.find_parent(a), Err(PerpError::NodeIsRoot)));
    let b = slab.insert_leaf(&leaf(3, 2)).unwrap();
    let root = slab.header.root as u32;
    assert_eq!(slab.find_parent_and_sibling(a), Ok((root, b)));
    assert_eq!(slab.find_parent_and_sibling(b), Ok((root, a)));
    assert_eq!(slab.find_parent(a), Ok(root));
    assert!(matches!(slab.find_parent_and_sibling(root), Err(PerpError::NodeIsRoot)));
    assert!(matches!(slab.find_parent_and_sibling(6), Err(PerpError::InvalidNodeType)));
    assert!(matches!(slab.find_parent(6), Err(PerpError::InvalidNodeType)));
    let c = slab.insert_leaf(&leaf(4, 2)).unwrap();
    let (parent, sibling) = slab.find_parent_and_sibling(c).unwrap();
    assert_ne!(parent, root);
    assert_eq!(sibling, a);
    assert_eq!(slab.find_parent(c), Ok(parent));
}

#[test]
fn parent_of_inner_node_is_refused() {
    let mut slab = book(8);
    slab.insert_leaf(&leaf(5, 1)).unwrap();
    slab.insert_leaf(&leaf(3, 2)).unwrap();
    let c = slab.insert_leaf(&leaf(4, 2)).unwrap();
    let (parent, _) = slab.find_parent_and_sibling(c).unwrap();
    assert!(matches!(slab.find_parent(parent), Err(PerpError::InvalidNodeType)));
}

#[test]
fn set_quantity_keeps_the_tree() {
    let mut slab = book(8);
    let a = slab.insert_leaf(&leaf(5, 10)).unwrap();
    let b = slab.insert_leaf(&leaf(3, 20)).unwrap();
    slab.set_leaf_quantity(a, 4);
    assert_eq!(slab.nodes[a as usize].as_leaf().quantity, 4);
    assert_eq!(slab.nodes[b as usize].as_leaf().quantity, 20);
    assert_eq!(slab.find_by_key(5), Some(a));
    assert_eq!(slab.header.leaf_count, 2);
}

#[test]
fn asks_and_bids_order_by_price_then_time() {
    let mut asks = book(16);
    asks.insert_leaf(&leaf(LeafNode::price_key(101, 1), 1)).unwrap();
    let best = asks.insert_leaf(&leaf(LeafNode::price_key(100, 2), 1)).unwrap();
    asks.insert_leaf(&leaf(LeafNode::price_key(100, 3), 1)).unwrap();
    assert_eq!(asks.find_min(), Some(best));
    let mut bids = book(16);
    bids.insert_leaf(&leaf(LeafNode::price_key(u64::MAX - 99, 1), 1)).unwrap();
    let high = bids.insert_leaf(&leaf(LeafNode::price_key(u64::MAX - 100, 2), 1)).unwrap();
    bids.insert_leaf(&leaf(LeafNode::price_key(u64::MAX - 100, 3), 1)).unwrap();
    assert_eq!(bids.find_min(), Some(high));
}

#[test]
fn random_inserts_and_removes_keep_the_book() {
    let mut slab = book(201);
    let mut model: Vec<(u128, u32)> = Vec::new();
    let mut state: u64 = 0x9E37_79B9_7F4A_7C15;
    for round in 0..4000u32 {
        state = state.wrapping_mul(6364136223846793005).wrapping_add(1442695040888963407);
        let wide = ((state >> 11) as u128) << 70 | (state >> 40) as u128;
        let key = if round % 7 == 0 { wide % 64 } else { wide };
        let remove = (state >> 33) % 3 == 0 && !model.is_empty();
        if remove {
            let at = (state >> 17) as usize % model.len();
            let (key, slot) = model.swap_remove(at);
            let removed = slab.remove_leaf(slot).unwrap();
            assert_eq!(removed.key, key);
            assert_eq!(slab.find_by_key(key), None);
        } else if model.iter().any(|(held, _)| *held == key) {
            assert!(matches!(
                slab.insert_leaf(&leaf(key, 1)),
                Err(PerpError::InvalidTree) | Err(PerpError::SlabFull)
            ));
        } else if model.len() == 101 {
            assert!(matches!(slab.insert_leaf(&leaf(key, 1)), Err(PerpError::SlabFull)));
        } else {
            let slot = slab.insert_leaf(&leaf(key, round as u64)).unwrap();
            model.push((key, slot));
        }
        assert_eq!(slab.header.leaf_count as usize, model.len());
        match model.iter().map(|(key, _)| *key).min() {
            Some(smallest) => assert_eq!(key_at(&slab, slab.find_min().unwrap()), smallest),
            None => assert_eq!(slab.find_min(), None),
        }
        match model.iter().map(|(key, _)| *key).max() {
            Some(largest) => assert_eq!(key_at(&slab, slab.find_max().unwrap()), largest),
            None => assert_eq!(slab.find_max(), None),
        }
        if round % 16 == 0 {
            for (key, slot) in model.iter() {
                assert_eq!(slab.find_by_key(*key), Some(*slot));
            }
            assert_partition(&slab);
        }
    }
    assert_partition(&slab);
}
