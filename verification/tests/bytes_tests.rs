use perp_dex::constants::INVALID_INDEX;
use perp_dex::error::PerpError;
use perp_dex::state::event_queue::EventQueue;
use perp_dex::state::order::{MatchedOrder, Order};
use perp_dex::state::position::{OrderType, Side};
use perp_dex::state::request_queue::{RequestQueue, RequestType};
use perp_dex::state::slab::{AnyNode, FreeNode, InnerNode, LeafNode, NodeBody, Slab, SlabHeader};

fn leaf(key: u128, quantity: u64) -> LeafNode {
    LeafNode::new(key, [7u8; 32], quantity, 3, -9)
}

fn sample() -> Slab {
    let mut slab = Slab::initialize(32 + 88 * 6, 6).unwrap();
    slab.insert_leaf(&leaf(5, 1)).unwrap();
    slab.insert_leaf(&leaf(3, 2)).unwrap();
    slab.insert_leaf(&leaf(9, 3)).unwrap();
    slab
}

fn order(qty: u64) -> Order {
    Order {
        user: [9u8; 32],
        order_id: 12,
        side: Side::Sell,
        qty,
        order_type: OrderType::Limit,
        limit_price: 100,
        initial_margin: 77,
        leverage: 3,
        market: [5u8; 32],
    }
}

fn fill(qty: u64) -> MatchedOrder {
    MatchedOrder {
        is_maker: true,
        order_id: 0xAABB,
        user: [6u8; 32],
        fill_price: 100,
        fill_qty: qty,
        side: Side::Buy,
        timestamp: -5,
    }
}

#[test]
fn well_formed_books_pass_the_check() {
    assert!(Slab::initialize(32, 0).unwrap().is_well_formed());
    assert!(Slab::initialize(32 + 88 * 6, 6).unwrap().is_well_formed());
    let mut slab = sample();
    assert!(slab.is_well_formed());
    let slot = slab.find_by_key(3).unwrap();
    slab.remove_leaf(slot).unwrap();
    assert!(slab.is_well_formed());
    let unused = Slab {
        header: SlabHeader::new(),
        nodes: vec![AnyNode { node: NodeBody::Uninitialized }; 3],
    };
    assert!(unused.is_well_formed());
}

#[test]
fn broken_books_fail_the_check() {
    let mut wrong_count = sample();
    wrong_count.header.leaf_count = 2;
    assert!(!wrong_count.is_well_formed());
    let mut no_root = sample();
    no_root.header.root = INVALID_INDEX as u64;
    assert!(!no_root.is_well_formed());
    let mut far_root = sample();
    far_root.header.root = 6;
    assert!(!far_root.is_well_formed());
    let mut high_bump = sample();
    high_bump.header.bump_index = 7;
    assert!(!high_bump.is_well_formed());
    let mut low_bump = sample();
    low_bump.header.bump_index = 5;
    assert!(!low_bump.is_well_formed());
    let mut lost_list = sample();
    lost_list.header.free_list_head = INVALID_INDEX as u64;
    assert!(!lost_list.is_well_formed());
    let mut list_into_tree = sample();
    list_into_tree.header.free_list_head = list_into_tree.header.root;
    assert!(!list_into_tree.is_well_formed());
    let mut cycle = sample();
    let head = cycle.header.free_list_head;
    cycle.nodes[head as usize] = AnyNode { node: NodeBody::Free(FreeNode::new(head)) };
    assert!(!cycle.is_well_formed());
    let mut swapped = sample();
    let root = swapped.header.root as usize;
    let inner = *swapped.nodes[root].as_inner();
    swapped.nodes[root] = AnyNode {
        node: NodeBody::Inner(InnerNode { children: [inner.right(), inner.left()], ..inner }),
    };
    assert!(!swapped.is_well_formed());
    let mut shared = sample();
    shared.nodes[root] = AnyNode {
        node: NodeBody::Inner(InnerNode { children: [inner.left(), inner.left()], ..inner }),
    };
    assert!(!shared.is_well_formed());
    let mut looped = sample();
    looped.nodes[root] = AnyNode {
        node: NodeBody::Inner(InnerNode { children: [root as u32, inner.right()], ..inner }),
    };
    assert!(!looped.is_well_formed());
    let mut shallow = sample();
    shallow.nodes[root] = AnyNode {
        node: NodeBody::Inner(InnerNode { prefix_len: inner.prefix_len + 1, ..inner }),
    };
    assert!(!shallow.is_well_formed());
    let mut deep = sample();
    deep.nodes[root] = AnyNode { node: NodeBody::Inner(InnerNode { prefix_len: 128, ..inner }) };
    assert!(!deep.is_well_formed());
    let mut other_key = sample();
    let slot = other_key.find_by_key(3).unwrap() as usize;
    other_key.nodes[slot] = AnyNode { node: NodeBody::Leaf(leaf(1 << 100, 2)) };
    assert!(!other_key.is_well_formed());
    let mut stray = Slab {
        header: SlabHeader::new(),
        nodes: vec![AnyNode { node: NodeBody::Uninitialized }; 3],
    };
    stray.nodes[1] = AnyNode { node: NodeBody::Leaf(leaf(1, 1)) };
    assert!(!stray.is_well_formed());
}

#[test]
fn book_image_layout() {
    let slab = sample();
    let bytes = slab.to_bytes();
    assert_eq!(bytes.len(), 32 + 88 * 6);
    assert_eq!(bytes[0..8], 3u64.to_le_bytes());
    assert_eq!(bytes[8..16], 6u64.to_le_bytes());
    assert_eq!(bytes[16..24], slab.header.free_list_head.to_le_bytes());
    assert_eq!(bytes[24..32], slab.header.root.to_le_bytes());
    // Slot 0 holds the first order.
    let first = &bytes[32..120];
    assert_eq!(first[0..4], 2u32.to_le_bytes());
    assert_eq!(first[4..8], [0u8; 4]);
    assert_eq!(first[8..24], 5u128.to_le_bytes());
    assert_eq!(first[24..56], [7u8; 32]);
    assert_eq!(first[56..64], 1u64.to_le_bytes());
    assert_eq!(first[64..72], (-9i64).to_le_bytes());
    assert_eq!(first[72], 3);
    assert_eq!(first[73..88], [0u8; 15]);
    // The root branches between 3 and everything above it.
    let root = slab.header.root as usize;
    let inner = slab.nodes[root].as_inner();
    let image = &bytes[32 + 88 * root..32 + 88 * (root + 1)];
    assert_eq!(image[0..4], 1u32.to_le_bytes());
    assert_eq!(image[8..16], inner.prefix_len.to_le_bytes());
    assert_eq!(image[16..32], inner.key.to_le_bytes());
    assert_eq!(image[32..36], inner.left().to_le_bytes());
    assert_eq!(image[36..40], inner.right().to_le_bytes());
    assert_eq!(image[40..88], [0u8; 48]);
    // The free slot at the head of the list.
    let head = slab.header.free_list_head as usize;
    let image = &bytes[32 + 88 * head..32 + 88 * (head + 1)];
    assert_eq!(image[0..4], 3u32.to_le_bytes());
    assert_eq!(image[8..16], slab.nodes[head].as_free().next.to_le_bytes());
    assert_eq!(image[16..88], [0u8; 72]);
}

#[test]
fn book_image_round_trip() {
    let slab = sample();
    let mut bytes = slab.to_bytes();
    let back = Slab::from_bytes(&bytes).unwrap();
    assert_eq!(back.header, slab.header);
    assert_eq!(back.nodes, slab.nodes);
    assert_eq!(back.to_bytes(), bytes);
    // Bytes beyond the last whole slot are not looked at.
    bytes.extend_from_slice(&[0xEE; 87]);
    let back = Slab::from_bytes(&bytes).unwrap();
    assert_eq!(back.nodes, slab.nodes);
    let empty = Slab::from_bytes(&Slab::initialize(32, 0).unwrap().to_bytes()).unwrap();
    assert_eq!(empty.capacity(), 0);
    let unused = Slab {
        header: SlabHeader::new(),
        nodes: vec![AnyNode { node: NodeBody::Uninitialized }; 3],
    };
    let image = unused.to_bytes();
    assert!(image[32..].iter().all(|byte| *byte == 0));
    assert_eq!(Slab::from_bytes(&image).unwrap().nodes, unused.nodes);
}

#[test]
fn book_image_refusals() {
    let bytes = sample().to_bytes();
    assert!(matches!(Slab::from_bytes(&bytes[..31]), Err(PerpError::InsufficientSpace)));
    assert!(matches!(Slab::from_bytes(&[]), Err(PerpError::InsufficientSpace)));
    let mut bad_tag = bytes.clone();
    bad_tag[32] = 4;
    assert!(matches!(Slab::from_bytes(&bad_tag), Err(PerpError::InvalidNodeType)));
    let mut bad_padding = bytes.clone();
    bad_padding[32 + 5] = 1;
    assert!(matches!(Slab::from_bytes(&bad_padding), Err(PerpError::InvalidNodeType)));
    let mut bad_reserve = bytes.clone();
    bad_reserve[32 + 87] = 1;
    assert!(matches!(Slab::from_bytes(&bad_reserve), Err(PerpError::InvalidNodeType)));
    let mut wrong_count = bytes.clone();
    wrong_count[0] = 4;
    assert!(matches!(Slab::from_bytes(&wrong_count), Err(PerpError::InvalidTree)));
    // With its last slot cut off, the free list leads out of the pool.
    assert!(matches!(Slab::from_bytes(&bytes[..bytes.len() - 1]), Err(PerpError::InvalidTree)));
    // All zeros: a header that counts no order but names slot 0 as root and as free.
    assert!(matches!(Slab::from_bytes(&[0u8; 32 + 88]), Err(PerpError::InvalidTree)));
}

#[test]
fn request_queue_image_round_trip() {
    let mut queue = RequestQueue::with_capacity(3);
    queue.push(&RequestType::Place(order(1))).unwrap();
    queue.push(&RequestType::Place(order(2))).unwrap();
    queue.pop().unwrap();
    let mut bytes = queue.to_bytes();
    assert_eq!(bytes.len(), 16 + 136 * 3);
    assert_eq!(bytes[0..2], 1u16.to_le_bytes());
    assert_eq!(bytes[2..4], 2u16.to_le_bytes());
    assert_eq!(bytes[4..6], 1u16.to_le_bytes());
    assert_eq!(bytes[6..8], 3u16.to_le_bytes());
    assert_eq!(bytes[8..16], 2u64.to_le_bytes());
    let second = &bytes[16 + 136..16 + 272];
    assert_eq!(second[..108], RequestType::Place(order(2)).encode()[..]);
    assert_eq!(second[108..128], [0u8; 20]);
    assert_eq!(second[128..130], 108u16.to_le_bytes());
    assert_eq!(second[130], 1);
    assert_eq!(second[131..136], [0u8; 5]);
    let mut back = RequestQueue::from_bytes(&bytes).unwrap();
    assert_eq!((back.head, back.tail, back.count, back.capacity, back.sequence), (1, 2, 1, 3, 2));
    assert_eq!(back.slots, queue.slots);
    assert_eq!(back.pop(), Ok(RequestType::Place(order(2))));
    bytes.extend_from_slice(&[1, 2, 3]);
    assert!(RequestQueue::from_bytes(&bytes).is_ok());
}

#[test]
fn request_queue_image_refusals() {
    let mut queue = RequestQueue::with_capacity(3);
    queue.push(&RequestType::Place(order(1))).unwrap();
    let bytes = queue.to_bytes();
    assert!(matches!(RequestQueue::from_bytes(&bytes[..15]), Err(PerpError::InsufficientSpace)));
    assert!(matches!(
        RequestQueue::from_bytes(&bytes[..bytes.len() - 1]),
        Err(PerpError::InsufficientSpace)
    ));
    let mut padded = bytes.clone();
    padded[16 + 135] = 1;
    assert!(matches!(RequestQueue::from_bytes(&padded), Err(PerpError::DeserializationFailed)));
    let mut far_head = bytes.clone();
    far_head[0] = 3;
    assert!(matches!(RequestQueue::from_bytes(&far_head), Err(PerpError::DeserializationFailed)));
    let mut wrong_tail = bytes.clone();
    wrong_tail[2] = 2;
    assert!(matches!(RequestQueue::from_bytes(&wrong_tail), Err(PerpError::DeserializationFailed)));
    let mut crowded = bytes.clone();
    crowded[4] = 4;
    assert!(matches!(RequestQueue::from_bytes(&crowded), Err(PerpError::DeserializationFailed)));
    assert!(matches!(RequestQueue::from_bytes(&[0u8; 16]), Err(PerpError::DeserializationFailed)));
}

#[test]
fn event_queue_image_round_trip() {
    let mut queue = EventQueue::with_capacity(2);
    queue.push(&fill(1)).unwrap();
    queue.push(&fill(2)).unwrap();
    queue.pop().unwrap();
    queue.push(&fill(3)).unwrap();
    let bytes = queue.to_bytes();
    assert_eq!(bytes.len(), 16 + 136 * 2);
    let mut back = EventQueue::from_bytes(&bytes).unwrap();
    assert_eq!((back.head, back.tail, back.count, back.capacity, back.sequence), (1, 1, 2, 2, 3));
    assert_eq!(back.slots, queue.slots);
    assert_eq!(back.pop(), Ok(fill(2)));
    assert_eq!(back.pop(), Ok(fill(3)));
    assert!(matches!(EventQueue::from_bytes(&bytes[..100]), Err(PerpError::InsufficientSpace)));
    let mut padded = bytes.clone();
    padded[16 + 131] = 9;
    assert!(matches!(EventQueue::from_bytes(&padded), Err(PerpError::DeserializationFailed)));
    let mut wrong_tail = bytes.clone();
    wrong_tail[2] = 0;
    assert!(matches!(EventQueue::from_bytes(&wrong_tail), Err(PerpError::DeserializationFailed)));
}
