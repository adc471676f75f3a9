use gerber::arena::{Arena, BLOCK_SIZE};
use gerber::basic_structures::BTree;
use gerber::corrida::{next_power_of_two, BlockMeta, Chain, Corrida, DEFAULT_BLOCK_SIZE};
use gerber::fighters::{ConnectedFighter, DirectedFighter};
use gerber::toy_structures::{BinaryTree, BinaryTreeNode};

#[test]
fn block_hands_out_aligned_slots() {
    let mut block = BlockMeta::new(64);
    assert_eq!(block.allocate(3, 1).unwrap(), 0);
    assert_eq!(block.allocate(4, 4).unwrap(), 4);
    assert_eq!(block.allocate(1, 1).unwrap(), 8);
    assert_eq!(block.allocate(8, 8).unwrap(), 16);
    assert_eq!(block.allocate(16, 16).unwrap(), 32);
    assert_eq!(block.allocate(16, 16).unwrap(), 48);
    assert!(block.allocate(1, 1).is_err());
    assert!(block.allocate(0, 1).is_ok());
}

#[test]
fn block_is_unchanged_by_a_request_that_does_not_fit() {
    let mut block = BlockMeta::new(16);
    assert_eq!(block.allocate(6, 2).unwrap(), 0);
    assert!(block.allocate(16, 1).is_err());
    assert!(block.allocate(8, 16).is_err());
    assert_eq!(block.allocate(8, 8).unwrap(), 8);
    assert!(block.allocate(1, 1).is_err());
}

#[test]
fn block_takes_a_request_that_ends_at_its_end() {
    let mut block = BlockMeta::new(8);
    assert_eq!(block.allocate(8, 8).unwrap(), 0);
    let mut block = BlockMeta::new(8);
    assert!(block.allocate(9, 1).is_err());
}

#[test]
fn powers_of_two() {
    assert_eq!(next_power_of_two(0), 1);
    assert_eq!(next_power_of_two(1), 1);
    assert_eq!(next_power_of_two(2), 2);
    assert_eq!(next_power_of_two(3), 4);
    assert_eq!(next_power_of_two(4096), 4096);
    assert_eq!(next_power_of_two(4097), 8192);
    assert_eq!(next_power_of_two(40_000), 65_536);
}

#[test]
fn arena_opens_blocks_as_they_fill() {
    let mut arena: Corrida<u64> = Corrida::new(None);
    assert!(arena.is_empty());
    assert_eq!(arena.num_blocks(), 1);
    assert_eq!(arena.newest_block(), (0, DEFAULT_BLOCK_SIZE));
    for i in 0..512 {
        assert_eq!(arena.allocate(i), i as usize);
    }
    assert_eq!(arena.num_blocks(), 1);
    assert_eq!(arena.newest_block(), (4096, 4096));
    assert_eq!(arena.allocate(512), 512);
    assert_eq!(arena.num_blocks(), 2);
    assert_eq!(arena.newest_block(), (8, 4096));
    assert_eq!(arena.len(), 513);
    assert!(!arena.is_empty());
    for i in 0..513 {
        assert_eq!(*arena.get(i), i as u64);
    }
}

#[test]
fn arena_opens_a_block_large_enough_for_a_large_value() {
    let mut arena: Corrida<[u8; 10_000]> = Corrida::new(None);
    arena.allocate([7; 10_000]);
    assert_eq!(arena.num_blocks(), 2);
    assert_eq!(arena.newest_block(), (10_000, 16_384));
    arena.allocate([8; 10_000]);
    assert_eq!(arena.num_blocks(), 3);
    assert_eq!(arena.get(0)[9_999], 7);
    assert_eq!(arena.get(1)[0], 8);

    let mut arena: Corrida<[u8; 10_000]> = Corrida::new(Some(1 << 15));
    assert_eq!(arena.newest_block(), (0, 1 << 15));
    arena.allocate([1; 10_000]);
    assert_eq!(arena.num_blocks(), 1);
    assert_eq!(arena.newest_block(), (10_000, 1 << 15));
    arena.allocate([2; 10_000]);
    arena.allocate([3; 10_000]);
    assert_eq!(arena.num_blocks(), 1);
    assert_eq!(arena.newest_block(), (30_000, 1 << 15));
    arena.allocate([4; 10_000]);
    assert_eq!(arena.num_blocks(), 2);
    assert_eq!(arena.newest_block(), (10_000, 1 << 15));
}

#[test]
fn first_block_has_the_size_that_was_asked_for() {
    let arena: Corrida<u8> = Corrida::new(Some(100));
    assert_eq!(arena.num_blocks(), 1);
    assert_eq!(arena.newest_block(), (0, 100));
    let arena: Corrida<u8> = Corrida::new(None);
    assert_eq!(arena.newest_block(), (0, 4096));
    let mut arena: Corrida<u64> = Corrida::new(Some(20));
    assert_eq!(arena.allocate(1), 0);
    assert_eq!(arena.allocate(2), 1);
    assert_eq!(arena.newest_block(), (16, 20));
    assert_eq!(arena.allocate(3), 2);
    assert_eq!(arena.num_blocks(), 2);
    assert_eq!(arena.newest_block(), (8, 20));
    let mut arena: Corrida<u64> = Corrida::new(Some(0));
    assert_eq!(arena.newest_block(), (0, 0));
    assert_eq!(arena.allocate(4), 0);
    assert_eq!(arena.num_blocks(), 2);
    assert_eq!(arena.newest_block(), (8, 8));
    assert_eq!(*arena.get(0), 4);
}

#[test]
fn arena_keeps_values_that_take_no_room() {
    let mut arena: Corrida<()> = Corrida::new(Some(1));
    for _ in 0..10_000 {
        arena.allocate(());
    }
    assert_eq!(arena.len(), 10_000);
    assert_eq!(arena.num_blocks(), 1);
    assert_eq!(arena.newest_block(), (0, 1));
}

#[test]
fn handles_keep_their_values() {
    let mut arena: Corrida<String> = Corrida::new(Some(64));
    let first = arena.allocate(String::from("first"));
    let mut handles = vec![first];
    for i in 0..1_000 {
        handles.push(arena.allocate(format!("{i}")));
        assert_eq!(arena.get(first), "first");
    }
    arena.get_mut(first).push_str(" and more");
    for i in 0..1_000 {
        assert_eq!(*arena.get(handles[i + 1]), format!("{i}"));
    }
    assert_eq!(arena.get(first), "first and more");
}

#[test]
fn block_arena_fills_block_after_block() {
    let mut arena = Arena::<usize>::new();
    assert!(arena.is_empty());
    for i in 0..(2 * BLOCK_SIZE + 3) {
        assert_eq!(arena.allocate(i * 2), i);
        assert_eq!(arena.len(), i + 1);
    }
    assert!(!arena.is_empty());
    for i in 0..(2 * BLOCK_SIZE + 3) {
        assert_eq!(*arena.get(i), i * 2);
    }
    *arena.get_mut(BLOCK_SIZE) = 5;
    assert_eq!(*arena.get(BLOCK_SIZE), 5);
    assert_eq!(*arena.get(BLOCK_SIZE - 1), 2 * BLOCK_SIZE - 2);
    assert_eq!(*arena.get(BLOCK_SIZE + 1), 2 * BLOCK_SIZE + 2);
    arena.reset();
    assert!(arena.is_empty());
    assert_eq!(arena.allocate(9), 0);
    assert_eq!(*arena.get(0), 9);
}

#[test]
fn walk_goes_from_left_to_right() {
    let mut arena = Corrida::new(None);
    let one = arena.allocate(BTree::new(1));
    let three = arena.allocate(BTree::new(3));
    let two = arena.allocate(BTree::new(2));
    arena.get_mut(two).left = Some(one);
    arena.get_mut(two).right = Some(three);
    let five = arena.allocate(BTree::new(5));
    let four = arena.allocate(BTree::new(4));
    arena.get_mut(four).left = Some(two);
    arena.get_mut(four).right = Some(five);

    let mut walk = BTree::iter_in_order(&arena, four);
    let mut seen = Vec::new();
    while let Some(value) = walk.next() {
        seen.push(value);
    }
    assert_eq!(seen, vec![1, 2, 3, 4, 5]);
    assert_eq!(walk.next(), None);
    assert_eq!(BTree::iter_in_order(&arena, four).last(), Some(5));
    assert_eq!(BTree::iter_in_order(&arena, one).last(), Some(1));
    let mut walk = BTree::iter_in_order(&arena, two);
    assert_eq!(walk.next(), Some(1));
    assert_eq!(walk.next(), Some(2));
    assert_eq!(walk.next(), Some(3));
    assert_eq!(walk.last(), None);
}

#[test]
fn new_vertices_have_no_edges() {
    let connected = ConnectedFighter::new('x');
    assert_eq!(connected.ele, 'x');
    assert!(connected.edges.is_empty());
    let directed = DirectedFighter::new(3);
    assert_eq!(directed.ele, 3);
    assert!(directed.outgoing.is_empty());
    assert!(directed.incoming.is_empty());
    let node = BinaryTreeNode::new(());
    assert!(node.left.is_none() && node.right.is_none());
    let mut tree = BinaryTree::new();
    assert_eq!(tree.insert_node(), 0);
    assert_eq!(tree.insert_node(), 1);
    tree.set_right(0, 1);
}

#[test]
fn chain_places_requests_of_any_size() {
    let mut chain = Chain::new(None);
    assert_eq!(chain.num_blocks(), 1);
    assert_eq!(chain.newest_block(), (0, DEFAULT_BLOCK_SIZE));
    let placed = chain.place(4090, 2);
    assert_eq!((placed.block, placed.offset, placed.opened), (0, 0, None));
    let placed = chain.place(3, 4);
    assert_eq!((placed.block, placed.offset, placed.opened), (0, 4092, None));
    let placed = chain.place(1, 1);
    assert_eq!((placed.block, placed.offset, placed.opened), (0, 4095, None));
    let placed = chain.place(1, 1);
    assert_eq!((placed.block, placed.offset, placed.opened), (1, 0, Some(4096)));

    let mut chain = Chain::new(Some(64));
    assert_eq!(chain.newest_block(), (0, 64));
    let placed = chain.place(60, 4);
    assert_eq!((placed.block, placed.offset, placed.opened), (0, 0, None));
    let placed = chain.place(8, 8);
    assert_eq!((placed.block, placed.offset, placed.opened), (1, 0, Some(64)));
    let placed = chain.place(100, 8);
    assert_eq!((placed.block, placed.offset, placed.opened), (2, 0, Some(128)));
    let placed = chain.place(16, 16);
    assert_eq!((placed.block, placed.offset, placed.opened), (2, 112, None));
    assert_eq!(chain.newest_block(), (128, 128));
    let placed = chain.place(0, 1);
    assert_eq!((placed.block, placed.offset, placed.opened), (2, 128, None));
    assert_eq!(chain.num_blocks(), 3);
}

#[test]
fn walk_does_not_mind_the_order_in_which_nodes_were_made() {
    let mut arena = Corrida::new(None);
    let root = arena.allocate(BTree::new(4));
    let left = arena.allocate(BTree::new(2));
    let right = arena.allocate(BTree::new(6));
    arena.get_mut(root).left = Some(left);
    arena.get_mut(root).right = Some(right);
    let far_left = arena.allocate(BTree::new(1));
    let inner = arena.allocate(BTree::new(3));
    arena.get_mut(left).left = Some(far_left);
    arena.get_mut(left).right = Some(inner);
    let before_right = arena.allocate(BTree::new(5));
    arena.get_mut(right).left = Some(before_right);
    arena.get_mut(right).right = Some(99);

    let mut walk = BTree::iter_in_order(&arena, root);
    let mut seen = Vec::new();
    while let Some(value) = walk.next() {
        seen.push(value);
    }
    assert_eq!(seen, vec![1, 2, 3, 4, 5, 6]);
    assert_eq!(BTree::iter_in_order(&arena, right).last(), Some(6));
    assert_eq!(BTree::iter_in_order(&arena, 99).next(), None);
    assert_eq!(BTree::iter_in_order(&arena, 99).last(), None);
}
