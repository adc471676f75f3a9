use gerber::arena::Arena;
use gerber::basic_structures::BTree;
use gerber::corrida::Corrida;
use gerber::fighters::IsolatedFighter;
use gerber::toy_structures::BinaryTree;
use std::hint::black_box;
use std::time::{Duration, Instant};

#[test]
fn arena_test_isolated_arena() {
    let mut arena = Arena::<u32>::new();
    {
        let a = arena.allocate(1);
        let b = arena.allocate(2);
        let c = arena.allocate(3);
        assert_eq!(*arena.get(a), 1);
        assert_eq!(*arena.get(b), 2);
        assert_eq!(*arena.get(c), 3);
        assert_eq!(arena.len(), 3);
    }
    arena.reset();
    assert_eq!(arena.len(), 0);
    {
        let a = arena.allocate(4);
        let b = arena.allocate(5);
        let c = arena.allocate(6);
        *arena.get_mut(a) = 0;
        *arena.get_mut(c) = 10;
        assert_eq!(*arena.get(a), 0);
        assert_eq!(*arena.get(b), 5);
        assert_eq!(*arena.get(c), 10);
        assert_eq!(arena.len(), 3);
    }
}

#[test]
fn attempt2_test_isolated_arena() {
    let mut arena = Arena::<IsolatedFighter<u32>>::new();
    {
        let a = arena.allocate(IsolatedFighter::new(1));
        let b = arena.allocate(IsolatedFighter::new(2));
        let c = arena.allocate(IsolatedFighter::new(3));
        assert_eq!(arena.get(a).ele, 1);
        assert_eq!(arena.get(b).ele, 2);
        assert_eq!(arena.get(c).ele, 3);
        assert_eq!(arena.len(), 3);
    }
    arena.reset();
    assert_eq!(arena.len(), 0);
    {
        let a = arena.allocate(IsolatedFighter::new(4));
        let b = arena.allocate(IsolatedFighter::new(5));
        let c = arena.allocate(IsolatedFighter::new(6));
        arena.get_mut(a).ele = 0;
        arena.get_mut(c).ele = 10;
        assert_eq!(arena.get(a).ele, 0);
        assert_eq!(arena.get(b).ele, 5);
        assert_eq!(arena.get(c).ele, 10);
        assert_eq!(arena.len(), 3);
    }
}

#[test]
fn basic_structures_test_line() {
    let mut arena = Corrida::new(None);

    let mut cur = arena.allocate(BTree::new(1_000_000));

    for i in (0..1_000_000).rev() {
        let parent = arena.allocate(BTree::new(i));
        arena.get_mut(parent).right = Some(cur);
        cur = parent;
    }

    let mut itr = BTree::iter_in_order(&arena, cur);

    assert_eq!(itr.next(), Some(0));
    assert_eq!(itr.last(), Some(1_000_000));
}

#[test]
fn final_test_isolated_arena() {
    let mut arena = Corrida::new(None);
    {
        let a = arena.allocate(1);
        let b = arena.allocate(2);
        let c = arena.allocate(3);
        assert_eq!(*arena.get(a), 1);
        assert_eq!(*arena.get(b), 2);
        assert_eq!(*arena.get(c), 3);
    }
}

#[test]
fn final_test_large() {
    let start = Instant::now();
    let mut arena = Corrida::new(None);
    for i in 0..10_000 {
        if i % 1000 == 0 {
            println!("{i}");
        }
        let _my_ref = arena.allocate([i, i, i, i, i, i, i, i, i, i, i, i, i, i, i, i]);
    }
    assert!(start.elapsed() < Duration::from_millis(500))
}

#[test]
fn test_large2() {
    let start = Instant::now();
    let _arena: Corrida<[i32; 16]> = Corrida::new(None);
    for i in 0..5_000_000 {
        let _my_ref = Box::new([i, i, i, i, i, i, i, i, i, i, i, i, i, i, i, i]);
        let _ = Box::into_raw(_my_ref);
    }
    assert!(start.elapsed() < Duration::from_millis(500))
}

#[test]
fn lib_test_isolated_arena() {
    let mut arena = Corrida::new(None);
    {
        let a = arena.allocate(1);
        let b = arena.allocate(2);
        let c = arena.allocate(3);
        assert_eq!(*arena.get(a), 1);
        assert_eq!(*arena.get(b), 2);
        assert_eq!(*arena.get(c), 3);
    }
}

#[test]
fn lib_test_large() {
    let start = Instant::now();
    let mut arena = Corrida::new(None);
    for i in 0..5_000_000 {
        let _my_ref = arena.allocate([i, i, i, i, i, i, i, i, i, i, i, i, i, i, i, i]);
        black_box(_my_ref);
    }
    println!("Arena: {}", start.elapsed().as_millis());
}

#[test]
fn test_mixed() {
    let mut arrays = Corrida::new(Some(1 << 14));
    let mut chars = Corrida::new(Some(1 << 14));
    let mut numbers = Corrida::new(Some(1 << 14));
    let mut arenas = Corrida::new(Some(1 << 14));

    let arr = arrays.allocate([1; 100]);
    let char = chars.allocate('c');
    let i32 = numbers.allocate(1);
    let arrays_inside_arena = arenas.allocate(Corrida::new(None));
    let mut chars_inside_arena = Corrida::new(None);
    let mut numbers_inside_arena = Corrida::new(None);

    arenas.get_mut(arrays_inside_arena).allocate(*arrays.get(arr));
    chars_inside_arena.allocate(*chars.get(char));
    numbers_inside_arena.allocate(*numbers.get(i32));
    assert_eq!(arenas.get(arrays_inside_arena).get(0)[99], 1);
    assert_eq!(*chars_inside_arena.get(0), 'c');
    assert_eq!(*numbers_inside_arena.get(0), 1);
}

#[test]
fn test_drop() {
    for _ in 0..10_000 {
        let mut arena = Corrida::new(None);
        for _ in 0..10_000 {
            let _my_ref = arena.allocate(1);
        }
        let mut big_arena = Corrida::new(None);
        let big = big_arena.allocate([1; 10_000]);
        black_box(big);
    }
}

#[test]
fn toy_structures_test_line() {
    let mut tree = BinaryTree::new();

    for _ in 0..1_000_000 {
        let cur = tree.insert_node();
        let child = tree.insert_node();
        tree.set_right(cur, child);
    }
}
