use collam::block::{BlockPtr, Memory, BLOCK_META_SIZE};
use collam::list::IntrusiveList;

/// A block of 4080 payload bytes at 4096 split into three: the first and the
/// third 64 and the rest, the middle one 64 bytes.
fn three_blocks(mem: &mut Memory) -> (BlockPtr, BlockPtr, BlockPtr) {
    let block = BlockPtr::new(mem, 4096, 4080);
    let block2 = block.shrink(mem, 64).expect("unable to split block");
    let block3 = block2.shrink(mem, 64).expect("unable to split block");
    (block, block2, block3)
}

#[test]
fn test_list_new() {
    let list = IntrusiveList::new();
    assert_eq!(list.head(), None);
    assert_eq!(list.tail(), None);
}

#[test]
fn test_list_from() {
    let mut mem = Memory::new();
    let list = IntrusiveList::from(&mut mem, 4096, 4096).unwrap();
    assert!(list.head().is_some());
    assert!(list.tail().is_some());
    assert_eq!(list.head(), list.tail());
}

#[test]
fn test_insert_after_not_adjacent() {
    let mut mem = Memory::new();
    let (block, _block2, block3) = three_blocks(&mut mem);
    let mut list = IntrusiveList::new();

    // Insert block1
    list.insert(&mut mem, block).expect("unable to insert");
    assert_eq!(list.head(), Some(block));
    assert!(list.tail().is_some());

    // Insert block3
    list.insert(&mut mem, block3).expect("unable to insert");
    assert_eq!(list.head(), Some(block));
    assert_eq!(list.tail(), Some(block3));
    assert_eq!(list.blocks(), vec![block, block3]);
}

#[test]
fn test_insert_before_not_adjacent() {
    let mut mem = Memory::new();
    let (block, _block2, block3) = three_blocks(&mut mem);
    let mut list = IntrusiveList::new();

    // Insert block3
    list.insert(&mut mem, block3).expect("unable to insert");
    assert_eq!(list.head(), Some(block3));
    assert_eq!(list.tail(), Some(block3));

    // Insert block1
    list.insert(&mut mem, block).expect("unable to insert");
    assert_eq!(list.head(), Some(block));
    assert_eq!(list.tail(), Some(block3));
    assert_eq!(list.blocks(), vec![block, block3]);
}

#[test]
fn test_insert_merge() {
    let mut mem = Memory::new();
    let (block, block2, block3) = three_blocks(&mut mem);
    let mut list = IntrusiveList::new();

    // Insert block1
    list.insert(&mut mem, block).expect("unable to insert");
    assert_eq!(list.head(), Some(block));
    assert!(list.tail().is_some());
    assert_eq!(block.size(&mem), 64);

    // Insert block2
    list.insert(&mut mem, block2).expect("unable to insert");
    assert_eq!(list.head(), Some(block));
    assert!(list.tail().is_some());
    assert_eq!(block.size(&mem), 64 + BLOCK_META_SIZE + 64);

    // Insert block3
    list.insert(&mut mem, block3).expect("unable to insert");
    assert_eq!(list.head(), Some(block));
    assert_eq!(list.tail(), Some(block));
    assert_eq!(list.len(), 1);
    assert!(block.size(&mem) > 64 + BLOCK_META_SIZE + 64 + BLOCK_META_SIZE);
}

#[test]
fn test_pop_exact_size() {
    let mut mem = Memory::new();
    let (block, _block2, block3) = three_blocks(&mut mem);
    let mut list = IntrusiveList::new();
    list.insert(&mut mem, block).expect("unable to insert");
    list.insert(&mut mem, block3).expect("unable to insert");

    let result = list.pop(&mem, 64).expect("got no block");
    assert_eq!(result, block);
    assert_eq!(list.blocks(), vec![block3]);
    assert_eq!(result.size(&mem), 64);
}

#[test]
fn test_pop_smaller_size() {
    let mut mem = Memory::new();
    let (block, _block2, block3) = three_blocks(&mut mem);
    let mut list = IntrusiveList::new();
    list.insert(&mut mem, block).expect("unable to insert");
    list.insert(&mut mem, block3).expect("unable to insert");

    let result = list.pop(&mem, 16).expect("got no block");
    assert_eq!(result, block);
    assert_eq!(list.blocks(), vec![block3]);
    assert_eq!(result.size(&mem), 64);
}

#[test]
fn test_iter() {
    let mut mem = Memory::new();
    let (block, _block2, block3) = three_blocks(&mut mem);
    let mut list = IntrusiveList::new();
    list.insert(&mut mem, block).expect("unable to insert");
    list.insert(&mut mem, block3).expect("unable to insert");

    let mut iter = list.iter();
    assert_eq!(iter.next().unwrap(), block);
    assert_eq!(iter.next().unwrap(), block3);
    assert!(iter.next().is_none());
}

#[test]
fn test_debug() {
    let mut mem = Memory::new();
    let (block, _block2, block3) = three_blocks(&mut mem);
    let mut list = IntrusiveList::new();
    list.insert(&mut mem, block).expect("unable to insert");
    list.insert(&mut mem, block3).expect("unable to insert");
    assert!(list.debug(&mem));
}

#[test]
fn insert_detects_double_free() {
    let mut mem = Memory::new();
    let (block, _block2, block3) = three_blocks(&mut mem);
    let mut list = IntrusiveList::new();
    list.insert(&mut mem, block).expect("unable to insert");
    list.insert(&mut mem, block3).expect("unable to insert");
    assert!(list.insert(&mut mem, block).is_err());
    assert_eq!(list.blocks(), vec![block, block3]);
    assert_eq!(block.size(&mem), 64);
}

#[test]
fn pop_skips_blocks_too_small_to_split() {
    let mut mem = Memory::new();
    let (block, _block2, block3) = three_blocks(&mut mem);
    let mut list = IntrusiveList::new();
    list.insert(&mut mem, block).expect("unable to insert");
    list.insert(&mut mem, block3).expect("unable to insert");
    // 32 is neither 64 nor small enough to leave a viable tail of block 1.
    let result = list.pop(&mem, 32).expect("got no block");
    assert_eq!(result, block3);
    assert_eq!(list.blocks(), vec![block]);
}

#[test]
fn pop_on_empty_list_finds_nothing() {
    let mem = Memory::new();
    let mut list = IntrusiveList::new();
    assert!(list.pop(&mem, 16).is_none());
}

#[test]
fn debug_rejects_broken_order() {
    let mut mem = Memory::new();
    let (block, _block2, block3) = three_blocks(&mut mem);
    let mut list = IntrusiveList::new();
    list.insert(&mut mem, block).expect("unable to insert");
    list.insert(&mut mem, block3).expect("unable to insert");
    mem.wipe(block3.as_ptr());
    assert!(!list.debug(&mem));
}
