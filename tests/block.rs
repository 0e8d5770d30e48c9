use collam::block::{Block, BlockPtr, Memory, BLOCK_MAGIC_FREE, BLOCK_META_SIZE, BLOCK_SPLIT_MIN_SIZE};

fn assert_block(mem: &Memory, block: BlockPtr, size: usize) {
    assert_eq!(block.size(mem), size, "block size doesn't match");
    assert_eq!(block.block_size(mem), BLOCK_META_SIZE + size, "block raw size doesn't match");
    assert!(block.verify(mem), "unable to verify block metadata");
}

#[test]
fn block_test_block_new() {
    let alloc_size = 64;
    let mut mem = Memory::new();
    let block = BlockPtr::new(&mut mem, 4096, alloc_size);
    assert_block(&mem, block, alloc_size);
}

#[test]
fn block_test_block_shrink_with_remaining() {
    let block1_size = 4096;
    let mut mem = Memory::new();
    let block1 = BlockPtr::new(&mut mem, 4096, block1_size);
    assert_block(&mem, block1, block1_size);
    let total_size = block1.block_size(&mem);
    assert_eq!(block1.as_ptr(), 4096);

    // Shrink block1 to 256 bytes
    let block2 = block1.shrink(&mut mem, 256).expect("split block failed");
    assert_block(&mem, block1, 256);
    assert_eq!(block1.next_potential_block(&mem), block2.as_ptr());
    assert_block(&mem, block2, total_size - block1.block_size(&mem) - BLOCK_META_SIZE);

    // Shrink block2 to 256 bytes
    let block3 = block2.shrink(&mut mem, 256).expect("split block failed");
    assert_block(&mem, block2, 256);
    assert_eq!(block2.next_potential_block(&mem), block3.as_ptr());
    assert_block(
        &mem,
        block3,
        total_size - block1.block_size(&mem) - block2.block_size(&mem) - BLOCK_META_SIZE,
    );
}

#[test]
fn block_test_block_shrink_no_remaining() {
    let alloc_size = 256;
    let mut mem = Memory::new();
    let block = BlockPtr::new(&mut mem, 4096, alloc_size);
    let remaining = block.shrink(&mut mem, 240);

    // Assert correctness of initial block
    assert_eq!(block.as_ptr(), 4096);
    assert_block(&mem, block, 256);

    // There should be no remaining block
    // since 240 will be aligned to 256 and no space is left.
    assert!(remaining.is_none());
}

#[test]
fn block_test_block_verify_ok() {
    let mut mem = Memory::new();
    let block = BlockPtr::new(&mut mem, 4096, 256);
    assert!(block.verify(&mem));
}

#[test]
fn block_test_block_verify_invalid() {
    let mut mem = Memory::new();
    let block = BlockPtr::new(&mut mem, 4096, 256);
    mem.write(block.as_ptr(), Block { size: 256, magic: 0x1234 });
    assert_eq!(block.verify(&mem), false);
}

#[test]
fn block_test_block_mem_region_ok() {
    let mut mem = Memory::new();
    let block = BlockPtr::new(&mut mem, 4096, 64);
    let region = block.mem_region();
    assert!(region > block.as_ptr());
    let block2 = BlockPtr::from_mem_region(region).expect("unable to create from mem region");
    assert_eq!(block, block2);
}

#[test]
fn block_test_block_mem_region_err() {
    assert_eq!(BlockPtr::from_mem_region(16), None);
}

#[test]
fn block_header_and_region_offsets() {
    let mut mem = Memory::new();
    let block = BlockPtr::new(&mut mem, 8192, 96);
    assert_eq!(block.mem_region(), 8208);
    assert_eq!(block.next_potential_block(&mem), 8192 + 16 + 96);
    assert_eq!(mem.read(8192), Block { size: 96, magic: BLOCK_MAGIC_FREE });
    assert_eq!(mem.read(8200), Block { size: 0, magic: 0 });
}

#[test]
fn shrink_splits_only_with_a_viable_tail() {
    // Exactly enough room: head 64, tail payload BLOCK_SPLIT_MIN_SIZE.
    let mut mem = Memory::new();
    let size = 64 + BLOCK_META_SIZE + BLOCK_SPLIT_MIN_SIZE;
    let block = BlockPtr::new(&mut mem, 4096, size);
    let tail = block.shrink(&mut mem, 64).expect("tail is viable");
    assert_eq!(tail.as_ptr(), 4096 + 16 + 64);
    assert_eq!(tail.size(&mem), BLOCK_SPLIT_MIN_SIZE);

    // Sixteen bytes less: no split, nothing changes.
    let mut mem = Memory::new();
    let block = BlockPtr::new(&mut mem, 4096, size - 16);
    assert!(block.shrink(&mut mem, 64).is_none());
    assert_eq!(block.size(&mem), size - 16);
}

#[test]
fn merge_absorbs_adjacent_block_and_wipes_its_header() {
    let mut mem = Memory::new();
    let a = BlockPtr::new(&mut mem, 4096, 64);
    let b = BlockPtr::new(&mut mem, 4096 + 80, 32);
    assert_eq!(a.maybe_merge_next(&mut mem, b), Some(a));
    assert_eq!(a.size(&mem), 64 + 16 + 32);
    assert!(!b.verify(&mem));
}

#[test]
fn merge_leaves_distant_block_alone() {
    let mut mem = Memory::new();
    let a = BlockPtr::new(&mut mem, 4096, 64);
    let b = BlockPtr::new(&mut mem, 4096 + 96, 32);
    assert_eq!(a.maybe_merge_next(&mut mem, b), None);
    assert_eq!(a.size(&mem), 64);
    assert!(b.verify(&mem));
}

#[test]
fn shrink_then_merge_restores_the_block() {
    let mut mem = Memory::new();
    let a = BlockPtr::new(&mut mem, 4096, 4080);
    let tail = a.shrink(&mut mem, 256).unwrap();
    assert_eq!(a.size(&mem), 256);
    assert_eq!(a.maybe_merge_next(&mut mem, tail), Some(a));
    assert_eq!(mem.read(4096), Block { size: 4080, magic: BLOCK_MAGIC_FREE });
    assert!(!tail.verify(&mem));
}

#[test]
fn test_block_region_new() {
    let mut mem = Memory::new();
    let block = BlockPtr::new(&mut mem, 4096, 64);
    assert_block(&mem, block, 64);
}

#[test]
fn test_block_region_shrink_with_remaining() {
    let mut mem = Memory::new();
    let block1 = BlockPtr::new(&mut mem, 4096, 4096);
    assert_block(&mem, block1, 4096);
    let total_size = block1.block_size(&mem);

    let block2 = block1.shrink(&mut mem, 256).expect("split block failed");
    assert_block(&mem, block1, 256);
    assert_eq!(block1.next_potential_block(&mem), block2.as_ptr());
    assert_block(&mem, block2, total_size - block1.block_size(&mem) - BLOCK_META_SIZE);

    let block3 = block2.shrink(&mut mem, 256).expect("split block failed");
    assert_block(&mem, block2, 256);
    assert_eq!(block2.next_potential_block(&mem), block3.as_ptr());
    assert_block(
        &mem,
        block3,
        total_size - block1.block_size(&mem) - block2.block_size(&mem) - BLOCK_META_SIZE,
    );
}

#[test]
fn test_block_region_shrink_no_remaining() {
    let mut mem = Memory::new();
    let block = BlockPtr::new(&mut mem, 4096, 256);
    let remaining = block.shrink(&mut mem, 240);
    assert_eq!(block.as_ptr(), 4096);
    assert_block(&mem, block, 256);
    assert!(remaining.is_none());
}

#[test]
fn test_block_region_verify_ok() {
    let mut mem = Memory::new();
    let block = BlockPtr::new(&mut mem, 4096, 256);
    assert_eq!(block.verify(&mem), true);
}

#[test]
fn test_block_region_verify_invalid() {
    let mut mem = Memory::new();
    let block = BlockPtr::new(&mut mem, 4096, 256);
    mem.write(block.as_ptr(), Block { size: 256, magic: 0x1234 });
    assert_eq!(block.verify(&mem), false);
}

#[test]
fn test_block_region_mem_region() {
    let mut mem = Memory::new();
    let block = BlockPtr::new(&mut mem, 4096, 64);
    let region = block.mem_region();
    assert!(region > block.as_ptr());
    let block2 = BlockPtr::from_mem_region(region).expect("unable to create from mem region");
    assert_eq!(block, block2);
}
