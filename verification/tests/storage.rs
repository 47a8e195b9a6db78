use fast_tracer::storage::{Block, Storage, BLOCK_SIZE};

#[test]
fn block_keeps_order() {
    let mut block: Block<u32> = Block::new();
    assert!(block.is_empty());
    block.push(1);
    block.push(2);
    assert_eq!(block.last(), Some(&2));
    assert_eq!(block.iter(), vec![&1, &2]);
    assert_eq!(block.pop(), Some(2));
    assert_eq!(block.pop(), Some(1));
    assert_eq!(block.pop(), None);
}

#[test]
fn storage_spans_blocks() {
    let mut storage: Storage<usize> = Storage::new();
    let count = 2 * BLOCK_SIZE + 5;
    for i in 0..count {
        storage.push(i);
    }
    assert_eq!(storage.last(), Some(&(count - 1)));
    let all = storage.iter();
    assert_eq!(all.len(), count);
    for i in 0..count {
        assert_eq!(*all[i], i);
    }
    for i in (0..count).rev() {
        assert_eq!(storage.pop(), Some(i));
    }
    assert_eq!(storage.pop(), None);
    storage.push(7);
    assert_eq!(storage.iter(), vec![&7]);
    storage.reset();
    assert_eq!(storage.last(), None);
}
