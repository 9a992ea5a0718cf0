use hash_benches::{
    generate_data_block, generate_data_blocks_for_async_benchmarking, seed_from_value,
};

const SEED: u128 = 0xDEADBEEFCAFEF00DC0DEFACE99C0FFEEu128;

#[test]
fn seed_is_the_value_bytes_twice() {
    let seed = seed_from_value(SEED);
    let bytes = SEED.to_ne_bytes();
    assert_eq!(&seed[..16], &bytes[..]);
    assert_eq!(&seed[16..], &bytes[..]);
    assert_eq!(seed_from_value(0), [0u8; 32]);
}

#[test]
fn block_has_requested_size() {
    assert_eq!(generate_data_block(0, Some(SEED)).len(), 0);
    assert_eq!(generate_data_block(1, Some(SEED)).len(), 1);
    assert_eq!(generate_data_block(4096, Some(SEED)).len(), 4096);
    assert_eq!(generate_data_block(100, None).len(), 100);
}

#[test]
fn same_seed_gives_same_block() {
    let a = generate_data_block(1000, Some(SEED));
    let b = generate_data_block(1000, Some(SEED));
    assert_eq!(a, b);
    let c = generate_data_block(1000, Some(SEED + 1));
    assert_ne!(a, c);
}

#[test]
fn async_blocks_have_requested_shape() {
    let blocks = generate_data_blocks_for_async_benchmarking(3, 4, 50, Some(SEED));
    assert_eq!(blocks.len(), 3);
    for task in &blocks {
        assert_eq!(task.len(), 4);
        for chunk in task {
            assert_eq!(chunk.len(), 50);
        }
    }
    assert!(generate_data_blocks_for_async_benchmarking(0, 4, 50, None).is_empty());
    let empty_tasks = generate_data_blocks_for_async_benchmarking(2, 0, 50, None);
    assert_eq!(empty_tasks.len(), 2);
    assert!(empty_tasks.iter().all(|t| t.is_empty()));
}

#[test]
fn async_chunks_all_equal_the_seeded_block() {
    let blocks = generate_data_blocks_for_async_benchmarking(2, 3, 64, Some(SEED));
    let single = generate_data_block(64, Some(SEED));
    for task in &blocks {
        for chunk in task {
            assert_eq!(chunk, &single);
        }
    }
}
