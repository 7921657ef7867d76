use turbo_tasks_memory::chunked_vec::{chunk_size, cummulative_chunk_size, ChunkedVec};

#[test]
fn chunk_sizes_double() {
    assert_eq!(chunk_size(0), 8);
    assert_eq!(chunk_size(1), 16);
    assert_eq!(chunk_size(5), 256);
    assert_eq!(cummulative_chunk_size(0), 8);
    assert_eq!(cummulative_chunk_size(1), 24);
    assert_eq!(cummulative_chunk_size(2), 56);
}

#[test]
fn push_keeps_order_across_chunks() {
    let mut v: ChunkedVec<usize> = ChunkedVec::new();
    assert!(v.is_empty());
    assert_eq!(v.len(), 0);
    for i in 0..100 {
        v.push(i * 3);
        assert_eq!(v.len(), i + 1);
    }
    assert!(!v.is_empty());
    let refs = v.iter();
    assert_eq!(refs.len(), 100);
    for (i, item) in refs.iter().enumerate() {
        assert_eq!(**item, i * 3);
    }
    let items = v.into_iter();
    assert_eq!(items, (0..100).map(|i| i * 3).collect::<Vec<usize>>());
}

#[test]
fn default_is_empty() {
    let v: ChunkedVec<u8> = ChunkedVec::default();
    assert!(v.is_empty());
    assert_eq!(v.len(), 0);
    assert_eq!(v.into_iter(), Vec::<u8>::new());
}
