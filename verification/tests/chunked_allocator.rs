use nubila::chunked_allocator::ChunkedAllocator;

#[test]
fn test_new_chunked_allocator() {
    let allocator = ChunkedAllocator::<i32>::new(4);
    assert_eq!(allocator.chunk_size(), 4);
    assert_eq!(allocator.size(), 0);
    assert_eq!(allocator.insertion_count(), 0);
}

#[test]
fn test_push_back() {
    let mut allocator = ChunkedAllocator::<i32>::new(4);
    allocator.push_back(10);
    allocator.push_back(20);
    allocator.push_back(30);

    assert_eq!(allocator.size(), 3);

    assert_eq!(allocator.get(0), Some(&mut 10));
    assert_eq!(allocator.get(1), Some(&mut 20));
    assert_eq!(allocator.get(2), Some(&mut 30));
    assert_eq!(allocator.get(3), None); // Out of bounds
}

#[test]
fn test_insertion() {
    let mut allocator: ChunkedAllocator<i32> = ChunkedAllocator::new(4);
    allocator.push_back(1);
    allocator.push_back(2);
    allocator.push_back(3);
    allocator.insert(1, 99); // Inserting 99 at index 1

    assert_eq!(allocator.size(), 3);
    assert_eq!(allocator.insertion_count(), 1);
}

#[test]
fn test_finalize_without_insertions() {
    let mut allocator: ChunkedAllocator<i32> = ChunkedAllocator::new(4);
    allocator.push_back(5);
    allocator.push_back(15);
    allocator.push_back(25);

    let finalized = allocator.finalize();
    assert_eq!(finalized, vec![5, 15, 25]);

    // Ensure allocator is reset
    assert_eq!(allocator.size(), 0);
    assert_eq!(allocator.insertion_count(), 0);
}

#[test]
fn test_finalize_with_insertions() {
    let mut allocator: ChunkedAllocator<i32> = ChunkedAllocator::new(4);
    allocator.push_back(1);
    allocator.push_back(2);
    allocator.push_back(3);
    allocator.push_back(4);

    allocator.insert(0, 10); // Insert at the beginning
    allocator.insert(1, 20); // Insert at index 1
    allocator.insert(2, 30); // Insert at index 2
    allocator.insert(3, 40); // Insert at index 3
    allocator.insert(6, 50); // Insert after all elements

    let finalized = allocator.finalize();

    // Each insertion refers to the array as it was before any insertion, so 40, asked
    // for at index 3, lands between 3 and 4.
    assert_eq!(finalized, vec![10, 1, 20, 2, 30, 3, 40, 4, 50]);

    // Ensure allocator is reset
    assert_eq!(allocator.size(), 0);
    assert_eq!(allocator.insertion_count(), 0);
}

#[test]
fn test_finalize_large_allocator() {
    let mut allocator: ChunkedAllocator<i32> = ChunkedAllocator::new(4);

    for i in 0..10 {
        allocator.push_back(i);
    }

    allocator.insert(5, 50);
    allocator.insert(8, 80);

    let finalized = allocator.finalize();
    assert_eq!(finalized, vec![0, 1, 2, 3, 4, 50, 5, 6, 7, 80, 8, 9]);

    // Ensure allocator is reset
    assert_eq!(allocator.size(), 0);
    assert_eq!(allocator.insertion_count(), 0);
}

#[test]
fn test_get() {
    let mut allocator: ChunkedAllocator<i32> = ChunkedAllocator::new(4);
    allocator.push_back(1);
    allocator.push_back(2);
    assert_eq!(allocator.get(1), Some(&mut 2));
}

#[test]
fn test_get_out_of_bounds() {
    let mut allocator: ChunkedAllocator<i32> = ChunkedAllocator::new(4);
    allocator.push_back(1);
    allocator.push_back(2);
    assert_eq!(allocator.get(2), None); // Out of bounds
}

#[test]
fn get_overwrites_in_place() {
    let mut allocator: ChunkedAllocator<i32> = ChunkedAllocator::new(2);
    for i in 0..5 {
        allocator.push_back(i);
    }
    *allocator.get(3).unwrap() = 33;
    assert_eq!(allocator.get(2), Some(&mut 2));
    assert_eq!(allocator.get(3), Some(&mut 33));
    assert_eq!(allocator.get(4), Some(&mut 4));
    assert_eq!(allocator.finalize(), vec![0, 1, 2, 33, 4]);
}

#[test]
fn finalize_sorts_insertions_by_index() {
    let mut allocator: ChunkedAllocator<i32> = ChunkedAllocator::new(3);
    allocator.push_back(1);
    allocator.push_back(2);
    allocator.insert(7, 70);
    allocator.insert(1, 10);
    allocator.insert(0, 5);
    assert_eq!(allocator.finalize(), vec![5, 1, 10, 2, 70]);
}

#[test]
fn finalize_of_empty_allocator_keeps_insertions() {
    let mut allocator: ChunkedAllocator<i32> = ChunkedAllocator::new(4);
    allocator.insert(3, 30);
    allocator.insert(0, 1);
    assert_eq!(allocator.finalize(), vec![1, 30]);
    assert_eq!(allocator.chunk_size(), 4);
}

#[test]
fn allocator_is_usable_again_after_finalize() {
    let mut allocator: ChunkedAllocator<i32> = ChunkedAllocator::new(2);
    allocator.push_back(1);
    allocator.push_back(2);
    allocator.push_back(3);
    assert_eq!(allocator.finalize(), vec![1, 2, 3]);
    allocator.push_back(9);
    assert_eq!(allocator.size(), 1);
    assert_eq!(allocator.get(0), Some(&mut 9));
    assert_eq!(allocator.finalize(), vec![9]);
}
