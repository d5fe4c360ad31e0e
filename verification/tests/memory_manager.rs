use buddy_system::memory_manager::{
    BlockEntry, BlockLists, MemoryError, MemoryManager, SymbolTable,
};

#[test]
fn test_manager_creation1() {
    let manager = MemoryManager::new(10);
    let expected_block_list = BlockLists {
        lists: vec![
            BlockEntry { size: 2, addrs: vec![8] },
            BlockEntry { size: 8, addrs: vec![0] },
        ],
    };
    let expected_name_list = SymbolTable { entries: vec![] };
    let expected_memory: Vec<u8> = vec![0; 10];

    assert_eq!(*manager.get_blocks(), expected_block_list);
    assert_eq!(*manager.get_memory(), expected_memory);
    assert_eq!(*manager.get_names(), expected_name_list);
}

#[test]
fn test_manager_creation2() {
    let manager = MemoryManager::new(1);
    let expected_block_list = BlockLists { lists: vec![BlockEntry { size: 1, addrs: vec![0] }] };
    let expected_name_list = SymbolTable { entries: vec![] };
    let expected_memory: Vec<u8> = vec![0; 1];

    assert_eq!(*manager.get_blocks(), expected_block_list);
    assert_eq!(*manager.get_memory(), expected_memory);
    assert_eq!(*manager.get_names(), expected_name_list);
}

#[test]
fn test_manager_creation3() {
    let manager = MemoryManager::new(8);
    let expected_block_list = BlockLists { lists: vec![BlockEntry { size: 8, addrs: vec![0] }] };
    let expected_name_list = SymbolTable { entries: vec![] };
    let expected_memory: Vec<u8> = vec![0; 8];

    assert_eq!(*manager.get_blocks(), expected_block_list);
    assert_eq!(*manager.get_memory(), expected_memory);
    assert_eq!(*manager.get_names(), expected_name_list);
}

#[test]
fn test_should_allocate_mem() {
    let mut manager = MemoryManager::new(20);
    // allocating with enough space should work

    assert!(manager.allocate(String::from("x"), 8).is_ok());
    assert!(manager.allocate(String::from("z"), 8).is_ok());
}

#[test]
fn test_should_scream_too_much_memory() {
    let mut manager = MemoryManager::new(20);

    // Requesting too much memory should trigger an obvious out of memory
    assert_eq!(
        manager.allocate(String::from("ohno"), 999999),
        Err(MemoryError::OutOfMemory)
    )
}

#[test]
fn test_should_scream_too_much_memory_even_with_enough() {
    let mut manager = MemoryManager::new(20);

    // Due to the buddy system nature, it shouldn't be possible to
    // allocate memory too near to the max available memory
    assert_eq!(
        manager.allocate(String::from("ohno"), 18),
        Err(MemoryError::OutOfMemory)
    )
}

#[test]
fn test_should_scream_already_created() {
    let mut manager = MemoryManager::new(20);

    // creating the same variable twice should trigger an error
    let _ = manager.allocate(String::from("x"), 4);

    assert_eq!(
        manager.allocate(String::from("x"), 2),
        Err(MemoryError::AlreadyExistingSymbol)
    )
}

#[test]
fn test_delete_ok() {
    let mut manager = MemoryManager::new(20);

    let _ = manager.allocate(String::from("x"), 4);
    assert!(manager.free(&String::from("x")).is_ok());
}

#[test]
fn test_delete_not_available() {
    let mut manager = MemoryManager::new(20);

    // Symbol should not be available after free
    let _ = manager.allocate(String::from("x"), 4);
    let _ = manager.free(&String::from("x"));

    let names = manager.get_names();

    assert_eq!(names.get(&String::from("x")), None);
}

#[test]
fn allocation_takes_smallest_fit_and_splits_the_excess() {
    let mut manager = MemoryManager::new(10);
    // Free blocks: {2: [8], 8: [0]}. A request of 3 bytes rounds up to a
    // chunk of 4, takes the block of 8 at address 0 and splits the excess
    // [4, 8) back as a free block of 4.
    assert_eq!(manager.allocate(String::from("a"), 3), Ok(0));

    let expected_block_list = BlockLists {
        lists: vec![
            BlockEntry { size: 2, addrs: vec![8] },
            BlockEntry { size: 4, addrs: vec![4] },
            BlockEntry { size: 8, addrs: vec![] },
        ],
    };
    assert_eq!(*manager.get_blocks(), expected_block_list);

    let names = manager.get_names();
    let record = names.get(&String::from("a")).expect("symbol must be live");
    assert_eq!(record.id, 1);
    assert_eq!(record.position, 0);
    assert_eq!(record.size, 3);
    assert_eq!(record.chunk_size, 4);
}

#[test]
fn failed_allocation_keeps_the_first_record() {
    let mut manager = MemoryManager::new(20);

    let first = manager.allocate(String::from("x"), 4);
    assert_eq!(first, Ok(16));
    assert_eq!(
        manager.allocate(String::from("x"), 2),
        Err(MemoryError::AlreadyExistingSymbol)
    );

    let names = manager.get_names();
    let record = names.get(&String::from("x")).expect("symbol must be live");
    assert_eq!(record.position, 16);
    assert_eq!(record.size, 4);
    assert_eq!(record.chunk_size, 4);
}

#[test]
fn freed_name_can_be_allocated_again() {
    let mut manager = MemoryManager::new(20);

    assert!(manager.allocate(String::from("x"), 4).is_ok());
    assert!(manager.free(&String::from("x")).is_ok());
    assert!(!manager.is_symbol(&String::from("x")));
    assert!(manager.allocate(String::from("x"), 4).is_ok());
}

#[test]
fn second_free_fails_with_symbol_not_defined() {
    let mut manager = MemoryManager::new(20);

    let _ = manager.allocate(String::from("x"), 4);
    assert_eq!(manager.free(&String::from("x")), Ok(()));
    assert_eq!(
        manager.free(&String::from("x")),
        Err(MemoryError::SymbolNotDefined)
    );
}

#[test]
fn free_on_unknown_name_fails() {
    let mut manager = MemoryManager::new(20);
    assert_eq!(
        manager.free(&String::from("nobody")),
        Err(MemoryError::SymbolNotDefined)
    );
}

#[test]
fn allocated_address_leaves_the_free_lists_and_returns_once() {
    let mut manager = MemoryManager::new(10);

    let addr = manager.allocate(String::from("x"), 3).expect("fits");
    assert_eq!(addr, 0);
    let chunk_size = manager
        .get_names()
        .get(&String::from("x"))
        .expect("live")
        .chunk_size;

    // While the symbol is live its address is in no free list.
    for entry in &manager.get_blocks().lists {
        assert!(entry.addrs.iter().all(|a| *a != addr));
    }

    // After the free it is in the list for its chunk size, exactly once.
    assert_eq!(manager.free(&String::from("x")), Ok(()));
    for entry in &manager.get_blocks().lists {
        let occurrences = entry.addrs.iter().filter(|a| **a == addr).count();
        if entry.size == chunk_size {
            assert_eq!(occurrences, 1);
        } else {
            assert_eq!(occurrences, 0);
        }
    }
}

#[test]
fn free_block_of_exact_size_is_reused_in_stack_order() {
    let mut manager = MemoryManager::new(16);
    // {16: [0]} -> take 0 for a chunk of 4, leaving {4: [12], 8: [4], 16: []}
    assert_eq!(manager.allocate(String::from("a"), 4), Ok(0));
    assert_eq!(manager.allocate(String::from("b"), 4), Ok(12));
    assert_eq!(manager.free(&String::from("a")), Ok(()));
    // the freed address 0 was pushed last, so it is taken first
    assert_eq!(manager.allocate(String::from("c"), 3), Ok(0));
}

#[test]
fn allocation_fails_when_no_block_is_large_enough() {
    let mut manager = MemoryManager::new(4);
    assert_eq!(manager.allocate(String::from("a"), 4), Ok(0));
    // all memory is reserved: nothing is free, however small the request
    assert_eq!(
        manager.allocate(String::from("b"), 1),
        Err(MemoryError::OutOfMemory)
    );
}

#[test]
fn zero_capacity_manager_is_empty_and_refuses_requests() {
    let mut manager = MemoryManager::new(0);
    assert_eq!(*manager.get_blocks(), BlockLists { lists: vec![] });
    assert_eq!(manager.get_memory().len(), 0);
    assert_eq!(
        manager.allocate(String::from("a"), 0),
        Err(MemoryError::OutOfMemory)
    );
}

#[test]
fn zero_sized_allocation_reserves_a_block_of_one() {
    let mut manager = MemoryManager::new(2);
    assert_eq!(manager.allocate(String::from("z"), 0), Ok(0));
    assert!(manager.is_symbol(&String::from("z")));
    let record = *manager.get_names().get(&String::from("z")).expect("live");
    assert_eq!(record.size, 0);
    assert_eq!(record.chunk_size, 1);
}

#[test]
fn show_renders_used_bytes_with_the_symbol_id() {
    let mut manager = MemoryManager::new(10);
    assert_eq!(manager.allocate(String::from("a"), 3), Ok(0));

    let cells = manager.show();
    assert_eq!(cells.len(), 10);
    // the three used bytes show the identifier of the symbol
    assert_eq!(cells[0], Some(1));
    assert_eq!(cells[1], Some(1));
    assert_eq!(cells[2], Some(1));
    // the unused tail of the chunk and the free blocks show nothing
    for x in 3..10 {
        assert_eq!(cells[x], None);
    }
}

#[test]
fn identifiers_grow_with_each_allocation() {
    let mut manager = MemoryManager::new(16);
    assert!(manager.allocate(String::from("a"), 2).is_ok());
    assert!(manager.allocate(String::from("b"), 2).is_ok());
    let names = manager.get_names();
    assert_eq!(names.get(&String::from("a")).expect("live").id, 1);
    assert_eq!(names.get(&String::from("b")).expect("live").id, 2);
}
