use akula::evm::{
    mem_cost, num_words, num_words_u64, EvmMemory, ExecutionState, OutOfGas, PageSize,
};
use akula::Word;

#[test]
fn stack() {
    let mut evm_mem = EvmMemory::new();
    let mut mem = evm_mem.get_origin();
    let stack = mem.stack();

    let items: [u128; 4] = [0xde, 0xad, 0xbe, 0xef];

    for (i, item) in items.iter().copied().enumerate() {
        stack.push(Word::from_u128(item));
        assert_eq!(stack.len(), i + 1);
    }

    assert_eq!(*stack.get(2), Word::from_u128(0xad));

    assert_eq!(stack.pop(), Word::from_u128(0xef));

    assert_eq!(*stack.get(2), Word::from_u128(0xde));
}

#[test]
fn stack_push_pop_reverses_full_depth() {
    let mut evm_mem = EvmMemory::new_with_size(PageSize::Page2MiB);
    let mut mem = evm_mem.get_origin();
    let stack = mem.stack();
    for i in 0..1024u128 {
        stack.push(Word::from_u128(i * 7));
    }
    assert_eq!(stack.len(), 1024);
    assert_eq!(*stack.get(0), Word::from_u128(1023 * 7));
    assert_eq!(*stack.get(1023), Word::from_u128(0));
    for i in (0..1024u128).rev() {
        assert_eq!(stack.pop(), Word::from_u128(i * 7));
    }
    assert!(stack.is_empty());
}

#[test]
fn stack_swap_top_is_its_own_inverse() {
    let mut evm_mem = EvmMemory::new();
    let mut mem = evm_mem.get_origin();
    let stack = mem.stack();
    for v in [1u128, 2, 3, 4] {
        stack.push(Word::from_u128(v));
    }
    stack.swap_top(3);
    assert_eq!(*stack.get(0), Word::from_u128(1));
    assert_eq!(*stack.get(3), Word::from_u128(4));
    assert_eq!(stack.to_vec(), vec![
        Word::from_u128(1),
        Word::from_u128(3),
        Word::from_u128(2),
        Word::from_u128(4),
    ]);
    stack.swap_top(3);
    assert_eq!(stack.to_vec(), vec![
        Word::from_u128(4),
        Word::from_u128(3),
        Word::from_u128(2),
        Word::from_u128(1),
    ]);
    *stack.get_mut(1) = Word::from_u128(30);
    assert_eq!(*stack.get(1), Word::from_u128(30));
}

#[test]
fn heap_growth_charges_gas() {
    let mut evm_mem = EvmMemory::new();
    let mem = evm_mem.get_origin();
    let mut state = ExecutionState::new(100, mem);
    assert_eq!(state.get_heap(Word::zero(), 32), Ok(()));
    assert_eq!(state.gas_left, 97);
    assert_eq!(state.heap_size(), 32);
    // From 1 to 32 words: (1024 - 1) / 512 + 3 * 31 = 94 gas; 3 are left.
    assert_eq!(state.get_heap(Word::zero(), 1024), Ok(()));
    assert_eq!(state.gas_left, 3);
    assert_eq!(state.heap_size(), 1024);
}

#[test]
fn heap_out_of_gas_leaves_state() {
    let mut evm_mem = EvmMemory::new();
    let mem = evm_mem.get_origin();
    let mut state = ExecutionState::new(100, mem);
    assert_eq!(state.get_heap(Word::zero(), 32), Ok(()));
    assert_eq!(state.gas_left, 97);
    // 128 words cost 416.
    assert_eq!(state.get_heap(Word::zero(), 4096), Err(OutOfGas));
    assert_eq!(state.gas_left, 97);
    assert_eq!(state.heap_size(), 32);
}

#[test]
fn heap_zero_length_and_large_index() {
    let mut evm_mem = EvmMemory::new();
    let mem = evm_mem.get_origin();
    let mut state = ExecutionState::new(1000, mem);
    let huge = Word { hi: 1, lo: 0 };
    assert_eq!(state.get_heap(huge, 0), Err(OutOfGas));
    assert_eq!(state.get_heap(huge, 1), Err(OutOfGas));
    assert_eq!(state.gas_left, 1000);
    assert_eq!(state.heap_size(), 0);
    // A zero length still grows the heap to cover the index: 4 words, 12 gas.
    assert_eq!(state.get_heap(Word::from_u128(100), 0), Ok(()));
    assert_eq!(state.heap_size(), 128);
    assert_eq!(state.gas_left, 988);
}

#[test]
fn heap_reads_zero_until_written() {
    let mut evm_mem = EvmMemory::new();
    let mem = evm_mem.get_origin();
    let mut state = ExecutionState::new(1000, mem);
    assert_eq!(state.get_heap(Word::from_u128(10), 30), Ok(()));
    assert_eq!(state.heap_size(), 64);
    for i in 0..64u32 {
        assert_eq!(state.heap_byte(i), 0);
    }
    state.set_heap_byte(40, 0xaa);
    assert_eq!(state.heap_byte(40), 0xaa);
    assert_eq!(state.heap_byte(41), 0);
}

#[test]
fn sub_frame_release_restores_parent() {
    let mut evm_mem = EvmMemory::new();
    let mut parent = evm_mem.get_origin();
    parent.stack().push(Word::from_u128(5));
    let mut parent_state = ExecutionState::new(1000, parent);
    assert_eq!(parent_state.get_heap(Word::zero(), 32), Ok(()));
    parent_state.set_heap_byte(3, 9);

    let child = parent_state.mem.next_submem();
    let mut child_state = ExecutionState::new(1000, child);
    assert!(child_state.stack().is_empty());
    assert_eq!(child_state.heap_size(), 0);
    child_state.stack().push(Word::from_u128(6));
    assert_eq!(child_state.get_heap(Word::zero(), 64), Ok(()));
    child_state.set_heap_byte(0, 7);
    assert_eq!(child_state.heap_byte(0), 7);

    parent_state.mem.release_submem(child_state.mem);
    assert_eq!(parent_state.clone_stack_to_vec(), vec![Word::from_u128(5)]);
    assert_eq!(parent_state.heap_size(), 32);
    assert_eq!(parent_state.heap_byte(3), 9);
    // Growing again past the child's former bytes shows zeros.
    assert_eq!(parent_state.get_heap(Word::zero(), 96), Ok(()));
    for i in 32..96u32 {
        assert_eq!(parent_state.heap_byte(i), 0);
    }
}

#[test]
fn word_arithmetic() {
    assert_eq!(num_words(0), 0);
    assert_eq!(num_words(1), 1);
    assert_eq!(num_words(32), 1);
    assert_eq!(num_words(33), 2);
    assert_eq!(num_words_u64(2 * u32::MAX as u64), 268435456);
    assert_eq!(mem_cost(0), 0);
    assert_eq!(mem_cost(1), 3);
    assert_eq!(mem_cost(32), 98);
    assert_eq!(mem_cost(u32::MAX), 36028809887088637);
    assert_eq!(Word::from_u128(7).to_u32(), Some(7));
    assert_eq!(Word::from_u128(u32::MAX as u128 + 1).to_u32(), None);
    let a = Word { hi: 0, lo: u128::MAX };
    assert_eq!(a.checked_add(&Word::from_u128(1)), Some(Word { hi: 1, lo: 0 }));
    let m = Word { hi: u128::MAX, lo: u128::MAX };
    assert_eq!(m.checked_add(&Word::from_u128(1)), None);
}
