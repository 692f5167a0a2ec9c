use chs::memory::{load_le, store_le, Memory, MemoryAllowed};
use chs::stack::VMStack;

#[test]
fn a_new_arena_is_zeroed() {
    let mem = Memory::new(32);
    assert_eq!(mem.size(), 32);
    assert_eq!(mem.get_write_pos(), 0);
    assert_eq!(mem.into_bytes(), vec![0u8; 32]);
}

#[test]
fn a_new_arena_has_the_size_asked_for() {
    assert_eq!(Memory::new(0).size(), 0);
    assert_eq!(Memory::new(1).size(), 1);
    assert_eq!(Memory::new(8).size(), 8);
    assert_eq!(Memory::new(8).into_bytes(), vec![0u8; 8]);
    assert_eq!(Memory::new(16).size(), 16);
    assert_eq!(Memory::new(17).size(), 17);
}

#[test]
fn the_default_arena_is_empty() {
    let mem = Memory::default();
    assert_eq!(mem.size(), 0);
    assert_eq!(mem.get_write_pos(), 0);
    assert_eq!(mem.into_bytes(), Vec::<u8>::new());
}

#[test]
fn an_arena_of_eight_bytes_ends_after_byte_seven() {
    let mut mem = Memory::new(8);
    mem.write::<u8>(7, 0xab);
    assert_eq!(mem.read::<u8>(7), 0xab);
    mem.write::<u64>(0, 1);
    assert_eq!(mem.read::<u64>(0), 1);
    assert_eq!(mem.size(), 8);
}

#[test]
fn write_push_grows_an_empty_arena() {
    let mut mem = Memory::new(0);
    mem.write_push::<u16>(0x0102);
    assert_eq!(mem.size(), 2);
    mem.write_push::<u8>(3);
    assert_eq!(mem.get_write_pos(), 3);
    assert_eq!(mem.into_bytes(), vec![2, 1, 3]);
}

#[test]
fn values_are_stored_least_significant_byte_first() {
    let mut mem = Memory::new(16);
    mem.write::<u32>(1, 0xAABBCCDD);
    mem.write::<u16>(6, 0x1122);
    mem.write::<u8>(9, 0x7f);
    assert_eq!(
        mem.into_bytes(),
        vec![0, 0xDD, 0xCC, 0xBB, 0xAA, 0, 0x22, 0x11, 0, 0x7f, 0, 0, 0, 0, 0, 0]
    );
}

#[test]
fn what_is_written_is_read_back() {
    let mut mem = Memory::new(32);
    mem.write::<u64>(3, 0x0123_4567_89AB_CDEF);
    mem.write::<u32>(11, 0xDEAD_BEEF);
    mem.write::<u16>(15, 0xCAFE);
    mem.write::<u8>(17, 0x42);
    assert_eq!(mem.read::<u64>(3), 0x0123_4567_89AB_CDEF);
    assert_eq!(mem.read::<u32>(11), 0xDEAD_BEEF);
    assert_eq!(mem.read::<u16>(15), 0xCAFE);
    assert_eq!(mem.read::<u8>(17), 0x42);
    assert_eq!(mem.read::<u8>(3), 0xEF);
    assert_eq!(mem.read::<u16>(3), 0xCDEF);
    assert_eq!(mem.read::<u32>(7), 0x0123_4567);
}

#[test]
fn the_last_byte_can_be_read_and_written() {
    let mut mem = Memory::new(16);
    mem.write::<u8>(15, 9);
    assert_eq!(mem.read::<u8>(15), 9);
    mem.write::<u64>(8, u64::MAX);
    assert_eq!(mem.read::<u64>(8), u64::MAX);
    assert_eq!(mem.read::<u8>(15), 0xff);
}

#[test]
fn a_write_leaves_the_other_bytes() {
    let mut mem = Memory::new(16);
    mem.write::<u64>(0, u64::MAX);
    mem.write::<u64>(8, u64::MAX);
    mem.write::<u16>(7, 0);
    assert_eq!(mem.read::<u64>(0), 0x00FF_FFFF_FFFF_FFFF);
    assert_eq!(mem.read::<u64>(8), 0xFFFF_FFFF_FFFF_FF00);
}

#[test]
fn write_push_stores_at_the_cursor_and_moves_it() {
    let mut mem = Memory::new(16);
    mem.write_push::<u16>(0x0102);
    mem.write_push::<u8>(3);
    mem.write_push::<u32>(0x07060504);
    assert_eq!(mem.get_write_pos(), 7);
    assert_eq!(mem.size(), 16);
    assert_eq!(&mem.into_bytes()[..8], &[2, 1, 3, 4, 5, 6, 7, 0]);
}

#[test]
fn write_push_grows_the_arena_when_the_value_does_not_fit() {
    let mut mem = Memory::new(16);
    mem.set_write_pos(12);
    mem.write_push::<u32>(0xAABBCCDD);
    assert_eq!(mem.size(), 16);
    assert_eq!(mem.get_write_pos(), 16);
    mem.write_push::<u16>(0x0102);
    assert_eq!(mem.size(), 18);
    assert_eq!(mem.get_write_pos(), 18);
    mem.set_write_pos(15);
    mem.write_push::<u64>(1);
    assert_eq!(mem.size(), 26);
    let bytes = mem.into_bytes();
    assert_eq!(&bytes[12..15], &[0xDD, 0xCC, 0xBB]);
    assert_eq!(&bytes[15..26], &[1, 0, 0, 0, 0, 0, 0, 0, 0, 0, 0]);
}

#[test]
fn read_push_reads_at_the_cursor_and_moves_it() {
    let mut mem = Memory::new(16);
    mem.write::<u32>(0, 0x04030201);
    mem.write::<u16>(4, 0x0605);
    assert_eq!(mem.read_push::<u8>(), 1);
    assert_eq!(mem.read_push::<u16>(), 0x0302);
    assert_eq!(mem.read_push::<u8>(), 4);
    assert_eq!(mem.read_push::<u16>(), 0x0605);
    assert_eq!(mem.get_write_pos(), 6);
}

#[test]
fn realloc_keeps_the_bytes_and_adds_zeros() {
    let mut mem = Memory::new(16);
    mem.write::<u64>(8, u64::MAX);
    mem.set_write_pos(5);
    mem.realloc(20);
    assert_eq!(mem.size(), 20);
    assert_eq!(mem.get_write_pos(), 5);
    assert_eq!(mem.read::<u64>(8), u64::MAX);
    assert_eq!(mem.read::<u32>(16), 0);
}

#[test]
fn the_cursor_can_be_set_anywhere() {
    let mut mem = Memory::new(16);
    mem.set_write_pos(1000);
    assert_eq!(mem.get_write_pos(), 1000);
    assert_eq!(mem.size(), 16);
}

#[test]
fn sizes_of_the_allowed_types() {
    assert_eq!(<u8 as MemoryAllowed>::size(), 1);
    assert_eq!(<u16 as MemoryAllowed>::size(), 2);
    assert_eq!(<u32 as MemoryAllowed>::size(), 4);
    assert_eq!(<u64 as MemoryAllowed>::size(), 8);
    assert_eq!(0xABCDu16.encode(), 0xABCD);
    assert_eq!(<u16 as MemoryAllowed>::decode(0xABCD), 0xABCD);
}

#[test]
fn load_and_store_work_on_plain_buffers() {
    let mut buf = vec![0u8; 10];
    store_le(&mut buf, 2, 3, 0x01020304);
    assert_eq!(buf, vec![0, 0, 4, 3, 2, 0, 0, 0, 0, 0]);
    assert_eq!(load_le(&buf, 2, 3), 0x020304);
    assert_eq!(load_le(&buf, 3, 1), 3);
    assert_eq!(load_le(&buf, 0, 8), 0x0000_0002_0304_0000);
}

#[test]
fn a_new_stack_is_empty() {
    let stack = VMStack::new(64);
    assert_eq!(stack.len(), 0);
    assert_eq!(stack.room(), 8);
    assert_eq!(stack.cells(), Vec::<u64>::new());
}

#[test]
fn a_stack_has_room_for_whole_cells_only() {
    assert_eq!(VMStack::new(20).room(), 2);
    assert_eq!(VMStack::new(0).room(), 0);
    assert_eq!(VMStack::new(7).room(), 0);
    assert_eq!(VMStack::new(8).room(), 1);
    assert_eq!(VMStack::new(8192).room(), 1024);
}

#[test]
fn the_last_value_pushed_is_the_first_popped() {
    let mut stack = VMStack::new(64);
    stack.push(1);
    stack.push(2);
    stack.push(u64::MAX);
    assert_eq!(stack.len(), 3);
    assert_eq!(stack.room(), 5);
    assert_eq!(stack.cells(), vec![1, 2, u64::MAX]);
    assert_eq!(stack.peek(0), u64::MAX);
    assert_eq!(stack.peek(1), 2);
    assert_eq!(stack.peek(2), 1);
    assert_eq!(stack.pop(), u64::MAX);
    assert_eq!(stack.pop(), 2);
    stack.push(7);
    assert_eq!(stack.cells(), vec![1, 7]);
    assert_eq!(stack.pop(), 7);
    assert_eq!(stack.pop(), 1);
    assert_eq!(stack.len(), 0);
}

#[test]
fn a_stack_can_be_filled() {
    let mut stack = VMStack::new(32);
    for i in 0..4 {
        stack.push(i);
    }
    assert_eq!(stack.room(), 0);
    assert_eq!(stack.len(), 4);
    assert_eq!(stack.cells(), vec![0, 1, 2, 3]);
}

#[test]
fn a_stack_is_shown_from_the_bottom_up() {
    let mut stack = VMStack::new(64);
    assert_eq!(stack.to_text(), "[]");
    stack.push(3);
    assert_eq!(stack.to_text(), "[ 3 ]");
    stack.push(0);
    stack.push(u64::MAX);
    assert_eq!(stack.to_text(), "[ 3  0  18446744073709551615 ]");
    assert_eq!(chs::stack::show_cells(&vec![1, 20, 300]), "[ 1  20  300 ]");
}
