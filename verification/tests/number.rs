use chs::memory::{Memory, MemoryAllowed};
use chs::names::NameMap;
use chs::number::{decimal_string, parse_decimal};
use chs::text::text_is;

#[test]
fn numbers_are_written_in_decimal() {
    assert_eq!(decimal_string(0), "0");
    assert_eq!(decimal_string(7), "7");
    assert_eq!(decimal_string(10), "10");
    assert_eq!(decimal_string(1234567890), "1234567890");
    assert_eq!(decimal_string(u64::MAX), "18446744073709551615");
}

#[test]
fn decimal_texts_are_read_as_numbers() {
    assert_eq!(parse_decimal(&"0".to_string(), 10), Some(0));
    assert_eq!(parse_decimal(&"10".to_string(), 10), Some(10));
    assert_eq!(parse_decimal(&"11".to_string(), 10), None);
    assert_eq!(parse_decimal(&"0011".to_string(), 11), Some(11));
    assert_eq!(parse_decimal(&"18446744073709551615".to_string(), u64::MAX), Some(u64::MAX));
    assert_eq!(parse_decimal(&"18446744073709551616".to_string(), u64::MAX), None);
    assert_eq!(parse_decimal(&"99999999999999999999999".to_string(), u64::MAX), None);
}

#[test]
fn texts_that_are_no_numbers_are_not_read() {
    for text in ["", "-1", "+1", "1a", "a1", " 1", "1 ", "١"] {
        assert_eq!(parse_decimal(&text.to_string(), u64::MAX), None);
    }
}

#[test]
fn what_is_written_is_read_back_as_the_same_number() {
    for n in [0u64, 1, 9, 10, 99, 100, 4096, u32::MAX as u64, u64::MAX - 1, u64::MAX] {
        assert_eq!(parse_decimal(&decimal_string(n), u64::MAX), Some(n));
    }
}

#[test]
fn text_is_compares_whole_texts() {
    assert!(text_is(&"fn".to_string(), "fn"));
    assert!(!text_is(&"fn".to_string(), "f"));
    assert!(!text_is(&"f".to_string(), "fn"));
    assert!(text_is(&String::new(), ""));
}

#[test]
fn a_name_table_keeps_the_last_value_of_a_name() {
    let mut table: NameMap<usize> = NameMap::new();
    assert_eq!(table.get(&"a".to_string()), None);
    assert!(!table.contains(&"a".to_string()));
    table.insert("a".to_string(), 1);
    table.insert("b".to_string(), 2);
    assert_eq!(table.get(&"a".to_string()), Some(&1));
    assert_eq!(table.get(&"b".to_string()), Some(&2));
    table.insert("a".to_string(), 3);
    assert_eq!(table.get(&"a".to_string()), Some(&3));
    assert_eq!(table.get(&"b".to_string()), Some(&2));
    assert!(table.contains(&"b".to_string()));
    assert!(!table.contains(&"c".to_string()));
}

#[test]
fn signed_values_are_stored_in_two_complement() {
    let mut mem = Memory::new(32);
    mem.write::<i8>(0, -1);
    mem.write::<i16>(1, -2);
    mem.write::<i32>(3, i32::MIN);
    mem.write::<i64>(7, -1234567890123);
    mem.write::<i8>(15, i8::MAX);
    assert_eq!(mem.read::<i8>(0), -1);
    assert_eq!(mem.read::<u8>(0), 0xff);
    assert_eq!(mem.read::<i16>(1), -2);
    assert_eq!(mem.read::<u16>(1), 0xfffe);
    assert_eq!(mem.read::<i32>(3), i32::MIN);
    assert_eq!(mem.read::<u32>(3), 0x8000_0000);
    assert_eq!(mem.read::<i64>(7), -1234567890123);
    assert_eq!(mem.read::<u64>(7), (-1234567890123i64) as u64);
    assert_eq!(mem.read::<i8>(15), 127);
    mem.write::<i64>(16, i64::MIN);
    mem.write::<i64>(24, i64::MAX);
    assert_eq!(mem.read::<i64>(16), i64::MIN);
    assert_eq!(mem.read::<i64>(24), i64::MAX);
    mem.write::<i16>(16, i16::MIN);
    assert_eq!(mem.read::<i16>(16), i16::MIN);
}

#[test]
fn signed_values_have_the_words_of_their_bits() {
    assert_eq!((-1i8).encode(), 0xff);
    assert_eq!(i8::MIN.encode(), 0x80);
    assert_eq!((-1i16).encode(), 0xffff);
    assert_eq!((-1i32).encode(), 0xffff_ffff);
    assert_eq!((-1i64).encode(), u64::MAX);
    assert_eq!(5i64.encode(), 5);
    assert_eq!(<i8 as MemoryAllowed>::decode(0x80), i8::MIN);
    assert_eq!(<i16 as MemoryAllowed>::decode(0x7fff), i16::MAX);
    assert_eq!(<i32 as MemoryAllowed>::decode(0xffff_ffff), -1);
    assert_eq!(<i64 as MemoryAllowed>::decode(u64::MAX), -1);
    assert_eq!(<i8 as MemoryAllowed>::size(), 1);
    assert_eq!(<i16 as MemoryAllowed>::size(), 2);
    assert_eq!(<i32 as MemoryAllowed>::size(), 4);
    assert_eq!(<i64 as MemoryAllowed>::size(), 8);
}

#[test]
fn a_copy_of_a_name_table_holds_the_same_names() {
    let mut table: NameMap<usize> = NameMap::new();
    table.insert("a".to_string(), 1);
    table.insert("b".to_string(), 2);
    table.insert("a".to_string(), 3);
    let mut copy = table.duplicate();
    assert_eq!(copy.get(&"a".to_string()), Some(&3));
    assert_eq!(copy.get(&"b".to_string()), Some(&2));
    assert_eq!(copy.get(&"c".to_string()), None);
    copy.insert("c".to_string(), 4);
    assert_eq!(copy.get(&"c".to_string()), Some(&4));
    assert_eq!(table.get(&"c".to_string()), None);
}
