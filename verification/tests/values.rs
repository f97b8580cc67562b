use pathtrie::fst::{all_ones, padded_len, NodeOffset, OffsetKind};
use pathtrie::trie::PathTrie;
use pathtrie::traverse::EntryKind;
use pathtrie::{push_le_bytes, read_le_value, Integer};

#[test]
fn little_endian_bytes() {
    let mut out = vec![9u8];
    push_le_bytes(&mut out, 0x0102_0304, 4);
    assert_eq!(out, vec![9, 0x04, 0x03, 0x02, 0x01]);
    let mut out = Vec::new();
    push_le_bytes(&mut out, 0x0102_0304, 2);
    assert_eq!(out, vec![0x04, 0x03]);
    let mut out = Vec::new();
    push_le_bytes(&mut out, 1, 8);
    assert_eq!(out, vec![1, 0, 0, 0, 0, 0, 0, 0]);
}

#[test]
fn reading_little_endian_bytes() {
    let data = [0xAAu8, 0x04, 0x03, 0x02, 0x01, 0xBB];
    assert_eq!(read_le_value(&data, 1, 4), 0x0102_0304);
    assert_eq!(read_le_value(&data, 1, 2), 0x0304);
    assert_eq!(read_le_value(&data, 0, 1), 0xAA);
    assert_eq!(read_le_value(&data, 3, 0), 0);
    let wide = [0xFFu8; 16];
    assert_eq!(read_le_value(&wide, 0, 16), u128::MAX);
}

#[test]
fn value_types_write_their_own_width() {
    let mut out = Vec::new();
    0x01u8.write_le_bytes(&mut out);
    0x0203u16.write_le_bytes(&mut out);
    0x0405_0607u32.write_le_bytes(&mut out);
    assert_eq!(out, vec![0x01, 0x03, 0x02, 0x07, 0x06, 0x05, 0x04]);
    let mut out = Vec::new();
    0x0102_0304_0506_0708u64.write_le_bytes(&mut out);
    assert_eq!(out, vec![8, 7, 6, 5, 4, 3, 2, 1]);
    let mut out = Vec::new();
    1u128.write_le_bytes(&mut out);
    assert_eq!(out.len(), 16);
    assert_eq!(out[0], 1);
}

#[test]
fn widths_and_conversions() {
    assert_eq!(<u8 as Integer>::size(), 1);
    assert_eq!(<u16 as Integer>::size(), 2);
    assert_eq!(<u32 as Integer>::size(), 4);
    assert_eq!(<u64 as Integer>::size(), 8);
    assert_eq!(<u128 as Integer>::size(), 16);
    assert_eq!(<u8 as Integer>::from_u128(255), Some(255u8));
    assert_eq!(<u8 as Integer>::from_u128(256), None);
    assert_eq!(<u16 as Integer>::from_u128(65535), Some(65535u16));
    assert_eq!(<u16 as Integer>::from_u128(65536), None);
    assert_eq!(<u32 as Integer>::from_u128(1 << 32), None);
    assert_eq!(<u64 as Integer>::from_u128(1 << 64), None);
    assert_eq!(<u64 as Integer>::from_u128(u64::MAX as u128), Some(u64::MAX));
    assert_eq!(<u128 as Integer>::from_u128(u128::MAX), Some(u128::MAX));
    assert_eq!(7u32.to_u128(), 7);
}

#[test]
fn the_three_meanings_of_the_first_field() {
    assert!(matches!(NodeOffset(0u32).get(), OffsetKind::Empty));
    assert!(matches!(NodeOffset(u32::MAX).get(), OffsetKind::Terminating));
    assert!(matches!(NodeOffset(12u32).get(), OffsetKind::Offset(12)));
    assert!(matches!(NodeOffset(0xFFu8).get(), OffsetKind::Terminating));
    assert!(matches!(NodeOffset(0xFFu16).get(), OffsetKind::Offset(255)));
    assert!(matches!(NodeOffset(u128::MAX).get(), OffsetKind::Terminating));
    assert!(matches!(NodeOffset(u64::MAX - 1).get(), OffsetKind::Offset(_)));
}

#[test]
fn all_bits_set() {
    assert_eq!(all_ones(1), 0xFF);
    assert_eq!(all_ones(2), 0xFFFF);
    assert_eq!(all_ones(4), 0xFFFF_FFFF);
    assert_eq!(all_ones(8), u64::MAX as u128);
    assert_eq!(all_ones(16), u128::MAX);
}

#[test]
fn record_lengths() {
    // first field, length byte and fragment, rounded up to the width
    assert_eq!(padded_len(4, false, 0), 8);
    assert_eq!(padded_len(4, false, 3), 8);
    assert_eq!(padded_len(4, false, 4), 12);
    assert_eq!(padded_len(4, true, 0), 12);
    assert_eq!(padded_len(4, true, 3), 12);
    assert_eq!(padded_len(1, false, 0), 2);
    assert_eq!(padded_len(1, true, 5), 8);
    assert_eq!(padded_len(2, false, 1), 4);
    assert_eq!(padded_len(8, true, 255), 272);
    assert_eq!(padded_len(16, false, 0), 32);
}

#[test]
fn raw_entries_in_the_order_of_writing() {
    let mut trie: PathTrie<u32> = PathTrie::new();
    trie.insert(b"ab", 1);
    trie.insert(b"ac", 2);
    trie.insert(b"x", 3);
    trie.insert(b"a", 4);
    let raw = trie.raw_entries();
    let seen: Vec<(Vec<u8>, Vec<u8>, usize, EntryKind)> = raw
        .iter()
        .map(|e| (e.parent_path.clone(), e.node.key.clone(), e.depth, e.kind))
        .collect();
    assert_eq!(
        seen,
        vec![
            (b"".to_vec(), b"a".to_vec(), 0, EntryKind::Child),
            (b"".to_vec(), b"x".to_vec(), 0, EntryKind::Value),
            (b"a".to_vec(), b"b".to_vec(), 1, EntryKind::Value),
            (b"a".to_vec(), b"c".to_vec(), 1, EntryKind::Value),
            (b"a".to_vec(), b"".to_vec(), 1, EntryKind::Value),
        ]
    );
}

#[test]
fn raw_entries_of_an_empty_trie() {
    let trie: PathTrie<u8> = PathTrie::new();
    assert_eq!(trie.raw_entries().len(), 0);
}
