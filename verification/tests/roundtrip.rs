use pathtrie::fst::Fst;
use pathtrie::trie::PathTrie;
use pathtrie::writer::WriteError;

#[test]
fn empty_trie_writes_a_valid_file() {
    let trie: PathTrie<u32> = PathTrie::new();
    let bytes = trie.write::<u32>().unwrap();
    assert_eq!(
        bytes,
        vec![0xFF, 0xDF, 0x00, 0x04, 0, 0, 0, 0, 0, 0, 0, 0]
    );
    let fst: Fst<u32> = Fst::new(&bytes).unwrap();
    assert_eq!(fst.get(b"anything"), None);
}

#[test]
fn empty_trie_in_every_width() {
    let trie: PathTrie<u8> = PathTrie::new();
    assert_eq!(trie.write::<u8>().unwrap(), vec![0xFF, 0xDF, 0x00, 0x01, 0, 0]);
    assert_eq!(
        trie.write::<u16>().unwrap(),
        vec![0xFF, 0xDF, 0x00, 0x02, 0, 0, 0, 0]
    );
    let wide = trie.write::<u64>().unwrap();
    assert_eq!(wide.len(), 8 + 16);
    assert_eq!(&wide[..8], &[0xFF, 0xDF, 0x00, 0x08, 0, 0, 0, 0]);
    assert!(wide[8..].iter().all(|b| *b == 0));
    let widest = trie.write::<u128>().unwrap();
    assert_eq!(widest.len(), 16 + 32);
    assert_eq!(widest[3], 16);
}

#[test]
fn one_key_byte_for_byte() {
    let mut trie: PathTrie<u16> = PathTrie::new();
    trie.insert(b"ab", 0x0102);
    let bytes = trie.write::<u16>().unwrap();
    assert_eq!(
        bytes,
        vec![
            0xFF, 0xDF, 0x00, 0x02, // header
            0xFF, 0xFF, 0x02, 0x01, 0x02, b'a', b'b', 0x00, // "ab" with its value
            0x00, 0x00, 0x00, 0x00, // end of the run
        ]
    );
}

#[test]
fn child_offsets_are_patched_in() {
    let mut trie: PathTrie<u16> = PathTrie::new();
    trie.insert(b"ab", 1);
    trie.insert(b"ac", 2);
    let bytes = trie.write::<u16>().unwrap();
    assert_eq!(
        bytes,
        vec![
            0xFF, 0xDF, 0x00, 0x02, // header
            0x0C, 0x00, 0x01, b'a', // "a", children at 12
            0x00, 0x00, 0x00, 0x00, // end of the run
            0xFF, 0xFF, 0x01, 0x00, 0x01, b'b', // "b" with 1
            0xFF, 0xFF, 0x02, 0x00, 0x01, b'c', // "c" with 2
            0x00, 0x00, 0x00, 0x00, // end of the run
        ]
    );
}

#[test]
fn dense_grid_round_trip() {
    let mut trie: PathTrie<u32> = PathTrie::new();
    let mut keys: Vec<String> = Vec::new();
    for a in ["a", "b", "c"] {
        for n in ["1", "2"] {
            for z in ["a", "b", "c"] {
                keys.push(format!("{}/{}/{}", a, n, z));
            }
        }
    }
    assert_eq!(keys.len(), 18);
    for (i, k) in keys.iter().enumerate() {
        trie.insert(k.as_bytes(), (i + 1) as u32);
    }
    let bytes = trie.write::<u32>().unwrap();
    let fst: Fst<u32> = Fst::new(&bytes).unwrap();
    for (i, k) in keys.iter().enumerate() {
        assert_eq!(trie.get(k.as_bytes()), Some((i + 1) as u32));
        assert_eq!(fst.get(k.as_bytes()), trie.get(k.as_bytes()));
    }
    for k in ["a/1/d", "", "a", "a/1/a/x"] {
        assert_eq!(trie.get(k.as_bytes()), None);
        assert_eq!(fst.get(k.as_bytes()), None);
    }
}

#[test]
fn round_trip_in_every_width() {
    let keys: [&[u8]; 7] = [b"car", b"dog", b"cat", b"do", b"carpet", b"ca", b""];
    let mut trie: PathTrie<u8> = PathTrie::new();
    for (i, k) in keys.iter().enumerate() {
        trie.insert(k, (i + 1) as u8);
    }
    let others: [&[u8]; 5] = [b"c", b"d", b"carp", b"dogs", b"x"];

    let b1 = trie.write::<u8>().unwrap();
    let f1: Fst<u8> = Fst::new(&b1).unwrap();
    let b2 = trie.write::<u16>().unwrap();
    let f2: Fst<u16> = Fst::new(&b2).unwrap();
    let b4 = trie.write::<u32>().unwrap();
    let f4: Fst<u32> = Fst::new(&b4).unwrap();
    let b8 = trie.write::<u64>().unwrap();
    let f8: Fst<u64> = Fst::new(&b8).unwrap();
    let b16 = trie.write::<u128>().unwrap();
    let f16: Fst<u128> = Fst::new(&b16).unwrap();
    for (i, k) in keys.iter().enumerate() {
        let v = (i + 1) as u8;
        assert_eq!(f1.get(k), Some(v));
        assert_eq!(f2.get(k), Some(v as u16));
        assert_eq!(f4.get(k), Some(v as u32));
        assert_eq!(f8.get(k), Some(v as u64));
        assert_eq!(f16.get(k), Some(v as u128));
    }
    for k in others.iter() {
        assert_eq!(f1.get(k), None);
        assert_eq!(f2.get(k), None);
        assert_eq!(f4.get(k), None);
        assert_eq!(f8.get(k), None);
        assert_eq!(f16.get(k), None);
    }
    for b in [&b1, &b2, &b4, &b8, &b16] {
        assert_eq!(b.len() % (b[3] as usize), 0);
    }
}

#[test]
fn key_length_limit() {
    let mut trie: PathTrie<u32> = PathTrie::new();
    let key = vec![b'k'; 256];
    trie.insert(&key, 1);
    assert_eq!(trie.write::<u32>(), Err(WriteError::KeyTooLong));
}

#[test]
fn a_key_of_255_bytes_is_written() {
    let mut trie: PathTrie<u32> = PathTrie::new();
    let key = vec![b'k'; 255];
    trie.insert(&key, 7);
    let bytes = trie.write::<u32>().unwrap();
    let fst: Fst<u32> = Fst::new(&bytes).unwrap();
    assert_eq!(fst.get(&key), Some(7));
}

#[test]
fn value_too_large_for_the_width() {
    let mut trie: PathTrie<u32> = PathTrie::new();
    trie.insert(b"a", 255);
    assert!(trie.write::<u8>().is_ok());
    trie.insert(b"b", 256);
    assert_eq!(trie.write::<u8>(), Err(WriteError::ValueTooLarge));
    assert!(trie.write::<u16>().is_ok());
}

#[test]
fn key_too_long_comes_before_value_too_large() {
    let mut trie: PathTrie<u32> = PathTrie::new();
    trie.insert(b"b", 256);
    trie.insert(&vec![b'k'; 300], 1);
    assert_eq!(trie.write::<u8>(), Err(WriteError::KeyTooLong));
}

#[test]
fn offset_overflow_in_a_narrow_width() {
    let mut trie: PathTrie<u8> = PathTrie::new();
    for a in 0u8..40 {
        trie.insert(&[b'p', a, b'x'], a);
        trie.insert(&[b'p', a, b'y'], a);
    }
    assert_eq!(trie.write::<u8>(), Err(WriteError::OffsetOverflow));
    let bytes = trie.write::<u16>().unwrap();
    let fst: Fst<u16> = Fst::new(&bytes).unwrap();
    for a in 0u8..40 {
        assert_eq!(fst.get(&[b'p', a, b'x']), Some(a as u16));
        assert_eq!(fst.get(&[b'p', a, b'y']), Some(a as u16));
        assert_eq!(fst.get(&[b'p', a]), None);
    }
}

fn field(bytes: &[u8], at: usize, w: usize) -> u128 {
    let mut v: u128 = 0;
    for i in (0..w).rev() {
        v = v * 256 + bytes[at + i] as u128;
    }
    v
}

fn check_records(bytes: &[u8], w: usize) {
    let all_ones: u128 = if w == 16 { u128::MAX } else { (1u128 << (8 * w)) - 1 };
    let mut offset = if w <= 4 { 4 } else { w };
    let mut records = 0;
    while offset < bytes.len() {
        assert_eq!(offset % w, 0);
        let next = field(bytes, offset, w);
        let terminal = next == all_ones;
        if next != 0 && !terminal {
            // the offset of a run of children: a record boundary further on
            assert_eq!(next % (w as u128), 0);
            assert!(next > offset as u128);
            assert!(next < bytes.len() as u128);
        }
        let kpos = offset + if terminal { 2 * w } else { w };
        let klen = bytes[kpos] as usize;
        let unaligned = kpos + 1 + klen - offset;
        let len = (unaligned + w - 1) / w * w;
        for b in &bytes[kpos + 1 + klen..offset + len] {
            assert_eq!(*b, 0);
        }
        offset += len;
        records += 1;
    }
    assert_eq!(offset, bytes.len());
    assert!(records >= 1);
}

#[test]
fn every_record_starts_at_a_multiple_of_the_width() {
    let keys: [&[u8]; 9] =
        [b"car", b"dog", b"cat", b"do", b"carpet", b"ca", b"", b"a/b/c", b"a/b"];
    let mut trie: PathTrie<u8> = PathTrie::new();
    for (i, k) in keys.iter().enumerate() {
        trie.insert(k, i as u8);
    }
    check_records(&trie.write::<u8>().unwrap(), 1);
    check_records(&trie.write::<u16>().unwrap(), 2);
    check_records(&trie.write::<u32>().unwrap(), 4);
    check_records(&trie.write::<u64>().unwrap(), 8);
    check_records(&trie.write::<u128>().unwrap(), 16);
}
