use pathtrie::trie::PathTrie;

#[test]
fn empty_trie_has_no_keys() {
    let trie: PathTrie<u32> = PathTrie::new();
    assert_eq!(trie.get(b"anything"), None);
    assert_eq!(trie.get(b""), None);
}

#[test]
fn subset_and_superset_keys() {
    let mut trie: PathTrie<u32> = PathTrie::new();
    trie.insert(b"abcd", 1);
    trie.insert(b"ab", 2);
    trie.insert(b"abcdab", 3);
    assert_eq!(trie.get(b"ab"), Some(2));
    assert_eq!(trie.get(b"abcd"), Some(1));
    assert_eq!(trie.get(b"abcdab"), Some(3));
    assert_eq!(trie.get(b"a"), None);
    assert_eq!(trie.get(b"abc"), None);
    assert_eq!(trie.get(b"abcda"), None);
    assert_eq!(trie.get(b"abcdabc"), None);
}

#[test]
fn shorter_then_longer_keys() {
    let mut trie: PathTrie<u32> = PathTrie::new();
    trie.insert(b"ab", 1);
    trie.insert(b"abcd", 2);
    trie.insert(b"abcdab", 3);
    assert_eq!(trie.get(b"ab"), Some(1));
    assert_eq!(trie.get(b"abcd"), Some(2));
    assert_eq!(trie.get(b"abcdab"), Some(3));
}

#[test]
fn divergent_split_under_common_prefix() {
    let mut trie: PathTrie<u64> = PathTrie::new();
    trie.insert(b"ab/ano", 1);
    trie.insert(b"ab/bap", 2);
    trie.insert(b"ab/car", 3);
    trie.insert(b"abcdab", 4);
    assert_eq!(trie.get(b"ab/ano"), Some(1));
    assert_eq!(trie.get(b"ab/bap"), Some(2));
    assert_eq!(trie.get(b"ab/car"), Some(3));
    assert_eq!(trie.get(b"abcdab"), Some(4));
    assert_eq!(trie.get(b"ab"), None);
    assert_eq!(trie.get(b"ab/"), None);
}

#[test]
fn later_value_wins() {
    let mut trie: PathTrie<u8> = PathTrie::new();
    trie.insert(b"x", 1);
    trie.insert(b"x", 2);
    assert_eq!(trie.get(b"x"), Some(2));
}

#[test]
fn every_insert_branch() {
    let mut trie: PathTrie<u16> = PathTrie::new();
    // new branch
    trie.insert(b"car", 1);
    trie.insert(b"dog", 2);
    // exact
    trie.insert(b"car", 3);
    // divergent at a proper prefix
    trie.insert(b"cat", 4);
    // perfect subset: the shorter key comes later
    trie.insert(b"do", 5);
    // incomplete: the longer key comes later
    trie.insert(b"carpet", 6);
    // exact on a node that has children
    trie.insert(b"ca", 7);
    assert_eq!(trie.get(b"car"), Some(3));
    assert_eq!(trie.get(b"dog"), Some(2));
    assert_eq!(trie.get(b"cat"), Some(4));
    assert_eq!(trie.get(b"do"), Some(5));
    assert_eq!(trie.get(b"carpet"), Some(6));
    assert_eq!(trie.get(b"ca"), Some(7));
    assert_eq!(trie.get(b"c"), None);
    assert_eq!(trie.get(b"d"), None);
    assert_eq!(trie.get(b"carp"), None);
}

#[test]
fn the_empty_key_is_a_key() {
    let mut trie: PathTrie<u32> = PathTrie::new();
    trie.insert(b"a", 1);
    assert_eq!(trie.get(b""), None);
    trie.insert(b"", 9);
    assert_eq!(trie.get(b""), Some(9));
    assert_eq!(trie.get(b"a"), Some(1));
    trie.insert(b"", 10);
    assert_eq!(trie.get(b""), Some(10));
}

#[test]
fn entries_in_tree_order() {
    let mut trie: PathTrie<u32> = PathTrie::new();
    trie.insert(b"abcd", 1);
    trie.insert(b"ab", 2);
    trie.insert(b"abcdab", 3);
    let entries = trie.entries();
    assert_eq!(entries.len(), 3);
    assert_eq!(
        entries,
        vec![
            (b"abcdab".to_vec(), 3),
            (b"abcd".to_vec(), 1),
            (b"ab".to_vec(), 2),
        ]
    );
}

#[test]
fn overwriting_keeps_one_entry() {
    let mut trie: PathTrie<u32> = PathTrie::new();
    trie.insert(b"x", 1);
    trie.insert(b"x", 2);
    assert_eq!(trie.get(b"x"), Some(2));
    assert_eq!(trie.entries().len(), 1);
    assert_eq!(trie.entries(), vec![(b"x".to_vec(), 2)]);
}

#[test]
fn entries_of_an_empty_trie() {
    let trie: PathTrie<u64> = PathTrie::new();
    assert_eq!(trie.entries().len(), 0);
}

#[test]
fn every_inserted_key_is_found_with_its_last_value() {
    let ops: [(&[u8], u32); 8] = [
        (b"a/b", 1),
        (b"a", 2),
        (b"a/b/c", 3),
        (b"a/b", 4),
        (b"b", 5),
        (b"a/c", 6),
        (b"", 7),
        (b"a", 8),
    ];
    let mut trie: PathTrie<u32> = PathTrie::new();
    for (k, v) in ops.iter() {
        trie.insert(k, *v);
    }
    for (i, (k, v)) in ops.iter().enumerate() {
        let last = ops.iter().skip(i + 1).all(|(k2, _)| k2 != k);
        if last {
            assert_eq!(trie.get(k), Some(*v));
        }
    }
    assert_eq!(trie.entries().len(), 6);
}

fn sample() -> PathTrie<u32> {
    let keys: [&[u8]; 12] = [
        b"car", b"dog", b"cat", b"do", b"carpet", b"ca", b"", b"a/b/c", b"a/b", b"a/c", b"zebra",
        b"zeta",
    ];
    let mut trie: PathTrie<u32> = PathTrie::new();
    for (i, k) in keys.iter().enumerate() {
        trie.insert(k, i as u32);
    }
    trie
}

#[test]
fn siblings_stand_in_the_canonical_order() {
    let trie = sample();
    let raw = trie.raw_entries();
    for pair in raw.windows(2) {
        if pair[0].parent_path == pair[1].parent_path {
            let a = &pair[0].node.key;
            let b = &pair[1].node.key;
            assert!(a.len() > b.len() || (a.len() == b.len() && a < b));
        }
    }
}

#[test]
fn no_two_siblings_start_alike() {
    let trie = sample();
    let raw = trie.raw_entries();
    for (i, a) in raw.iter().enumerate() {
        for b in raw.iter().skip(i + 1) {
            if a.parent_path == b.parent_path {
                assert!(a.node.key.first() != b.node.key.first());
            }
        }
    }
}

#[test]
fn only_leaves_have_an_empty_fragment() {
    let trie = sample();
    for e in trie.raw_entries().iter() {
        if e.node.key.is_empty() {
            assert_eq!(e.kind, pathtrie::traverse::EntryKind::Value);
        }
    }
}
