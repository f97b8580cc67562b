use core::cmp::Ordering;

use pathtrie::lcp::Order;
use pathtrie::node::{canon_compare, cmp, find_child, insert_position, lex_compare, Node, NodeBody};
use pathtrie::lcp::Prefix;

fn leaf(key: &[u8], value: u32) -> Node<u32> {
    Node { key: key.to_vec(), body: NodeBody::Value(value) }
}

fn inner(key: &[u8], children: Vec<Node<u32>>) -> Node<u32> {
    Node { key: key.to_vec(), body: NodeBody::Children(children) }
}

fn keys(node: &Node<u32>) -> Vec<Vec<u8>> {
    match &node.body {
        NodeBody::Children(children) => children.iter().map(|c| c.key.clone()).collect(),
        NodeBody::Value(_) => Vec::new(),
    }
}

#[test]
fn longer_fragments_sort_first() {
    assert_eq!(cmp(b"abc", b"ab"), Ordering::Less);
    assert_eq!(cmp(b"ab", b"abc"), Ordering::Greater);
    assert_eq!(cmp(b"", b"z"), Ordering::Greater);
    assert_eq!(cmp(b"z", b""), Ordering::Less);
}

#[test]
fn equal_lengths_sort_as_in_a_dictionary() {
    assert_eq!(cmp(b"abc", b"abd"), Ordering::Less);
    assert_eq!(cmp(b"abd", b"abc"), Ordering::Greater);
    assert_eq!(cmp(b"abc", b"abc"), Ordering::Equal);
    assert_eq!(cmp(b"", b""), Ordering::Equal);
    assert_eq!(canon_compare(b"b", b"a"), Order::Greater);
    assert_eq!(canon_compare(b"aa", b"b"), Order::Less);
}

#[test]
fn dictionary_order() {
    assert_eq!(lex_compare(b"a", b"ab"), Order::Less);
    assert_eq!(lex_compare(b"ab", b"a"), Order::Greater);
    assert_eq!(lex_compare(b"b", b"ab"), Order::Greater);
    assert_eq!(lex_compare(b"ab", b"ab"), Order::Equal);
}

#[test]
fn push_keeps_the_canonical_order() {
    let mut node = inner(b"", Vec::new());
    node.push(leaf(b"b", 1));
    node.push(leaf(b"", 2));
    node.push(leaf(b"ccc", 3));
    node.push(leaf(b"a", 4));
    node.push(leaf(b"dd", 5));
    assert_eq!(
        keys(&node),
        vec![b"ccc".to_vec(), b"dd".to_vec(), b"a".to_vec(), b"b".to_vec(), b"".to_vec()]
    );
}

#[test]
fn push_on_a_leaf_makes_it_a_parent() {
    let mut node = leaf(b"ab", 1);
    node.push(leaf(b"cd", 2));
    assert_eq!(node.key, b"ab".to_vec());
    assert_eq!(keys(&node), vec![b"cd".to_vec(), b"".to_vec()]);
    match &node.body {
        NodeBody::Children(children) => {
            assert_eq!(children[0].body.assert_value(), 2);
            assert_eq!(children[1].body.assert_value(), 1);
        }
        NodeBody::Value(_) => panic!("still a leaf"),
    }
}

#[test]
fn insert_puts_a_node_at_an_index() {
    let mut node = inner(b"", vec![leaf(b"b", 1), leaf(b"c", 2)]);
    node.insert(1, leaf(b"x", 3));
    assert_eq!(keys(&node), vec![b"b".to_vec(), b"x".to_vec(), b"c".to_vec()]);
    node.insert(3, leaf(b"y", 4));
    node.insert(0, leaf(b"z", 5));
    assert_eq!(
        keys(&node),
        vec![b"z".to_vec(), b"b".to_vec(), b"x".to_vec(), b"c".to_vec(), b"y".to_vec()]
    );
}

#[test]
fn insert_on_a_leaf_ignores_the_index() {
    let mut node = leaf(b"ab", 1);
    node.insert(0, leaf(b"cd", 2));
    assert_eq!(keys(&node), vec![b"cd".to_vec(), b"".to_vec()]);
}

#[test]
fn get_mut_reaches_a_child() {
    let mut node = inner(b"", vec![leaf(b"b", 1), leaf(b"c", 2)]);
    node.get_mut(1).set_value(9);
    match &node.body {
        NodeBody::Children(children) => {
            assert_eq!(children[0].body.assert_value(), 1);
            assert_eq!(children[1].body.assert_value(), 9);
        }
        NodeBody::Value(_) => panic!("a leaf"),
    }
}

#[test]
fn get_mut_on_a_leaf_reaches_its_value() {
    let mut node = leaf(b"ab", 1);
    node.get_mut(0).set_value(7);
    assert_eq!(node.key, b"ab".to_vec());
    match &node.body {
        NodeBody::Children(children) => {
            assert_eq!(children.len(), 1);
            assert_eq!(children[0].key, b"".to_vec());
            assert_eq!(children[0].body.assert_value(), 7);
        }
        NodeBody::Value(_) => panic!("still a leaf"),
    }
}

#[test]
fn convert_value_to_children_splits_the_fragment() {
    let mut node = leaf(b"abcd", 5);
    node.convert_value_to_children(b"cd".to_vec());
    assert_eq!(node.key, b"ab".to_vec());
    match &node.body {
        NodeBody::Children(children) => {
            assert_eq!(children.len(), 1);
            assert_eq!(children[0].key, b"cd".to_vec());
            assert_eq!(children[0].body.assert_value(), 5);
        }
        NodeBody::Value(_) => panic!("still a leaf"),
    }
}

#[test]
fn diverge_splits_a_child_where_the_key_leaves_it() {
    let mut node = inner(b"", vec![leaf(b"ab/ano", 1), leaf(b"x", 2)]);
    node.diverge(0, 3, b"ab/bap", 3);
    assert_eq!(keys(&node), vec![b"ab/".to_vec(), b"x".to_vec()]);
    match &node.body {
        NodeBody::Children(children) => {
            assert_eq!(keys(&children[0]), vec![b"ano".to_vec(), b"bap".to_vec()]);
        }
        NodeBody::Value(_) => panic!("a leaf"),
    }
}

#[test]
fn diverge_moves_the_shortened_child_to_its_place() {
    let mut node = inner(b"", vec![leaf(b"abcd", 1), leaf(b"xyz", 2), leaf(b"q", 3)]);
    node.diverge(0, 2, b"ab", 4);
    assert_eq!(keys(&node), vec![b"xyz".to_vec(), b"ab".to_vec(), b"q".to_vec()]);
    match &node.body {
        NodeBody::Children(children) => {
            assert_eq!(keys(&children[1]), vec![b"cd".to_vec(), b"".to_vec()]);
            match &children[1].body {
                NodeBody::Children(below) => {
                    assert_eq!(below[0].body.assert_value(), 1);
                    assert_eq!(below[1].body.assert_value(), 4);
                }
                NodeBody::Value(_) => panic!("a leaf"),
            }
        }
        NodeBody::Value(_) => panic!("a leaf"),
    }
}

#[test]
fn diverge_keeps_what_a_child_with_children_had() {
    let child = inner(b"abc", vec![leaf(b"d", 1), leaf(b"e", 2)]);
    let mut node = inner(b"", vec![child]);
    node.diverge(0, 1, b"ax", 3);
    match &node.body {
        NodeBody::Children(children) => {
            assert_eq!(children[0].key, b"a".to_vec());
            assert_eq!(keys(&children[0]), vec![b"bc".to_vec(), b"x".to_vec()]);
            match &children[0].body {
                NodeBody::Children(below) => {
                    assert_eq!(keys(&below[0]), vec![b"d".to_vec(), b"e".to_vec()]);
                }
                NodeBody::Value(_) => panic!("a leaf"),
            }
        }
        NodeBody::Value(_) => panic!("a leaf"),
    }
}

#[test]
fn the_position_of_a_new_fragment() {
    let children = vec![leaf(b"ccc", 1), leaf(b"dd", 2), leaf(b"a", 3)];
    assert_eq!(insert_position(&children, b"zzzz"), 0);
    assert_eq!(insert_position(&children, b"cc"), 1);
    assert_eq!(insert_position(&children, b"ee"), 2);
    assert_eq!(insert_position(&children, b"b"), 3);
    assert_eq!(insert_position(&children, b""), 3);
}

#[test]
fn the_child_that_starts_like_a_key() {
    let children = vec![leaf(b"ccc", 1), leaf(b"dd", 2), leaf(b"", 3)];
    assert_eq!(find_child(&children, b"dd"), Some((1, Prefix::Exact)));
    assert_eq!(find_child(&children, b"ddd"), Some((1, Prefix::Incomplete(2))));
    assert_eq!(find_child(&children, b"d"), Some((1, Prefix::PerfectSubset(1))));
    assert_eq!(find_child(&children, b"cd"), Some((0, Prefix::Divergent(1))));
    assert_eq!(find_child(&children, b""), Some((2, Prefix::Exact)));
    assert_eq!(find_child(&children, b"x"), None);
}

#[test]
fn push_puts_children_in_order_that_were_not() {
    let mut node = inner(b"", vec![leaf(b"a", 1), leaf(b"ccc", 2), leaf(b"", 3), leaf(b"bb", 4)]);
    node.push(leaf(b"dd", 5));
    assert_eq!(
        keys(&node),
        vec![b"ccc".to_vec(), b"bb".to_vec(), b"dd".to_vec(), b"a".to_vec(), b"".to_vec()]
    );
}

#[test]
fn push_after_an_insert_out_of_order() {
    let mut node = inner(b"", vec![leaf(b"bb", 1), leaf(b"c", 2)]);
    node.insert(0, leaf(b"", 3));
    assert_eq!(keys(&node), vec![b"".to_vec(), b"bb".to_vec(), b"c".to_vec()]);
    node.push(leaf(b"a", 4));
    assert_eq!(keys(&node), vec![b"bb".to_vec(), b"a".to_vec(), b"c".to_vec(), b"".to_vec()]);
}

#[test]
fn push_keeps_nodes_with_the_same_fragment() {
    let mut node = inner(b"", vec![leaf(b"b", 1), leaf(b"a", 2), leaf(b"b", 3)]);
    node.push(leaf(b"a", 4));
    assert_eq!(keys(&node), vec![b"a".to_vec(), b"a".to_vec(), b"b".to_vec(), b"b".to_vec()]);
    match &node.body {
        NodeBody::Children(children) => {
            let values: Vec<u32> = children.iter().map(|c| c.body.assert_value()).collect();
            assert_eq!(values, vec![2, 4, 1, 3]);
        }
        NodeBody::Value(_) => panic!("a leaf"),
    }
}

#[test]
fn diverge_puts_children_in_order_that_were_not() {
    let mut node = inner(b"", vec![leaf(b"q", 3), leaf(b"abcd", 1), leaf(b"xyz", 2)]);
    node.diverge(1, 2, b"ab", 4);
    assert_eq!(keys(&node), vec![b"xyz".to_vec(), b"ab".to_vec(), b"q".to_vec()]);
}
