//! Nodes of the radix trie, and the operations that reshape them.

use vstd::prelude::*;
use vstd::slice::{slice_subrange, slice_to_vec};
use core::cmp::Ordering;
use crate::Integer;
use crate::lcp::{classify, find_common_prefix, lex_order, Order, Prefix};
use crate::model::{
    canon_le, canon_order, child_for, insert_pos, lemma_canon_le, lemma_child_for, lemma_classify,
    lemma_insert_pos, lemma_sort_all, lemma_sort_all_same, lemma_sorted_insert_ordered, ordered,
    sort_all, sorted_insert, split_node, BodyView, NodeView,
};

verus! {

/// What a node carries below its key fragment.
#[derive(Debug)]
pub enum NodeBody<T: Integer> {
    Children(Vec<Node<T>>),
    Value(T),
}

/// A node of the trie: a key fragment and what lies below it.
#[derive(Debug)]
pub struct Node<T: Integer> {
    pub key: Vec<u8>,
    pub body: NodeBody<T>,
}

/// The value of a node body: the values of its children, or its value.
pub open spec fn body_view<T: Integer>(b: NodeBody<T>) -> BodyView<T>
    decreases b,
{
    match b {
        NodeBody::Value(v) => BodyView::Value(v),
        NodeBody::Children(cs) => BodyView::Children(
            Seq::new(
                cs@.len(),
                |i: int|
                    if 0 <= i < cs@.len() {
                        NodeView { key: cs@[i].key@, body: body_view(cs@[i].body) }
                    } else {
                        arbitrary()
                    },
            ),
        ),
    }
}

impl<T: Integer> View for NodeBody<T> {
    type V = BodyView<T>;

    open spec fn view(&self) -> BodyView<T> {
        body_view(*self)
    }
}

impl<T: Integer> View for Node<T> {
    type V = NodeView<T>;

    open spec fn view(&self) -> NodeView<T> {
        NodeView { key: self.key@, body: self.body@ }
    }
}

/// The values of a list of nodes.
pub open spec fn views<T: Integer>(cs: Seq<Node<T>>) -> Seq<NodeView<T>> {
    Seq::new(cs.len(), |i: int| cs[i]@)
}

/// The value of a body with children is the list of their values.
pub proof fn lemma_body_view<T: Integer>(b: NodeBody<T>)
    ensures
        b matches NodeBody::Children(cs) ==> b@ == BodyView::Children(views(cs@)),
        b matches NodeBody::Value(v) ==> b@ == BodyView::<T>::Value(v),
{
    match b {
        NodeBody::Children(cs) => {
            let l = b@->Children_0;
            let r = views(cs@);
            assert forall|i: int| 0 <= i < l.len() implies l[i] == r[i] by {
                assert(r[i] == cs@[i]@);
            }
            assert(l =~= r);
        },
        NodeBody::Value(v) => {},
    }
}

/// A child is smaller than its parent, so that what goes from a node to its
/// children comes to an end.
pub proof fn lemma_child_smaller<T: Integer>(node: Node<T>, i: int)
    requires
        node.body is Children,
        0 <= i < node.body->Children_0@.len(),
    ensures
        decreases_to!(node => node.body->Children_0@[i]),
{
    assert(decreases_to!(node => node.body));
    assert(decreases_to!(node.body => node.body->Children_0));
    assert(decreases_to!(node.body->Children_0 => node.body->Children_0@));
    assert(decreases_to!(node.body->Children_0@ => node.body->Children_0@[i]));
}

/// Replacing a node replaces its value.
pub proof fn lemma_views_update<T: Integer>(cs: Seq<Node<T>>, i: int, n: Node<T>)
    requires
        0 <= i < cs.len(),
    ensures
        views(cs.update(i, n)) == views(cs).update(i, n@),
{
    assert(views(cs.update(i, n)) =~= views(cs).update(i, n@));
}

/// Putting a node in puts its value in.
pub proof fn lemma_views_insert<T: Integer>(cs: Seq<Node<T>>, i: int, n: Node<T>)
    requires
        0 <= i <= cs.len(),
    ensures
        views(cs.insert(i, n)) == views(cs).insert(i, n@),
{
    assert(views(cs.insert(i, n)) =~= views(cs).insert(i, n@));
}

/// Taking a node out takes its value out.
pub proof fn lemma_views_remove<T: Integer>(cs: Seq<Node<T>>, i: int)
    requires
        0 <= i < cs.len(),
    ensures
        views(cs.remove(i)) == views(cs).remove(i),
{
    assert(views(cs.remove(i)) =~= views(cs).remove(i));
}

/// Dictionary order of `a` against `b`.
pub fn lex_compare(a: &[u8], b: &[u8]) -> (r: Order)
    ensures
        r == lex_order(a@, b@),
{
    let mut i: usize = 0;
    proof {
        assert(a@.skip(0) =~= a@);
        assert(b@.skip(0) =~= b@);
    }
    while i < a.len() && i < b.len()
        invariant
            i <= a.len(),
            i <= b.len(),
            lex_order(a@, b@) == lex_order(a@.skip(i as int), b@.skip(i as int)),
        decreases a.len() - i,
    {
        proof {
            assert(a@.skip(i as int).skip(1) =~= a@.skip(i + 1));
            assert(b@.skip(i as int).skip(1) =~= b@.skip(i + 1));
        }
        if a[i] < b[i] {
            return Order::Less;
        }
        if a[i] > b[i] {
            return Order::Greater;
        }
        i += 1;
    }
    if i < b.len() {
        Order::Less
    } else if i < a.len() {
        Order::Greater
    } else {
        Order::Equal
    }
}

/// Canonical order of the fragment `a` against `b`: the longer one first, and
/// fragments of one length as in a dictionary.
pub fn canon_compare(a: &[u8], b: &[u8]) -> (r: Order)
    ensures
        r == canon_order(a@, b@),
{
    if a.len() > b.len() {
        Order::Less
    } else if a.len() < b.len() {
        Order::Greater
    } else {
        lex_compare(a, b)
    }
}

/// Canonical order of the fragment `a` against `b`, in the terms of the
/// standard library.
pub fn cmp(a: &[u8], b: &[u8]) -> (r: Ordering)
    ensures
        r == Ordering::Less <==> canon_order(a@, b@) == Order::Less,
        r == Ordering::Equal <==> canon_order(a@, b@) == Order::Equal,
        r == Ordering::Greater <==> canon_order(a@, b@) == Order::Greater,
{
    match canon_compare(a, b) {
        Order::Less => Ordering::Less,
        Order::Equal => Ordering::Equal,
        Order::Greater => Ordering::Greater,
    }
}

/// Where a node with the fragment `key` goes among `children`.
pub fn insert_position<T: Integer>(children: &Vec<Node<T>>, key: &[u8]) -> (p: usize)
    ensures
        p == insert_pos(views(children@), key@, 0),
        p <= children.len(),
{
    let mut i: usize = 0;
    proof {
        lemma_insert_pos(views(children@), key@, 0);
    }
    while i < children.len()
        invariant
            i <= children.len(),
            insert_pos(views(children@), key@, 0) == insert_pos(views(children@), key@, i as int),
        decreases children.len() - i,
    {
        let o = canon_compare(key, children[i].key.as_slice());
        proof {
            assert(views(children@)[i as int] == children@[i as int]@);
        }
        match o {
            Order::Less => {
                return i;
            },
            _ => {},
        }
        i += 1;
    }
    i
}

/// Tells whether the fragments of `children` ascend in the canonical order.
pub fn in_order<T: Integer>(children: &Vec<Node<T>>) -> (r: bool)
    ensures
        r == ordered(views(children@)),
{
    let ghost vs = views(children@);
    let mut i: usize = 1;
    while i < children.len()
        invariant
            1 <= i,
            vs == views(children@),
            forall|a: int, b: int|
                0 <= a < b < i && b < vs.len() ==> canon_le(
                    (#[trigger] vs[a]).key,
                    (#[trigger] vs[b]).key,
                ),
        decreases children.len() - i,
    {
        let o = canon_compare(children[i - 1].key.as_slice(), children[i].key.as_slice());
        proof {
            assert(vs[i - 1] == children@[i - 1]@);
            assert(vs[i as int] == children@[i as int]@);
        }
        match o {
            Order::Greater => {
                return false;
            },
            _ => {},
        }
        proof {
            assert forall|a: int, b: int| 0 <= a < b < i + 1 && b < vs.len() implies canon_le(
                (#[trigger] vs[a]).key,
                (#[trigger] vs[b]).key,
            ) by {
                if b == i && a < i - 1 {
                    assert(canon_le(vs[a].key, vs[i - 1].key));
                    lemma_canon_le(vs[a].key, vs[i - 1].key, vs[i as int].key);
                }
            }
        }
        i += 1;
    }
    true
}

/// Puts `children` in the canonical order. Children that are in order stay as
/// they are; otherwise each child in turn goes to its place among those
/// before it.
pub fn sort_children<T: Integer>(children: &mut Vec<Node<T>>)
    ensures
        views(final(children)@) == sort_all(views(old(children)@)),
{
    if in_order(children) {
        proof {
            lemma_sort_all_same(views(children@));
        }
        return;
    }
    let mut rest: Vec<Node<T>> = Vec::new();
    core::mem::swap(children, &mut rest);
    let ghost vs = views(rest@);
    let ghost mut k: int = 0;
    proof {
        assert(views(children@) =~= sort_all(vs.take(0)));
        assert(views(rest@) =~= vs.skip(0));
    }
    while rest.len() > 0
        invariant
            0 <= k <= vs.len(),
            views(children@) == sort_all(vs.take(k)),
            views(rest@) == vs.skip(k),
        decreases rest.len(),
    {
        proof {
            lemma_views_remove(rest@, 0);
            assert(views(rest@)[0] == rest@[0]@);
        }
        let n = rest.remove(0);
        let p = insert_position(children, n.key.as_slice());
        proof {
            lemma_views_insert(children@, p as int, n);
        }
        children.insert(p, n);
        proof {
            assert(n@ == vs[k]);
            assert(vs.take(k + 1).drop_last() =~= vs.take(k));
            assert(vs.take(k + 1).last() == vs[k]);
            assert(views(rest@) =~= vs.skip(k + 1));
            k = k + 1;
        }
    }
    proof {
        assert(vs.take(vs.len() as int) =~= vs);
    }
}

/// Looks among `children` for the first one whose fragment shares anything
/// with `key`, and tells its position and how the two relate.
pub fn find_child<T: Integer>(children: &Vec<Node<T>>, key: &[u8]) -> (r: Option<(usize, Prefix)>)
    ensures
        r matches Some((i, p)) ==> i < children.len() && i == child_for(views(children@), key@, 0)
            && p == classify(children@[i as int].key@, key@) && !(p is NoMatch),
        r is None ==> child_for(views(children@), key@, 0) == children.len(),
{
    let mut i: usize = 0;
    proof {
        lemma_child_for(views(children@), key@, 0);
    }
    while i < children.len()
        invariant
            i <= children.len(),
            child_for(views(children@), key@, 0) == child_for(views(children@), key@, i as int),
        decreases children.len() - i,
    {
        let p = find_common_prefix(children[i].key.as_slice(), key);
        proof {
            assert(views(children@)[i as int] == children@[i as int]@);
            assert(key@.len() == key.len());
            assert(children@[i as int].key@.len() == children@[i as int].key.len());
            lemma_classify(children@[i as int].key@, key@);
        }
        match p {
            Prefix::NoMatch(_) => {},
            _ => {
                return Some((i, p));
            },
        }
        i += 1;
    }
    None
}

impl<T: Integer> NodeBody<T> {
    /// The value of a body that is known to hold one.
    pub fn assert_value(&self) -> (v: T)
        requires
            self@ is Value,
        ensures
            self@ == BodyView::Value(v),
    {
        match self {
            NodeBody::Children(_) => unreached(),
            NodeBody::Value(v) => *v,
        }
    }
}

impl<T: Integer> Node<T> {
    /// Turns a leaf into a node with one child: the child takes the last
    /// `key.len()` bytes' place with `key` as its fragment and holds the
    /// leaf's value, and the node keeps the bytes before them.
    pub fn convert_value_to_children(&mut self, key: Vec<u8>)
        requires
            old(self)@.body is Value,
            key@.len() <= old(self)@.key.len(),
        ensures
            final(self)@ == (NodeView {
                key: old(self)@.key.subrange(0, old(self)@.key.len() - key@.len()),
                body: BodyView::Children(seq![NodeView { key: key@, body: old(self)@.body }]),
            }),
    {
        let mut body = NodeBody::Children(Vec::new());
        core::mem::swap(&mut body, &mut self.body);
        let keep = self.key.len() - key.len();
        self.key.truncate(keep);
        let ghost child = Node { key, body };
        match &mut self.body {
            NodeBody::Children(children) => {
                children.push(Node { key, body });
            },
            NodeBody::Value(_) => {},
        }
        proof {
            lemma_body_view(self.body);
            let cs = self.body->Children_0@;
            assert(cs =~= seq![child]);
            assert(views(cs) =~= seq![child@]);
        }
    }

    /// Puts `value` among the children at `index`, whatever its fragment. A
    /// leaf becomes a node with children first, and `value` then goes to its
    /// place in the canonical order.
    pub fn insert(&mut self, index: usize, value: Node<T>)
        requires
            old(self)@.body matches BodyView::Children(cs) ==> index <= cs.len(),
        ensures
            old(self)@.body matches BodyView::Children(cs) ==> final(self)@ == (NodeView {
                key: old(self)@.key,
                body: BodyView::Children(cs.insert(index as int, value@)),
            }),
            old(self)@.body is Value ==> final(self)@ == (NodeView {
                key: old(self)@.key,
                body: BodyView::Children(sorted_insert(old(self)@.children(), value@)),
            }),
    {
        proof {
            lemma_body_view(self.body);
        }
        match &mut self.body {
            NodeBody::Children(children) => {
                proof {
                    lemma_views_insert(children@, index as int, value);
                }
                children.insert(index, value);
                proof {
                    lemma_body_view(self.body);
                }
            },
            NodeBody::Value(_) => {
                proof {
                    lemma_sort_all_same(self@.children());
                }
                self.push(value);
            },
        }
    }

    /// Puts `value` among the children and leaves them in the canonical order:
    /// the children are put in order, if they are not, and `value` goes to its
    /// place among them. A leaf becomes a node with children first.
    pub fn push(&mut self, value: Node<T>)
        ensures
            final(self)@ == (NodeView {
                key: old(self)@.key,
                body: BodyView::Children(
                    sorted_insert(sort_all(old(self)@.children()), value@),
                ),
            }),
            ordered(final(self)@.children()),
    {
        proof {
            lemma_body_view(self.body);
        }
        if let NodeBody::Value(_) = self.body {
            self.convert_value_to_children(Vec::new());
            proof {
                assert(self@.key =~= old(self)@.key);
            }
        }
        proof {
            lemma_body_view(self.body);
        }
        match &mut self.body {
            NodeBody::Children(children) => {
                sort_children(children);
                let p = insert_position(children, value.key.as_slice());
                proof {
                    lemma_views_insert(children@, p as int, value);
                }
                children.insert(p, value);
            },
            NodeBody::Value(_) => {},
        }
        proof {
            lemma_body_view(self.body);
            lemma_sort_all(old(self)@.children());
            lemma_sorted_insert_ordered(sort_all(old(self)@.children()), value@);
        }
    }

    /// The child at `index`, for changing it in place. A leaf becomes a node
    /// with children first.
    pub fn get_mut(&mut self, index: usize) -> (r: &mut Node<T>)
        requires
            index < old(self)@.children().len(),
        ensures
            r@ == old(self)@.children()[index as int],
            final(self)@ == (NodeView {
                key: old(self)@.key,
                body: BodyView::Children(
                    old(self)@.children().update(index as int, final(r)@),
                ),
            }),
    {
        proof {
            lemma_body_view(self.body);
        }
        if let NodeBody::Value(_) = self.body {
            self.convert_value_to_children(Vec::new());
            proof {
                assert(self@.key =~= old(self)@.key);
            }
        }
        proof {
            lemma_body_view(self.body);
            let cs = self.body->Children_0@;
            assert forall|b: NodeBody<T>| b is Children implies #[trigger] b@
                == BodyView::Children(views(b->Children_0@)) by {
                lemma_body_view(b);
            }
            assert forall|n: Node<T>| #[trigger]
                views(cs.update(index as int, n)) == views(cs).update(index as int, n@) by {
                lemma_views_update(cs, index as int, n);
            }
        }
        match &mut self.body {
            NodeBody::Children(children) => &mut children[index],
            NodeBody::Value(_) => unreached(),
        }
    }

    /// Replaces the value of a leaf.
    pub fn set_value(&mut self, value: T)
        requires
            old(self)@.body is Value,
        ensures
            final(self)@ == NodeView::leaf(old(self)@.key, value),
    {
        match &mut self.body {
            NodeBody::Children(_children) => {},
            NodeBody::Value(old_value) => {
                *old_value = value;
            },
        }
    }

    /// Splits the child at `index` after `partial` bytes of its fragment to
    /// make room for `key`, which agrees with the fragment so far, and leaves
    /// the children in the canonical order: the other children are put in
    /// order, if they are not, and the result goes to its place among them.
    ///
    /// The child is replaced by a node that carries the first `partial` bytes
    /// of `key`. Below it stand what the child carried, under the rest of its
    /// fragment, and a leaf that holds `value` under the rest of `key`.
    pub fn diverge(&mut self, index: usize, partial: usize, key: &[u8], value: T)
        requires
            index < old(self)@.children().len(),
            partial <= key@.len(),
            partial <= old(self)@.children()[index as int].key.len(),
        ensures
            final(self)@ == (NodeView {
                key: old(self)@.key,
                body: BodyView::Children(
                    sorted_insert(
                        sort_all(old(self)@.children().remove(index as int)),
                        split_node(
                            old(self)@.children()[index as int],
                            partial as int,
                            key@,
                            value,
                        ),
                    ),
                ),
            }),
            ordered(final(self)@.children()),
    {
        proof {
            lemma_body_view(self.body);
        }
        if let NodeBody::Value(_) = self.body {
            self.convert_value_to_children(Vec::new());
            proof {
                assert(self@.key =~= old(self)@.key);
            }
        }
        proof {
            lemma_body_view(self.body);
        }
        let ghost cs = self@.children();
        let sub = match &mut self.body {
            NodeBody::Children(children) => {
                proof {
                    lemma_views_remove(children@, index as int);
                }
                children.remove(index)
            },
            NodeBody::Value(_) => unreached(),
        };
        proof {
            lemma_body_view(self.body);
        }
        let ghost c = sub@;
        let key_prefix = slice_to_vec(slice_subrange(key, 0, partial));
        let skey = slice_to_vec(slice_subrange(sub.key.as_slice(), partial, sub.key.len()));
        let tail = Node { key: skey, body: sub.body };
        let leaf = Node {
            key: slice_to_vec(slice_subrange(key, partial, key.len())),
            body: NodeBody::Value(value),
        };
        let mut split = Node { key: key_prefix, body: NodeBody::Children(Vec::new()) };
        proof {
            lemma_body_view(split.body);
            assert(split@.children() =~= Seq::<NodeView<T>>::empty());
            lemma_sort_all_same(Seq::<NodeView<T>>::empty());
        }
        split.push(tail);
        proof {
            let e = Seq::<NodeView<T>>::empty();
            assert(insert_pos(e, tail@.key, 0) == 0);
            assert(sorted_insert(e, tail@) =~= seq![tail@]);
            lemma_sort_all_same(seq![tail@]);
        }
        split.push(leaf);
        proof {
            assert(split@ == split_node(c, partial as int, key@, value));
        }
        self.push(split);
    }
}

} // verus!
