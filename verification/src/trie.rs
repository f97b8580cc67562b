//! The mutable radix trie.

use vstd::prelude::*;
use vstd::slice::{slice_subrange, slice_to_vec};
use crate::format::{header_len, walk};
use crate::layout::{
    file_bytes, keys_fit, lemma_header_bytes, lemma_records_aligned, offsets_fit, records_aligned,
    values_fit, writable,
};
use crate::lcp::Prefix;
use crate::model::{
    inserted, lemma_below_iff_path, lemma_child_for, lemma_children_wf, lemma_classify,
    lemma_insert_leaf, lemma_remove_keeps, lemma_sort_all_same, lemma_sorted_is_ordered,
    lemma_split, lemma_update_child, tree_with, BodyView, NodeView,
};
use crate::node::{find_child, lemma_body_view, views, Node, NodeBody};
use crate::roundtrip::lemma_round_trip;
use crate::traverse::{
    collect_entries, collect_raw, entries_of, lemma_entries_distinct, lemma_entries_of, pairs,
    raw_of, raw_views, RawEntry,
};
use crate::writer::{write_stream, WriteError};
use crate::{valid_width, Integer};

verus! {

/// A map from byte-string keys to values, kept as a radix trie.
#[derive(Debug)]
pub struct PathTrie<T: Integer> {
    root: Node<T>,
}

impl<T: Integer> View for PathTrie<T> {
    type V = Map<Seq<u8>, T>;

    /// The keys of the trie with their values.
    open spec fn view(&self) -> Map<Seq<u8>, T> {
        Map::new(
            |k: Seq<u8>| self.root_view().below(k) is Some,
            |k: Seq<u8>| self.root_view().below(k)->Some_0,
        )
    }
}

/// Puts `value` under `key` below `node`, the fragment of `node` itself being
/// consumed already.
pub fn insert_below<T: Integer>(node: &mut Node<T>, key: &[u8], value: T)
    requires
        old(node)@.wf(),
    ensures
        final(node)@ == tree_with(old(node)@, key@, value),
        final(node)@.wf(),
        final(node)@.key == old(node)@.key,
        inserted(old(node)@, final(node)@, key@, value),
        final(node)@.body matches BodyView::Children(cs) ==> cs.len() > 0,
        old(node)@.body is Children || key@.len() > 0 ==> final(node)@.body is Children,
    decreases key@.len(),
{
    proof {
        lemma_body_view(node.body);
    }
    if let NodeBody::Value(_) = node.body {
        if key.len() == 0 {
            node.set_value(value);
            proof {
                assert forall|q: Seq<u8>| #[trigger]
                    node@.below(q) == if q == key@ {
                        Some(value)
                    } else {
                        old(node)@.below(q)
                    } by {
                    if q.len() == 0 {
                        assert(q =~= key@);
                    }
                }
            }
        } else {
            proof {
                assert(old(node)@.children()[0].key.len() == 0);
                lemma_insert_leaf(old(node)@, key@, value);
                lemma_sort_all_same(old(node)@.children());
            }
            node.push(Node { key: slice_to_vec(key), body: NodeBody::Value(value) });
        }
        return;
    }
    let ghost cs = old(node)@.children();
    let found = match &node.body {
        NodeBody::Children(children) => {
            let found = find_child(children, key);
            proof {
                if let Some((i, p)) = found {
                    assert(children@[i as int].key@.len() == children@[i as int].key.len());
                    assert(cs[i as int] == children@[i as int]@);
                }
            }
            found
        },
        NodeBody::Value(_) => None,
    };
    match found {
        None => {
            proof {
                lemma_child_for(cs, key@, 0);
                lemma_insert_leaf(old(node)@, key@, value);
                lemma_sorted_is_ordered(cs);
                lemma_sort_all_same(cs);
            }
            node.push(Node { key: slice_to_vec(key), body: NodeBody::Value(value) });
            proof {
                assert(node@ == tree_with(old(node)@, key@, value));
            }
        },
        Some((i, p)) => {
            proof {
                assert(cs[i as int].key.len() <= usize::MAX);
                assert(key@.len() == key.len());
                lemma_classify(cs[i as int].key, key@);
                lemma_children_wf(old(node)@);
                assert(cs[i as int].child_ok());
            }
            match p {
                Prefix::Exact => {
                    let child = node.get_mut(i);
                    proof {
                        lemma_body_view(child.body);
                    }
                    let ghost before = child@;
                    if let NodeBody::Value(_) = child.body {
                        child.set_value(value);
                        proof {
                            assert forall|q: Seq<u8>| #[trigger]
                                child@.below(q) == if q == Seq::<u8>::empty() {
                                    Some(value)
                                } else {
                                    before.below(q)
                                } by {
                                if q.len() == 0 {
                                    assert(q =~= Seq::<u8>::empty());
                                }
                            }
                        }
                    } else {
                        insert_below(child, slice_subrange(key, key.len(), key.len()), value);
                    }
                    proof {
                        let c = node@.children()[i as int];
                        assert(key@.skip(key@.len() as int) =~= Seq::<u8>::empty());
                        assert(key@.subrange(key@.len() as int, key@.len() as int)
                            =~= Seq::<u8>::empty());
                        assert(key@.subrange(0, key@.len() as int) =~= key@);
                        assert(c == tree_with(cs[i as int], Seq::<u8>::empty(), value));
                        lemma_update_child(old(node)@, i as int, c, key@, value);
                        assert(node@ == tree_with(old(node)@, key@, value));
                    }
                },
                Prefix::Incomplete(n) => {
                    let child = node.get_mut(i);
                    insert_below(child, slice_subrange(key, n, key.len()), value);
                    proof {
                        let c = node@.children()[i as int];
                        assert(key@.skip(n as int) =~= key@.subrange(n as int, key@.len() as int));
                        assert(c == tree_with(cs[i as int], key@.skip(n as int), value));
                        lemma_update_child(old(node)@, i as int, c, key@, value);
                        assert(node@ == tree_with(old(node)@, key@, value));
                    }
                },
                Prefix::PerfectSubset(n) => {
                    proof {
                        assert(key@.subrange(0, n as int) =~= key@);
                        lemma_split(old(node)@, i as int, n as int, key@, value);
                        lemma_remove_keeps(cs, i as int);
                        lemma_sorted_is_ordered(cs.remove(i as int));
                        lemma_sort_all_same(cs.remove(i as int));
                    }
                    node.diverge(i, n, key, value);
                    proof {
                        assert(node@ == tree_with(old(node)@, key@, value));
                    }
                },
                Prefix::Divergent(n) => {
                    proof {
                        lemma_split(old(node)@, i as int, n as int, key@, value);
                        lemma_remove_keeps(cs, i as int);
                        lemma_sorted_is_ordered(cs.remove(i as int));
                        lemma_sort_all_same(cs.remove(i as int));
                    }
                    node.diverge(i, n, key, value);
                    proof {
                        assert(node@ == tree_with(old(node)@, key@, value));
                    }
                },
                Prefix::NoMatch(_) => {},
            }
        },
    }
}

impl<T: Integer> PathTrie<T> {
    /// The model of the root node: its fragment is empty, and the keys of the
    /// trie are what lies below it.
    pub closed spec fn root_view(&self) -> NodeView<T> {
        self.root@
    }

    /// Every trie is well formed.
    #[verifier::type_invariant]
    spec fn well_formed(&self) -> bool {
        self.wf()
    }

    /// Well-formedness: the root has the empty fragment and a list of
    /// children, and the tree below it is well formed.
    pub open spec fn wf(&self) -> bool {
        &&& self.root_view().key.len() == 0
        &&& self.root_view().body is Children
        &&& self.root_view().wf()
    }

    /// The root of a trie without keys: the empty fragment and no children.
    pub open spec fn empty_root() -> NodeView<T> {
        NodeView { key: Seq::empty(), body: BodyView::Children(Seq::empty()) }
    }

    /// A trie without keys: its root has the empty fragment and no children.
    pub fn new() -> (r: Self)
        ensures
            r.wf(),
            r.root_view() == Self::empty_root(),
            r@ == Map::<Seq<u8>, T>::empty(),
    {
        let r = PathTrie { root: Node { key: Vec::new(), body: NodeBody::Children(Vec::new()) } };
        proof {
            lemma_body_view(r.root.body);
            assert(r.root@.key =~= Seq::<u8>::empty());
            assert(views(Seq::<Node<T>>::empty()) =~= Seq::<NodeView<T>>::empty());
            assert(r@ =~= Map::<Seq<u8>, T>::empty());
        }
        r
    }

    /// Associates `value` with `key`. A value that `key` had before is
    /// replaced; every other key keeps what it had. The tree is reshaped as
    /// `tree_with` says.
    pub fn insert(&mut self, key: &[u8], value: T)
        ensures
            final(self).wf(),
            final(self)@ == old(self)@.insert(key@, value),
            final(self).root_view() == tree_with(old(self).root_view(), key@, value),
    {
        proof {
            use_type_invariant(&*self);
        }
        // the root is taken out while the tree is reshaped
        let mut root = Node { key: Vec::new(), body: NodeBody::Children(Vec::new()) };
        proof {
            lemma_body_view(root.body);
        }
        core::mem::swap(&mut self.root, &mut root);
        insert_below(&mut root, key, value);
        self.root = root;
        proof {
            assert(self@ =~= old(self)@.insert(key@, value));
        }
    }

    /// The keys of the trie with their values, in the order of the tree.
    pub fn entries(&self) -> (r: Vec<(Vec<u8>, T)>)
        ensures
            pairs(r@) == entries_of(self.root_view(), Seq::empty()),
    {
        let mut path: Vec<u8> = Vec::new();
        let mut out: Vec<(Vec<u8>, T)> = Vec::new();
        collect_entries(&self.root, &mut path, &mut out);
        proof {
            assert(pairs(out@) =~= entries_of(self.root_view(), Seq::empty()));
        }
        out
    }

    /// The nodes of the trie in the order in which they are written: the
    /// children of the root in their order, and then for each child in turn
    /// what lies below it. Each node comes with the key that leads to its
    /// parent and with its depth below the root.
    pub fn raw_entries(&self) -> (r: Vec<RawEntry<'_, T>>)
        ensures
            raw_views(r@) == raw_of(self.root_view(), Seq::empty(), 0),
            forall|i: int| 0 <= i < r@.len() ==> (#[trigger] r@[i]).wf(),
    {
        proof {
            use_type_invariant(self);
        }
        let mut path: Vec<u8> = Vec::new();
        let mut out: Vec<RawEntry<'_, T>> = Vec::new();
        collect_raw(&self.root, &mut path, 0, &mut out);
        proof {
            assert(raw_views(out@) =~= raw_of(self.root_view(), Seq::empty(), 0));
        }
        out
    }

    /// The trie in the compact byte layout, for values of the width of `V`.
    ///
    /// Fails with `KeyTooLong` if a key fragment is longer than 255 bytes;
    /// otherwise with `ValueTooLarge` if a value does not fit the width;
    /// otherwise with `OffsetOverflow` if an offset does not fit it.
    pub fn write<V: Integer>(&self) -> (r: Result<Vec<u8>, WriteError>)
        ensures
            match r {
                Ok(bytes) => writable(self.root_view(), V::spec_size()) && bytes@ == file_bytes(
                    self.root_view(),
                    V::spec_size(),
                ),
                Err(WriteError::KeyTooLong) => !keys_fit(self.root_view()),
                Err(WriteError::ValueTooLarge) => keys_fit(self.root_view()) && !values_fit(
                    self.root_view(),
                    V::spec_size(),
                ),
                Err(WriteError::OffsetOverflow) => keys_fit(self.root_view()) && values_fit(
                    self.root_view(),
                    V::spec_size(),
                ) && !offsets_fit(
                    self.root_view(),
                    V::spec_size(),
                    header_len(V::spec_size()) as nat,
                ),
            },
    {
        proof {
            use_type_invariant(self);
        }
        write_stream::<T, V>(&self.root)
    }

    /// The value of `key`, if it has one.
    pub fn get(&self, key: &[u8]) -> (r: Option<T>)
        ensures
            r == if self@.contains_key(key@) {
                Some(self@[key@])
            } else {
                None
            },
    {
        let mut node: &Node<T> = &self.root;
        let mut rest: &[u8] = key;
        loop
            invariant
                node@.below(rest@) == self.root_view().below(key@),
            decreases node,
        {
            proof {
                lemma_body_view(node.body);
            }
            match &node.body {
                NodeBody::Value(v) => {
                    return if rest.len() == 0 {
                        Some(*v)
                    } else {
                        None
                    };
                },
                NodeBody::Children(children) => {
                    match find_child(children, rest) {
                        None => {
                            return None;
                        },
                        Some((i, p)) => {
                            proof {
                                assert(rest@.len() == rest.len());
                                assert(views(children@)[i as int] == children@[i as int]@);
                                assert(children@[i as int].key@.len()
                                    == children@[i as int].key.len());
                                lemma_classify(children@[i as int].key@, rest@);
                            }
                            match p {
                                Prefix::Exact => {
                                    proof {
                                        assert(rest@.subrange(0, rest@.len() as int) =~= rest@);
                                        assert(rest@.skip(rest@.len() as int) =~= rest@.subrange(
                                            rest@.len() as int,
                                            rest@.len() as int,
                                        ));
                                    }
                                    rest = slice_subrange(rest, rest.len(), rest.len());
                                    node = &children[i];
                                },
                                Prefix::Incomplete(n) => {
                                    proof {
                                        assert(rest@.skip(n as int) =~= rest@.subrange(
                                            n as int,
                                            rest@.len() as int,
                                        ));
                                    }
                                    rest = slice_subrange(rest, n, rest.len());
                                    node = &children[i];
                                },
                                _ => {
                                    return None;
                                },
                            }
                        },
                    }
                },
            }
        }
    }
}

/// The map that a list of insertions, made in their order, leaves of `m`.
pub open spec fn insert_all<T>(m: Map<Seq<u8>, T>, ops: Seq<(Seq<u8>, T)>) -> Map<Seq<u8>, T>
    decreases ops.len(),
{
    if ops.len() == 0 {
        m
    } else {
        insert_all(m, ops.drop_last()).insert(ops.last().0, ops.last().1)
    }
}

/// After a list of insertions every inserted key holds the value of the last
/// insertion that named it.
pub proof fn lemma_last_insert_wins<T>(m: Map<Seq<u8>, T>, ops: Seq<(Seq<u8>, T)>, i: int)
    requires
        0 <= i < ops.len(),
        forall|j: int| i < j < ops.len() ==> (#[trigger] ops[j]).0 != ops[i].0,
    ensures
        insert_all(m, ops).contains_key(ops[i].0),
        insert_all(m, ops)[ops[i].0] == ops[i].1,
    decreases ops.len(),
{
    if i < ops.len() - 1 {
        let before = ops.drop_last();
        assert(before[i] == ops[i]);
        assert forall|j: int| i < j < before.len() implies (#[trigger] before[j]).0
            != before[i].0 by {
            assert(before[j] == ops[j]);
        }
        lemma_last_insert_wins(m, before, i);
        assert(ops.last() == ops[ops.len() - 1]);
    }
}

impl<T: Integer> PathTrie<T> {
    /// Writing and reading back: a walk over the bytes that a well-formed
    /// trie is written to finds for every key the value that the trie holds
    /// for it, as a number, and nothing for a key that the trie does not hold.
    pub proof fn lemma_write_read(&self, w: nat, key: Seq<u8>)
        requires
            self.wf(),
            valid_width(w),
            writable(self.root_view(), w),
            key.len() <= usize::MAX,
        ensures
            walk(file_bytes(self.root_view(), w), w, header_len(w), key) == if self@.contains_key(
                key,
            ) {
                Some(self@[key].as_nat())
            } else {
                None
            },
    {
        lemma_round_trip(self.root_view(), w, key);
    }

    /// A key of a well-formed trie has a value exactly when a path of
    /// fragments from the root spells the key and ends in a leaf with that
    /// value.
    pub proof fn lemma_keys_are_paths(&self, key: Seq<u8>, v: T)
        requires
            self.wf(),
        ensures
            self@.contains_key(key) && self@[key] == v <==> self.root_view().has_path(key, v),
    {
        lemma_below_iff_path(self.root_view(), key, v);
    }

    /// The entries of a well-formed trie are its keys with their values.
    pub proof fn lemma_entries(&self, key: Seq<u8>, v: T)
        requires
            self.wf(),
        ensures
            entries_of(self.root_view(), Seq::empty()).contains((key, v)) <==> self@.contains_key(
                key,
            ) && self@[key] == v,
    {
        lemma_entries_of(self.root_view(), Seq::empty(), key, v);
        lemma_below_iff_path(self.root_view(), key, v);
        assert(key.skip(0) =~= key);
        assert(key.subrange(0, 0) =~= Seq::<u8>::empty());
    }

    /// The entries of a well-formed trie list no key twice.
    pub proof fn lemma_entries_list_no_key_twice(&self, i: int, j: int)
        requires
            self.wf(),
            0 <= i < j < entries_of(self.root_view(), Seq::empty()).len(),
        ensures
            entries_of(self.root_view(), Seq::empty())[i].0 != entries_of(
                self.root_view(),
                Seq::empty(),
            )[j].0,
    {
        lemma_entries_distinct(self.root_view(), Seq::empty(), i, j);
    }

    /// In the bytes that a trie is written to, every record starts at a
    /// multiple of the width.
    pub proof fn lemma_write_aligned(&self, w: nat)
        requires
            valid_width(w),
        ensures
            header_len(w) % (w as int) == 0,
            records_aligned(self.root_view(), w, header_len(w) as nat),
    {
        lemma_header_bytes(w);
        lemma_records_aligned(self.root_view(), w, header_len(w) as nat);
    }
}

} // verus!
