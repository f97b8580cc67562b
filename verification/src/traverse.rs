//! Walking over a trie: its keys with their values, and its nodes in the
//! order in which they are written.

use vstd::prelude::*;
use vstd::slice::slice_to_vec;
use crate::model::{head, is_prefix, BodyView, NodeView};
use crate::node::{lemma_body_view, lemma_child_smaller, views, Node, NodeBody};
use crate::writer::push_bytes;
use crate::Integer;

verus! {

/// The keys below `n` with their values, in the order of the tree, where
/// `path` is the key that leads to `n`, the fragment of `n` included.
pub open spec fn entries_of<T>(n: NodeView<T>, path: Seq<u8>) -> Seq<(Seq<u8>, T)>
    decreases n, 0int,
{
    match n.body {
        BodyView::Value(v) => seq![(path, v)],
        BodyView::Children(cs) => entries_among(cs, path, cs.len() as int),
    }
}

/// The keys below the first `upto` nodes of `cs` with their values, where
/// `path` is the key that leads to their parent.
pub open spec fn entries_among<T>(cs: Seq<NodeView<T>>, path: Seq<u8>, upto: int) -> Seq<
    (Seq<u8>, T),
>
    decreases cs, upto,
{
    if upto <= 0 || upto > cs.len() {
        Seq::empty()
    } else {
        entries_among(cs, path, upto - 1) + entries_of(cs[upto - 1], path + cs[upto - 1].key)
    }
}

/// The keys and values of a list of pairs.
pub open spec fn pairs<T>(s: Seq<(Vec<u8>, T)>) -> Seq<(Seq<u8>, T)> {
    Seq::new(s.len(), |i: int| (s[i].0@, s[i].1))
}

/// A key starts with `path + k` exactly when it starts with `path` and goes
/// on with `k`.
pub proof fn lemma_prefix_concat(path: Seq<u8>, k: Seq<u8>, key: Seq<u8>)
    ensures
        is_prefix(path + k, key) <==> is_prefix(path, key) && is_prefix(
            k,
            key.skip(path.len() as int),
        ),
        is_prefix(path + k, key) ==> key.skip((path + k).len() as int) == key.skip(
            path.len() as int,
        ).skip(k.len() as int),
{
    let l = path.len() as int;
    let m = k.len() as int;
    if is_prefix(path + k, key) {
        assert(key.subrange(0, l) =~= (path + k).subrange(0, l));
        assert((path + k).subrange(0, l) =~= path);
        assert(key.skip(l).subrange(0, m) =~= key.subrange(0, l + m).subrange(l, l + m));
        assert((path + k).subrange(l, l + m) =~= k);
        assert(key.skip(l + m) =~= key.skip(l).skip(m));
    }
    if is_prefix(path, key) && is_prefix(k, key.skip(l)) {
        assert(key.subrange(0, l + m) =~= key.subrange(0, l) + key.skip(l).subrange(0, m));
    }
}

/// The tree lists a key with a value exactly when a path of fragments spells
/// what follows `path` in the key and ends in a leaf with that value.
pub proof fn lemma_entries_of<T>(n: NodeView<T>, path: Seq<u8>, key: Seq<u8>, v: T)
    ensures
        entries_of(n, path).contains((key, v)) <==> is_prefix(path, key) && n.has_path(
            key.skip(path.len() as int),
            v,
        ),
    decreases n, 0int,
{
    match n.body {
        BodyView::Value(x) => {
            let e = entries_of(n, path);
            assert(e[0] == (path, x));
            if is_prefix(path, key) && key.skip(path.len() as int).len() == 0 {
                assert(key.subrange(0, path.len() as int) =~= key);
            }
            if key == path {
                assert(key.subrange(0, path.len() as int) =~= key);
            }
        },
        BodyView::Children(cs) => {
            lemma_entries_among(cs, path, cs.len() as int, key, v);
            let rest = key.skip(path.len() as int);
            if is_prefix(path, key) && n.has_path(rest, v) {
                let i = choose|i: int|
                    0 <= i < cs.len() && is_prefix((#[trigger] cs[i]).key, rest) && cs[i].has_path(
                        rest.skip(cs[i].key.len() as int),
                        v,
                    );
                lemma_prefix_concat(path, cs[i].key, key);
            }
            if entries_of(n, path).contains((key, v)) {
                let i = choose|i: int|
                    0 <= i < cs.len() && is_prefix(path + (#[trigger] cs[i]).key, key)
                        && cs[i].has_path(key.skip((path + cs[i].key).len() as int), v);
                lemma_prefix_concat(path, cs[i].key, key);
            }
        },
    }
}

/// The first `upto` nodes list a key with a value exactly when one of them
/// does.
pub proof fn lemma_entries_among<T>(
    cs: Seq<NodeView<T>>,
    path: Seq<u8>,
    upto: int,
    key: Seq<u8>,
    v: T,
)
    requires
        upto <= cs.len(),
    ensures
        entries_among(cs, path, upto).contains((key, v)) <==> exists|i: int|
            0 <= i < upto && is_prefix(path + (#[trigger] cs[i]).key, key) && cs[i].has_path(
                key.skip((path + cs[i].key).len() as int),
                v,
            ),
    decreases cs, upto,
{
    if upto > 0 {
        let before = entries_among(cs, path, upto - 1);
        let last = entries_of(cs[upto - 1], path + cs[upto - 1].key);
        let all = entries_among(cs, path, upto);
        lemma_entries_among(cs, path, upto - 1, key, v);
        lemma_entries_of(cs[upto - 1], path + cs[upto - 1].key, key, v);
        if all.contains((key, v)) {
            let j = choose|j: int| 0 <= j < all.len() && all[j] == (key, v);
            if j < before.len() {
                assert(before[j] == (key, v));
                assert(before.contains((key, v)));
            } else {
                assert(last[j - before.len()] == (key, v));
                assert(last.contains((key, v)));
                assert(is_prefix(path + cs[upto - 1].key, key));
            }
        }
        if before.contains((key, v)) {
            let j = choose|j: int| 0 <= j < before.len() && before[j] == (key, v);
            assert(all[j] == (key, v));
        }
        if last.contains((key, v)) {
            let j = choose|j: int| 0 <= j < last.len() && last[j] == (key, v);
            assert(all[before.len() + j] == (key, v));
        }
    }
}

/// Every key that the tree lists starts with `path`, and what follows
/// `path` in it is spelled by a path of fragments.
pub proof fn lemma_entry_at<T>(n: NodeView<T>, path: Seq<u8>, i: int)
    requires
        0 <= i < entries_of(n, path).len(),
    ensures
        is_prefix(path, entries_of(n, path)[i].0),
        n.has_path(entries_of(n, path)[i].0.skip(path.len() as int), entries_of(n, path)[i].1),
{
    let e = entries_of(n, path)[i];
    assert(entries_of(n, path).contains(e));
    lemma_entries_of(n, path, e.0, e.1);
}

/// A well-formed tree lists no key twice.
pub proof fn lemma_entries_distinct<T>(n: NodeView<T>, path: Seq<u8>, i: int, j: int)
    requires
        n.wf(),
        0 <= i < j < entries_of(n, path).len(),
    ensures
        entries_of(n, path)[i].0 != entries_of(n, path)[j].0,
    decreases n, 2int, 0int,
{
    match n.body {
        BodyView::Value(_) => {},
        BodyView::Children(cs) => {
            lemma_entries_among_distinct(n, path, cs.len() as int, i, j);
        },
    }
}

/// The first `upto` children of a well-formed node list no key twice.
pub proof fn lemma_entries_among_distinct<T>(
    n: NodeView<T>,
    path: Seq<u8>,
    upto: int,
    i: int,
    j: int,
)
    requires
        n.wf(),
        n.body is Children,
        0 <= upto <= n.body->Children_0.len(),
        0 <= i < j < entries_among(n.body->Children_0, path, upto).len(),
    ensures
        entries_among(n.body->Children_0, path, upto)[i].0 != entries_among(
            n.body->Children_0,
            path,
            upto,
        )[j].0,
    decreases n, 1int, upto,
{
    let cs = n.body->Children_0;
    let u = upto - 1;
    let c = cs[u];
    let q = path + c.key;
    let before = entries_among(cs, path, u);
    let last = entries_of(c, q);
    let all = entries_among(cs, path, upto);
    assert(all == before + last);
    assert(c.wf());
    if j < before.len() {
        lemma_entries_among_distinct(n, path, u, i, j);
    } else if i >= before.len() {
        lemma_entries_distinct(c, q, i - before.len(), j - before.len());
    } else {
        // one key from a child before, the other from this child
        let a = all[i];
        let b = all[j];
        assert(before[i] == a);
        assert(last[j - before.len()] == b);
        if a.0 == b.0 {
            let key = a.0;
            let rest = key.skip(path.len() as int);
            assert(before.contains(a));
            lemma_entries_among(cs, path, u, a.0, a.1);
            let f = choose|f: int|
                0 <= f < u && is_prefix(path + (#[trigger] cs[f]).key, key) && cs[f].has_path(
                    key.skip((path + cs[f].key).len() as int),
                    a.1,
                );
            lemma_entry_at(c, q, j - before.len());
            lemma_prefix_concat(path, cs[f].key, key);
            lemma_prefix_concat(path, c.key, key);
            assert(cs[f].wf());
            assert(head(cs[f].key) != head(c.key));
            if cs[f].key.len() > 0 && c.key.len() > 0 {
                assert(rest.subrange(0, cs[f].key.len() as int)[0] == rest[0]);
                assert(rest.subrange(0, c.key.len() as int)[0] == rest[0]);
                assert(false);
            } else if cs[f].key.len() == 0 {
                // a leaf under the empty fragment holds the key that ends here
                assert(cs[f].body is Value);
                assert(rest.skip(0) =~= rest);
                assert(rest.len() == 0);
                assert(false);
            } else {
                assert(c.body is Value);
                assert(rest.skip(0) =~= rest);
                assert(rest.len() == 0);
                assert(false);
            }
        }
    }
}

/// Appends the keys below `node` with their values to `out`, where `path`
/// holds the key that leads to `node`. `path` grows and shrinks on the way
/// and is left as it was.
pub fn collect_entries<T: Integer>(
    node: &Node<T>,
    path: &mut Vec<u8>,
    out: &mut Vec<(Vec<u8>, T)>,
)
    ensures
        final(path)@ == old(path)@,
        pairs(final(out)@) == pairs(old(out)@) + entries_of(node@, old(path)@),
    decreases node,
{
    proof {
        lemma_body_view(node.body);
    }
    match &node.body {
        NodeBody::Value(v) => {
            let key = slice_to_vec(path.as_slice());
            out.push((key, *v));
            proof {
                assert(pairs(out@) =~= pairs(old(out)@) + entries_of(node@, old(path)@));
            }
        },
        NodeBody::Children(children) => {
            let ghost cs = views(children@);
            let mut i: usize = 0;
            proof {
                assert(pairs(out@) =~= pairs(old(out)@) + entries_among(cs, path@, 0));
            }
            while i < children.len()
                invariant
                    i <= children.len(),
                    node.body == NodeBody::Children(*children),
                    cs == views(children@),
                    path@ == old(path)@,
                    pairs(out@) == pairs(old(out)@) + entries_among(cs, path@, i as int),
                decreases children.len() - i,
            {
                let child = &children[i];
                let keep = path.len();
                let ghost before = pairs(out@);
                proof {
                    assert(cs[i as int] == child@);
                    lemma_child_smaller(*node, i as int);
                }
                push_bytes(path, child.key.as_slice());
                collect_entries(child, path, out);
                path.truncate(keep);
                proof {
                    assert(path@ =~= old(path)@);
                    assert(pairs(out@) =~= pairs(old(out)@) + entries_among(cs, path@, i + 1));
                }
                i += 1;
            }
        },
    }
}

/// How a node is met on the way through the trie: as a node with children,
/// or as a leaf with its value.
#[derive(Debug, Clone, Copy, PartialEq, Eq, Structural)]
pub enum EntryKind {
    Child,
    Value,
}

/// A node as the writer meets it: the node, the key that leads to its
/// parent, how deep it stands below the root, and its kind.
#[derive(Debug)]
pub struct RawEntry<'a, T: Integer> {
    pub node: &'a Node<T>,
    pub parent_path: Vec<u8>,
    pub depth: usize,
    pub kind: EntryKind,
}

/// The mathematical value of a raw entry.
pub struct RawView<T> {
    pub node: NodeView<T>,
    pub parent_path: Seq<u8>,
    pub depth: nat,
}

impl<'a, T: Integer> RawEntry<'a, T> {
    /// The entry without its kind, which the node tells.
    pub open spec fn view(&self) -> RawView<T> {
        RawView { node: (*self.node)@, parent_path: self.parent_path@, depth: self.depth as nat }
    }

    /// The kind says whether the node is a leaf.
    pub open spec fn wf(&self) -> bool {
        self.kind == EntryKind::Value <==> (*self.node)@.body is Value
    }
}

/// The values of a list of raw entries.
pub open spec fn raw_views<'a, T: Integer>(s: Seq<RawEntry<'a, T>>) -> Seq<RawView<T>> {
    Seq::new(s.len(), |i: int| s[i]@)
}

/// The first `upto` nodes of `cs` as the children of the node that `path`
/// leads to.
pub open spec fn raw_run<T>(cs: Seq<NodeView<T>>, path: Seq<u8>, depth: nat, upto: int) -> Seq<
    RawView<T>,
> {
    Seq::new(
        if upto < 0 {
            0nat
        } else {
            upto as nat
        },
        |i: int| RawView { node: cs[i], parent_path: path, depth },
    )
}

/// The nodes below `n` in the order in which they are written: the children
/// of `n` in their order, and then for each child in turn what lies below
/// it. `path` is the key that leads to `n`, and `depth` the depth of its
/// children.
pub open spec fn raw_of<T>(n: NodeView<T>, path: Seq<u8>, depth: nat) -> Seq<RawView<T>>
    decreases n, 0int,
{
    match n.body {
        BodyView::Value(_) => Seq::empty(),
        BodyView::Children(cs) => raw_run(cs, path, depth, cs.len() as int) + raw_below(
            cs,
            path,
            depth,
            cs.len() as int,
        ),
    }
}

/// What lies below the first `upto` nodes of `cs`, node by node.
pub open spec fn raw_below<T>(cs: Seq<NodeView<T>>, path: Seq<u8>, depth: nat, upto: int) -> Seq<
    RawView<T>,
>
    decreases cs, upto,
{
    if upto <= 0 || upto > cs.len() {
        Seq::empty()
    } else {
        raw_below(cs, path, depth, upto - 1) + raw_of(
            cs[upto - 1],
            path + cs[upto - 1].key,
            depth + 1,
        )
    }
}

/// Appends the nodes below `node` to `out` in the order in which they are
/// written, where `path` holds the key that leads to `node`. `path` grows
/// and shrinks on the way and is left as it was.
pub fn collect_raw<'a, T: Integer>(
    node: &'a Node<T>,
    path: &mut Vec<u8>,
    depth: usize,
    out: &mut Vec<RawEntry<'a, T>>,
)
    requires
        node@.wf(),
        depth <= old(path)@.len(),
        forall|i: int| 0 <= i < old(out)@.len() ==> (#[trigger] old(out)@[i]).wf(),
    ensures
        final(path)@ == old(path)@,
        raw_views(final(out)@) == raw_views(old(out)@) + raw_of(
            node@,
            old(path)@,
            depth as nat,
        ),
        forall|i: int| 0 <= i < final(out)@.len() ==> (#[trigger] final(out)@[i]).wf(),
    decreases node,
{
    proof {
        lemma_body_view(node.body);
    }
    match &node.body {
        NodeBody::Value(_) => {
            proof {
                assert(raw_views(out@) =~= raw_views(old(out)@) + raw_of(
                    node@,
                    old(path)@,
                    depth as nat,
                ));
            }
        },
        NodeBody::Children(children) => {
            let ghost cs = views(children@);
            let ghost d = depth as nat;
            let ghost len = cs.len() as int;
            let mut i: usize = 0;
            proof {
                assert(raw_views(out@) =~= raw_views(old(out)@) + raw_run(cs, path@, d, 0));
            }
            while i < children.len()
                invariant
                    i <= children.len(),
                    cs == views(children@),
                    path@ == old(path)@,
                    d == depth,
                    raw_views(out@) == raw_views(old(out)@) + raw_run(cs, path@, d, i as int),
                    forall|j: int| 0 <= j < out@.len() ==> (#[trigger] out@[j]).wf(),
                decreases children.len() - i,
            {
                let child = &children[i];
                let kind = match &child.body {
                    NodeBody::Value(_) => EntryKind::Value,
                    NodeBody::Children(_) => EntryKind::Child,
                };
                let entry = RawEntry {
                    node: child,
                    parent_path: slice_to_vec(path.as_slice()),
                    depth,
                    kind,
                };
                proof {
                    assert(cs[i as int] == child@);
                    lemma_body_view(child.body);
                    assert(entry.wf());
                }
                let ghost before = out@;
                out.push(entry);
                proof {
                    assert forall|j: int| 0 <= j < out@.len() implies (#[trigger] out@[j]).wf() by {
                        if j < before.len() {
                            assert(out@[j] == before[j]);
                        }
                    }
                    assert(raw_views(out@) =~= raw_views(before).push(entry@));
                    assert(raw_run(cs, path@, d, i + 1) =~= raw_run(cs, path@, d, i as int).push(
                        entry@,
                    ));
                    assert(raw_views(out@) =~= raw_views(old(out)@) + raw_run(
                        cs,
                        path@,
                        d,
                        i + 1,
                    ));
                }
                i += 1;
            }
            i = 0;
            let ghost run = raw_views(old(out)@) + raw_run(cs, path@, d, len);
            proof {
                assert(raw_views(out@) =~= run + raw_below(cs, path@, d, 0));
            }
            while i < children.len()
                invariant
                    i <= children.len(),
                    node.body == NodeBody::Children(*children),
                    node@.body == BodyView::Children(cs),
                    node@.wf(),
                    cs == views(children@),
                    len == cs.len(),
                    path@ == old(path)@,
                    d == depth,
                    depth <= path@.len(),
                    run == raw_views(old(out)@) + raw_run(cs, path@, d, len),
                    raw_views(out@) == run + raw_below(cs, path@, d, i as int),
                    forall|j: int| 0 <= j < out@.len() ==> (#[trigger] out@[j]).wf(),
                decreases children.len() - i,
            {
                let child = &children[i];
                proof {
                    assert(cs[i as int] == child@);
                    assert(cs[i as int].wf());
                    lemma_body_view(child.body);
                }
                match &child.body {
                    NodeBody::Children(_) => {
                        let keep = path.len();
                        proof {
                            assert(child@.key.len() > 0);
                            lemma_child_smaller(*node, i as int);
                        }
                        push_bytes(path, child.key.as_slice());
                        let longer = path.len();
                        proof {
                            assert(longer == keep + child@.key.len());
                        }
                        collect_raw(child, path, depth + 1, out);
                        path.truncate(keep);
                        proof {
                            assert(path@ =~= old(path)@);
                            assert(raw_views(out@) =~= run + raw_below(cs, path@, d, i + 1));
                        }
                    },
                    NodeBody::Value(_) => {
                        proof {
                            assert(raw_of(cs[i as int], path@ + cs[i as int].key, d + 1)
                                =~= Seq::<RawView<T>>::empty());
                            assert(raw_views(out@) =~= run + raw_below(cs, path@, d, i + 1));
                        }
                    },
                }
                i += 1;
            }
            proof {
                assert(raw_views(out@) =~= raw_views(old(out)@) + raw_of(
                    node@,
                    old(path)@,
                    depth as nat,
                ));
            }
        },
    }
}

} // verus!
