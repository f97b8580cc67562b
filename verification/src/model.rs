//! The mathematical model of the trie: what a node is, when a tree of nodes
//! is well formed, and which value it holds for a key.

use vstd::prelude::*;
use crate::lcp::{classify, common_len, lemma_common_len, lex_order, share_prefix, Order, Prefix};

verus! {

/// The mathematical value of a node body.
pub enum BodyView<T> {
    Children(Seq<NodeView<T>>),
    Value(T),
}

/// The mathematical value of a node.
pub struct NodeView<T> {
    pub key: Seq<u8>,
    pub body: BodyView<T>,
}

/// First byte of a fragment, or -1 for the empty fragment.
pub open spec fn head(f: Seq<u8>) -> int {
    if f.len() == 0 {
        -1
    } else {
        f[0] as int
    }
}

/// `p` is what `q` starts with.
pub open spec fn is_prefix(p: Seq<u8>, q: Seq<u8>) -> bool {
    p.len() <= q.len() && q.subrange(0, p.len() as int) == p
}

/// The canonical order of fragments: a longer fragment sorts before a shorter
/// one, and fragments of one length sort as in a dictionary.
pub open spec fn canon_order(a: Seq<u8>, b: Seq<u8>) -> Order {
    if a.len() > b.len() {
        Order::Less
    } else if a.len() < b.len() {
        Order::Greater
    } else {
        lex_order(a, b)
    }
}

/// `a` sorts strictly before `b` in the canonical order.
pub open spec fn canon_lt(a: Seq<u8>, b: Seq<u8>) -> bool {
    canon_order(a, b) == Order::Less
}

/// The fragments of `cs` ascend strictly in the canonical order.
pub open spec fn sorted<T>(cs: Seq<NodeView<T>>) -> bool {
    forall|i: int, j: int|
        0 <= i < j < cs.len() ==> canon_lt((#[trigger] cs[i]).key, (#[trigger] cs[j]).key)
}

/// No two fragments of `cs` start alike: at most one is empty, and the others
/// start with different bytes.
pub open spec fn heads_distinct<T>(cs: Seq<NodeView<T>>) -> bool {
    forall|i: int, j: int|
        0 <= i < cs.len() && 0 <= j < cs.len() && i != j ==> head((#[trigger] cs[i]).key) != head(
            (#[trigger] cs[j]).key,
        )
}

/// Every node of `cs` that has children has a fragment.
pub open spec fn parents_named<T>(cs: Seq<NodeView<T>>) -> bool {
    forall|i: int| 0 <= i < cs.len() && (#[trigger] cs[i]).body is Children ==> cs[i].key.len() > 0
}

/// Where a node with fragment `k` goes into `cs`, looking from `from` on:
/// before the first node that sorts after `k`, or at the end.
pub open spec fn insert_pos<T>(cs: Seq<NodeView<T>>, k: Seq<u8>, from: int) -> int
    decreases cs.len() - from,
{
    if from >= cs.len() {
        cs.len() as int
    } else if canon_lt(k, cs[from].key) {
        from
    } else {
        insert_pos(cs, k, from + 1)
    }
}

/// `cs` with `n` put in at its place in the canonical order.
pub open spec fn sorted_insert<T>(cs: Seq<NodeView<T>>, n: NodeView<T>) -> Seq<NodeView<T>> {
    cs.insert(insert_pos(cs, n.key, 0), n)
}

/// `a` does not sort after `b` in the canonical order.
pub open spec fn canon_le(a: Seq<u8>, b: Seq<u8>) -> bool {
    canon_order(a, b) != Order::Greater
}

/// The fragments of `cs` ascend in the canonical order; equal ones may
/// follow each other.
pub open spec fn ordered<T>(cs: Seq<NodeView<T>>) -> bool {
    forall|i: int, j: int|
        0 <= i < j < cs.len() ==> canon_le((#[trigger] cs[i]).key, (#[trigger] cs[j]).key)
}

/// The nodes of `cs` in the canonical order: each node in turn is put in at
/// its place among those before it, behind the nodes with the same fragment.
pub open spec fn sort_all<T>(cs: Seq<NodeView<T>>) -> Seq<NodeView<T>>
    decreases cs.len(),
{
    if cs.len() == 0 {
        Seq::empty()
    } else {
        sorted_insert(sort_all(cs.drop_last()), cs.last())
    }
}

/// Index of the first node of `cs`, from `from` on, whose fragment starts
/// like `q`; the length of `cs` if there is none.
pub open spec fn child_for<T>(cs: Seq<NodeView<T>>, q: Seq<u8>, from: int) -> int
    decreases cs.len() - from,
{
    if from >= cs.len() {
        cs.len() as int
    } else if head(cs[from].key) == head(q) {
        from
    } else {
        child_for(cs, q, from + 1)
    }
}

impl<T> NodeView<T> {
    /// A leaf that holds `v` under the fragment `key`.
    pub open spec fn leaf(key: Seq<u8>, v: T) -> NodeView<T> {
        NodeView { key, body: BodyView::Value(v) }
    }

    /// The children of the node. A node with a value counts as a node with one
    /// child, which holds the value under the empty fragment.
    pub open spec fn children(self) -> Seq<NodeView<T>> {
        match self.body {
            BodyView::Children(cs) => cs,
            BodyView::Value(v) => seq![NodeView::leaf(Seq::empty(), v)],
        }
    }

    /// The node may stand among the children of a well-formed node: it is well
    /// formed itself, and where it has children it has a fragment and at least
    /// one child.
    pub open spec fn child_ok(self) -> bool {
        &&& self.wf()
        &&& self.body matches BodyView::Children(cs) ==> self.key.len() > 0 && cs.len() > 0
    }

    /// Well-formedness of the tree below the node: at every node the children
    /// stand in the canonical order, no two of them start alike, and only
    /// leaves have an empty fragment.
    pub open spec fn wf(self) -> bool
        decreases self,
    {
        match self.body {
            BodyView::Value(_) => true,
            BodyView::Children(cs) => {
                &&& sorted(cs)
                &&& heads_distinct(cs)
                &&& forall|i: int|
                    0 <= i < cs.len() ==> {
                        &&& (#[trigger] cs[i]).wf()
                        &&& cs[i].body matches BodyView::Children(gs) ==> cs[i].key.len() > 0
                            && gs.len() > 0
                    }
            },
        }
    }

    /// The value held below the node for the rest `q` of a key, the node's own
    /// fragment being consumed already.
    ///
    /// A leaf holds its value for the empty rest. Otherwise the child whose
    /// fragment starts like `q` decides: if that fragment is a prefix of `q`,
    /// the search goes on below the child with what follows the fragment.
    pub open spec fn below(self, q: Seq<u8>) -> Option<T>
        decreases self,
    {
        match self.body {
            BodyView::Value(v) => if q.len() == 0 {
                Some(v)
            } else {
                None
            },
            BodyView::Children(cs) => {
                let i = child_for(cs, q, 0);
                if 0 <= i < cs.len() && is_prefix(cs[i].key, q) {
                    cs[i].below(q.skip(cs[i].key.len() as int))
                } else {
                    None
                }
            },
        }
    }

    /// The value found for `q` on entering the node: its fragment has to be a
    /// prefix of `q`.
    pub open spec fn step(self, q: Seq<u8>) -> Option<T> {
        if is_prefix(self.key, q) {
            self.below(q.skip(self.key.len() as int))
        } else {
            None
        }
    }

    /// There is a path from the node downwards whose fragments, the node's own
    /// left out, spell `q`, and which ends in a leaf that holds `v`.
    pub open spec fn has_path(self, q: Seq<u8>, v: T) -> bool
        decreases self,
    {
        match self.body {
            BodyView::Value(x) => q.len() == 0 && x == v,
            BodyView::Children(cs) => exists|i: int|
                0 <= i < cs.len() && is_prefix((#[trigger] cs[i]).key, q) && cs[i].has_path(
                    q.skip(cs[i].key.len() as int),
                    v,
                ),
        }
    }
}

/// The value held for `q` among the nodes `cs`.
pub open spec fn lookup<T>(cs: Seq<NodeView<T>>, q: Seq<u8>) -> Option<T> {
    let i = child_for(cs, q, 0);
    if 0 <= i < cs.len() {
        cs[i].step(q)
    } else {
        None
    }
}

/// The node that takes the place of `c` when a key `k` leaves the fragment of
/// `c` after `n` bytes: it carries the first `n` bytes of `k`, and below them
/// what `c` carried, under the rest of its fragment, beside a leaf that holds
/// `v` under the rest of `k`.
pub open spec fn split_node<T>(c: NodeView<T>, n: int, k: Seq<u8>, v: T) -> NodeView<T> {
    NodeView {
        key: k.subrange(0, n),
        body: BodyView::Children(
            sorted_insert(
                seq![NodeView { key: c.key.subrange(n, c.key.len() as int), body: c.body }],
                NodeView::leaf(k.subrange(n, k.len() as int), v),
            ),
        ),
    }
}

/// The tree below `n` after `v` has been put under the rest `k` of a key,
/// the fragment of `n` itself being consumed already.
///
/// In a leaf, the empty rest replaces the value; any other rest makes the
/// leaf a parent of its old value, under the empty fragment, and of a new leaf.
/// In a node with children the child whose fragment starts like `k` decides.
/// If there is none, a new leaf goes to its place among the children. If
/// the fragment of that child is `k` or a prefix of `k`, the insertion goes on
/// below the child with what is left of `k`. Otherwise the child is split
/// where `k` leaves its fragment, and moves to its place among the children.
pub open spec fn tree_with<T>(n: NodeView<T>, k: Seq<u8>, v: T) -> NodeView<T>
    decreases n,
{
    match n.body {
        BodyView::Value(_) => if k.len() == 0 {
            NodeView::leaf(n.key, v)
        } else {
            with_children(n, sorted_insert(n.children(), NodeView::leaf(k, v)))
        },
        BodyView::Children(cs) => {
            let i = child_for(cs, k, 0);
            if 0 <= i < cs.len() {
                match classify(cs[i].key, k) {
                    Prefix::Exact => with_children(
                        n,
                        cs.update(i, tree_with(cs[i], Seq::empty(), v)),
                    ),
                    Prefix::Incomplete(m) => with_children(
                        n,
                        cs.update(i, tree_with(cs[i], k.skip(m as int), v)),
                    ),
                    Prefix::PerfectSubset(m) => with_children(
                        n,
                        sorted_insert(cs.remove(i), split_node(cs[i], m as int, k, v)),
                    ),
                    Prefix::Divergent(m) => with_children(
                        n,
                        sorted_insert(cs.remove(i), split_node(cs[i], m as int, k, v)),
                    ),
                    Prefix::NoMatch(_) => n,
                }
            } else {
                with_children(n, sorted_insert(cs, NodeView::leaf(k, v)))
            }
        },
    }
}

/// `new` holds `v` for `k`, and for every other key what `old` holds.
pub open spec fn inserted<T>(old: NodeView<T>, new: NodeView<T>, k: Seq<u8>, v: T) -> bool {
    forall|q: Seq<u8>| #[trigger]
        new.below(q) == if q == k {
            Some(v)
        } else {
            old.below(q)
        }
}

// ---------------------------------------------------------------------------
// The orders
// ---------------------------------------------------------------------------
/// Swapping the strings swaps `Less` and `Greater`.
pub proof fn lemma_lex_flip(a: Seq<u8>, b: Seq<u8>)
    ensures
        lex_order(a, b) == Order::Less <==> lex_order(b, a) == Order::Greater,
        lex_order(a, b) == Order::Equal <==> lex_order(b, a) == Order::Equal,
        lex_order(a, b) == Order::Equal <==> a == b,
    decreases a.len(),
{
    crate::lcp::lemma_lex_order_equal(a, b);
    crate::lcp::lemma_lex_order_equal(b, a);
    if a.len() > 0 && b.len() > 0 && a[0] == b[0] {
        lemma_lex_flip(a.skip(1), b.skip(1));
    }
}

/// The dictionary order is transitive.
pub proof fn lemma_lex_trans(a: Seq<u8>, b: Seq<u8>, c: Seq<u8>)
    requires
        lex_order(a, b) == Order::Less,
        lex_order(b, c) == Order::Less,
    ensures
        lex_order(a, c) == Order::Less,
    decreases a.len(),
{
    if a.len() > 0 && b.len() > 0 && c.len() > 0 && a[0] == b[0] && b[0] == c[0] {
        lemma_lex_trans(a.skip(1), b.skip(1), c.skip(1));
    }
}

/// Of two different fragments exactly one sorts before the other.
pub proof fn lemma_canon_total(a: Seq<u8>, b: Seq<u8>)
    ensures
        canon_order(a, b) == Order::Equal <==> a == b,
        canon_lt(a, b) <==> canon_order(b, a) == Order::Greater,
        a != b ==> (canon_lt(a, b) <==> !canon_lt(b, a)),
{
    lemma_lex_flip(a, b);
    lemma_lex_flip(b, a);
}

/// The canonical order is transitive.
pub proof fn lemma_canon_trans(a: Seq<u8>, b: Seq<u8>, c: Seq<u8>)
    requires
        canon_lt(a, b),
        canon_lt(b, c),
    ensures
        canon_lt(a, c),
{
    if a.len() == b.len() && b.len() == c.len() {
        lemma_lex_trans(a, b, c);
    }
}

/// What sorts before a fragment sorts before all that do not sort before
/// that fragment.
pub proof fn lemma_canon_lt_le(a: Seq<u8>, b: Seq<u8>, c: Seq<u8>)
    requires
        canon_lt(a, b),
        canon_le(b, c),
    ensures
        canon_lt(a, c),
{
    lemma_canon_total(b, c);
    if b != c {
        lemma_canon_trans(a, b, c);
    }
}

/// The canonical order, equal fragments included, is transitive, and of two
/// fragments one does not sort after the other.
pub proof fn lemma_canon_le(a: Seq<u8>, b: Seq<u8>, c: Seq<u8>)
    ensures
        canon_le(a, b) && canon_le(b, c) ==> canon_le(a, c),
        canon_le(a, b) <==> !canon_lt(b, a),
        canon_lt(a, b) ==> canon_le(a, b),
{
    lemma_canon_total(a, b);
    lemma_canon_total(b, a);
    lemma_canon_total(b, c);
    lemma_canon_total(a, c);
    lemma_canon_total(c, a);
    if canon_le(a, b) && canon_le(b, c) && a != b && b != c {
        lemma_canon_trans(a, b, c);
    }
}

/// In the canonical order nothing sorts after the empty fragment.
pub proof fn lemma_empty_sorts_last(a: Seq<u8>, b: Seq<u8>)
    requires
        b.len() == 0,
        a != b,
    ensures
        canon_lt(a, b),
{
    if a.len() == 0 {
        assert(a =~= b);
    }
}

// ---------------------------------------------------------------------------
// Classification against a key
// ---------------------------------------------------------------------------
/// What each outcome of the classification says in terms of `head` and
/// `is_prefix`.
pub proof fn lemma_classify(f: Seq<u8>, q: Seq<u8>)
    requires
        f.len() <= usize::MAX,
        q.len() <= usize::MAX,
    ensures
        classify(f, q) is NoMatch <==> head(f) != head(q),
        classify(f, q) is Exact <==> f == q,
        classify(f, q) matches Prefix::Incomplete(n) ==> n == f.len() && 0 < n < q.len()
            && is_prefix(f, q),
        classify(f, q) matches Prefix::PerfectSubset(n) ==> n == q.len() && 0 < n < f.len()
            && is_prefix(q, f),
        classify(f, q) matches Prefix::Divergent(n) ==> 0 < n < f.len() && n < q.len()
            && f.subrange(0, n as int) == q.subrange(0, n as int) && f[n as int] != q[n as int],
        classify(f, q) is Exact || classify(f, q) is Incomplete <==> head(f) == head(q)
            && is_prefix(f, q),
{
    lemma_common_len(f, q);
    let n = common_len(f, q) as int;
    if f.len() == 0 && q.len() == 0 {
        assert(f =~= q);
    }
    if f == q {
        assert(q.subrange(0, f.len() as int) =~= f);
    } else if n == f.len() {
        assert(f.subrange(0, n) =~= f);
        if n == q.len() {
            assert(q.subrange(0, n) =~= q);
        }
    } else if n == q.len() {
        assert(q.subrange(0, n) =~= q);
        if is_prefix(f, q) {
        }
    } else {
        if is_prefix(f, q) {
            assert(q.subrange(0, f.len() as int)[n] == q[n]);
        }
    }
    if is_prefix(f, q) && f.len() > 0 {
        assert(q.subrange(0, f.len() as int)[0] == q[0]);
    }
}

/// Fragments start alike exactly when they are both empty or share a
/// non-empty prefix.
pub proof fn lemma_head_share_prefix(a: Seq<u8>, b: Seq<u8>)
    ensures
        head(a) == head(b) <==> (a.len() == 0 && b.len() == 0) || share_prefix(a, b),
{
    crate::lcp::lemma_share_prefix(a, b);
}

// ---------------------------------------------------------------------------
// Positions
// ---------------------------------------------------------------------------
/// `insert_pos` is the first position, from `from` on, of a node that sorts
/// after `k`.
pub proof fn lemma_insert_pos<T>(cs: Seq<NodeView<T>>, k: Seq<u8>, from: int)
    requires
        0 <= from <= cs.len(),
    ensures
        from <= insert_pos(cs, k, from) <= cs.len(),
        forall|j: int| from <= j < insert_pos(cs, k, from) ==> !canon_lt(k, (#[trigger] cs[j]).key),
        insert_pos(cs, k, from) < cs.len() ==> canon_lt(k, cs[insert_pos(cs, k, from)].key),
    decreases cs.len() - from,
{
    if from < cs.len() && !canon_lt(k, cs[from].key) {
        lemma_insert_pos(cs, k, from + 1);
    }
}

/// `child_for` is the first position, from `from` on, of a node that starts
/// like `q`.
pub proof fn lemma_child_for<T>(cs: Seq<NodeView<T>>, q: Seq<u8>, from: int)
    requires
        0 <= from <= cs.len(),
    ensures
        from <= child_for(cs, q, from) <= cs.len(),
        forall|j: int|
            from <= j < child_for(cs, q, from) ==> head((#[trigger] cs[j]).key) != head(q),
        child_for(cs, q, from) < cs.len() ==> head(cs[child_for(cs, q, from)].key) == head(q),
    decreases cs.len() - from,
{
    if from < cs.len() && head(cs[from].key) != head(q) {
        lemma_child_for(cs, q, from + 1);
    }
}

/// Putting a node with a new fragment in at its place keeps the order.
pub proof fn lemma_sorted_insert<T>(cs: Seq<NodeView<T>>, n: NodeView<T>)
    requires
        sorted(cs),
        forall|i: int| 0 <= i < cs.len() ==> (#[trigger] cs[i]).key != n.key,
    ensures
        sorted(sorted_insert(cs, n)),
        sorted_insert(cs, n).len() == cs.len() + 1,
{
    let p = insert_pos(cs, n.key, 0);
    lemma_insert_pos(cs, n.key, 0);
    let r = sorted_insert(cs, n);
    assert forall|i: int, j: int| 0 <= i < j < r.len() implies canon_lt(
        (#[trigger] r[i]).key,
        (#[trigger] r[j]).key,
    ) by {
        if j < p {
            assert(r[i] == cs[i] && r[j] == cs[j]);
        } else if j == p {
            assert(r[i] == cs[i]);
            lemma_canon_total(n.key, cs[i].key);
        } else if i < p {
            assert(r[i] == cs[i] && r[j] == cs[j - 1]);
        } else if i == p {
            assert(r[j] == cs[j - 1]);
            if j - 1 > p {
                assert(canon_lt(cs[p].key, cs[j - 1].key));
                lemma_canon_trans(n.key, cs[p].key, cs[j - 1].key);
            }
        } else {
            assert(r[i] == cs[i - 1] && r[j] == cs[j - 1]);
        }
    }
}

/// Fragments that ascend strictly ascend.
pub proof fn lemma_sorted_is_ordered<T>(cs: Seq<NodeView<T>>)
    requires
        sorted(cs),
    ensures
        ordered(cs),
{
    assert forall|i: int, j: int| 0 <= i < j < cs.len() implies canon_le(
        (#[trigger] cs[i]).key,
        (#[trigger] cs[j]).key,
    ) by {
        lemma_canon_le(cs[i].key, cs[j].key, cs[j].key);
    }
}

/// Putting a node in at its place keeps a list in order.
pub proof fn lemma_sorted_insert_ordered<T>(cs: Seq<NodeView<T>>, n: NodeView<T>)
    requires
        ordered(cs),
    ensures
        ordered(sorted_insert(cs, n)),
        sorted_insert(cs, n).len() == cs.len() + 1,
{
    let p = insert_pos(cs, n.key, 0);
    lemma_insert_pos(cs, n.key, 0);
    let r = sorted_insert(cs, n);
    assert forall|i: int, j: int| 0 <= i < j < r.len() implies canon_le(
        (#[trigger] r[i]).key,
        (#[trigger] r[j]).key,
    ) by {
        if j < p {
            assert(r[i] == cs[i] && r[j] == cs[j]);
        } else if j == p {
            assert(r[i] == cs[i]);
            lemma_canon_le(cs[i].key, n.key, n.key);
        } else if i < p {
            assert(r[i] == cs[i] && r[j] == cs[j - 1]);
        } else if i == p {
            assert(r[j] == cs[j - 1]);
            if j - 1 > p {
                assert(canon_le(cs[p].key, cs[j - 1].key));
                lemma_canon_lt_le(n.key, cs[p].key, cs[j - 1].key);
            }
            lemma_canon_le(n.key, cs[j - 1].key, cs[j - 1].key);
        } else {
            assert(r[i] == cs[i - 1] && r[j] == cs[j - 1]);
        }
    }
}

/// Sorting gives a list in the canonical order that holds the same nodes, each
/// as often as before.
pub proof fn lemma_sort_all<T>(cs: Seq<NodeView<T>>)
    ensures
        ordered(sort_all(cs)),
        sort_all(cs).len() == cs.len(),
        sort_all(cs).to_multiset() == cs.to_multiset(),
    decreases cs.len(),
{
    if cs.len() > 0 {
        let before = cs.drop_last();
        lemma_sort_all(before);
        lemma_sorted_insert_ordered(sort_all(before), cs.last());
        lemma_insert_pos(sort_all(before), cs.last().key, 0);
        vstd::seq_lib::to_multiset_insert(
            sort_all(before),
            insert_pos(sort_all(before), cs.last().key, 0),
            cs.last(),
        );
        vstd::seq_lib::to_multiset_build(before, cs.last());
        assert(before.push(cs.last()) =~= cs);
    } else {
        assert(cs =~= Seq::<NodeView<T>>::empty());
    }
}

/// Sorting leaves a list that is in the canonical order as it is.
pub proof fn lemma_sort_all_same<T>(cs: Seq<NodeView<T>>)
    requires
        ordered(cs),
    ensures
        sort_all(cs) == cs,
    decreases cs.len(),
{
    if cs.len() > 0 {
        let before = cs.drop_last();
        let last = cs.last();
        assert forall|i: int, j: int| 0 <= i < j < before.len() implies canon_le(
            (#[trigger] before[i]).key,
            (#[trigger] before[j]).key,
        ) by {
            assert(before[i] == cs[i] && before[j] == cs[j]);
        }
        lemma_sort_all_same(before);
        lemma_insert_pos(before, last.key, 0);
        let p = insert_pos(before, last.key, 0);
        if p < before.len() {
            assert(before[p] == cs[p]);
            assert(canon_le(cs[p].key, cs[cs.len() - 1].key));
            lemma_canon_le(cs[p].key, last.key, last.key);
            assert(false);
        }
        assert(before.insert(p, last) =~= cs);
    } else {
        assert(sort_all(cs) =~= cs);
    }
}

/// Taking a node out keeps the order and the distinct starts.
pub proof fn lemma_remove_keeps<T>(cs: Seq<NodeView<T>>, i: int)
    requires
        0 <= i < cs.len(),
    ensures
        sorted(cs) ==> sorted(cs.remove(i)),
        heads_distinct(cs) ==> heads_distinct(cs.remove(i)),
        heads_distinct(cs) ==> forall|j: int|
            0 <= j < cs.remove(i).len() ==> head((#[trigger] cs.remove(i)[j]).key) != head(
                cs[i].key,
            ),
        forall|j: int|
            0 <= j < cs.remove(i).len() ==> (#[trigger] cs.remove(i)[j]) == cs[if j < i {
                j
            } else {
                j + 1
            }],
{
    let r = cs.remove(i);
    assert forall|j: int| 0 <= j < r.len() implies (#[trigger] r[j]) == cs[if j < i {
        j
    } else {
        j + 1
    }] by {}
    if sorted(cs) {
        assert forall|a: int, b: int| 0 <= a < b < r.len() implies canon_lt(
            (#[trigger] r[a]).key,
            (#[trigger] r[b]).key,
        ) by {
            let a2 = if a < i {
                a
            } else {
                a + 1
            };
            let b2 = if b < i {
                b
            } else {
                b + 1
            };
            assert(r[a] == cs[a2] && r[b] == cs[b2]);
        }
    }
    if heads_distinct(cs) {
        assert forall|a: int, b: int|
            0 <= a < r.len() && 0 <= b < r.len() && a != b implies head((#[trigger] r[a]).key)
            != head((#[trigger] r[b]).key) by {
            let a2 = if a < i {
                a
            } else {
                a + 1
            };
            let b2 = if b < i {
                b
            } else {
                b + 1
            };
            assert(r[a] == cs[a2] && r[b] == cs[b2]);
        }
        assert forall|j: int| 0 <= j < r.len() implies head((#[trigger] r[j]).key) != head(
            cs[i].key,
        ) by {
            let j2 = if j < i {
                j
            } else {
                j + 1
            };
            assert(r[j] == cs[j2]);
        }
    }
}

/// Putting in a node that starts like none of the others keeps the starts
/// distinct.
pub proof fn lemma_insert_keeps_heads<T>(cs: Seq<NodeView<T>>, p: int, n: NodeView<T>)
    requires
        0 <= p <= cs.len(),
        heads_distinct(cs),
        forall|i: int| 0 <= i < cs.len() ==> head((#[trigger] cs[i]).key) != head(n.key),
    ensures
        heads_distinct(cs.insert(p, n)),
{
    let r = cs.insert(p, n);
    assert forall|a: int, b: int|
        0 <= a < r.len() && 0 <= b < r.len() && a != b implies head((#[trigger] r[a]).key) != head(
        (#[trigger] r[b]).key,
    ) by {
        let a2 = if a < p {
            a
        } else {
            a - 1
        };
        let b2 = if b < p {
            b
        } else {
            b - 1
        };
        if a != p {
            assert(r[a] == cs[a2]);
        }
        if b != p {
            assert(r[b] == cs[b2]);
        }
    }
}

// ---------------------------------------------------------------------------
// Looking a key up among children
// ---------------------------------------------------------------------------
/// Among nodes with distinct starts, the one that starts like `q` decides
/// what is held for `q`.
pub proof fn lemma_lookup_at<T>(cs: Seq<NodeView<T>>, q: Seq<u8>, i: int)
    requires
        heads_distinct(cs),
        0 <= i < cs.len(),
        head(cs[i].key) == head(q),
    ensures
        child_for(cs, q, 0) == i,
        lookup(cs, q) == cs[i].step(q),
{
    lemma_child_for(cs, q, 0);
    let r = child_for(cs, q, 0);
    if r != i {
        assert(head(cs[r].key) == head(cs[i].key));
    }
}

/// Where no node starts like `q`, nothing is held for `q`.
pub proof fn lemma_lookup_none<T>(cs: Seq<NodeView<T>>, q: Seq<u8>)
    requires
        forall|i: int| 0 <= i < cs.len() ==> head((#[trigger] cs[i]).key) != head(q),
    ensures
        child_for(cs, q, 0) == cs.len(),
        lookup(cs, q) == None::<T>,
{
    lemma_child_for(cs, q, 0);
}

// ---------------------------------------------------------------------------
// Membership
// ---------------------------------------------------------------------------
/// The nodes of a list with one more put in are that one and the others.
pub proof fn lemma_insert_contains<T>(cs: Seq<NodeView<T>>, p: int, n: NodeView<T>)
    requires
        0 <= p <= cs.len(),
    ensures
        forall|c: NodeView<T>| #[trigger] cs.insert(p, n).contains(c) <==> c == n || cs.contains(c),
{
    let r = cs.insert(p, n);
    assert forall|c: NodeView<T>| #[trigger] r.contains(c) <==> c == n || cs.contains(c) by {
        if r.contains(c) {
            let j = choose|j: int| 0 <= j < r.len() && r[j] == c;
            if j < p {
                assert(cs[j] == c);
            } else if j > p {
                assert(cs[j - 1] == c);
            }
        }
        if c == n {
            assert(r[p] == c);
        }
        if cs.contains(c) {
            let j = choose|j: int| 0 <= j < cs.len() && cs[j] == c;
            if j < p {
                assert(r[j] == c);
            } else {
                assert(r[j + 1] == c);
            }
        }
    }
}

/// The nodes of a list are the one at `i` and those that are left when it is
/// taken out.
pub proof fn lemma_remove_contains<T>(cs: Seq<NodeView<T>>, i: int)
    requires
        0 <= i < cs.len(),
    ensures
        forall|c: NodeView<T>| #[trigger]
            cs.contains(c) <==> c == cs[i] || cs.remove(i).contains(c),
{
    let r = cs.remove(i);
    assert forall|c: NodeView<T>| #[trigger] cs.contains(c) <==> c == cs[i] || r.contains(c) by {
        if cs.contains(c) {
            let j = choose|j: int| 0 <= j < cs.len() && cs[j] == c;
            if j < i {
                assert(r[j] == c);
            } else if j > i {
                assert(r[j - 1] == c);
            }
        }
        if r.contains(c) {
            let j = choose|j: int| 0 <= j < r.len() && r[j] == c;
            if j < i {
                assert(cs[j] == c);
            } else {
                assert(cs[j + 1] == c);
            }
        }
    }
}

/// Two lists with distinct starts that have the same nodes starting like `q`
/// hold the same for `q`.
pub proof fn lemma_lookup_same<T>(cs: Seq<NodeView<T>>, ds: Seq<NodeView<T>>, q: Seq<u8>)
    requires
        heads_distinct(cs),
        heads_distinct(ds),
        forall|c: NodeView<T>|
            head(c.key) == head(q) ==> (#[trigger] cs.contains(c) <==> ds.contains(c)),
    ensures
        lookup(cs, q) == lookup(ds, q),
{
    lemma_child_for(cs, q, 0);
    lemma_child_for(ds, q, 0);
    let r = child_for(cs, q, 0);
    let s = child_for(ds, q, 0);
    if r < cs.len() {
        assert(cs.contains(cs[r]));
        assert(ds.contains(cs[r]));
        let j = choose|j: int| 0 <= j < ds.len() && ds[j] == cs[r];
        lemma_lookup_at(ds, q, j);
    } else if s < ds.len() {
        assert(ds.contains(ds[s]));
        assert(cs.contains(ds[s]));
        let j = choose|j: int| 0 <= j < cs.len() && cs[j] == ds[s];
        assert(head(cs[j].key) == head(q));
    }
}

/// What a node holds is what is held among its children, a leaf counting as
/// a node with one child.
pub proof fn lemma_below_is_lookup<T>(n: NodeView<T>, q: Seq<u8>)
    ensures
        n.below(q) == lookup(n.children(), q),
{
    match n.body {
        BodyView::Children(cs) => {},
        BodyView::Value(v) => {
            let cs = n.children();
            let e = Seq::<u8>::empty();
            assert(cs[0].key == e);
            if q.len() == 0 {
                assert(child_for(cs, q, 0) == 0);
                assert(q.subrange(0, 0) =~= e);
                assert(q.skip(0) =~= q);
            } else {
                assert(child_for(cs, q, 1) == 1);
                assert(child_for(cs, q, 0) == 1);
            }
        },
    }
}

/// A key that starts with `p` is `p` followed by the rest.
pub proof fn lemma_prefix_rest(p: Seq<u8>, a: Seq<u8>, b: Seq<u8>)
    requires
        is_prefix(p, a),
        is_prefix(p, b),
    ensures
        a == b <==> a.skip(p.len() as int) == b.skip(p.len() as int),
        a == p + a.skip(p.len() as int),
{
    let m = p.len() as int;
    assert(a =~= a.subrange(0, m) + a.skip(m));
    assert(b =~= b.subrange(0, m) + b.skip(m));
}

// ---------------------------------------------------------------------------
// The cases of an insertion
// ---------------------------------------------------------------------------
/// A node whose children are the list `cs`.
pub open spec fn with_children<T>(n: NodeView<T>, cs: Seq<NodeView<T>>) -> NodeView<T> {
    NodeView { key: n.key, body: BodyView::Children(cs) }
}

/// The children of a well-formed node are in order, start differently, and
/// may each stand as a child.
pub proof fn lemma_children_wf<T>(n: NodeView<T>)
    requires
        n.wf(),
    ensures
        sorted(n.children()),
        heads_distinct(n.children()),
        parents_named(n.children()),
        forall|i: int| 0 <= i < n.children().len() ==> (#[trigger] n.children()[i]).child_ok(),
{
    match n.body {
        BodyView::Children(cs) => {
            assert forall|i: int| 0 <= i < cs.len() implies (#[trigger] cs[i]).child_ok() by {
                assert(cs[i].wf());
            }
            assert forall|i: int| 0 <= i < cs.len() && (#[trigger] cs[i]).body
                is Children implies cs[i].key.len() > 0 by {
                assert(cs[i].wf());
            }
        },
        BodyView::Value(v) => {},
    }
}

/// A list that is in order, starts differently and holds only nodes that may
/// stand as children makes a well-formed node.
pub proof fn lemma_wf_from_children<T>(n: NodeView<T>, cs: Seq<NodeView<T>>)
    requires
        sorted(cs),
        heads_distinct(cs),
        forall|i: int| 0 <= i < cs.len() ==> (#[trigger] cs[i]).child_ok(),
    ensures
        with_children(n, cs).wf(),
{
    assert forall|i: int| 0 <= i < cs.len() implies {
        &&& (#[trigger] cs[i]).wf()
        &&& cs[i].body matches BodyView::Children(gs) ==> cs[i].key.len() > 0 && gs.len() > 0
    } by {
        assert(cs[i].child_ok());
    }
}

/// No child starts like the key: the key goes in as a new leaf.
pub proof fn lemma_insert_leaf<T>(n: NodeView<T>, k: Seq<u8>, v: T)
    requires
        n.wf(),
        forall|i: int| 0 <= i < n.children().len() ==> head((#[trigger] n.children()[i]).key)
            != head(k),
    ensures
        with_children(n, sorted_insert(n.children(), NodeView::leaf(k, v))).wf(),
        inserted(n, with_children(n, sorted_insert(n.children(), NodeView::leaf(k, v))), k, v),
{
    let cs = n.children();
    let lf = NodeView::leaf(k, v);
    let p = insert_pos(cs, k, 0);
    let ds = sorted_insert(cs, lf);
    let m = with_children(n, ds);
    lemma_children_wf(n);
    lemma_insert_pos(cs, k, 0);
    lemma_sorted_insert(cs, lf);
    lemma_insert_keeps_heads(cs, p, lf);
    lemma_insert_contains(cs, p, lf);
    assert forall|i: int| 0 <= i < ds.len() implies (#[trigger] ds[i]).child_ok() by {
        if i < p {
            assert(ds[i] == cs[i]);
        } else if i > p {
            assert(ds[i] == cs[i - 1]);
        }
    }
    lemma_wf_from_children(n, ds);
    assert forall|q: Seq<u8>| #[trigger] m.below(q) == if q == k {
        Some(v)
    } else {
        n.below(q)
    } by {
        lemma_below_is_lookup(n, q);
        if head(q) == head(k) {
            lemma_lookup_at(ds, q, p);
            lemma_lookup_none(cs, q);
            if is_prefix(k, q) && q.len() == k.len() {
                assert(q.subrange(0, k.len() as int) =~= q);
            }
            if q == k {
                assert(q.subrange(0, k.len() as int) =~= q);
            }
        } else {
            lemma_lookup_same(cs, ds, q);
        }
    }
}

/// The key goes on below the child at `i`: the child is replaced by one with
/// the same fragment that holds the rest of the key as well.
pub proof fn lemma_update_child<T>(n: NodeView<T>, i: int, c: NodeView<T>, k: Seq<u8>, v: T)
    requires
        n.wf(),
        0 <= i < n.children().len(),
        c.key == n.children()[i].key,
        c.child_ok(),
        is_prefix(c.key, k),
        head(c.key) == head(k),
        inserted(n.children()[i], c, k.skip(c.key.len() as int), v),
    ensures
        with_children(n, n.children().update(i, c)).wf(),
        inserted(n, with_children(n, n.children().update(i, c)), k, v),
{
    let cs = n.children();
    let ds = cs.update(i, c);
    let m = with_children(n, ds);
    let l = c.key.len() as int;
    lemma_children_wf(n);
    assert forall|a: int, b: int| 0 <= a < b < ds.len() implies canon_lt(
        (#[trigger] ds[a]).key,
        (#[trigger] ds[b]).key,
    ) by {
        assert(ds[a].key == cs[a].key && ds[b].key == cs[b].key);
    }
    assert forall|a: int, b: int|
        0 <= a < ds.len() && 0 <= b < ds.len() && a != b implies head((#[trigger] ds[a]).key)
        != head((#[trigger] ds[b]).key) by {
        assert(ds[a].key == cs[a].key && ds[b].key == cs[b].key);
    }
    assert forall|j: int| 0 <= j < ds.len() implies (#[trigger] ds[j]).child_ok() by {
        if j != i {
            assert(ds[j] == cs[j]);
        }
    }
    lemma_wf_from_children(n, ds);
    assert forall|q: Seq<u8>| #[trigger] m.below(q) == if q == k {
        Some(v)
    } else {
        n.below(q)
    } by {
        lemma_below_is_lookup(n, q);
        if head(q) == head(k) {
            lemma_lookup_at(ds, q, i);
            lemma_lookup_at(cs, q, i);
            if is_prefix(c.key, q) {
                lemma_prefix_rest(c.key, q, k);
                assert(c.below(q.skip(l)) == if q.skip(l) == k.skip(l) {
                    Some(v)
                } else {
                    cs[i].below(q.skip(l))
                });
            }
        } else {
            lemma_child_for(cs, q, 0);
            lemma_child_for(ds, q, 0);
            let r = child_for(cs, q, 0);
            if r < cs.len() {
                assert(ds[r] == cs[r]);
                lemma_lookup_at(cs, q, r);
                lemma_lookup_at(ds, q, r);
            } else {
                assert forall|j: int| 0 <= j < ds.len() implies head((#[trigger] ds[j]).key)
                    != head(q) by {
                    assert(ds[j].key == cs[j].key);
                }
                lemma_lookup_none(ds, q);
            }
        }
    }
}

/// The key leaves the fragment of the child at `i` after `s` bytes: the child
/// is split there.
pub proof fn lemma_split<T>(n: NodeView<T>, i: int, s: int, k: Seq<u8>, v: T)
    requires
        n.wf(),
        n.body is Children,
        0 <= i < n.children().len(),
        0 < s <= k.len(),
        s < n.children()[i].key.len(),
        n.children()[i].key.subrange(0, s) == k.subrange(0, s),
        s == k.len() || n.children()[i].key[s] != k[s],
    ensures
        with_children(
            n,
            sorted_insert(n.children().remove(i), split_node(n.children()[i], s, k, v)),
        ).wf(),
        inserted(
            n,
            with_children(
                n,
                sorted_insert(n.children().remove(i), split_node(n.children()[i], s, k, v)),
            ),
            k,
            v,
        ),
{
    let cs = n.children();
    let c = cs[i];
    let es = cs.remove(i);
    let sp = split_node(c, s, k, v);
    let p = insert_pos(es, sp.key, 0);
    let ds = sorted_insert(es, sp);
    let m = with_children(n, ds);
    let tail = NodeView { key: c.key.subrange(s, c.key.len() as int), body: c.body };
    let lf = NodeView::leaf(k.subrange(s, k.len() as int), v);
    let one = seq![tail];
    let leaf_at = insert_pos(one, lf.key, 0);
    let pair = sorted_insert(one, lf);
    lemma_children_wf(n);
    assert(c.child_ok());
    // the two nodes below the split
    assert(tail.key[0] == c.key[s]);
    if s < k.len() {
        assert(lf.key[0] == k[s]);
    }
    assert(head(tail.key) != head(lf.key));
    lemma_insert_pos(one, lf.key, 0);
    lemma_sorted_insert(one, lf);
    lemma_insert_keeps_heads(one, leaf_at, lf);
    assert(tail.wf() == c.wf());
    assert(pair.len() == 2);
    let it = if leaf_at == 0 {
        1int
    } else {
        0int
    };
    assert(pair[leaf_at] == lf);
    assert(pair[it] == tail);
    assert forall|j: int| 0 <= j < pair.len() implies (#[trigger] pair[j]).child_ok() by {
        if j == leaf_at {
        } else {
            assert(j == it);
        }
    }
    lemma_wf_from_children(sp, pair);
    assert(with_children(sp, pair) == sp);
    assert(sp.child_ok());
    // the children around the split
    assert(k.subrange(0, s)[0] == k[0]);
    assert(c.key.subrange(0, s)[0] == c.key[0]);
    assert(head(sp.key) == head(c.key));
    assert(head(sp.key) == head(k));
    lemma_remove_keeps(cs, i);
    lemma_remove_contains(cs, i);
    lemma_insert_pos(es, sp.key, 0);
    lemma_sorted_insert(es, sp);
    lemma_insert_keeps_heads(es, p, sp);
    lemma_insert_contains(es, p, sp);
    assert forall|j: int| 0 <= j < ds.len() implies (#[trigger] ds[j]).child_ok() by {
        if j < p {
            assert(ds[j] == es[j]);
            assert(cs.contains(es[j]));
        } else if j > p {
            assert(ds[j] == es[j - 1]);
        }
    }
    lemma_wf_from_children(n, ds);
    assert forall|q: Seq<u8>| #[trigger] m.below(q) == if q == k {
        Some(v)
    } else {
        n.below(q)
    } by {
        if head(q) == head(k) {
            lemma_lookup_at(ds, q, p);
            lemma_lookup_at(cs, q, i);
            assert(m.below(q) == sp.step(q));
            assert(n.below(q) == c.step(q));
            let r = q.skip(s);
            if is_prefix(sp.key, q) {
                assert(q.subrange(0, s) == k.subrange(0, s));
                assert(sp.below(r) == lookup(pair, r));
                if is_prefix(c.key, q) {
                    assert(q.subrange(0, c.key.len() as int)[s] == q[s]);
                    assert(r[0] == q[s]);
                    assert(head(r) == head(tail.key));
                    lemma_lookup_at(pair, r, it);
                    assert(r.subrange(0, tail.key.len() as int) =~= tail.key);
                    assert(r.skip(tail.key.len() as int) =~= q.skip(c.key.len() as int));
                    assert(tail.below(r.skip(tail.key.len() as int)) == c.below(
                        q.skip(c.key.len() as int),
                    ));
                    if q == k {
                        assert(false);
                    }
                } else if head(r) == head(tail.key) {
                    lemma_lookup_at(pair, r, it);
                    if is_prefix(tail.key, r) {
                        assert(q.subrange(0, c.key.len() as int) =~= c.key.subrange(0, s)
                            + r.subrange(0, tail.key.len() as int));
                        assert(c.key =~= c.key.subrange(0, s) + tail.key);
                        assert(false);
                    }
                    if q == k {
                        assert(r =~= lf.key);
                        assert(false);
                    }
                } else if head(r) == head(lf.key) {
                    lemma_lookup_at(pair, r, leaf_at);
                    assert(k =~= k.subrange(0, s) + lf.key);
                    assert(q =~= q.subrange(0, s) + r);
                    if is_prefix(lf.key, r) && r.len() == lf.key.len() {
                        assert(r.subrange(0, lf.key.len() as int) =~= r);
                    }
                    if q == k {
                        assert(r =~= lf.key);
                        assert(r.subrange(0, lf.key.len() as int) =~= r);
                    }
                } else {
                    assert forall|j: int| 0 <= j < pair.len() implies head(
                        (#[trigger] pair[j]).key,
                    ) != head(r) by {
                        if j != leaf_at {
                            assert(j == it);
                        }
                    }
                    lemma_lookup_none(pair, r);
                    if q == k {
                        assert(r =~= lf.key);
                    }
                }
            } else {
                if is_prefix(c.key, q) {
                    assert(q.subrange(0, s) =~= q.subrange(0, c.key.len() as int).subrange(0, s));
                    assert(false);
                }
                if q == k {
                    assert(false);
                }
            }
        } else {
            lemma_lookup_same(cs, ds, q);
        }
    }
}

// ---------------------------------------------------------------------------
// What a well-formed tree holds
// ---------------------------------------------------------------------------
/// In a well-formed tree a key has a value exactly when a path of fragments
/// spells the key and ends in a leaf with that value.
pub proof fn lemma_below_iff_path<T>(n: NodeView<T>, q: Seq<u8>, v: T)
    requires
        n.wf(),
    ensures
        n.below(q) == Some(v) <==> n.has_path(q, v),
    decreases n,
{
    match n.body {
        BodyView::Value(x) => {},
        BodyView::Children(cs) => {
            lemma_child_for(cs, q, 0);
            let i = child_for(cs, q, 0);
            if n.below(q) == Some(v) {
                assert(cs[i].wf());
                lemma_below_iff_path(cs[i], q.skip(cs[i].key.len() as int), v);
            }
            if n.has_path(q, v) {
                let j = choose|j: int|
                    0 <= j < cs.len() && is_prefix((#[trigger] cs[j]).key, q) && cs[j].has_path(
                        q.skip(cs[j].key.len() as int),
                        v,
                    );
                assert(cs[j].wf());
                lemma_below_iff_path(cs[j], q.skip(cs[j].key.len() as int), v);
                if cs[j].key.len() > 0 {
                    assert(q.subrange(0, cs[j].key.len() as int)[0] == q[0]);
                } else {
                    assert(cs[j].body is Value);
                    assert(q.skip(0) =~= q);
                }
                lemma_lookup_at(cs, q, j);
            }
        },
    }
}

/// The node reached from `n` by going to the child at `path[0]`, from there
/// to the child at `path[1]`, and so on; `None` where a step leaves the tree.
pub open spec fn descendant<T>(n: NodeView<T>, path: Seq<int>) -> Option<NodeView<T>>
    decreases path.len(),
{
    if path.len() == 0 {
        Some(n)
    } else {
        match n.body {
            BodyView::Value(_) => None,
            BodyView::Children(cs) => if 0 <= path[0] < cs.len() {
                descendant(cs[path[0]], path.skip(1))
            } else {
                None
            },
        }
    }
}

/// At every node of a well-formed tree the children stand in the canonical
/// order: of two children the one that stands first sorts first.
pub proof fn lemma_children_ordered<T>(n: NodeView<T>, path: Seq<int>, i: int, j: int)
    requires
        n.wf(),
        descendant(n, path) matches Some(d) && d.body matches BodyView::Children(cs) && 0 <= i < j
            < cs.len(),
    ensures
        descendant(n, path) matches Some(d) && d.body matches BodyView::Children(cs) && canon_lt(
            cs[i].key,
            cs[j].key,
        ),
    decreases path.len(),
{
    if path.len() > 0 {
        let cs = n.body->Children_0;
        assert(cs[path[0]].wf());
        lemma_children_ordered(cs[path[0]], path.skip(1), i, j);
    }
}

/// At no node of a well-formed tree do two children share a non-empty prefix
/// of their fragments.
pub proof fn lemma_children_share_no_prefix<T>(n: NodeView<T>, path: Seq<int>, i: int, j: int)
    requires
        n.wf(),
        descendant(n, path) matches Some(d) && d.body matches BodyView::Children(cs) && 0 <= i
            < cs.len() && 0 <= j < cs.len() && i != j,
    ensures
        descendant(n, path) matches Some(d) && d.body matches BodyView::Children(cs)
            && !share_prefix(cs[i].key, cs[j].key),
    decreases path.len(),
{
    if path.len() > 0 {
        let cs = n.body->Children_0;
        assert(cs[path[0]].wf());
        lemma_children_share_no_prefix(cs[path[0]], path.skip(1), i, j);
    } else {
        let cs = n.body->Children_0;
        lemma_head_share_prefix(cs[i].key, cs[j].key);
    }
}

} // verus!
