//! The single pass of the writer as a function of its state, and the proof
//! that the pass over the nodes of a trie leaves the bytes of the layout.

use vstd::prelude::*;
use crate::format::lemma_record_len;
use crate::layout::{
    after_run, child_len, child_record, emit, keys_fit, lemma_child_record_len,
    lemma_record_bytes_len, lemma_run_bytes_len, lemma_run_len_monotonic, lemma_written_end,
    lemma_written_leaf, lemma_written_node, lemma_written_start, offsets_fit, offsets_so_far,
    run_bytes, run_len, subtrees_size, terminator, values_fit, written_so_far,
};
use crate::model::{
    head, heads_distinct, is_prefix, lemma_children_wf, parents_named, BodyView, NodeView,
};
use crate::traverse::{raw_below, raw_of, raw_run, RawView};
use crate::{le_bytes, lemma_le_bytes_len, limit, valid_width, Integer};

verus! {

/// What the writer holds between two nodes.
pub struct StreamState {
    /// The bytes written so far.
    pub bytes: Seq<u8>,
    /// For each node with children whose run has not begun: the key that
    /// leads to it, and the offset of its record.
    pub pending: Map<Seq<u8>, nat>,
    /// The key that leads to the parent of the run that is being written.
    pub current: Seq<u8>,
    /// Every offset patched in so far fits the width.
    pub fits: bool,
}

/// `bytes` with `field` written over what stood from `at` on.
pub open spec fn patch(bytes: Seq<u8>, at: nat, field: Seq<u8>) -> Seq<u8> {
    bytes.subrange(0, at as int) + field + bytes.subrange(
        (at + field.len()) as int,
        bytes.len() as int,
    )
}

/// The state when a node below `parent` is about to be written. Where the
/// last node had another parent, a run has ended and gets its last record.
/// Where the record of `parent` still waits for the offset of its children,
/// it gets the current offset.
pub open spec fn enter(s: StreamState, parent: Seq<u8>, w: nat) -> StreamState {
    let bytes = if parent != s.current {
        s.bytes + terminator(w)
    } else {
        s.bytes
    };
    if s.pending.contains_key(parent) {
        StreamState {
            bytes: patch(bytes, s.pending[parent], le_bytes(bytes.len(), w)),
            pending: s.pending.remove(parent),
            current: parent,
            fits: s.fits && bytes.len() + 1 < limit(w),
        }
    } else {
        StreamState { bytes, pending: s.pending, current: parent, fits: s.fits }
    }
}

/// The state when the record of a node has been written: a node with
/// children holds zero for now and waits for the offset of its children.
pub open spec fn put<T: Integer>(s: StreamState, e: RawView<T>, w: nat) -> StreamState {
    StreamState {
        bytes: s.bytes + child_record(e.node, w, 0),
        pending: if e.node.body is Children {
            s.pending.insert(e.parent_path + e.node.key, s.bytes.len())
        } else {
            s.pending
        },
        current: s.current,
        fits: s.fits,
    }
}

/// The state after one more node.
pub open spec fn step<T: Integer>(s: StreamState, e: RawView<T>, w: nat) -> StreamState {
    put(enter(s, e.parent_path, w), e, w)
}

/// The state after the first `upto` nodes of `es`.
pub open spec fn stream<T: Integer>(
    s: StreamState,
    es: Seq<RawView<T>>,
    w: nat,
    upto: int,
) -> StreamState
    decreases upto,
{
    if upto <= 0 {
        s
    } else {
        step(stream(s, es, w, upto - 1), es[upto - 1], w)
    }
}

/// Every record that waits for an offset lies within the bytes written.
pub open spec fn pending_valid(s: StreamState, w: nat) -> bool {
    forall|k: Seq<u8>| #[trigger] s.pending.contains_key(k) ==> s.pending[k] + w <= s.bytes.len()
}

/// The offsets of the runs below the first `upto` nodes of `cs` fit.
pub open spec fn offsets_fit_upto<T>(cs: Seq<NodeView<T>>, w: nat, first: nat, upto: int) -> bool {
    forall|i: int|
        0 <= i < upto && i < cs.len() && (#[trigger] cs[i]).body is Children ==> {
            &&& first + subtrees_size(cs, w, i) + 1 < limit(w)
            &&& offsets_fit(cs[i], w, first + subtrees_size(cs, w, i))
        }
}

/// The records that wait for an offset after the records of the nodes of
/// `cs` from `from` up to `upto` have been written from the offset `b` on,
/// `base` being those that waited before.
pub open spec fn pend<T>(
    base: Map<Seq<u8>, nat>,
    cs: Seq<NodeView<T>>,
    p: Seq<u8>,
    b: nat,
    w: nat,
    from: int,
    upto: int,
) -> Map<Seq<u8>, nat>
    decreases upto - from,
{
    if upto <= from {
        base
    } else {
        let m = pend(base, cs, p, b, w, from, upto - 1);
        if cs[upto - 1].body is Children {
            m.insert(p + cs[upto - 1].key, b + run_len(cs, w, upto - 1))
        } else {
            m
        }
    }
}

// ---------------------------------------------------------------------------
// Steps
// ---------------------------------------------------------------------------
/// Patching keeps the length.
pub proof fn lemma_patch_len(bytes: Seq<u8>, at: nat, field: Seq<u8>)
    requires
        at + field.len() <= bytes.len(),
    ensures
        patch(bytes, at, field).len() == bytes.len(),
{
}

/// A patch that lies within the first of two parts patches that part.
pub proof fn lemma_patch_front(a: Seq<u8>, b: Seq<u8>, at: nat, field: Seq<u8>)
    requires
        at + field.len() <= a.len(),
    ensures
        patch(a + b, at, field) == patch(a, at, field) + b,
{
    assert(patch(a + b, at, field) =~= patch(a, at, field) + b);
}

/// A patch that lies within the second of two parts patches that part.
pub proof fn lemma_patch_back(a: Seq<u8>, b: Seq<u8>, at: nat, field: Seq<u8>)
    requires
        at + field.len() <= b.len(),
    ensures
        patch(a + b, a.len() + at, field) == a + patch(b, at, field),
{
    assert(patch(a + b, a.len() + at, field) =~= a + patch(b, at, field));
}

/// Entering the run of a parent a second time changes nothing.
pub proof fn lemma_enter_again(s: StreamState, p: Seq<u8>, w: nat)
    ensures
        enter(s, p, w).current == p,
        !enter(s, p, w).pending.contains_key(p),
        enter(enter(s, p, w), p, w) == enter(s, p, w),
{
}

/// The first node of a list may be entered beforehand.
pub proof fn lemma_stream_enter<T: Integer>(s: StreamState, es: Seq<RawView<T>>, w: nat, upto: int)
    requires
        1 <= upto <= es.len(),
    ensures
        stream(s, es, w, upto) == stream(enter(s, es[0].parent_path, w), es, w, upto),
    decreases upto,
{
    let p = es[0].parent_path;
    lemma_enter_again(s, p, w);
    if upto == 1 {
        assert(stream(s, es, w, 0) == s);
        assert(stream(enter(s, p, w), es, w, 0) == enter(s, p, w));
    } else {
        lemma_stream_enter(s, es, w, upto - 1);
    }
}

/// The nodes of the second of two lists are met in the state that the first
/// list leaves.
pub proof fn lemma_stream_concat<T: Integer>(
    s: StreamState,
    a: Seq<RawView<T>>,
    b: Seq<RawView<T>>,
    w: nat,
    k: int,
)
    requires
        0 <= k <= b.len(),
    ensures
        stream(s, a + b, w, a.len() + k) == stream(stream(s, a, w, a.len() as int), b, w, k),
    decreases k,
{
    if k == 0 {
        lemma_stream_front(s, a, b, w, a.len() as int);
    } else {
        lemma_stream_concat(s, a, b, w, k - 1);
        assert((a + b)[a.len() + k - 1] == b[k - 1]);
    }
}

/// The nodes of the first of two lists are met as if the second were not
/// there.
pub proof fn lemma_stream_front<T: Integer>(
    s: StreamState,
    a: Seq<RawView<T>>,
    b: Seq<RawView<T>>,
    w: nat,
    k: int,
)
    requires
        0 <= k <= a.len(),
    ensures
        stream(s, a + b, w, k) == stream(s, a, w, k),
    decreases k,
{
    if k > 0 {
        lemma_stream_front(s, a, b, w, k - 1);
        assert((a + b)[k - 1] == a[k - 1]);
    }
}

/// A step keeps the waiting records within the bytes written.
pub proof fn lemma_step_valid<T: Integer>(s: StreamState, e: RawView<T>, w: nat)
    requires
        valid_width(w),
        pending_valid(s, w),
    ensures
        pending_valid(step(s, e, w), w),
        step(s, e, w).bytes.len() > enter(s, e.parent_path, w).bytes.len() + w,
        enter(s, e.parent_path, w).bytes.len() >= s.bytes.len(),
{
    let s1 = enter(s, e.parent_path, w);
    let s2 = step(s, e, w);
    lemma_child_record_len(e.node, w, 0);
    lemma_record_len(w, e.node.body is Value, e.node.key.len());
    lemma_record_bytes_len(w, 0, None, Seq::empty());
    let grown = if e.parent_path != s.current {
        s.bytes + terminator(w)
    } else {
        s.bytes
    };
    if s.pending.contains_key(e.parent_path) {
        lemma_le_bytes_len(grown.len(), w);
        lemma_patch_len(grown, s.pending[e.parent_path], le_bytes(grown.len(), w));
    }
    assert forall|k: Seq<u8>| #[trigger] s1.pending.contains_key(k) implies s1.pending[k] + w
        <= s1.bytes.len() by {
        assert(s.pending.contains_key(k));
    }
    assert forall|k: Seq<u8>| #[trigger] s2.pending.contains_key(k) implies s2.pending[k] + w
        <= s2.bytes.len() by {
        if e.node.body is Children && k == e.parent_path + e.node.key {
        } else {
            assert(s1.pending.contains_key(k));
        }
    }
}

/// The waiting records stay within the bytes written.
pub proof fn lemma_stream_valid<T: Integer>(s: StreamState, es: Seq<RawView<T>>, w: nat, upto: int)
    requires
        valid_width(w),
        pending_valid(s, w),
        0 <= upto <= es.len(),
    ensures
        pending_valid(stream(s, es, w, upto), w),
    decreases upto,
{
    if upto > 0 {
        lemma_stream_valid(s, es, w, upto - 1);
        lemma_step_valid(stream(s, es, w, upto - 1), es[upto - 1], w);
    }
}

/// An offset that does not fit is not forgotten.
pub proof fn lemma_fits_monotonic<T: Integer>(
    s: StreamState,
    es: Seq<RawView<T>>,
    w: nat,
    i: int,
    j: int,
)
    requires
        0 <= i <= j,
    ensures
        stream(s, es, w, j).fits ==> stream(s, es, w, i).fits,
    decreases j - i,
{
    if i < j {
        lemma_fits_monotonic(s, es, w, i, j - 1);
    }
}

// ---------------------------------------------------------------------------
// Keys
// ---------------------------------------------------------------------------
/// What follows a common start decides whether two keys are the same, and
/// whether one starts with the other.
pub proof fn lemma_same_start(p: Seq<u8>, a: Seq<u8>, b: Seq<u8>)
    ensures
        p + a == p + b <==> a == b,
        is_prefix(p + a, p + b) <==> is_prefix(a, b),
        is_prefix(p, p + a),
        is_prefix(p + a, b) ==> is_prefix(p, b),
        a.len() > 0 ==> p + a != p,
{
    let l = p.len() as int;
    assert((p + a).skip(l) =~= a);
    assert((p + b).skip(l) =~= b);
    assert((p + a).subrange(0, l) =~= p);
    if is_prefix(p + a, p + b) {
        assert(b.subrange(0, a.len() as int) =~= (p + b).subrange(0, l + a.len()).skip(l));
    }
    if is_prefix(a, b) {
        assert((p + b).subrange(0, l + a.len()) =~= p + b.subrange(0, a.len() as int));
    }
    if is_prefix(p + a, b) {
        assert(b.subrange(0, l) =~= b.subrange(0, l + a.len()).subrange(0, l));
    }
}

/// Fragments one of which starts with the other start alike, unless the one
/// is empty.
pub proof fn lemma_prefix_head(a: Seq<u8>, b: Seq<u8>)
    requires
        is_prefix(a, b),
        a.len() > 0,
    ensures
        head(a) == head(b),
{
    assert(b.subrange(0, a.len() as int)[0] == b[0]);
}

// ---------------------------------------------------------------------------
// Waiting records
// ---------------------------------------------------------------------------
/// What waits among the nodes from `from` on: the records that waited
/// before keep their offsets, the node at `from` waits at its offset, and no
/// key that waits goes on from the key of the node at `from`.
pub proof fn lemma_pend<T>(
    base: Map<Seq<u8>, nat>,
    cs: Seq<NodeView<T>>,
    p: Seq<u8>,
    b: nat,
    w: nat,
    from: int,
    upto: int,
)
    requires
        0 <= from <= upto <= cs.len(),
        heads_distinct(cs),
        parents_named(cs),
        forall|k: Seq<u8>| #[trigger] base.contains_key(k) ==> !is_prefix(p, k),
    ensures
        !pend(base, cs, p, b, w, from, upto).contains_key(p),
        forall|k: Seq<u8>|
            #[trigger] pend(base, cs, p, b, w, from, upto).contains_key(k) ==> is_prefix(p, k)
                || base.contains_key(k),
        forall|k: Seq<u8>| #[trigger]
            base.contains_key(k) ==> pend(base, cs, p, b, w, from, upto).contains_key(k) && pend(
                base,
                cs,
                p,
                b,
                w,
                from,
                upto,
            )[k] == base[k],
        forall|i: int, k: Seq<u8>|
            0 <= i < cs.len() && (#[trigger] cs[i]).body is Children && #[trigger] pend(
                base,
                cs,
                p,
                b,
                w,
                from,
                upto,
            ).contains_key(k) && is_prefix(p + cs[i].key, k) ==> k == p + cs[i].key && from <= i
                < upto,
        from < upto && cs[from].body is Children ==> pend(
            base,
            cs,
            p,
            b,
            w,
            from,
            upto,
        ).contains_key(p + cs[from].key) && pend(base, cs, p, b, w, from, upto)[p + cs[from].key]
            == b + run_len(cs, w, from),
        from < upto && cs[from].body is Children ==> pend(base, cs, p, b, w, from, upto).remove(
            p + cs[from].key,
        ) == pend(base, cs, p, b, w, from + 1, upto),
        from < upto && cs[from].body is Value ==> pend(base, cs, p, b, w, from, upto) == pend(
            base,
            cs,
            p,
            b,
            w,
            from + 1,
            upto,
        ),
    decreases upto - from,
{
    let m = pend(base, cs, p, b, w, from, upto);
    assert(is_prefix(p, p)) by {
        assert(p.subrange(0, p.len() as int) =~= p);
    }
    if from < upto {
        let u = upto - 1;
        let before = pend(base, cs, p, b, w, from, u);
        let q = p + cs[u].key;
        lemma_pend(base, cs, p, b, w, from, u);
        lemma_same_start(p, cs[u].key, cs[from].key);
        lemma_same_start(p, cs[u].key, Seq::empty());
        if from < u {
            lemma_pend(base, cs, p, b, w, from + 1, u);
        }
        assert forall|i: int, k: Seq<u8>|
            0 <= i < cs.len() && (#[trigger] cs[i]).body is Children && #[trigger] m.contains_key(k)
                && is_prefix(p + cs[i].key, k) implies k == p + cs[i].key && from <= i < upto by {
            lemma_same_start(p, cs[i].key, cs[u].key);
            lemma_same_start(p, cs[i].key, k);
            if cs[u].body is Children && k == q {
                if i != u {
                    lemma_prefix_head(cs[i].key, cs[u].key);
                    assert(false);
                }
            } else {
                assert(before.contains_key(k));
            }
        }
        if cs[from].body is Children {
            let first = p + cs[from].key;
            if from < u {
                if cs[u].body is Children {
                    assert(first != q) by {
                        if cs[from].key == cs[u].key {
                            assert(head(cs[from].key) == head(cs[u].key));
                        }
                    }
                    assert(m.remove(first) =~= before.remove(first).insert(
                        q,
                        b + run_len(cs, w, u),
                    ));
                }
            } else {
                assert(before == base);
                assert(!base.contains_key(first)) by {
                    lemma_same_start(p, cs[from].key, first);
                }
                assert(m.remove(first) =~= base);
            }
        }
    } else {
        assert forall|i: int, k: Seq<u8>|
            0 <= i < cs.len() && (#[trigger] cs[i]).body is Children && #[trigger] m.contains_key(k)
                && is_prefix(p + cs[i].key, k) implies k == p + cs[i].key && from <= i < upto by {
            lemma_same_start(p, cs[i].key, k);
            assert(base.contains_key(k));
        }
    }
}

// ---------------------------------------------------------------------------
// Runs and trees
// ---------------------------------------------------------------------------
/// Writing the records of a run: each record is appended, with zero where
/// the offset of its children will stand, and each node with children comes
/// to wait.
pub proof fn lemma_stream_run<T: Integer>(
    s: StreamState,
    cs: Seq<NodeView<T>>,
    p: Seq<u8>,
    d: nat,
    w: nat,
    upto: int,
)
    requires
        0 <= upto <= cs.len(),
        s.current == p,
        !s.pending.contains_key(p),
        parents_named(cs),
    ensures
        stream(s, raw_run(cs, p, d, cs.len() as int), w, upto).bytes == s.bytes + run_bytes(
            cs,
            w,
            offsets_so_far(cs, w, 0, 0),
            upto,
        ),
        stream(s, raw_run(cs, p, d, cs.len() as int), w, upto).current == p,
        stream(s, raw_run(cs, p, d, cs.len() as int), w, upto).fits == s.fits,
        stream(s, raw_run(cs, p, d, cs.len() as int), w, upto).pending == pend(
            s.pending,
            cs,
            p,
            s.bytes.len(),
            w,
            0,
            upto,
        ),
        !stream(s, raw_run(cs, p, d, cs.len() as int), w, upto).pending.contains_key(p),
    decreases upto,
{
    let es = raw_run(cs, p, d, cs.len() as int);
    let zero = offsets_so_far(cs, w, 0, 0);
    if upto > 0 {
        let u = upto - 1;
        lemma_stream_run(s, cs, p, d, w, u);
        let r = stream(s, es, w, u);
        lemma_run_bytes_len(cs, w, zero, u);
        lemma_same_start(p, cs[u].key, Seq::empty());
        assert(es[u] == RawView { node: cs[u], parent_path: p, depth: d });
        assert(enter(r, p, w) == r);
        assert(zero[u] == 0);
        let after = stream(s, es, w, upto);
        assert(after == put(r, es[u], w));
        assert(after.bytes =~= s.bytes + run_bytes(cs, w, zero, upto));
    } else {
        assert(s.bytes =~= s.bytes + run_bytes(cs, w, zero, 0));
    }
}

/// The offsets of the runs below one more node fit exactly when those
/// before fit and that of the node, if it has children, fits.
pub proof fn lemma_fit_upto_step<T>(cs: Seq<NodeView<T>>, w: nat, first: nat, u: int)
    requires
        0 <= u < cs.len(),
    ensures
        offsets_fit_upto(cs, w, first, u + 1) == (offsets_fit_upto(cs, w, first, u) && (
        cs[u].body is Children ==> first + subtrees_size(cs, w, u) + 1 < limit(w) && offsets_fit(
            cs[u],
            w,
            first + subtrees_size(cs, w, u),
        ))),
{
    if offsets_fit_upto(cs, w, first, u + 1) {
        assert(cs[u].body is Children ==> first + subtrees_size(cs, w, u) + 1 < limit(w)
            && offsets_fit(cs[u], w, first + subtrees_size(cs, w, u)));
        assert forall|i: int|
            0 <= i < u && i < cs.len() && (#[trigger] cs[i]).body is Children implies {
            &&& first + subtrees_size(cs, w, i) + 1 < limit(w)
            &&& offsets_fit(cs[i], w, first + subtrees_size(cs, w, i))
        } by {}
    }
    if offsets_fit_upto(cs, w, first, u) && (cs[u].body is Children ==> first + subtrees_size(
        cs,
        w,
        u,
    ) + 1 < limit(w) && offsets_fit(cs[u], w, first + subtrees_size(cs, w, u))) {
        assert forall|i: int|
            0 <= i < u + 1 && i < cs.len() && (#[trigger] cs[i]).body is Children implies {
            &&& first + subtrees_size(cs, w, i) + 1 < limit(w)
            &&& offsets_fit(cs[i], w, first + subtrees_size(cs, w, i))
        } by {
            if i < u {
            }
        }
    }
}

/// What holds of the state after what lies below the first `upto` children
/// of a node has been written: `head_bytes` stood before the run of the
/// children, and `waiting` waited before it.
pub open spec fn below_done<T: Integer>(
    cs: Seq<NodeView<T>>,
    head_bytes: Seq<u8>,
    waiting: Map<Seq<u8>, nat>,
    fits: bool,
    r: StreamState,
    p: Seq<u8>,
    w: nat,
    upto: int,
) -> bool {
    let first = after_run(cs, w, head_bytes.len());
    &&& r.bytes + terminator(w) == head_bytes + written_so_far(cs, w, first, upto)
    &&& r.pending == pend(waiting, cs, p, head_bytes.len(), w, upto, cs.len() as int)
    &&& is_prefix(p, r.current)
    &&& forall|j: int|
        upto <= j < cs.len() && (#[trigger] cs[j]).body is Children ==> r.current != p + cs[j].key
    &&& r.fits == (fits && offsets_fit_upto(cs, w, first, upto))
}

/// Writing the tree below the child at `u`, which has children, after what
/// lies below the children before it.
pub proof fn lemma_stream_child<T: Integer>(
    n: NodeView<T>,
    head_bytes: Seq<u8>,
    waiting: Map<Seq<u8>, nat>,
    fits: bool,
    r: StreamState,
    p: Seq<u8>,
    d: nat,
    w: nat,
    u: int,
)
    requires
        valid_width(w),
        n.body is Children,
        n.wf(),
        0 <= u < n.body->Children_0.len(),
        n.body->Children_0[u].body is Children,
        forall|k: Seq<u8>| #[trigger] waiting.contains_key(k) ==> !is_prefix(p, k),
        below_done(n.body->Children_0, head_bytes, waiting, fits, r, p, w, u),
    ensures
        below_done(
            n.body->Children_0,
            head_bytes,
            waiting,
            fits,
            stream(
                r,
                raw_of(n.body->Children_0[u], p + n.body->Children_0[u].key, d + 1),
                w,
                raw_of(n.body->Children_0[u], p + n.body->Children_0[u].key, d + 1).len() as int,
            ),
            p,
            w,
            u + 1,
        ),
    decreases n, 0int, 0int,
{
    let cs = n.body->Children_0;
    let len = cs.len() as int;
    let b = head_bytes.len();
    let first = after_run(cs, w, b);
    let end = terminator(w);
    let c = cs[u];
    let q = p + c.key;
    let more = raw_of(c, q, d + 1);
    let after = stream(r, more, w, more.len() as int);
    let so_far = written_so_far(cs, w, first, u);
    let at = run_len(cs, w, u);
    let coff = first + subtrees_size(cs, w, u);
    let field = le_bytes(coff, w);
    lemma_record_bytes_len(w, 0, None, Seq::empty());
    lemma_record_len(w, false, 0);
    lemma_children_wf(n);
    assert(c.wf());
    lemma_pend(waiting, cs, p, b, w, u, len);
    lemma_written_node(cs, w, first, u);
    lemma_run_len_monotonic(cs, w, u + 1, len);
    assert((r.bytes + end).len() == (head_bytes + so_far).len());
    assert(r.bytes.len() + end.len() == coff);
    // the state is ready for the tree below the child
    assert(r.pending[q] == b + at);
    assert(run_len(cs, w, u + 1) == run_len(cs, w, u) + child_len(cs[u], w));
    lemma_record_len(w, false, c.key.len());
    assert(b + at + w <= r.bytes.len());
    lemma_stream_tree(r, c, q, d + 1, w);
    // the bytes
    lemma_le_bytes_len(coff, w);
    lemma_patch_front(r.bytes, end, b + at, field);
    lemma_patch_back(head_bytes, so_far, at, field);
    assert(after.bytes + end == patch(r.bytes, b + at, field) + end + emit(c, w, coff));
    assert(patch(r.bytes, b + at, field) + end == head_bytes + patch(so_far, at, field));
    assert(patch(so_far, at, field) + emit(c, w, coff) == written_so_far(cs, w, first, u + 1));
    assert(after.bytes + end =~= head_bytes + written_so_far(cs, w, first, u + 1));
    // the parent of the run written last
    lemma_same_start(p, c.key, after.current);
    assert forall|j: int|
        u + 1 <= j < cs.len() && (#[trigger] cs[j]).body is Children implies after.current != p
            + cs[j].key by {
        if after.current == p + cs[j].key {
            lemma_same_start(p, c.key, cs[j].key);
            lemma_prefix_head(c.key, cs[j].key);
            assert(head(cs[u].key) == head(cs[j].key));
            assert(false);
        }
    }
    // the offsets
    lemma_fit_upto_step(cs, w, first, u);
}

/// Writing what lies below the children of `n`, child by child, after the
/// records of the children themselves.
pub proof fn lemma_stream_below<T: Integer>(
    n: NodeView<T>,
    head_bytes: Seq<u8>,
    waiting: Map<Seq<u8>, nat>,
    s: StreamState,
    p: Seq<u8>,
    d: nat,
    w: nat,
    upto: int,
)
    requires
        valid_width(w),
        n.body is Children,
        n.wf(),
        0 <= upto <= n.body->Children_0.len(),
        s.bytes == head_bytes + run_bytes(
            n.body->Children_0,
            w,
            offsets_so_far(n.body->Children_0, w, 0, 0),
            n.body->Children_0.len() as int,
        ),
        s.current == p,
        s.pending == pend(
            waiting,
            n.body->Children_0,
            p,
            head_bytes.len(),
            w,
            0,
            n.body->Children_0.len() as int,
        ),
        forall|k: Seq<u8>| #[trigger] waiting.contains_key(k) ==> !is_prefix(p, k),
    ensures
        below_done(
            n.body->Children_0,
            head_bytes,
            waiting,
            s.fits,
            stream(
                s,
                raw_below(n.body->Children_0, p, d, upto),
                w,
                raw_below(n.body->Children_0, p, d, upto).len() as int,
            ),
            p,
            w,
            upto,
        ),
    decreases n, 1int, upto,
{
    let cs = n.body->Children_0;
    let len = cs.len() as int;
    let b = head_bytes.len();
    let first = after_run(cs, w, b);
    let end = terminator(w);
    if upto == 0 {
        let es = raw_below(cs, p, d, 0);
        assert(stream(s, es, w, 0) == s);
        lemma_written_start(cs, w, first);
        assert(s.bytes + end =~= head_bytes + written_so_far(cs, w, first, 0));
        assert(is_prefix(p, p)) by {
            assert(p.subrange(0, p.len() as int) =~= p);
        }
        assert forall|j: int| 0 <= j < cs.len() && (#[trigger] cs[j]).body is Children implies p
            != p + cs[j].key by {
            assert(cs[j].wf());
            lemma_same_start(p, cs[j].key, Seq::empty());
        }
    } else {
        let u = upto - 1;
        let c = cs[u];
        let q = p + c.key;
        let before = raw_below(cs, p, d, u);
        let more = raw_of(c, q, d + 1);
        let es = raw_below(cs, p, d, upto);
        lemma_stream_below(n, head_bytes, waiting, s, p, d, w, u);
        let r = stream(s, before, w, before.len() as int);
        assert(es == before + more);
        lemma_stream_concat(s, before, more, w, more.len() as int);
        let after = stream(s, es, w, es.len() as int);
        assert(after == stream(r, more, w, more.len() as int));
        match c.body {
            BodyView::Value(_) => {
                assert(more =~= Seq::<RawView<T>>::empty());
                assert(after == r);
                lemma_children_wf(n);
                lemma_pend(waiting, cs, p, b, w, u, len);
                lemma_written_leaf(cs, w, first, u);
                lemma_fit_upto_step(cs, w, first, u);
            },
            BodyView::Children(_) => {
                lemma_stream_child(n, head_bytes, waiting, s.fits, r, p, d, w, u);
            },
        }
    }
}

/// Writing the tree below a node with children whose record waits for the
/// offset of its run: the run before gets its last record, the record of
/// the node gets the offset, and the tree follows.
pub proof fn lemma_stream_tree<T: Integer>(
    s: StreamState,
    n: NodeView<T>,
    p: Seq<u8>,
    d: nat,
    w: nat,
)
    requires
        valid_width(w),
        n.body is Children,
        n.wf(),
        n.body->Children_0.len() > 0,
        s.current != p,
        s.pending.contains_key(p),
        s.pending[p] + w <= s.bytes.len(),
        forall|k: Seq<u8>| #[trigger] s.pending.contains_key(k) && is_prefix(p, k) ==> k == p,
    ensures
        ({
            let es = raw_of(n, p, d);
            let r = stream(s, es, w, es.len() as int);
            let base = s.bytes.len() + terminator(w).len();
            &&& r.bytes + terminator(w) == patch(s.bytes, s.pending[p], le_bytes(base, w))
                + terminator(w) + emit(n, w, base)
            &&& r.pending == s.pending.remove(p)
            &&& is_prefix(p, r.current)
            &&& r.fits == (s.fits && base + 1 < limit(w) && offsets_fit(n, w, base))
        }),
    decreases n, 2int, 0int,
{
    let cs = n.body->Children_0;
    let len = cs.len() as int;
    let end = terminator(w);
    let run = raw_run(cs, p, d, len);
    let below = raw_below(cs, p, d, len);
    let es = raw_of(n, p, d);
    let base = s.bytes.len() + end.len();
    let field = le_bytes(base, w);
    assert(es == run + below);
    assert(run[0].parent_path == p);
    // entering the run
    let s1 = enter(s, p, w);
    lemma_enter_again(s, p, w);
    lemma_le_bytes_len(base, w);
    lemma_patch_front(s.bytes, end, s.pending[p], field);
    assert(s1.bytes == patch(s.bytes, s.pending[p], field) + end);
    lemma_patch_len(s.bytes, s.pending[p], field);
    assert(s1.bytes.len() == base);
    // the run
    lemma_children_wf(n);
    lemma_stream_enter(s, run, w, len);
    lemma_stream_run(s1, cs, p, d, w, len);
    let s2 = stream(s, run, w, len);
    assert(s2 == stream(s1, run, w, len));
    // what lies below
    let waiting = s.pending.remove(p);
    assert forall|k: Seq<u8>| #[trigger] waiting.contains_key(k) implies !is_prefix(p, k) by {
        assert(s.pending.contains_key(k));
    }
    lemma_stream_below(n, s1.bytes, waiting, s2, p, d, w, len);
    lemma_stream_concat(s, run, below, w, below.len() as int);
    let r = stream(s, es, w, es.len() as int);
    assert(r == stream(s2, below, w, below.len() as int));
    lemma_written_end(n, w, base);
    assert(pend(waiting, cs, p, s1.bytes.len(), w, len, len) == waiting);
    assert(offsets_fit(n, w, base) == offsets_fit_upto(cs, w, after_run(cs, w, base), len));
    assert(r.bytes + end =~= patch(s.bytes, s.pending[p], field) + end + emit(n, w, base));
}

/// Writing a whole trie from a state in which nothing waits: the bytes that
/// were there, the tree, and all offsets fit exactly when the layout says so.
pub proof fn lemma_stream_root<T: Integer>(s: StreamState, root: NodeView<T>, w: nat)
    requires
        valid_width(w),
        root.body is Children,
        root.wf(),
        s.current == Seq::<u8>::empty(),
        s.pending == Map::<Seq<u8>, nat>::empty(),
    ensures
        ({
            let es = raw_of(root, Seq::empty(), 0);
            let r = stream(s, es, w, es.len() as int);
            &&& r.bytes + terminator(w) == s.bytes + emit(root, w, s.bytes.len())
            &&& r.fits == (s.fits && offsets_fit(root, w, s.bytes.len()))
        }),
{
    let cs = root.body->Children_0;
    let len = cs.len() as int;
    let p = Seq::<u8>::empty();
    let run = raw_run(cs, p, 0, len);
    let below = raw_below(cs, p, 0, len);
    let es = raw_of(root, p, 0);
    assert(es == run + below);
    lemma_children_wf(root);
    lemma_stream_run(s, cs, p, 0, w, len);
    let s2 = stream(s, run, w, len);
    lemma_stream_below(root, s.bytes, s.pending, s2, p, 0, w, len);
    lemma_stream_concat(s, run, below, w, below.len() as int);
    lemma_written_end(root, w, s.bytes.len());
    assert(offsets_fit(root, w, s.bytes.len()) == offsets_fit_upto(
        cs,
        w,
        after_run(cs, w, s.bytes.len()),
        len,
    ));
}

/// Every node that is met below a tree whose fragments and values fit has a
/// fragment and a value that fit.
pub proof fn lemma_raw_fit<T: Integer>(n: NodeView<T>, p: Seq<u8>, d: nat, w: nat, i: int)
    requires
        keys_fit(n),
        values_fit(n, w),
        0 <= i < raw_of(n, p, d).len(),
    ensures
        raw_of(n, p, d)[i].node.key.len() <= 255,
        keys_fit(raw_of(n, p, d)[i].node),
        values_fit(raw_of(n, p, d)[i].node, w),
    decreases n, 0int,
{
    let cs = n.body->Children_0;
    let len = cs.len() as int;
    let run = raw_run(cs, p, d, len);
    if i < len {
        assert(raw_of(n, p, d)[i] == run[i]);
        assert(cs[i].key.len() <= 255 && keys_fit(cs[i]));
        assert(values_fit(cs[i], w));
    } else {
        lemma_raw_below_fit(n, p, d, w, len, i - len);
    }
}

/// The same for what lies below the first `upto` children.
pub proof fn lemma_raw_below_fit<T: Integer>(
    n: NodeView<T>,
    p: Seq<u8>,
    d: nat,
    w: nat,
    upto: int,
    i: int,
)
    requires
        n.body is Children,
        keys_fit(n),
        values_fit(n, w),
        0 <= upto <= n.body->Children_0.len(),
        0 <= i < raw_below(n.body->Children_0, p, d, upto).len(),
    ensures
        raw_below(n.body->Children_0, p, d, upto)[i].node.key.len() <= 255,
        keys_fit(raw_below(n.body->Children_0, p, d, upto)[i].node),
        values_fit(raw_below(n.body->Children_0, p, d, upto)[i].node, w),
    decreases n, 0int, upto,
{
    let cs = n.body->Children_0;
    let before = raw_below(cs, p, d, upto - 1);
    let c = cs[upto - 1];
    if i < before.len() {
        lemma_raw_below_fit(n, p, d, w, upto - 1, i);
    } else {
        assert(c.key.len() <= 255 && keys_fit(c));
        assert(values_fit(c, w));
        lemma_raw_fit(c, p + c.key, d + 1, w, i - before.len());
    }
}

} // verus!
