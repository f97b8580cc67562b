//! The bytes that a trie is written to: which record stands where, and what
//! each record holds.

use vstd::prelude::*;
use crate::format::{header_len, lemma_align_up, lemma_record_len, pad, record_len};
use crate::model::{BodyView, NodeView};
use crate::{le_bytes, lemma_le_bytes_len, limit, valid_width, Integer};

verus! {

/// `n` zero bytes.
pub open spec fn zeros(n: nat) -> Seq<u8> {
    Seq::new(n, |i: int| 0u8)
}

/// The bytes of a value, if there is one.
pub open spec fn value_bytes(value: Option<nat>, w: nat) -> Seq<u8> {
    match value {
        Some(v) => le_bytes(v, w),
        None => Seq::empty(),
    }
}

/// The bytes of a record: the first field, the value if there is one, the
/// length of the fragment, the fragment, and zero bytes up to a multiple of
/// the width.
pub open spec fn record_bytes(w: nat, next: nat, value: Option<nat>, key: Seq<u8>) -> Seq<u8> {
    le_bytes(next, w) + value_bytes(value, w) + seq![key.len() as u8] + key + zeros(
        pad(w + value_bytes(value, w).len() + 1 + key.len(), w),
    )
}

/// The record that ends a run of siblings.
pub open spec fn terminator(w: nat) -> Seq<u8> {
    record_bytes(w, 0, None, Seq::empty())
}

/// The header: the magic bytes, the version, the width, and zero bytes up to
/// a multiple of the width.
pub open spec fn header_bytes(w: nat) -> Seq<u8> {
    seq![0xffu8, 0xdfu8, 0x00u8, w as u8] + zeros(pad(4, w))
}

/// The record of the node `c`: a leaf is marked by all bits set in its first
/// field and carries its value, and a node with children carries `off`, the
/// offset of the run of its children.
pub open spec fn child_record<T: Integer>(c: NodeView<T>, w: nat, off: nat) -> Seq<u8> {
    match c.body {
        BodyView::Value(v) => record_bytes(w, (limit(w) - 1) as nat, Some(v.as_nat()), c.key),
        BodyView::Children(_) => record_bytes(w, off, None, c.key),
    }
}

/// Length of the record of the node `c`.
pub open spec fn child_len<T>(c: NodeView<T>, w: nat) -> nat {
    record_len(w, c.body is Value, c.key.len())
}

/// Length of the records of the first `upto` nodes of `cs`.
pub open spec fn run_len<T>(cs: Seq<NodeView<T>>, w: nat, upto: int) -> nat
    decreases upto,
{
    if upto <= 0 {
        0
    } else {
        run_len(cs, w, upto - 1) + child_len(cs[upto - 1], w)
    }
}

/// The records of the first `upto` nodes of `cs`, one after the other, where
/// `offs` gives for each node the offset of the run of its children.
pub open spec fn run_bytes<T: Integer>(
    cs: Seq<NodeView<T>>,
    w: nat,
    offs: Seq<nat>,
    upto: int,
) -> Seq<u8>
    decreases upto,
{
    if upto <= 0 {
        Seq::empty()
    } else {
        run_bytes(cs, w, offs, upto - 1) + child_record(cs[upto - 1], w, offs[upto - 1])
    }
}

/// Number of bytes that the tree below `n` takes: the run of the children of
/// `n`, the record that ends it, and the same for every node with children
/// further down. A leaf takes none beyond its own record.
pub open spec fn tree_size<T>(n: NodeView<T>, w: nat) -> nat
    decreases n, 0int,
{
    match n.body {
        BodyView::Value(_) => 0,
        BodyView::Children(cs) => run_len(cs, w, cs.len() as int) + record_len(w, false, 0)
            + subtrees_size(cs, w, cs.len() as int),
    }
}

/// Number of bytes that the trees below the first `upto` nodes of `cs` take.
pub open spec fn subtrees_size<T>(cs: Seq<NodeView<T>>, w: nat, upto: int) -> nat
    decreases cs, upto,
{
    if upto <= 0 || upto > cs.len() {
        0
    } else {
        subtrees_size(cs, w, upto - 1) + tree_size(cs[upto - 1], w)
    }
}

/// Offset of the first byte after the run that starts at `base` and the
/// record that ends it.
pub open spec fn after_run<T>(cs: Seq<NodeView<T>>, w: nat, base: nat) -> nat {
    base + run_len(cs, w, cs.len() as int) + record_len(w, false, 0)
}

/// For each node of `cs` the offset of the run of its children, the trees
/// below the nodes standing one after the other from `first` on.
pub open spec fn child_offsets<T>(cs: Seq<NodeView<T>>, w: nat, first: nat) -> Seq<nat> {
    Seq::new(cs.len(), |i: int| first + subtrees_size(cs, w, i))
}

/// The bytes of the tree below `n`, written from the offset `base` on: the
/// records of the children of `n` in their order, the record that ends the
/// run, and then the tree below each child in turn.
pub open spec fn emit<T: Integer>(n: NodeView<T>, w: nat, base: nat) -> Seq<u8>
    decreases n, 0int,
{
    match n.body {
        BodyView::Value(_) => Seq::empty(),
        BodyView::Children(cs) => run_bytes(
            cs,
            w,
            child_offsets(cs, w, after_run(cs, w, base)),
            cs.len() as int,
        ) + terminator(w) + subtrees(cs, w, after_run(cs, w, base), cs.len() as int),
    }
}

/// The bytes of the trees below the first `upto` nodes of `cs`, written one
/// after the other from the offset `first` on.
pub open spec fn subtrees<T: Integer>(
    cs: Seq<NodeView<T>>,
    w: nat,
    first: nat,
    upto: int,
) -> Seq<u8>
    decreases cs, upto,
{
    if upto <= 0 || upto > cs.len() {
        Seq::empty()
    } else {
        subtrees(cs, w, first, upto - 1) + emit(
            cs[upto - 1],
            w,
            first + subtrees_size(cs, w, upto - 1),
        )
    }
}

/// The whole file of the trie with the root `root`.
pub open spec fn file_bytes<T: Integer>(root: NodeView<T>, w: nat) -> Seq<u8> {
    header_bytes(w) + emit(root, w, header_len(w) as nat)
}

/// No fragment below `n` is longer than 255 bytes.
pub open spec fn keys_fit<T>(n: NodeView<T>) -> bool
    decreases n,
{
    match n.body {
        BodyView::Value(_) => true,
        BodyView::Children(cs) => forall|i: int|
            0 <= i < cs.len() ==> (#[trigger] cs[i]).key.len() <= 255 && keys_fit(cs[i]),
    }
}

/// Every value below `n`, and that of `n` itself, fits in `w` bytes.
pub open spec fn values_fit<T: Integer>(n: NodeView<T>, w: nat) -> bool
    decreases n,
{
    match n.body {
        BodyView::Value(v) => v.as_nat() < limit(w),
        BodyView::Children(cs) => forall|i: int|
            0 <= i < cs.len() ==> values_fit(#[trigger] cs[i], w),
    }
}

/// Every offset of a run of children below `n`, the tree being written from
/// `base` on, can stand in a first field of `w` bytes: it is below the value
/// with all bits set.
pub open spec fn offsets_fit<T>(n: NodeView<T>, w: nat, base: nat) -> bool
    decreases n,
{
    match n.body {
        BodyView::Value(_) => true,
        BodyView::Children(cs) => forall|i: int|
            0 <= i < cs.len() && (#[trigger] cs[i]).body is Children ==> {
                &&& after_run(cs, w, base) + subtrees_size(cs, w, i) + 1 < limit(w)
                &&& offsets_fit(cs[i], w, after_run(cs, w, base) + subtrees_size(cs, w, i))
            },
    }
}

/// The trie with the root `root` can be written with the width `w`.
pub open spec fn writable<T: Integer>(root: NodeView<T>, w: nat) -> bool {
    &&& keys_fit(root)
    &&& values_fit(root, w)
    &&& offsets_fit(root, w, header_len(w) as nat)
}

/// Every record below `n`, the tree being written from `base` on, starts at
/// a multiple of `w`.
pub open spec fn records_aligned<T>(n: NodeView<T>, w: nat, base: nat) -> bool
    decreases n,
{
    match n.body {
        BodyView::Value(_) => true,
        BodyView::Children(cs) => {
            &&& forall|i: int| 0 <= i <= cs.len() ==> (base + #[trigger] run_len(cs, w, i)) % w == 0
            &&& forall|i: int|
                0 <= i < cs.len() ==> records_aligned(
                    #[trigger] cs[i],
                    w,
                    after_run(cs, w, base) + subtrees_size(cs, w, i),
                )
        },
    }
}

/// Written with the width of its own values, a trie has no value that is
/// too large.
pub proof fn lemma_values_fit_own_width<T: Integer>(n: NodeView<T>)
    ensures
        values_fit(n, T::spec_size()),
    decreases n,
{
    match n.body {
        BodyView::Value(v) => {
            v.lemma_range();
        },
        BodyView::Children(cs) => {
            assert forall|i: int| 0 <= i < cs.len() implies values_fit(
                #[trigger] cs[i],
                T::spec_size(),
            ) by {
                lemma_values_fit_own_width(cs[i]);
            }
        },
    }
}

// ---------------------------------------------------------------------------
// Lengths
// ---------------------------------------------------------------------------
/// A record is as long as `record_len` says.
pub proof fn lemma_record_bytes_len(w: nat, next: nat, value: Option<nat>, key: Seq<u8>)
    ensures
        record_bytes(w, next, value, key).len() == record_len(w, value is Some, key.len()),
{
    lemma_le_bytes_len(next, w);
    if let Some(v) = value {
        lemma_le_bytes_len(v, w);
    }
}

/// The record of a node is as long as `child_len` says.
pub proof fn lemma_child_record_len<T: Integer>(c: NodeView<T>, w: nat, off: nat)
    ensures
        child_record(c, w, off).len() == child_len(c, w),
{
    match c.body {
        BodyView::Value(v) => {
            lemma_record_bytes_len(w, (limit(w) - 1) as nat, Some(v.as_nat()), c.key);
        },
        BodyView::Children(_) => {
            lemma_record_bytes_len(w, off, None, c.key);
        },
    }
}

/// A run is as long as `run_len` says.
pub proof fn lemma_run_bytes_len<T: Integer>(
    cs: Seq<NodeView<T>>,
    w: nat,
    offs: Seq<nat>,
    upto: int,
)
    ensures
        run_bytes(cs, w, offs, upto).len() == run_len(cs, w, upto),
    decreases upto,
{
    if upto > 0 {
        lemma_run_bytes_len(cs, w, offs, upto - 1);
        lemma_child_record_len(cs[upto - 1], w, offs[upto - 1]);
    }
}

/// The lengths of runs grow with the number of records.
pub proof fn lemma_run_len_monotonic<T>(cs: Seq<NodeView<T>>, w: nat, i: int, j: int)
    requires
        i <= j,
    ensures
        run_len(cs, w, i) <= run_len(cs, w, j),
    decreases j,
{
    if i < j && j > 0 {
        lemma_run_len_monotonic(cs, w, i, j - 1);
    }
}

/// The sizes of trees add up as the number of trees grows.
pub proof fn lemma_subtrees_size_monotonic<T>(cs: Seq<NodeView<T>>, w: nat, i: int, j: int)
    requires
        i <= j <= cs.len(),
    ensures
        subtrees_size(cs, w, i) <= subtrees_size(cs, w, j),
    decreases j - i,
{
    if i < j && j > 0 {
        lemma_subtrees_size_monotonic(cs, w, i, j - 1);
    }
}

/// A tree is written in as many bytes as `tree_size` says.
pub proof fn lemma_emit_len<T: Integer>(n: NodeView<T>, w: nat, base: nat)
    ensures
        emit(n, w, base).len() == tree_size(n, w),
    decreases n, 0int,
{
    match n.body {
        BodyView::Value(_) => {},
        BodyView::Children(cs) => {
            let first = after_run(cs, w, base);
            lemma_run_bytes_len(cs, w, child_offsets(cs, w, first), cs.len() as int);
            lemma_record_bytes_len(w, 0, None, Seq::empty());
            lemma_subtrees_len(cs, w, first, cs.len() as int);
        },
    }
}

/// Trees are written in as many bytes as `subtrees_size` says.
pub proof fn lemma_subtrees_len<T: Integer>(cs: Seq<NodeView<T>>, w: nat, first: nat, upto: int)
    ensures
        subtrees(cs, w, first, upto).len() == subtrees_size(cs, w, upto),
    decreases cs, upto,
{
    if 0 < upto <= cs.len() {
        lemma_subtrees_len(cs, w, first, upto - 1);
        lemma_emit_len(cs[upto - 1], w, first + subtrees_size(cs, w, upto - 1));
    }
}

/// The header is as long as `header_len` says, and starts with the magic
/// bytes, the version and the width.
pub proof fn lemma_header_bytes(w: nat)
    requires
        valid_width(w),
    ensures
        header_bytes(w).len() == header_len(w),
        header_bytes(w)[0] == 0xff,
        header_bytes(w)[1] == 0xdf,
        header_bytes(w)[2] == 0x00,
        header_bytes(w)[3] == w,
        header_len(w) % (w as int) == 0,
        header_len(w) >= 4,
{
    lemma_align_up(4, w);
}

/// Sizes are multiples of the width.
pub proof fn lemma_sizes_aligned<T>(n: NodeView<T>, w: nat)
    requires
        valid_width(w),
    ensures
        tree_size(n, w) % w == 0,
    decreases n, 0int,
{
    match n.body {
        BodyView::Value(_) => {
            vstd::arithmetic::div_mod::lemma_small_mod(0, w);
        },
        BodyView::Children(cs) => {
            lemma_run_len_aligned(cs, w, cs.len() as int);
            lemma_record_len(w, false, 0);
            lemma_subtrees_size_aligned(cs, w, cs.len() as int);
            lemma_add_aligned(run_len(cs, w, cs.len() as int), record_len(w, false, 0), w);
            lemma_add_aligned(
                run_len(cs, w, cs.len() as int) + record_len(w, false, 0),
                subtrees_size(cs, w, cs.len() as int),
                w,
            );
        },
    }
}

/// Sums of multiples of the width are multiples of the width.
pub proof fn lemma_add_aligned(a: nat, b: nat, w: nat)
    requires
        valid_width(w),
        a % w == 0,
        b % w == 0,
    ensures
        (a + b) % w == 0,
{
    vstd::arithmetic::div_mod::lemma_add_mod_noop(a as int, b as int, w as int);
}

/// The length of a run is a multiple of the width.
pub proof fn lemma_run_len_aligned<T>(cs: Seq<NodeView<T>>, w: nat, upto: int)
    requires
        valid_width(w),
    ensures
        run_len(cs, w, upto) % w == 0,
    decreases upto,
{
    if upto > 0 {
        lemma_run_len_aligned(cs, w, upto - 1);
        lemma_record_len(w, cs[upto - 1].body is Value, cs[upto - 1].key.len());
        lemma_add_aligned(run_len(cs, w, upto - 1), child_len(cs[upto - 1], w), w);
    }
}

/// The size of trees is a multiple of the width.
pub proof fn lemma_subtrees_size_aligned<T>(cs: Seq<NodeView<T>>, w: nat, upto: int)
    requires
        valid_width(w),
    ensures
        subtrees_size(cs, w, upto) % w == 0,
    decreases cs, upto,
{
    if 0 < upto <= cs.len() {
        lemma_subtrees_size_aligned(cs, w, upto - 1);
        lemma_sizes_aligned(cs[upto - 1], w);
        lemma_add_aligned(subtrees_size(cs, w, upto - 1), tree_size(cs[upto - 1], w), w);
    }
}

/// Written from a multiple of the width on, every record of a tree starts at
/// a multiple of the width.
pub proof fn lemma_records_aligned<T>(n: NodeView<T>, w: nat, base: nat)
    requires
        valid_width(w),
        base % w == 0,
    ensures
        records_aligned(n, w, base),
    decreases n,
{
    match n.body {
        BodyView::Value(_) => {},
        BodyView::Children(cs) => {
            let first = after_run(cs, w, base);
            assert forall|i: int| 0 <= i <= cs.len() implies (base + #[trigger] run_len(cs, w, i))
                % w == 0 by {
                lemma_run_len_aligned(cs, w, i);
                lemma_add_aligned(base, run_len(cs, w, i), w);
            }
            lemma_record_len(w, false, 0);
            lemma_add_aligned(
                base + run_len(cs, w, cs.len() as int),
                record_len(w, false, 0),
                w,
            );
            assert forall|i: int| 0 <= i < cs.len() implies records_aligned(
                #[trigger] cs[i],
                w,
                first + subtrees_size(cs, w, i),
            ) by {
                lemma_subtrees_size_aligned(cs, w, i);
                lemma_add_aligned(first, subtrees_size(cs, w, i), w);
                lemma_records_aligned(cs[i], w, first + subtrees_size(cs, w, i));
            }
        },
    }
}

// ---------------------------------------------------------------------------
// A tree while it is being written
// ---------------------------------------------------------------------------
/// The offsets that the records of `cs` hold while the trees below them are
/// being written: those of the first `done` nodes are known, the others are
/// still zero.
pub open spec fn offsets_so_far<T>(cs: Seq<NodeView<T>>, w: nat, first: nat, done: int) -> Seq<
    nat,
> {
    Seq::new(
        cs.len(),
        |j: int|
            if j < done {
                first + subtrees_size(cs, w, j)
            } else {
                0
            },
    )
}

/// Records differ only where the offsets of nodes with children differ.
pub proof fn lemma_run_bytes_same<T: Integer>(
    cs: Seq<NodeView<T>>,
    w: nat,
    a: Seq<nat>,
    b: Seq<nat>,
    upto: int,
)
    requires
        upto <= cs.len(),
        forall|j: int| 0 <= j < upto && (#[trigger] cs[j]).body is Children ==> a[j] == b[j],
    ensures
        run_bytes(cs, w, a, upto) == run_bytes(cs, w, b, upto),
    decreases upto,
{
    if upto > 0 {
        lemma_run_bytes_same(cs, w, a, b, upto - 1);
        assert(cs[upto - 1].body is Children ==> a[upto - 1] == b[upto - 1]);
    }
}

/// Giving the node at `i` another offset changes the first field of its
/// record and nothing else.
pub proof fn lemma_run_bytes_patch<T: Integer>(
    cs: Seq<NodeView<T>>,
    w: nat,
    offs: Seq<nat>,
    i: int,
    x: nat,
    upto: int,
)
    requires
        0 <= i < upto <= cs.len(),
        offs.len() == cs.len(),
        cs[i].body is Children,
    ensures
        run_len(cs, w, i) + w <= run_len(cs, w, upto),
        run_bytes(cs, w, offs.update(i, x), upto) == run_bytes(cs, w, offs, upto).subrange(
            0,
            run_len(cs, w, i) as int,
        ) + le_bytes(x, w) + run_bytes(cs, w, offs, upto).subrange(
            (run_len(cs, w, i) + w) as int,
            run_len(cs, w, upto) as int,
        ),
    decreases upto,
{
    let offs2 = offs.update(i, x);
    let at = run_len(cs, w, i) as int;
    let before = run_bytes(cs, w, offs, upto - 1);
    let before2 = run_bytes(cs, w, offs2, upto - 1);
    let rec = child_record(cs[upto - 1], w, offs[upto - 1]);
    let rec2 = child_record(cs[upto - 1], w, offs2[upto - 1]);
    lemma_run_bytes_len(cs, w, offs, upto - 1);
    lemma_run_bytes_len(cs, w, offs, upto);
    lemma_run_bytes_len(cs, w, offs2, upto - 1);
    lemma_child_record_len(cs[upto - 1], w, offs[upto - 1]);
    lemma_child_record_len(cs[upto - 1], w, offs2[upto - 1]);
    lemma_le_bytes_len(x, w);
    if upto == i + 1 {
        lemma_run_bytes_same(cs, w, offs, offs2, i);
        lemma_le_bytes_len(offs[i], w);
        lemma_record_bytes_len(w, x, None, cs[i].key);
        let whole = run_bytes(cs, w, offs, upto);
        assert(whole == before + rec);
        assert(run_bytes(cs, w, offs2, upto) =~= whole.subrange(0, at) + le_bytes(x, w)
            + whole.subrange(at + w, run_len(cs, w, upto) as int));
    } else {
        lemma_run_bytes_patch(cs, w, offs, i, x, upto - 1);
        let whole = run_bytes(cs, w, offs, upto);
        assert(rec == rec2);
        assert(whole == before + rec);
        assert(run_bytes(cs, w, offs2, upto) =~= whole.subrange(0, at) + le_bytes(x, w)
            + whole.subrange(at + w, run_len(cs, w, upto) as int));
    }
}

/// Replacing bytes inside the middle one of three parts replaces them in
/// the whole.
pub proof fn lemma_patch_inside(
    head: Seq<u8>,
    run: Seq<u8>,
    tail: Seq<u8>,
    at: int,
    field: Seq<u8>,
)
    requires
        0 <= at,
        at + field.len() <= run.len(),
    ensures
        (head + run + tail).subrange(0, head.len() + at) + field + (head + run + tail).subrange(
            head.len() + at + field.len(),
            (head + run + tail).len() as int,
        ) == head + (run.subrange(0, at) + field + run.subrange(
            at + field.len(),
            run.len() as int,
        )) + tail,
{
    let whole = head + run + tail;
    let l = whole.subrange(0, head.len() + at) + field + whole.subrange(
        head.len() + at + field.len(),
        whole.len() as int,
    );
    let r = head + (run.subrange(0, at) + field + run.subrange(at + field.len(), run.len() as int))
        + tail;
    assert(l.len() == r.len());
    assert forall|j: int| 0 <= j < l.len() implies l[j] == r[j] by {
        if j < head.len() {
        } else if j < head.len() + at {
        } else if j < head.len() + at + field.len() {
        } else if j < head.len() + run.len() {
        } else {
        }
    }
    assert(l =~= r);
}

/// What has been written of a tree when the trees below the first `done`
/// children are written: the run with the offsets known so far, the record
/// that ends it, and those trees.
#[verifier::opaque]
pub open spec fn written_so_far<T: Integer>(
    cs: Seq<NodeView<T>>,
    w: nat,
    first: nat,
    done: int,
) -> Seq<u8> {
    run_bytes(cs, w, offsets_so_far(cs, w, first, done), cs.len() as int) + terminator(w)
        + subtrees(cs, w, first, done)
}

/// Before any tree below the children is written, the run and its end are.
pub proof fn lemma_written_start<T: Integer>(cs: Seq<NodeView<T>>, w: nat, first: nat)
    ensures
        written_so_far(cs, w, first, 0) == run_bytes(
            cs,
            w,
            offsets_so_far(cs, w, 0, 0),
            cs.len() as int,
        ) + terminator(w),
        written_so_far(cs, w, first, 0).len() == run_len(cs, w, cs.len() as int) + record_len(
            w,
            false,
            0,
        ),
{
    reveal(written_so_far);
    assert(offsets_so_far(cs, w, first, 0) =~= offsets_so_far(cs, w, 0, 0));
    let run = run_bytes(cs, w, offsets_so_far(cs, w, 0, 0), cs.len() as int);
    assert(run + terminator(w) + subtrees(cs, w, first, 0) =~= run + terminator(w));
    lemma_run_bytes_len(cs, w, offsets_so_far(cs, w, 0, 0), cs.len() as int);
    lemma_record_bytes_len(w, 0, None, Seq::empty());
}

/// When all trees below the children are written, the tree is.
pub proof fn lemma_written_end<T: Integer>(n: NodeView<T>, w: nat, base: nat)
    requires
        n.body is Children,
    ensures
        written_so_far(
            n.body->Children_0,
            w,
            after_run(n.body->Children_0, w, base),
            n.body->Children_0.len() as int,
        ) == emit(n, w, base),
{
    reveal(written_so_far);
    let cs = n.body->Children_0;
    let first = after_run(cs, w, base);
    assert(offsets_so_far(cs, w, first, cs.len() as int) =~= child_offsets(cs, w, first));
}

/// A leaf adds nothing to what has been written.
pub proof fn lemma_written_leaf<T: Integer>(cs: Seq<NodeView<T>>, w: nat, first: nat, i: int)
    requires
        0 <= i < cs.len(),
        cs[i].body is Value,
    ensures
        written_so_far(cs, w, first, i + 1) == written_so_far(cs, w, first, i),
        subtrees_size(cs, w, i + 1) == subtrees_size(cs, w, i),
{
    reveal(written_so_far);
    lemma_run_bytes_same(
        cs,
        w,
        offsets_so_far(cs, w, first, i),
        offsets_so_far(cs, w, first, i + 1),
        cs.len() as int,
    );
    assert(tree_size(cs[i], w) == 0);
    assert(emit(cs[i], w, first + subtrees_size(cs, w, i)) =~= Seq::<u8>::empty());
    assert(subtrees(cs, w, first, i + 1) =~= subtrees(cs, w, first, i));
}

/// A node with children adds its offset, in the first field of its record,
/// and the tree below it, at the end.
pub proof fn lemma_written_node<T: Integer>(cs: Seq<NodeView<T>>, w: nat, first: nat, i: int)
    requires
        0 <= i < cs.len(),
        cs[i].body is Children,
    ensures
        run_len(cs, w, i) + w <= written_so_far(cs, w, first, i).len(),
        written_so_far(cs, w, first, i).len() == run_len(cs, w, cs.len() as int) + record_len(
            w,
            false,
            0,
        ) + subtrees_size(cs, w, i),
        written_so_far(cs, w, first, i + 1) == written_so_far(cs, w, first, i).subrange(
            0,
            run_len(cs, w, i) as int,
        ) + le_bytes(first + subtrees_size(cs, w, i), w) + written_so_far(cs, w, first, i).subrange(
            (run_len(cs, w, i) + w) as int,
            written_so_far(cs, w, first, i).len() as int,
        ) + emit(cs[i], w, first + subtrees_size(cs, w, i)),
        subtrees_size(cs, w, i + 1) == subtrees_size(cs, w, i) + tree_size(cs[i], w),
{
    reveal(written_so_far);
    let len = cs.len() as int;
    let offs = offsets_so_far(cs, w, first, i);
    let offs_next = offsets_so_far(cs, w, first, i + 1);
    let cur = first + subtrees_size(cs, w, i);
    let run = run_bytes(cs, w, offs, len);
    let run_next = run_bytes(cs, w, offs_next, len);
    let tail = terminator(w) + subtrees(cs, w, first, i);
    let at = run_len(cs, w, i) as int;
    let field = le_bytes(cur, w);
    lemma_run_bytes_patch(cs, w, offs, i, cur, len);
    assert(offs.update(i, cur) =~= offs_next);
    lemma_run_bytes_len(cs, w, offs, len);
    lemma_record_bytes_len(w, 0, None, Seq::empty());
    lemma_subtrees_len(cs, w, first, i);
    lemma_le_bytes_len(cur, w);
    lemma_patch_inside(Seq::empty(), run, tail, at, field);
    let before = written_so_far(cs, w, first, i);
    assert(before =~= Seq::<u8>::empty() + run + tail);
    assert(written_so_far(cs, w, first, i + 1) =~= Seq::<u8>::empty() + run_next + tail + emit(
        cs[i],
        w,
        cur,
    ));
}

} // verus!
