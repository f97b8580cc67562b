//! Reading back what was written: a walk over the bytes of a trie finds for
//! every key what the trie holds for it.

use vstd::prelude::*;
use crate::format::{header_len, lemma_record_len, record_at, record_len, slot, walk, RecordView};
use crate::layout::{
    after_run, child_len, child_offsets, child_record, emit, file_bytes, keys_fit,
    lemma_child_record_len, lemma_emit_len, lemma_header_bytes, lemma_record_bytes_len,
    lemma_run_bytes_len, lemma_run_len_monotonic, lemma_subtrees_len, lemma_subtrees_size_monotonic,
    offsets_fit, record_bytes, run_bytes, run_len, subtrees, subtrees_size, terminator, tree_size,
    value_bytes, values_fit, writable,
};
use crate::lcp::{classify, Prefix};
use crate::model::{child_for, head, is_prefix, lemma_child_for, lemma_classify, BodyView, NodeView};
use crate::{
    le_bytes, lemma_le_bytes_len, lemma_le_value_of_bytes, lemma_limit_monotonic, lemma_limits,
    limit, valid_width, Integer,
};

verus! {

/// The bytes `part` stand in `data` from the offset `at` on.
pub open spec fn placed(data: Seq<u8>, at: int, part: Seq<u8>) -> bool {
    0 <= at && at + part.len() <= data.len() && data.subrange(at, at + part.len()) == part
}

/// A value of the trie as the number that the bytes hold for it.
pub open spec fn as_number<T: Integer>(v: Option<T>) -> Option<nat> {
    match v {
        Some(x) => Some(x.as_nat()),
        None => None,
    }
}

/// The value held for `q` among the nodes of `cs` from the position `from`
/// on.
pub open spec fn lookup_from<T>(cs: Seq<NodeView<T>>, q: Seq<u8>, from: int) -> Option<T> {
    let i = child_for(cs, q, from);
    if 0 <= i < cs.len() {
        cs[i].step(q)
    } else {
        None
    }
}

/// A part of bytes that stand in `data` stands in `data` too.
pub proof fn lemma_placed_part(data: Seq<u8>, base: int, whole: Seq<u8>, at: int, part: Seq<u8>)
    requires
        placed(data, base, whole),
        0 <= at,
        at + part.len() <= whole.len(),
        whole.subrange(at, at + part.len()) == part,
    ensures
        placed(data, base + at, part),
{
    assert(data.subrange(base + at, base + at + part.len()) =~= data.subrange(
        base,
        base + whole.len(),
    ).subrange(at, at + part.len()));
}

/// The record of the node at `i` stands in the run where the records before
/// it end.
pub proof fn lemma_run_bytes_at<T: Integer>(
    cs: Seq<NodeView<T>>,
    w: nat,
    offs: Seq<nat>,
    i: int,
    upto: int,
)
    requires
        0 <= i < upto,
    ensures
        run_len(cs, w, i) + child_len(cs[i], w) == run_len(cs, w, i + 1),
        run_len(cs, w, i + 1) <= run_len(cs, w, upto),
        run_bytes(cs, w, offs, upto).subrange(
            run_len(cs, w, i) as int,
            run_len(cs, w, i + 1) as int,
        ) == child_record(cs[i], w, offs[i]),
    decreases upto,
{
    lemma_run_bytes_len(cs, w, offs, upto - 1);
    lemma_run_bytes_len(cs, w, offs, upto);
    lemma_child_record_len(cs[upto - 1], w, offs[upto - 1]);
    let whole = run_bytes(cs, w, offs, upto);
    let before = run_bytes(cs, w, offs, upto - 1);
    let last = child_record(cs[upto - 1], w, offs[upto - 1]);
    assert(whole == before + last);
    if i == upto - 1 {
        assert(whole.subrange(run_len(cs, w, i) as int, run_len(cs, w, i + 1) as int) =~= last);
    } else {
        lemma_run_bytes_at(cs, w, offs, i, upto - 1);
        assert(whole.subrange(run_len(cs, w, i) as int, run_len(cs, w, i + 1) as int)
            =~= before.subrange(run_len(cs, w, i) as int, run_len(cs, w, i + 1) as int));
    }
}

/// The tree below the node at `i` stands among the trees where the trees
/// before it end.
pub proof fn lemma_subtrees_at<T: Integer>(
    cs: Seq<NodeView<T>>,
    w: nat,
    first: nat,
    i: int,
    upto: int,
)
    requires
        0 <= i < upto <= cs.len(),
    ensures
        subtrees_size(cs, w, i) + tree_size(cs[i], w) == subtrees_size(cs, w, i + 1),
        subtrees_size(cs, w, i + 1) <= subtrees_size(cs, w, upto),
        subtrees(cs, w, first, upto).subrange(
            subtrees_size(cs, w, i) as int,
            subtrees_size(cs, w, i + 1) as int,
        ) == emit(cs[i], w, first + subtrees_size(cs, w, i)),
    decreases upto,
{
    lemma_subtrees_len(cs, w, first, upto - 1);
    lemma_subtrees_len(cs, w, first, upto);
    lemma_emit_len(cs[upto - 1], w, first + subtrees_size(cs, w, upto - 1));
    let whole = subtrees(cs, w, first, upto);
    let before = subtrees(cs, w, first, upto - 1);
    let last = emit(cs[upto - 1], w, first + subtrees_size(cs, w, upto - 1));
    assert(whole == before + last);
    if i == upto - 1 {
        assert(whole.subrange(
            subtrees_size(cs, w, i) as int,
            subtrees_size(cs, w, i + 1) as int,
        ) =~= last);
    } else {
        lemma_subtrees_at(cs, w, first, i, upto - 1);
        assert(whole.subrange(
            subtrees_size(cs, w, i) as int,
            subtrees_size(cs, w, i + 1) as int,
        ) =~= before.subrange(
            subtrees_size(cs, w, i) as int,
            subtrees_size(cs, w, i + 1) as int,
        ));
    }
}

/// Where the tree below `n` stands in `data`, the records of its children,
/// the record that ends their run, and the trees below them stand in `data`
/// at the offsets that the layout gives them.
pub proof fn lemma_parts_placed<T: Integer>(
    data: Seq<u8>,
    w: nat,
    n: NodeView<T>,
    base: nat,
    i: int,
)
    requires
        n.body is Children,
        placed(data, base as int, emit(n, w, base)),
        0 <= i <= n.body->Children_0.len(),
    ensures
        i < n.body->Children_0.len() ==> placed(
            data,
            (base + run_len(n.body->Children_0, w, i)) as int,
            child_record(
                n.body->Children_0[i],
                w,
                after_run(n.body->Children_0, w, base) + subtrees_size(n.body->Children_0, w, i),
            ),
        ),
        i < n.body->Children_0.len() ==> placed(
            data,
            (after_run(n.body->Children_0, w, base) + subtrees_size(n.body->Children_0, w, i))
                as int,
            emit(
                n.body->Children_0[i],
                w,
                after_run(n.body->Children_0, w, base) + subtrees_size(n.body->Children_0, w, i),
            ),
        ),
        i == n.body->Children_0.len() ==> placed(
            data,
            (base + run_len(n.body->Children_0, w, i)) as int,
            terminator(w),
        ),
{
    let cs = n.body->Children_0;
    let len = cs.len() as int;
    let first = after_run(cs, w, base);
    let offs = child_offsets(cs, w, first);
    let run = run_bytes(cs, w, offs, len);
    let end = terminator(w);
    let below = subtrees(cs, w, first, len);
    let whole = emit(n, w, base);
    assert(whole == run + end + below);
    lemma_run_bytes_len(cs, w, offs, len);
    lemma_record_bytes_len(w, 0, None, Seq::empty());
    lemma_subtrees_len(cs, w, first, len);
    if i < len {
        lemma_run_bytes_at(cs, w, offs, i, len);
        lemma_child_record_len(cs[i], w, offs[i]);
        let rec = child_record(cs[i], w, offs[i]);
        let at = run_len(cs, w, i) as int;
        assert(whole.subrange(at, at + rec.len()) =~= run.subrange(at, at + rec.len()));
        lemma_placed_part(data, base as int, whole, at, rec);
        lemma_subtrees_at(cs, w, first, i, len);
        let tree = emit(cs[i], w, first + subtrees_size(cs, w, i));
        lemma_emit_len(cs[i], w, first + subtrees_size(cs, w, i));
        let at2 = (run.len() + end.len() + subtrees_size(cs, w, i)) as int;
        assert(whole.subrange(at2, at2 + tree.len()) =~= below.subrange(
            subtrees_size(cs, w, i) as int,
            (subtrees_size(cs, w, i) + tree.len()) as int,
        ));
        lemma_placed_part(data, base as int, whole, at2, tree);
    } else {
        let at = run.len() as int;
        assert(whole.subrange(at, at + end.len()) =~= end);
        lemma_placed_part(data, base as int, whole, at, end);
    }
}

/// A record that stands in `data` is read back as it was written.
pub proof fn lemma_record_decode(
    data: Seq<u8>,
    w: nat,
    off: int,
    next: nat,
    value: Option<nat>,
    key: Seq<u8>,
)
    requires
        valid_width(w),
        placed(data, off, record_bytes(w, next, value, key)),
        next < limit(w),
        key.len() <= 255,
        value matches Some(v) ==> v < limit(w),
        value is Some <==> next + 1 == limit(w),
    ensures
        record_at(data, w, off) == Some(
            RecordView {
                slot: slot(next, w),
                value: match value {
                    Some(v) => v,
                    None => 0,
                },
                key,
                len: record_len(w, value is Some, key.len()),
            },
        ),
{
    let rec = record_bytes(w, next, value, key);
    let vb = value_bytes(value, w);
    lemma_record_bytes_len(w, next, value, key);
    lemma_record_len(w, value is Some, key.len());
    lemma_le_bytes_len(next, w);
    lemma_le_value_of_bytes(next, w);
    lemma_limits();
    if let Some(v) = value {
        lemma_le_bytes_len(v, w);
        lemma_le_value_of_bytes(v, w);
    }
    assert(data.subrange(off, off + w) =~= rec.subrange(0, w as int));
    assert(rec.subrange(0, w as int) =~= le_bytes(next, w));
    let s = slot(next, w);
    assert(s is Terminal <==> value is Some);
    let wi = w as int;
    let kat = wi + vb.len();
    let kpos = off + kat;
    assert(data[kpos] == data.subrange(off, off + rec.len())[kat]);
    assert(rec[kat] == key.len() as u8);
    if let Some(v) = value {
        assert(data.subrange(off + wi, off + wi + wi) =~= rec.subrange(wi, wi + wi));
        assert(rec.subrange(wi, wi + wi) =~= le_bytes(v, w));
    }
    assert(data.subrange(kpos + 1, kpos + 1 + key.len()) =~= rec.subrange(
        kat + 1,
        kat + 1 + key.len(),
    ));
    assert(rec.subrange(kat + 1, kat + 1 + key.len()) =~= key);
}

/// A walk that starts at the record of the child at `i` of a node `n`, whose
/// tree stands in `data` at `base`, finds what the children from `i` on hold.
pub proof fn lemma_walk_run<T: Integer>(
    data: Seq<u8>,
    w: nat,
    n: NodeView<T>,
    base: nat,
    q: Seq<u8>,
    i: int,
)
    requires
        valid_width(w),
        n.body is Children,
        n.wf(),
        keys_fit(n),
        values_fit(n, w),
        offsets_fit(n, w, base),
        placed(data, base as int, emit(n, w, base)),
        q.len() <= usize::MAX,
        0 <= i <= n.body->Children_0.len(),
    ensures
        walk(data, w, (base + run_len(n.body->Children_0, w, i)) as int, q) == as_number(
            lookup_from(n.body->Children_0, q, i),
        ),
    decreases n, n.body->Children_0.len() - i,
{
    let cs = n.body->Children_0;
    let len = cs.len() as int;
    let first = after_run(cs, w, base);
    let off = (base + run_len(cs, w, i)) as int;
    lemma_parts_placed(data, w, n, base, i);
    lemma_limits();
    lemma_limit_monotonic(1, w);
    lemma_record_len(w, false, 0);
    lemma_child_for(cs, q, i);
    if i == len {
        lemma_record_decode(data, w, off, 0, None, Seq::empty());
    } else {
        let c = cs[i];
        let coff = first + subtrees_size(cs, w, i);
        assert(c.wf());
        assert(c.key.len() <= 255 && keys_fit(c));
        assert(values_fit(c, w));
        lemma_classify(c.key, q);
        lemma_child_for(cs, q, i + 1);
        lemma_run_bytes_at(cs, w, child_offsets(cs, w, first), i, len);
        lemma_record_len(w, c.body is Value, c.key.len());
        // what the children behind this one hold, if this one starts like the key
        if head(c.key) == head(q) {
            let j = child_for(cs, q, i + 1);
            if j < len {
                assert(head(cs[j].key) == head(cs[i].key));
                assert(false);
            }
        }
        match c.body {
            BodyView::Value(v) => {
                lemma_record_decode(data, w, off, (limit(w) - 1) as nat, Some(v.as_nat()), c.key);
                if classify(c.key, q) is Exact {
                    assert(q.subrange(0, q.len() as int) =~= q);
                } else {
                    lemma_walk_run(data, w, n, base, q, i + 1);
                    if head(c.key) == head(q) && is_prefix(c.key, q) {
                        assert(q.len() > c.key.len());
                    }
                }
            },
            BodyView::Children(gs) => {
                assert(gs.len() > 0);
                assert(coff + 1 < limit(w) && offsets_fit(c, w, coff));
                lemma_record_decode(data, w, off, coff, None, c.key);
                lemma_emit_len(c, w, coff);
                lemma_record_len(w, false, 0);
                assert(tree_size(c, w) > 0);
                lemma_run_len_monotonic(cs, w, i + 1, len);
                lemma_subtrees_size_monotonic(cs, w, 0, i);
                assert(off < coff < data.len());
                match classify(c.key, q) {
                    Prefix::Exact => {
                        let rest = Seq::<u8>::empty();
                        assert(q.subrange(0, q.len() as int) =~= q);
                        assert(q.skip(q.len() as int) =~= rest);
                        lemma_walk_run(data, w, c, coff, rest, 0);
                    },
                    Prefix::Incomplete(m) => {
                        lemma_walk_run(data, w, c, coff, q.skip(m as int), 0);
                    },
                    _ => {
                        lemma_walk_run(data, w, n, base, q, i + 1);
                    },
                }
            },
        }
    }
}

/// A walk over the file of a trie finds for every key what the trie holds
/// for it, and nothing for a key that the trie does not hold.
pub proof fn lemma_round_trip<T: Integer>(root: NodeView<T>, w: nat, key: Seq<u8>)
    requires
        valid_width(w),
        root.body is Children,
        root.wf(),
        writable(root, w),
        key.len() <= usize::MAX,
    ensures
        walk(file_bytes(root, w), w, header_len(w), key) == as_number(root.below(key)),
{
    let data = file_bytes(root, w);
    let tree = emit(root, w, header_len(w) as nat);
    lemma_header_bytes(w);
    assert(data.subrange(header_len(w), header_len(w) + tree.len()) =~= tree);
    lemma_walk_run(data, w, root, header_len(w) as nat, key, 0);
}

/// The file of a trie starts with a header that the reader for the width
/// accepts.
pub proof fn lemma_file_header<T: Integer>(root: NodeView<T>, w: nat)
    requires
        valid_width(w),
    ensures
        file_bytes(root, w).len() >= 4,
        file_bytes(root, w)[0] == 0xff,
        file_bytes(root, w)[1] == 0xdf,
        file_bytes(root, w)[2] == 0x00,
        file_bytes(root, w)[3] == w,
{
    lemma_header_bytes(w);
}

} // verus!
