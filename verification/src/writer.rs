//! Writing a trie out as bytes, in one pass: the record of a node with
//! children is written before the run of its children has a place, and gets
//! the offset of that run patched in once the run begins.

use vstd::prelude::*;
use vstd::slice::slice_to_vec;
use crate::format::{
    header_len, lemma_header_len, lemma_record_len, HEADER_BYTES, MAGIC_0, MAGIC_1, VERSION,
};
use crate::fst::{all_ones, padded_len};
use crate::layout::{
    emit, file_bytes, keys_fit, lemma_record_bytes_len, offsets_fit, record_bytes, value_bytes,
    values_fit, writable, zeros,
};
use crate::node::{lemma_body_view, lemma_child_smaller, views, Node, NodeBody};
use crate::pending::{bytes_eq, Pending};
use crate::stream::{
    enter, lemma_fits_monotonic, lemma_raw_fit, lemma_step_valid, lemma_stream_root,
    lemma_stream_valid, pending_valid, put, step, stream, StreamState,
};
use crate::traverse::{collect_raw, raw_of, raw_views, RawEntry};
use crate::{le_bytes, lemma_le_bytes_len, lemma_limits, push_le_bytes, valid_width, Integer};

verus! {

/// Why a trie could not be written.
#[derive(Debug, Clone, Copy, PartialEq, Eq, Structural)]
pub enum WriteError {
    /// A key fragment is longer than 255 bytes.
    KeyTooLong,
    /// A value does not fit in the width that is written.
    ValueTooLarge,
    /// An offset does not fit in the width that is written.
    OffsetOverflow,
}

/// A value as a number, if there is one.
pub open spec fn opt_nat(value: Option<u128>) -> Option<nat> {
    match value {
        Some(v) => Some(v as nat),
        None => None,
    }
}

/// Appends `n` zero bytes to `out`.
pub fn push_zeros(out: &mut Vec<u8>, n: usize)
    ensures
        final(out)@ == old(out)@ + zeros(n as nat),
{
    let mut i: usize = 0;
    proof {
        assert(out@ =~= old(out)@ + zeros(0));
    }
    while i < n
        invariant
            i <= n,
            out@ == old(out)@ + zeros(i as nat),
        decreases n - i,
    {
        out.push(0u8);
        proof {
            assert(out@ =~= old(out)@ + zeros((i + 1) as nat));
        }
        i += 1;
    }
}

/// Appends the bytes of `bytes` to `out`.
pub fn push_bytes(out: &mut Vec<u8>, bytes: &[u8])
    ensures
        final(out)@ == old(out)@ + bytes@,
{
    let mut i: usize = 0;
    proof {
        assert(out@ =~= old(out)@ + bytes@.subrange(0, 0));
    }
    while i < bytes.len()
        invariant
            i <= bytes.len(),
            out@ == old(out)@ + bytes@.subrange(0, i as int),
        decreases bytes.len() - i,
    {
        out.push(bytes[i]);
        proof {
            assert(out@ =~= old(out)@ + bytes@.subrange(0, i + 1));
        }
        i += 1;
    }
    proof {
        assert(bytes@.subrange(0, bytes@.len() as int) =~= bytes@);
    }
}

/// Writes the `w` little-endian bytes of `v` over the bytes of `out` from
/// `at` on.
pub fn patch_le_bytes(out: &mut Vec<u8>, at: usize, v: u128, w: usize)
    requires
        at + w <= old(out)@.len(),
    ensures
        final(out)@ == old(out)@.subrange(0, at as int) + le_bytes(v as nat, w as nat) + old(
            out,
        )@.subrange(at + w, old(out)@.len() as int),
        final(out)@.len() == old(out)@.len(),
{
    let mut x: u128 = v;
    let mut k: usize = 0;
    let n = out.len();
    let ghost mut done: Seq<u8> = Seq::empty();
    proof {
        assert(out@ =~= old(out)@.subrange(0, at as int) + done + old(out)@.subrange(
            at + k,
            old(out)@.len() as int,
        ));
        assert(done + le_bytes(x as nat, (w - k) as nat) =~= le_bytes(v as nat, w as nat));
    }
    while k < w
        invariant
            k <= w,
            at + w <= n,
            n == old(out)@.len(),
            out@.len() == old(out)@.len(),
            done.len() == k,
            done + le_bytes(x as nat, (w - k) as nat) == le_bytes(v as nat, w as nat),
            out@ == old(out)@.subrange(0, at as int) + done + old(out)@.subrange(
                at + k,
                old(out)@.len() as int,
            ),
        decreases w - k,
    {
        let b = (x % 256) as u8;
        let ghost rest = le_bytes((x / 256) as nat, (w - k - 1) as nat);
        proof {
            assert(le_bytes(x as nat, (w - k) as nat) == seq![b] + rest);
            assert(done.push(b) + rest =~= done + (seq![b] + rest));
        }
        out.set(at + k, b);
        proof {
            assert(out@ =~= old(out)@.subrange(0, at as int) + done.push(b) + old(out)@.subrange(
                at + k + 1,
                old(out)@.len() as int,
            ));
            done = done.push(b);
        }
        x = x / 256;
        k += 1;
    }
    proof {
        assert(done + le_bytes(x as nat, 0) =~= done);
    }
}

/// Appends a record to `out`: the first field, the value if there is one,
/// the length of the fragment, the fragment, and the padding.
pub fn write_record(out: &mut Vec<u8>, w: usize, next: u128, value: Option<u128>, key: &[u8])
    requires
        valid_width(w as nat),
        key@.len() <= 255,
    ensures
        final(out)@ == old(out)@ + record_bytes(w as nat, next as nat, opt_nat(value), key@),
{
    let ghost vb = value_bytes(opt_nat(value), w as nat);
    proof {
        match value {
            Some(v) => lemma_le_bytes_len(v as nat, w as nat),
            None => {},
        }
        lemma_record_len(w as nat, value is Some, key@.len());
    }
    push_le_bytes(out, next, w);
    match value {
        Some(v) => {
            push_le_bytes(out, v, w);
        },
        None => {},
    }
    proof {
        assert(out@ =~= old(out)@ + le_bytes(next as nat, w as nat) + vb);
    }
    out.push(key.len() as u8);
    push_bytes(out, key);
    let unaligned: usize = w + (if value.is_some() {
        w
    } else {
        0
    }) + 1 + key.len();
    let total = padded_len(w, value.is_some(), key.len());
    push_zeros(out, total - unaligned);
    proof {
        assert(out@ =~= old(out)@ + record_bytes(
            w as nat,
            next as nat,
            opt_nat(value),
            key@,
        ));
    }
}

/// Tells whether every fragment below `node` is short enough to be written,
/// and whether every value below it fits the width of `V`.
pub fn check<T: Integer, V: Integer>(node: &Node<T>) -> (r: (bool, bool))
    ensures
        r.0 == keys_fit(node@),
        r.1 == values_fit(node@, V::spec_size()),
    decreases node,
{
    proof {
        lemma_body_view(node.body);
    }
    match &node.body {
        NodeBody::Value(v) => (true, V::from_u128(v.to_u128()).is_some()),
        NodeBody::Children(children) => {
            let ghost cs = views(children@);
            let mut keys_ok = true;
            let mut values_ok = true;
            let mut i: usize = 0;
            while i < children.len()
                invariant
                    i <= children.len(),
                    node.body == NodeBody::Children(*children),
                    cs == views(children@),
                    keys_ok == (forall|j: int|
                        0 <= j < i ==> (#[trigger] cs[j]).key.len() <= 255 && keys_fit(cs[j])),
                    values_ok == (forall|j: int|
                        0 <= j < i ==> values_fit(#[trigger] cs[j], V::spec_size())),
                decreases children.len() - i,
            {
                let child = &children[i];
                proof {
                    lemma_child_smaller(*node, i as int);
                }
                let below = check::<T, V>(child);
                proof {
                    assert(cs[i as int] == child@);
                }
                let key_ok = child.key.len() <= 255 && below.0;
                proof {
                    if keys_ok && key_ok {
                        assert forall|j: int| 0 <= j < i + 1 implies (#[trigger] cs[j]).key.len()
                            <= 255 && keys_fit(cs[j]) by {}
                    }
                    if !key_ok {
                        assert(!(cs[i as int].key.len() <= 255 && keys_fit(cs[i as int])));
                    }
                    if values_ok && below.1 {
                        assert forall|j: int| 0 <= j < i + 1 implies values_fit(
                            #[trigger] cs[j],
                            V::spec_size(),
                        ) by {}
                    }
                    if !below.1 {
                        assert(!values_fit(cs[i as int], V::spec_size()));
                    }
                }
                keys_ok = keys_ok && key_ok;
                values_ok = values_ok && below.1;
                i += 1;
            }
            (keys_ok, values_ok)
        },
    }
}

/// The state of the writer: what is written, what waits, and the parent of
/// the run that is being written. Every offset has fitted so far.
pub open spec fn state_of(
    out: Seq<u8>,
    pending: Map<Seq<u8>, nat>,
    current: Seq<u8>,
) -> StreamState {
    StreamState { bytes: out, pending, current, fits: true }
}

/// Gets ready to write a node below `parent`. Where the last node had
/// another parent, the run before gets the record that ends it. Where the
/// record of `parent` waits for the offset of its children, it gets the
/// current offset, unless that does not fit the width.
pub fn enter_run(
    out: &mut Vec<u8>,
    pending: &mut Pending,
    current: &mut Vec<u8>,
    parent: &[u8],
    w: usize,
) -> (r: Result<(), WriteError>)
    requires
        valid_width(w as nat),
        old(pending).wf(),
        pending_valid(state_of(old(out)@, old(pending)@, old(current)@), w as nat),
    ensures
        final(pending).wf(),
        match r {
            Ok(_) => state_of(final(out)@, final(pending)@, final(current)@) == enter(
                state_of(old(out)@, old(pending)@, old(current)@),
                parent@,
                w as nat,
            ),
            Err(e) => e == WriteError::OffsetOverflow && !enter(
                state_of(old(out)@, old(pending)@, old(current)@),
                parent@,
                w as nat,
            ).fits,
        },
{
    let ghost before = state_of(out@, pending@, current@);
    proof {
        lemma_record_bytes_len(w as nat, 0, None, Seq::empty());
        lemma_limits();
    }
    if !bytes_eq(parent, current.as_slice()) {
        let none: Vec<u8> = Vec::new();
        proof {
            assert(none@ =~= Seq::<u8>::empty());
        }
        write_record(out, w, 0, None, none.as_slice());
        *current = slice_to_vec(parent);
    }
    match pending.take(parent) {
        Some(at) => {
            let pos = out.len();
            if pos as u128 >= all_ones(w) {
                return Err(WriteError::OffsetOverflow);
            }
            proof {
                assert(before.pending.contains_key(parent@));
                assert(at + w <= before.bytes.len());
            }
            patch_le_bytes(out, at, pos as u128, w);
        },
        None => {},
    }
    Ok(())
}

/// Writes the record of the node of `entry`. A node with children holds
/// zero for the time being and comes to wait for the offset of its children.
pub fn put_node<'a, T: Integer>(
    out: &mut Vec<u8>,
    pending: &mut Pending,
    entry: &RawEntry<'a, T>,
    w: usize,
)
    requires
        valid_width(w as nat),
        old(pending).wf(),
        entry@.node.key.len() <= 255,
        values_fit(entry@.node, w as nat),
    ensures
        final(pending).wf(),
        forall|current: Seq<u8>|
            state_of(final(out)@, final(pending)@, current) == put(
                state_of(old(out)@, old(pending)@, current),
                entry@,
                w as nat,
            ),
{
    let node = entry.node;
    let pos = out.len();
    proof {
        lemma_body_view(node.body);
        lemma_limits();
    }
    match &node.body {
        NodeBody::Value(v) => {
            let value = v.to_u128();
            write_record(out, w, all_ones(w), Some(value), node.key.as_slice());
            proof {
                assert(opt_nat(Some(value)) == Some(v.as_nat()));
            }
        },
        NodeBody::Children(_) => {
            let mut full = slice_to_vec(entry.parent_path.as_slice());
            push_bytes(&mut full, node.key.as_slice());
            pending.insert(full, pos);
            write_record(out, w, 0, None, node.key.as_slice());
        },
    }
}

/// The bytes of the trie with the root `root`, for the width of `V`, written
/// in one pass over its nodes.
///
/// The header is kept free while the records are written, and is filled in
/// at the end. Each run of children ends with an empty record, written when
/// the next run begins or the nodes are through. Too long a fragment
/// anywhere is reported before a value that does not fit, and that before an
/// offset that does not fit.
pub fn write_stream<T: Integer, V: Integer>(root: &Node<T>) -> (r: Result<Vec<u8>, WriteError>)
    requires
        root@.body is Children,
        root@.wf(),
    ensures
        match r {
            Ok(bytes) => writable(root@, V::spec_size()) && bytes@ == file_bytes(
                root@,
                V::spec_size(),
            ),
            Err(WriteError::KeyTooLong) => !keys_fit(root@),
            Err(WriteError::ValueTooLarge) => keys_fit(root@) && !values_fit(
                root@,
                V::spec_size(),
            ),
            Err(WriteError::OffsetOverflow) => keys_fit(root@) && values_fit(
                root@,
                V::spec_size(),
            ) && !offsets_fit(root@, V::spec_size(), header_len(V::spec_size()) as nat),
        },
{
    let w = V::size();
    let ghost wn = V::spec_size();
    proof {
        V::lemma_size();
        lemma_header_len(wn);
    }
    let fits = check::<T, V>(root);
    if !fits.0 {
        return Err(WriteError::KeyTooLong);
    }
    if !fits.1 {
        return Err(WriteError::ValueTooLarge);
    }
    let mut path: Vec<u8> = Vec::new();
    let mut entries: Vec<RawEntry<'_, T>> = Vec::new();
    collect_raw(root, &mut path, 0, &mut entries);
    let ghost es = raw_of(root@, Seq::<u8>::empty(), 0);
    proof {
        assert(path@ =~= Seq::<u8>::empty());
        assert(raw_views(entries@) =~= es);
    }
    let start: usize = if w <= HEADER_BYTES {
        HEADER_BYTES
    } else {
        w
    };
    let mut out: Vec<u8> = Vec::new();
    push_zeros(&mut out, start);
    let mut pending = Pending::new();
    let mut current: Vec<u8> = Vec::new();
    let ghost first = state_of(out@, pending@, current@);
    proof {
        assert(out@ =~= zeros(start as nat));
        assert(current@ =~= Seq::<u8>::empty());
        lemma_stream_root(first, root@, wn);
    }
    let mut k: usize = 0;
    while k < entries.len()
        invariant
            k <= entries.len(),
            valid_width(wn),
            w == wn,
            wn == V::spec_size(),
            keys_fit(root@),
            values_fit(root@, wn),
            es == raw_of(root@, Seq::<u8>::empty(), 0),
            raw_views(entries@) == es,
            pending.wf(),
            pending_valid(first, wn),
            first.fits,
            state_of(out@, pending@, current@) == stream(first, es, wn, k as int),
            stream(first, es, wn, es.len() as int).fits == offsets_fit(root@, wn, start as nat),
            start == header_len(wn),
        decreases entries.len() - k,
    {
        let entry = &entries[k];
        let ghost before = stream(first, es, wn, k as int);
        proof {
            assert(es[k as int] == entry@);
            lemma_raw_fit(root@, Seq::<u8>::empty(), 0, wn, k as int);
            lemma_stream_valid(first, es, wn, k as int);
            lemma_step_valid(before, entry@, wn);
        }
        match enter_run(&mut out, &mut pending, &mut current, entry.parent_path.as_slice(), w) {
            Ok(_) => {},
            Err(e) => {
                proof {
                    assert(!step(before, entry@, wn).fits);
                    assert(stream(first, es, wn, k + 1) == step(before, entry@, wn));
                    lemma_fits_monotonic(first, es, wn, k + 1, es.len() as int);
                }
                return Err(e);
            },
        }
        put_node(&mut out, &mut pending, entry, w);
        proof {
            assert(state_of(out@, pending@, current@) == step(before, entry@, wn));
        }
        k += 1;
    }
    let none: Vec<u8> = Vec::new();
    proof {
        assert(none@ =~= Seq::<u8>::empty());
    }
    write_record(&mut out, w, 0, None, none.as_slice());
    proof {
        assert(out@ == zeros(start as nat) + emit(root@, wn, start as nat));
    }
    out.set(0, MAGIC_0);
    out.set(1, MAGIC_1);
    out.set(2, VERSION);
    out.set(3, w as u8);
    proof {
        assert(out@ =~= file_bytes(root@, wn));
    }
    Ok(out)
}
} // verus!
