//! The compact byte layout: a header, then records that link to the records
//! of their children.

use vstd::prelude::*;
use crate::lcp::{classify, Prefix};
use crate::{le_value, limit, valid_width};

verus! {

/// First magic byte of the header.
pub const MAGIC_0: u8 = 0xff;

/// Second magic byte of the header.
pub const MAGIC_1: u8 = 0xdf;

/// The version byte of the header.
pub const VERSION: u8 = 0x00;

/// Length of the header without its padding.
pub const HEADER_BYTES: usize = 4;

/// Number of zero bytes that bring a length `n` up to a multiple of `w`.
pub open spec fn pad(n: nat, w: nat) -> nat {
    if n % w == 0 {
        0
    } else {
        (w - n % w) as nat
    }
}

/// `n` rounded up to a multiple of `w`.
pub open spec fn align_up(n: nat, w: nat) -> nat {
    n + pad(n, w)
}

/// Offset of the first record: the header, padded to the width.
pub open spec fn header_len(w: nat) -> int {
    align_up(4, w) as int
}

/// The three meanings of the first field of a record.
pub enum Slot {
    /// The record ends a run of siblings.
    Empty,
    /// The record has children; their run starts at this offset.
    Child(nat),
    /// The record carries a value.
    Terminal,
}

/// What the first field of a record means when it holds `raw` in `w` bytes:
/// zero ends a run, all bits set marks a value, and anything else is the
/// offset of the first child.
pub open spec fn slot(raw: nat, w: nat) -> Slot {
    if raw == 0 {
        Slot::Empty
    } else if raw + 1 == limit(w) {
        Slot::Terminal
    } else {
        Slot::Child(raw)
    }
}

/// A record as read from the bytes.
pub struct RecordView {
    /// Meaning of the first field.
    pub slot: Slot,
    /// The value, for a record that carries one; zero otherwise.
    pub value: nat,
    /// The key fragment.
    pub key: Seq<u8>,
    /// Length of the record with its padding.
    pub len: nat,
}

/// Length of a record with a fragment of `klen` bytes, with or without a
/// value, padded to the width.
pub open spec fn record_len(w: nat, terminal: bool, klen: nat) -> nat {
    align_up(w + (if terminal { w } else { 0 }) + 1 + klen, w)
}

/// The record that starts at `off`, if the bytes hold all of it.
pub open spec fn record_at(data: Seq<u8>, w: nat, off: int) -> Option<RecordView> {
    if off < 0 || off + w > data.len() {
        None
    } else {
        let s = slot(le_value(data.subrange(off, off + w)), w);
        let kpos = off + w + (if s is Terminal { w } else { 0 });
        if kpos + 1 > data.len() {
            None
        } else {
            let klen = data[kpos] as nat;
            let len = record_len(w, s is Terminal, klen);
            if off + len > data.len() {
                None
            } else {
                Some(
                    RecordView {
                        slot: s,
                        value: if s is Terminal {
                            le_value(data.subrange(off + w, off + w + w))
                        } else {
                            0
                        },
                        key: data.subrange(kpos + 1, kpos + 1 + klen),
                        len,
                    },
                )
            }
        }
    }
}

/// The value found for `q` by walking the run of sibling records that starts
/// at `off`.
///
/// A record that ends the run, or that the bytes do not hold in full, ends
/// the walk without a value. A record with a value answers if its fragment is
/// all of `q`. A record with children whose fragment is a prefix of `q` sends
/// the walk to the run of its children, which lies further on in the bytes,
/// with what is left of `q`. Every other record is passed over.
pub open spec fn walk(data: Seq<u8>, w: nat, off: int, q: Seq<u8>) -> Option<nat>
    decreases data.len() - off,
{
    match record_at(data, w, off) {
        None => None,
        Some(rec) => match rec.slot {
            Slot::Empty => None,
            Slot::Terminal => if classify(rec.key, q) is Exact {
                Some(rec.value)
            } else if rec.len > 0 {
                walk(data, w, off + rec.len, q)
            } else {
                None
            },
            Slot::Child(c) => match classify(rec.key, q) {
                Prefix::Exact => if off < c < data.len() {
                    walk(data, w, c as int, Seq::empty())
                } else {
                    None
                },
                Prefix::Incomplete(n) => if off < c < data.len() {
                    walk(data, w, c as int, q.skip(n as int))
                } else {
                    None
                },
                _ => if rec.len > 0 {
                    walk(data, w, off + rec.len, q)
                } else {
                    None
                },
            },
        },
    }
}

/// Rounding up to a supported width reaches the next multiple of it.
pub proof fn lemma_align_up(n: nat, w: nat)
    requires
        valid_width(w),
    ensures
        n <= align_up(n, w) < n + w,
        align_up(n, w) % w == 0,
        n % w == 0 ==> align_up(n, w) == n,
{
    if w == 1 {
        assert(align_up(n, 1) % 1 == 0);
    } else if w == 2 {
        assert(align_up(n, 2) % 2 == 0);
    } else if w == 4 {
        assert(align_up(n, 4) % 4 == 0);
    } else if w == 8 {
        assert(align_up(n, 8) % 8 == 0);
    } else {
        assert(align_up(n, 16) % 16 == 0);
    }
}

/// The first record starts at offset 4, 8 or 16.
pub proof fn lemma_header_len(w: nat)
    requires
        valid_width(w),
    ensures
        header_len(w) == if w <= 4 {
            4int
        } else {
            w as int
        },
{
}

/// A record is longer than its first field, and a multiple of the width long.
pub proof fn lemma_record_len(w: nat, terminal: bool, klen: nat)
    requires
        valid_width(w),
    ensures
        record_len(w, terminal, klen) > w,
        record_len(w, terminal, klen) % w == 0,
        record_len(w, terminal, klen) < w + w + 1 + klen + w,
{
    lemma_align_up(w + (if terminal { w } else { 0 }) + 1 + klen, w);
}

} // verus!
