//! The reader of the compact byte layout: point lookups straight from the
//! bytes.

use vstd::prelude::*;
use vstd::slice::slice_subrange;
use core::marker::PhantomData;
use crate::format::{
    header_len, lemma_record_len, record_at, record_len, slot, walk, RecordView, Slot, HEADER_BYTES,
    MAGIC_0, MAGIC_1, VERSION,
};
use crate::lcp::{find_common_prefix, Prefix};
use crate::{lemma_le_value_bound, lemma_limits, limit, read_le_value, valid_width, Integer};

verus! {

/// Why a buffer was not accepted.
#[derive(Debug)]
pub enum Error {
    /// The buffer does not start with the magic bytes; holds what it starts
    /// with.
    InvalidMagicBytes([u8; 2]),
    /// The buffer was written in another version of the layout; holds the
    /// version byte found.
    InvalidVersion(u8),
    /// The buffer was written for another width; holds the width found and
    /// the width asked for.
    InvalidAlignment(u8, usize),
    /// The buffer is shorter than a header.
    TooSmall,
}

/// A compact index over a borrowed buffer.
pub struct Fst<'data, T> {
    data: &'data [u8],
    marker: PhantomData<T>,
}

/// The fixed part of the header.
#[derive(Debug)]
pub struct Header {
    pub magic_bytes: [u8; 2],
    pub version: u8,
    pub alignment: u8,
}

/// The first field of a record, as stored.
#[derive(Debug)]
pub struct NodeOffset<T: Integer>(pub T);

impl<T: Integer> Clone for NodeOffset<T> {
    fn clone(&self) -> (r: Self)
        ensures
            r == *self,
    {
        NodeOffset(self.0)
    }
}

impl<T: Integer> Copy for NodeOffset<T> {

}

/// The first field of a record, by its meaning.
#[derive(Debug)]
pub enum OffsetKind {
    /// The record ends a run of siblings.
    Empty,
    /// The record has children; their run starts at this offset.
    Offset(u128),
    /// The record carries a value.
    Terminating,
}

/// What a record stands for.
pub enum Value<'a, T> {
    /// The end of a run.
    End,
    /// A fragment with children.
    Key(&'a [u8]),
    /// A fragment with a value.
    Final(&'a [u8], T),
}

/// A record of the buffer.
pub struct Node<'a, T: Integer> {
    next_node: NodeOffset<T>,
    raw_value: Option<T>,
    key: &'a [u8],
    len: usize,
}

impl OffsetKind {
    /// The meaning, as the layout names it.
    pub open spec fn view(&self) -> Slot {
        match self {
            OffsetKind::Empty => Slot::Empty,
            OffsetKind::Offset(c) => Slot::Child(*c as nat),
            OffsetKind::Terminating => Slot::Terminal,
        }
    }
}

/// The number that has all bits of `w` bytes set.
pub fn all_ones(w: usize) -> (r: u128)
    requires
        valid_width(w as nat),
    ensures
        r + 1 == limit(w as nat),
{
    proof {
        lemma_limits();
    }
    if w == 1 {
        0xff
    } else if w == 2 {
        0xffff
    } else if w == 4 {
        0xffff_ffff
    } else if w == 8 {
        0xffff_ffff_ffff_ffff
    } else {
        0xffff_ffff_ffff_ffff_ffff_ffff_ffff_ffff
    }
}

/// Length of a record with a fragment of `klen` bytes, padded to the width.
pub fn padded_len(w: usize, terminal: bool, klen: usize) -> (r: usize)
    requires
        valid_width(w as nat),
        klen <= 255,
    ensures
        r == record_len(w as nat, terminal, klen as nat),
{
    let unaligned: usize = w + (if terminal {
        w
    } else {
        0
    }) + 1 + klen;
    let rem: usize = unaligned % w;
    if rem == 0 {
        unaligned
    } else {
        unaligned + (w - rem)
    }
}

impl<T: Integer> NodeOffset<T> {
    /// Tells the three meanings of the field apart.
    pub fn get(self) -> (r: OffsetKind)
        ensures
            r@ == slot(self.0.as_nat(), T::spec_size()),
    {
        proof {
            T::lemma_size();
        }
        let raw = self.0.to_u128();
        if raw == 0 {
            OffsetKind::Empty
        } else if raw == all_ones(T::size()) {
            OffsetKind::Terminating
        } else {
            OffsetKind::Offset(raw)
        }
    }
}

impl<'a, T: Integer> Node<'a, T> {
    /// The record as the layout describes it.
    pub closed spec fn view(&self) -> RecordView {
        RecordView {
            slot: slot(self.next_node.0.as_nat(), T::spec_size()),
            value: match self.raw_value {
                Some(v) => v.as_nat(),
                None => 0,
            },
            key: self.key@,
            len: self.len as nat,
        }
    }

    /// The record carries a value exactly when it is marked so.
    #[verifier::type_invariant]
    spec fn well_formed(&self) -> bool {
        self.raw_value is Some <==> slot(self.next_node.0.as_nat(), T::spec_size()) is Terminal
    }

    /// The first field of the record.
    pub fn next_node(&self) -> (r: NodeOffset<T>)
        ensures
            slot(r.0.as_nat(), T::spec_size()) == self@.slot,
    {
        self.next_node
    }

    /// What the record stands for: the end of a run, a fragment with
    /// children, or a fragment with its value.
    pub fn value(&self) -> (r: Value<'a, T>)
        ensures
            match r {
                Value::End => self@.slot is Empty,
                Value::Key(k) => self@.slot is Child && k@ == self@.key,
                Value::Final(k, v) => self@.slot is Terminal && k@ == self@.key && v.as_nat()
                    == self@.value,
            },
    {
        proof {
            use_type_invariant(self);
        }
        match self.next_node.get() {
            OffsetKind::Offset(_) => Value::Key(self.key),
            OffsetKind::Terminating => match self.raw_value {
                Some(v) => Value::Final(self.key, v),
                None => Value::End,
            },
            OffsetKind::Empty => Value::End,
        }
    }

    /// Length of the record in the buffer, with its padding.
    pub fn len(&self) -> (r: usize)
        ensures
            r == self@.len,
    {
        self.len
    }
}

impl<'data, T: Integer> Fst<'data, T> {
    /// The bytes of the buffer.
    pub closed spec fn bytes(&self) -> Seq<u8> {
        self.data@
    }

    /// Accepts a buffer that starts with a header for the width of `T`.
    ///
    /// A buffer of less than four bytes is too small. Otherwise the first two
    /// bytes have to be the magic bytes, then the third byte has to be the
    /// version of the layout, and then the fourth byte has to be the width of
    /// `T`. The first of these that fails is reported.
    pub fn new(data: &'data [u8]) -> (r: Result<Fst<'data, T>, Error>)
        ensures
            data@.len() < 4 ==> r matches Err(Error::TooSmall),
            data@.len() >= 4 && (data@[0] != MAGIC_0 || data@[1] != MAGIC_1) ==> (r matches Err(
                Error::InvalidMagicBytes(m),
            ) && m@ == seq![data@[0], data@[1]]),
            data@.len() >= 4 && data@[0] == MAGIC_0 && data@[1] == MAGIC_1 && data@[2] != VERSION
                ==> (r matches Err(Error::InvalidVersion(found)) && found == data@[2]),
            data@.len() >= 4 && data@[0] == MAGIC_0 && data@[1] == MAGIC_1 && data@[2] == VERSION
                && data@[3] != T::spec_size() ==> (r matches Err(
                Error::InvalidAlignment(found, expected),
            ) && found == data@[3] && expected == T::spec_size()),
            data@.len() >= 4 && data@[0] == MAGIC_0 && data@[1] == MAGIC_1 && data@[2] == VERSION
                && data@[3] == T::spec_size() ==> (r matches Ok(f) && f.bytes() == data@),
    {
        if data.len() < HEADER_BYTES {
            return Err(Error::TooSmall);
        }
        let header = Header {
            magic_bytes: [data[0], data[1]],
            version: data[2],
            alignment: data[3],
        };
        if header.magic_bytes[0] != MAGIC_0 || header.magic_bytes[1] != MAGIC_1 {
            proof {
                assert(header.magic_bytes@ =~= seq![data@[0], data@[1]]);
            }
            return Err(Error::InvalidMagicBytes(header.magic_bytes));
        }
        if header.version != VERSION {
            return Err(Error::InvalidVersion(header.version));
        }
        proof {
            T::lemma_size();
        }
        if header.alignment as usize != T::size() {
            return Err(Error::InvalidAlignment(header.alignment, T::size()));
        }
        Ok(Fst { data, marker: PhantomData })
    }

    /// The record that starts at `offset`, if the buffer holds all of it.
    pub fn node_at(&self, offset: usize) -> (r: Option<Node<'data, T>>)
        ensures
            match r {
                Some(n) => record_at(self.bytes(), T::spec_size(), offset as int) == Some(n@),
                None => record_at(self.bytes(), T::spec_size(), offset as int) is None,
            },
    {
        let w = T::size();
        let data = self.data;
        proof {
            T::lemma_size();
            lemma_limits();
        }
        if offset > data.len() || data.len() - offset < w {
            return None;
        }
        let avail = data.len() - offset;
        let raw = read_le_value(data, offset, w);
        proof {
            lemma_le_value_bound(data@.subrange(offset as int, offset + w));
        }
        let next = match T::from_u128(raw) {
            Some(x) => x,
            None => {
                return None;
            },
        };
        let next_node = NodeOffset(next);
        let terminal = match next_node.get() {
            OffsetKind::Terminating => true,
            _ => false,
        };
        let kpos = if terminal {
            w + w
        } else {
            w
        };
        if avail < kpos + 1 {
            return None;
        }
        let klen = data[offset + kpos] as usize;
        let len = padded_len(w, terminal, klen);
        proof {
            lemma_record_len(w as nat, terminal, klen as nat);
        }
        if avail < len {
            return None;
        }
        let raw_value = if terminal {
            let v = read_le_value(data, offset + w, w);
            proof {
                lemma_le_value_bound(data@.subrange(offset + w, offset + w + w));
            }
            T::from_u128(v)
        } else {
            None
        };
        let key = slice_subrange(data, offset + kpos + 1, offset + kpos + 1 + klen);
        Some(Node { next_node, raw_value, key, len })
    }

    /// The record that follows the record `node` at `offset`.
    pub fn node_after(&self, offset: usize, node: &Node<'data, T>) -> (r: Option<Node<'data, T>>)
        ensures
            match r {
                Some(n) => record_at(self.bytes(), T::spec_size(), offset + node@.len) == Some(
                    n@,
                ),
                None => record_at(self.bytes(), T::spec_size(), offset + node@.len) is None,
            },
    {
        proof {
            T::lemma_size();
        }
        let len = node.len();
        if offset > self.data.len() || self.data.len() - offset < len {
            return None;
        }
        self.node_at(offset + len)
    }

    /// The value of `key`, if the index holds one: what walking the records
    /// from the first one after the header finds.
    pub fn get(&self, key: &[u8]) -> (r: Option<T>)
        ensures
            match walk(self.bytes(), T::spec_size(), header_len(T::spec_size()), key@) {
                Some(v) => r matches Some(x) && x.as_nat() == v,
                None => r is None,
            },
    {
        let w = T::size();
        proof {
            T::lemma_size();
            crate::format::lemma_header_len(w as nat);
        }
        let start: usize = if w <= HEADER_BYTES {
            HEADER_BYTES
        } else {
            w
        };
        let mut offset: usize = start;
        let mut rest: &[u8] = key;
        let mut current_node = match self.node_at(offset) {
            Some(n) => n,
            None => {
                return None;
            },
        };
        loop
            invariant
                record_at(self.bytes(), T::spec_size(), offset as int) == Some(current_node@),
                walk(self.bytes(), T::spec_size(), offset as int, rest@) == walk(
                    self.bytes(),
                    T::spec_size(),
                    header_len(T::spec_size()),
                    key@,
                ),
            decreases self.bytes().len() - offset,
        {
            proof {
                assert(self.data@.len() == self.data.len());
                T::lemma_size();
                lemma_record_len(
                    T::spec_size(),
                    current_node@.slot is Terminal,
                    self.bytes()[offset + T::spec_size() + if current_node@.slot is Terminal {
                        T::spec_size()
                    } else {
                        0
                    }] as nat,
                );
            }
            // Try to get matching value for key parts
            let (fragment, terminal): (&[u8], Option<T>) = match current_node.value() {
                Value::Key(k) => (k, None),
                Value::Final(k, v) => (k, Some(v)),
                Value::End => {
                    return None;
                },
            };
            proof {
                assert(fragment@.len() == fragment.len());
                assert(rest@.len() == rest.len());
                crate::model::lemma_classify(fragment@, rest@);
                assert(rest@.subrange(rest@.len() as int, rest@.len() as int)
                    =~= Seq::<u8>::empty());
            }
            let descend = match find_common_prefix(fragment, rest) {
                Prefix::NoMatch(_) | Prefix::PerfectSubset(_) | Prefix::Divergent(_) => None,
                Prefix::Incomplete(count) => if terminal.is_some() {
                    None
                } else {
                    Some(count)
                },
                Prefix::Exact => match terminal {
                    Some(v) => {
                        return Some(v);
                    },
                    // Should be no more key left!
                    None => Some(rest.len()),
                },
            };
            let next = match descend {
                None => {
                    // Try the next node
                    let next = self.node_after(offset, &current_node);
                    offset = offset + current_node.len();
                    next
                },
                Some(count) => {
                    match current_node.next_node().get() {
                        OffsetKind::Offset(success_offset) => {
                            if success_offset <= offset as u128 || success_offset
                                >= self.data.len() as u128 {
                                return None;
                            }
                            proof {
                                assert(rest@.skip(count as int) =~= rest@.subrange(
                                    count as int,
                                    rest@.len() as int,
                                ));
                            }
                            rest = slice_subrange(rest, count, rest.len());
                            offset = success_offset as usize;
                            self.node_at(offset)
                        },
                        _ => {
                            return None;
                        },
                    }
                },
            };
            current_node = match next {
                Some(n) => n,
                None => {
                    return None;
                },
            };
        }
    }
}

} // verus!
