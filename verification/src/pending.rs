//! The records that wait for the offset of their children, by the key that
//! leads to them.

use vstd::prelude::*;

verus! {

/// Tells whether two byte strings are the same.
pub fn bytes_eq(a: &[u8], b: &[u8]) -> (r: bool)
    ensures
        r == (a@ == b@),
{
    if a.len() != b.len() {
        return false;
    }
    let mut i: usize = 0;
    while i < a.len()
        invariant
            i <= a.len(),
            a.len() == b.len(),
            forall|j: int| 0 <= j < i ==> a@[j] == b@[j],
        decreases a.len() - i,
    {
        if a[i] != b[i] {
            return false;
        }
        i += 1;
    }
    proof {
        assert(a@ =~= b@);
    }
    true
}

/// A small map from keys to offsets.
pub struct Pending {
    keys: Vec<Vec<u8>>,
    offsets: Vec<usize>,
}

impl Pending {
    /// One offset for each key, and no key twice.
    pub closed spec fn wf(&self) -> bool {
        &&& self.keys@.len() == self.offsets@.len()
        &&& forall|i: int, j: int|
            0 <= i < self.keys@.len() && 0 <= j < self.keys@.len() && i != j ==> (
            #[trigger] self.keys@[i])@ != (#[trigger] self.keys@[j])@
    }

    /// The position of `k` among the keys.
    pub closed spec fn position(&self, k: Seq<u8>) -> int {
        choose|i: int| 0 <= i < self.keys@.len() && (#[trigger] self.keys@[i])@ == k
    }

    /// The keys with their offsets.
    pub closed spec fn view(&self) -> Map<Seq<u8>, nat> {
        Map::new(
            |k: Seq<u8>|
                exists|i: int| 0 <= i < self.keys@.len() && (#[trigger] self.keys@[i])@ == k,
            |k: Seq<u8>| self.offsets@[self.position(k)] as nat,
        )
    }

    /// At a position stands its key with its offset.
    proof fn lemma_at(&self, i: int)
        requires
            self.wf(),
            0 <= i < self.keys@.len(),
        ensures
            self@.contains_key(self.keys@[i]@),
            self.position(self.keys@[i]@) == i,
            self@[self.keys@[i]@] == self.offsets@[i],
    {
        let k = self.keys@[i]@;
        let j = self.position(k);
        assert(self.keys@[j]@ == k);
    }

    /// A map without keys.
    pub fn new() -> (r: Self)
        ensures
            r.wf(),
            r@ == Map::<Seq<u8>, nat>::empty(),
    {
        let r = Pending { keys: Vec::new(), offsets: Vec::new() };
        proof {
            assert(r@ =~= Map::<Seq<u8>, nat>::empty());
        }
        r
    }

    /// The position of `key`, if it is among the keys.
    fn find(&self, key: &[u8]) -> (r: Option<usize>)
        requires
            self.wf(),
        ensures
            match r {
                Some(i) => i < self.keys@.len() && self.keys@[i as int]@ == key@,
                None => !self@.contains_key(key@),
            },
    {
        let mut i: usize = 0;
        while i < self.keys.len()
            invariant
                i <= self.keys.len(),
                forall|j: int| 0 <= j < i ==> (#[trigger] self.keys@[j])@ != key@,
            decreases self.keys.len() - i,
        {
            if bytes_eq(self.keys[i].as_slice(), key) {
                return Some(i);
            }
            i += 1;
        }
        None
    }

    /// Gives `key` the offset `at`, in place of the offset it had, if any.
    pub fn insert(&mut self, key: Vec<u8>, at: usize)
        requires
            old(self).wf(),
        ensures
            final(self).wf(),
            final(self)@ == old(self)@.insert(key@, at as nat),
    {
        match self.find(key.as_slice()) {
            Some(i) => {
                self.offsets.set(i, at);
                proof {
                    assert forall|k: Seq<u8>| #[trigger]
                        self@.contains_key(k) == old(self)@.insert(key@, at as nat).contains_key(
                            k,
                        ) by {
                        if k == key@ {
                            assert(self.keys@[i as int]@ == k);
                        }
                    }
                    assert forall|k: Seq<u8>| #[trigger] self@.contains_key(k) implies self@[k]
                        == old(self)@.insert(key@, at as nat)[k] by {
                        let j = self.position(k);
                        assert(self.keys@[j]@ == k);
                        assert(old(self).position(k) == j);
                        if k == key@ {
                            assert(j == i);
                        }
                    }
                    assert(self@ =~= old(self)@.insert(key@, at as nat));
                }
            },
            None => {
                self.keys.push(key);
                self.offsets.push(at);
                proof {
                    let n = old(self).keys@.len() as int;
                    assert forall|i: int, j: int|
                        0 <= i < self.keys@.len() && 0 <= j < self.keys@.len() && i != j implies (
                    #[trigger] self.keys@[i])@ != (#[trigger] self.keys@[j])@ by {
                        if i < n {
                            assert(self.keys@[i] == old(self).keys@[i]);
                        }
                        if j < n {
                            assert(self.keys@[j] == old(self).keys@[j]);
                        }
                    }
                    assert forall|k: Seq<u8>| #[trigger]
                        self@.contains_key(k) == old(self)@.insert(key@, at as nat).contains_key(
                            k,
                        ) by {
                        if old(self)@.contains_key(k) {
                            let j = old(self).position(k);
                            assert(old(self).keys@[j]@ == k);
                            assert(self.keys@[j]@ == k);
                        }
                        if k == key@ {
                            assert(self.keys@[n]@ == k);
                        }
                        if self@.contains_key(k) {
                            let j = self.position(k);
                            assert(self.keys@[j]@ == k);
                            if j < n {
                                assert(old(self).keys@[j]@ == k);
                            }
                        }
                    }
                    assert forall|k: Seq<u8>| #[trigger] self@.contains_key(k) implies self@[k]
                        == old(self)@.insert(key@, at as nat)[k] by {
                        let j = self.position(k);
                        assert(self.keys@[j]@ == k);
                        if j < n {
                            assert(old(self).keys@[j]@ == k);
                            old(self).lemma_at(j);
                        }
                    }
                    assert(self@ =~= old(self)@.insert(key@, at as nat));
                }
            },
        }
    }

    /// Takes `key` out and gives the offset that it had, if it had one.
    pub fn take(&mut self, key: &[u8]) -> (r: Option<usize>)
        requires
            old(self).wf(),
        ensures
            final(self).wf(),
            match r {
                Some(at) => old(self)@.contains_key(key@) && old(self)@[key@] == at && final(self)@
                    == old(self)@.remove(key@),
                None => !old(self)@.contains_key(key@) && final(self)@ == old(self)@,
            },
    {
        match self.find(key) {
            Some(i) => {
                proof {
                    self.lemma_at(i as int);
                }
                let at = self.offsets[i];
                self.keys.remove(i);
                self.offsets.remove(i);
                proof {
                    let n = self.keys@.len() as int;
                    assert forall|a: int| 0 <= a < n implies #[trigger] self.keys@[a] == old(
                        self,
                    ).keys@[if a < i {
                        a
                    } else {
                        a + 1
                    }] && self.offsets@[a] == old(self).offsets@[if a < i {
                        a
                    } else {
                        a + 1
                    }] by {}
                    assert forall|a: int, b: int| 0 <= a < n && 0 <= b < n && a != b implies (
                    #[trigger] self.keys@[a])@ != (#[trigger] self.keys@[b])@ by {
                        let a2 = if a < i {
                            a
                        } else {
                            a + 1
                        };
                        let b2 = if b < i {
                            b
                        } else {
                            b + 1
                        };
                        assert(self.keys@[a] == old(self).keys@[a2]);
                        assert(self.keys@[b] == old(self).keys@[b2]);
                    }
                    assert forall|k: Seq<u8>| #[trigger]
                        self@.contains_key(k) == old(self)@.remove(key@).contains_key(k) by {
                        if self@.contains_key(k) {
                            let a = self.position(k);
                            assert(self.keys@[a]@ == k);
                            let a2 = if a < i {
                                a
                            } else {
                                a + 1
                            };
                            assert(old(self).keys@[a2]@ == k);
                        }
                        if old(self)@.contains_key(k) && k != key@ {
                            let a2 = old(self).position(k);
                            assert(old(self).keys@[a2]@ == k);
                            let a = if a2 < i {
                                a2
                            } else {
                                a2 - 1
                            };
                            assert(self.keys@[a]@ == k);
                        }
                    }
                    assert forall|k: Seq<u8>| #[trigger] self@.contains_key(k) implies self@[k]
                        == old(self)@.remove(key@)[k] by {
                        let a = self.position(k);
                        assert(self.keys@[a]@ == k);
                        let a2 = if a < i {
                            a
                        } else {
                            a + 1
                        };
                        assert(old(self).keys@[a2]@ == k);
                        old(self).lemma_at(a2);
                    }
                    assert(self@ =~= old(self)@.remove(key@));
                }
                Some(at)
            },
            None => None,
        }
    }
}

} // verus!
