//! Classification of the prefix that two byte strings share.

use vstd::prelude::*;

verus! {

/// How two byte strings compare in dictionary order.
#[derive(Debug, Clone, Copy, PartialEq, Eq, Structural)]
pub enum Order {
    Less,
    Equal,
    Greater,
}

/// The five ways in which a `source` string can relate to a `candidate`.
#[derive(Debug, Clone, Copy, PartialEq, Eq, Structural)]
pub enum Prefix {
    /// No shared prefix at all, eg "abc" and "cdefg"; carries the dictionary
    /// order of the source against the candidate.
    NoMatch(Order),
    /// The candidate is a proper prefix of the source, eg "foo" inside "foobar".
    PerfectSubset(usize),
    /// Both share a non-empty prefix and then differ, eg "foobar" and "foojam".
    Divergent(usize),
    /// The source is a proper prefix of the candidate, eg source "abc" and
    /// candidate "abcdef".
    Incomplete(usize),
    /// Both are the same string, eg "abc" and "abc".
    Exact,
}

/// Number of leading bytes on which `a` and `b` agree.
pub open spec fn common_len(a: Seq<u8>, b: Seq<u8>) -> nat
    decreases a.len(),
{
    if a.len() > 0 && b.len() > 0 && a[0] == b[0] {
        1 + common_len(a.skip(1), b.skip(1))
    } else {
        0
    }
}

/// Dictionary order of `a` against `b`: the first differing byte decides, and
/// a proper prefix sorts before the longer string.
pub open spec fn lex_order(a: Seq<u8>, b: Seq<u8>) -> Order
    decreases a.len(),
{
    if a.len() == 0 && b.len() == 0 {
        Order::Equal
    } else if a.len() == 0 {
        Order::Less
    } else if b.len() == 0 {
        Order::Greater
    } else if a[0] < b[0] {
        Order::Less
    } else if a[0] > b[0] {
        Order::Greater
    } else {
        lex_order(a.skip(1), b.skip(1))
    }
}

/// `a` and `b` start with the same non-empty string.
pub open spec fn share_prefix(a: Seq<u8>, b: Seq<u8>) -> bool {
    exists|n: int|
        0 < n <= a.len() && n <= b.len() && #[trigger] a.subrange(0, n) == b.subrange(0, n)
}

/// The classification of `source` against `candidate`.
///
/// Equal strings are `Exact`. Strings that share no non-empty prefix (their
/// first bytes differ, or exactly one of them is empty) are `NoMatch`. Otherwise
/// the shared prefix has a length `n > 0`, and the outcome tells which of the
/// two strings, if any, ends there.
pub open spec fn classify(source: Seq<u8>, candidate: Seq<u8>) -> Prefix {
    let n = common_len(source, candidate);
    if source == candidate {
        Prefix::Exact
    } else if n == 0 {
        Prefix::NoMatch(lex_order(source, candidate))
    } else if n == source.len() {
        Prefix::Incomplete(n as usize)
    } else if n == candidate.len() {
        Prefix::PerfectSubset(n as usize)
    } else {
        Prefix::Divergent(n as usize)
    }
}

/// `common_len` is the one position up to which the strings agree and at which
/// they stop agreeing.
pub proof fn lemma_common_len(a: Seq<u8>, b: Seq<u8>)
    ensures
        common_len(a, b) <= a.len(),
        common_len(a, b) <= b.len(),
        a.subrange(0, common_len(a, b) as int) == b.subrange(0, common_len(a, b) as int),
        common_len(a, b) < a.len() && common_len(a, b) < b.len() ==> a[common_len(a, b) as int]
            != b[common_len(a, b) as int],
    decreases a.len(),
{
    if a.len() > 0 && b.len() > 0 && a[0] == b[0] {
        let a1 = a.skip(1);
        let b1 = b.skip(1);
        lemma_common_len(a1, b1);
        let n = common_len(a1, b1) as int;
        assert(a.subrange(0, n + 1) =~= seq![a[0]] + a1.subrange(0, n));
        assert(b.subrange(0, n + 1) =~= seq![b[0]] + b1.subrange(0, n));
        if n + 1 < a.len() && n + 1 < b.len() {
            assert(a1[n] == a[n + 1]);
            assert(b1[n] == b[n + 1]);
        }
    } else {
        assert(a.subrange(0, 0) =~= b.subrange(0, 0));
    }
}

/// A position up to which the strings agree, and at which they stop agreeing or
/// one of them ends, is `common_len`.
pub proof fn lemma_common_len_unique(a: Seq<u8>, b: Seq<u8>, n: int)
    requires
        0 <= n <= a.len(),
        n <= b.len(),
        forall|j: int| 0 <= j < n ==> a[j] == b[j],
        n == a.len() || n == b.len() || a[n] != b[n],
    ensures
        common_len(a, b) == n,
    decreases a.len(),
{
    if n > 0 {
        let a1 = a.skip(1);
        let b1 = b.skip(1);
        assert(a[0] == b[0]);
        assert forall|j: int| 0 <= j < n - 1 implies a1[j] == b1[j] by {
            assert(a1[j] == a[j + 1]);
            assert(b1[j] == b[j + 1]);
        }
        lemma_common_len_unique(a1, b1, n - 1);
    }
}

/// Strings share a non-empty prefix exactly when both are non-empty and start
/// with the same byte, that is when `common_len` is positive.
pub proof fn lemma_share_prefix(a: Seq<u8>, b: Seq<u8>)
    ensures
        share_prefix(a, b) <==> common_len(a, b) > 0,
        share_prefix(a, b) <==> a.len() > 0 && b.len() > 0 && a[0] == b[0],
{
    if share_prefix(a, b) {
        let n = choose|n: int|
            0 < n <= a.len() && n <= b.len() && #[trigger] a.subrange(0, n) == b.subrange(0, n);
        assert(a.subrange(0, n)[0] == b.subrange(0, n)[0]);
    }
    if a.len() > 0 && b.len() > 0 && a[0] == b[0] {
        assert(a.subrange(0, 1) =~= b.subrange(0, 1));
    }
}

/// The dictionary order is `Equal` for equal strings only.
pub proof fn lemma_lex_order_equal(a: Seq<u8>, b: Seq<u8>)
    ensures
        lex_order(a, b) == Order::Equal <==> a == b,
    decreases a.len(),
{
    if a.len() > 0 && b.len() > 0 && a[0] == b[0] {
        lemma_lex_order_equal(a.skip(1), b.skip(1));
        if a.skip(1) == b.skip(1) {
            assert(a =~= seq![a[0]] + a.skip(1));
            assert(b =~= seq![b[0]] + b.skip(1));
        }
    } else if a.len() == 0 && b.len() == 0 {
        assert(a =~= b);
    }
}

/// Classifies the prefix that `source` and `candidate` share.
pub fn find_common_prefix(source: &[u8], candidate: &[u8]) -> (r: Prefix)
    ensures
        r == classify(source@, candidate@),
{
    let mut i: usize = 0;
    while i < source.len() && i < candidate.len() && source[i] == candidate[i]
        invariant
            i <= source.len(),
            i <= candidate.len(),
            forall|j: int| 0 <= j < i ==> source@[j] == candidate@[j],
        decreases source.len() - i,
    {
        i += 1;
    }
    proof {
        lemma_common_len_unique(source@, candidate@, i as int);
        if i == source.len() && i == candidate.len() {
            assert(source@ =~= candidate@);
        }
    }
    if i == source.len() && i == candidate.len() {
        Prefix::Exact
    } else if i == 0 {
        if source.len() == 0 {
            Prefix::NoMatch(Order::Less)
        } else if candidate.len() == 0 {
            Prefix::NoMatch(Order::Greater)
        } else if source[0] < candidate[0] {
            Prefix::NoMatch(Order::Less)
        } else {
            Prefix::NoMatch(Order::Greater)
        }
    } else if i == source.len() {
        Prefix::Incomplete(i)
    } else if i == candidate.len() {
        Prefix::PerfectSubset(i)
    } else {
        Prefix::Divergent(i)
    }
}

/// Every string is `Exact` against itself.
pub proof fn lemma_classify_same(x: Seq<u8>)
    ensures
        classify(x, x) == Prefix::Exact,
{
}

/// `Exact` is the outcome for equal strings and for no others.
pub proof fn lemma_classify_exact(source: Seq<u8>, candidate: Seq<u8>)
    ensures
        classify(source, candidate) == Prefix::Exact <==> source == candidate,
{
}

/// Unless both strings are empty, the outcome is `NoMatch(ord)` exactly when
/// the strings share no non-empty prefix and `ord` is their dictionary order.
pub proof fn lemma_classify_no_match(source: Seq<u8>, candidate: Seq<u8>, ord: Order)
    requires
        source.len() > 0 || candidate.len() > 0,
    ensures
        classify(source, candidate) == Prefix::NoMatch(ord) <==> !share_prefix(source, candidate)
            && ord == lex_order(source, candidate),
{
    lemma_share_prefix(source, candidate);
    lemma_common_len(source, candidate);
    if source == candidate {
        assert(source[0] == candidate[0]);
    }
}

/// `Incomplete(n)` says that the source is the first `n` bytes of a longer
/// candidate, and that `n` is positive.
pub proof fn lemma_classify_incomplete(source: Seq<u8>, candidate: Seq<u8>, n: usize)
    requires
        source.len() <= usize::MAX,
        candidate.len() <= usize::MAX,
        classify(source, candidate) == Prefix::Incomplete(n),
    ensures
        0 < n < candidate.len(),
        source == candidate.subrange(0, n as int),
{
    lemma_common_len(source, candidate);
    let m = common_len(source, candidate);
    assert(source.subrange(0, m as int) =~= source);
    if m == candidate.len() {
        assert(candidate.subrange(0, m as int) =~= candidate);
    }
}

/// `PerfectSubset(n)` says that the candidate is the first `n` bytes of a
/// longer source, and that `n` is positive.
pub proof fn lemma_classify_perfect_subset(source: Seq<u8>, candidate: Seq<u8>, n: usize)
    requires
        source.len() <= usize::MAX,
        candidate.len() <= usize::MAX,
        classify(source, candidate) == Prefix::PerfectSubset(n),
    ensures
        0 < n < source.len(),
        candidate == source.subrange(0, n as int),
{
    lemma_common_len(source, candidate);
    let m = common_len(source, candidate);
    assert(candidate.subrange(0, m as int) =~= candidate);
}

/// `Divergent(n)` says that the strings agree on their first `n` bytes, with
/// `n` positive, and differ in the byte that follows.
pub proof fn lemma_classify_divergent(source: Seq<u8>, candidate: Seq<u8>, n: usize)
    requires
        source.len() <= usize::MAX,
        candidate.len() <= usize::MAX,
        classify(source, candidate) == Prefix::Divergent(n),
    ensures
        0 < n < source.len(),
        n < candidate.len(),
        source.subrange(0, n as int) == candidate.subrange(0, n as int),
        source[n as int] != candidate[n as int],
{
    lemma_common_len(source, candidate);
    let m = common_len(source, candidate);
}

} // verus!
