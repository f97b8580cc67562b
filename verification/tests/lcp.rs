use pathtrie::lcp::{find_common_prefix, Order, Prefix};

#[test]
fn no_match() {
    assert_eq!(
        find_common_prefix("abc".as_bytes(), "def".as_bytes()),
        Prefix::NoMatch(Order::Less)
    );

    assert_eq!(
        find_common_prefix("DEF".as_bytes(), "ABC".as_bytes()),
        Prefix::NoMatch(Order::Greater)
    );

    assert_eq!(
        find_common_prefix(" DEF".as_bytes(), "DEF".as_bytes()),
        Prefix::NoMatch(Order::Less)
    );
}

#[test]
fn perfect_subset() {
    assert_eq!(
        find_common_prefix("abcdef".as_bytes(), "abc".as_bytes()),
        Prefix::PerfectSubset(3)
    );

    assert_eq!(
        find_common_prefix("longer/test/item".as_bytes(), "longer/test".as_bytes()),
        Prefix::PerfectSubset(11)
    );
}

#[test]
fn divergent() {
    assert_eq!(
        find_common_prefix("a/b/c".as_bytes(), "a/b/d".as_bytes()),
        Prefix::Divergent(4)
    );
}

#[test]
fn incomplete() {
    assert_eq!(
        find_common_prefix("a/b/c".as_bytes(), "a/b/c/d".as_bytes()),
        Prefix::Incomplete(5)
    );
}

#[test]
fn exact() {
    assert_eq!(
        find_common_prefix("a/b/c".as_bytes(), "a/b/c".as_bytes()),
        Prefix::Exact
    );
}

#[test]
fn exact_for_every_string_against_itself() {
    for s in ["", "a", "ab", "a/b/c", "\u{0}"] {
        assert_eq!(find_common_prefix(s.as_bytes(), s.as_bytes()), Prefix::Exact);
    }
}

#[test]
fn empty_against_non_empty_is_no_match() {
    assert_eq!(find_common_prefix(b"", b"abc"), Prefix::NoMatch(Order::Less));
    assert_eq!(find_common_prefix(b"abc", b""), Prefix::NoMatch(Order::Greater));
}

#[test]
fn divergent_after_one_byte() {
    assert_eq!(find_common_prefix(b"ab", b"ac"), Prefix::Divergent(1));
}
