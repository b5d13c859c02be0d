use dbdb::error::DbError;
use dbdb::tree::{compare_keys, KeyOrder};

#[test]
fn keys_are_ordered_byte_by_byte() {
    assert_eq!(KeyOrder::Equal, compare_keys("", ""));
    assert_eq!(KeyOrder::Less, compare_keys("", "a"));
    assert_eq!(KeyOrder::Greater, compare_keys("a", ""));
    assert_eq!(KeyOrder::Equal, compare_keys("abc", "abc"));
    assert_eq!(KeyOrder::Less, compare_keys("abc", "abd"));
    assert_eq!(KeyOrder::Greater, compare_keys("abd", "abc"));
    assert_eq!(KeyOrder::Less, compare_keys("ab", "abc"));
    assert_eq!(KeyOrder::Greater, compare_keys("b", "abc"));
    assert_eq!(KeyOrder::Less, compare_keys("Z", "a"));
    // the bytes of a character beyond ASCII stand after every ASCII byte
    assert_eq!(KeyOrder::Greater, compare_keys("\u{e9}", "z"));
    assert_eq!(KeyOrder::Less, compare_keys("\u{e9}", "\u{1F600}"));
}

#[test]
fn the_order_of_keys_is_that_of_the_strings() {
    let keys = ["", "a", "ab", "b", "\u{e9}", "z", "Z", "\u{1F600}", "aa", "hello", "hi"];
    for a in keys {
        for b in keys {
            let expected = if a < b {
                KeyOrder::Less
            } else if a > b {
                KeyOrder::Greater
            } else {
                KeyOrder::Equal
            };
            assert_eq!(expected, compare_keys(a, b));
        }
    }
}

#[test]
fn every_error_says_what_failed() {
    assert_eq!("a record could not be encoded or decoded", DbError::Codec.message());
    assert_eq!("an internal invariant was violated", DbError::Invariant.message());
}
