use ledger_storage::key::{is_valid_segment, Key, KeyError, KEY_SEGMENT_SEPARATOR};
use ledger_storage::text::{chars_of, starts_with, str_eq, str_lt, str_relation, u64_to_decimal, Relation};
use ledger_storage::types::BlockHeight;

#[test]
fn separator_is_slash() {
    assert_eq!(KEY_SEGMENT_SEPARATOR, '/');
}

#[test]
fn parse_splits_at_separators() {
    let key = Key::parse("a/bc/d").unwrap();
    assert_eq!(key.len(), 3);
    assert_eq!(key.to_string(), "a/bc/d");
}

#[test]
fn parse_single_segment() {
    let key = Key::parse("subspace").unwrap();
    assert_eq!(key.len(), 1);
    assert_eq!(key.to_string(), "subspace");
}

#[test]
fn key_round_trip() {
    let key = Key::parse("x")
        .unwrap()
        .push(&"y".to_owned())
        .unwrap()
        .push(&BlockHeight(17))
        .unwrap();
    assert_eq!(key.to_string(), "x/y/17");
    let back = Key::parse(&key.to_string()).unwrap();
    assert_eq!(back, key);
}

#[test]
fn key_round_trip_non_ascii() {
    let key = Key::parse("é/日本/z").unwrap();
    assert_eq!(key.len(), 3);
    assert_eq!(key.to_string(), "é/日本/z");
    assert_eq!(Key::parse(&key.to_string()).unwrap(), key);
}

#[test]
fn distinct_keys_have_distinct_strings() {
    let ab_c = Key::parse("ab").unwrap().push(&"c".to_owned()).unwrap();
    let a_bc = Key::parse("a").unwrap().push(&"bc".to_owned()).unwrap();
    let abc = Key::parse("abc").unwrap();
    assert_ne!(ab_c, a_bc);
    assert_ne!(ab_c.to_string(), a_bc.to_string());
    assert_ne!(ab_c.to_string(), abc.to_string());
    assert_ne!(a_bc.to_string(), abc.to_string());
}

#[test]
fn parse_rejects_empty_string() {
    assert_eq!(Key::parse(""), Err(KeyError::ParseError("".to_owned())));
}

#[test]
fn parse_rejects_empty_segments() {
    assert_eq!(Key::parse("a//b"), Err(KeyError::ParseError("a//b".to_owned())));
    assert_eq!(Key::parse("/a"), Err(KeyError::ParseError("/a".to_owned())));
    assert_eq!(Key::parse("a/"), Err(KeyError::ParseError("a/".to_owned())));
    assert_eq!(Key::parse("/"), Err(KeyError::ParseError("/".to_owned())));
}

#[test]
fn push_appends_a_segment_and_leaves_the_key_alone() {
    let base = Key::parse("a").unwrap();
    let longer = base.push(&"b".to_owned()).unwrap();
    assert_eq!(base.to_string(), "a");
    assert_eq!(longer.to_string(), "a/b");
}

#[test]
fn push_rejects_separator() {
    let base = Key::parse("a").unwrap();
    assert_eq!(
        base.push(&"b/c".to_owned()),
        Err(KeyError::InvalidKeySeg("b/c".to_owned()))
    );
}

#[test]
fn push_rejects_empty_segment() {
    let base = Key::parse("a").unwrap();
    assert_eq!(
        base.push(&"".to_owned()),
        Err(KeyError::InvalidKeySeg("".to_owned()))
    );
}

#[test]
fn join_concatenates() {
    let a = Key::parse("a/b").unwrap();
    let b = Key::parse("c/d").unwrap();
    let joined = a.join(&b);
    assert_eq!(joined.len(), 4);
    assert_eq!(joined.to_string(), "a/b/c/d");
    assert_eq!(a.to_string(), "a/b");
    assert_eq!(b.to_string(), "c/d");
}

#[test]
fn clone_is_equal() {
    let a = Key::parse("a/b").unwrap();
    assert_eq!(a.clone(), a);
}

#[test]
fn valid_segments() {
    assert!(is_valid_segment("tree"));
    assert!(!is_valid_segment(""));
    assert!(!is_valid_segment("a/b"));
    assert!(!is_valid_segment("/"));
}

#[test]
fn height_as_segment() {
    let key = Key::parse("h").unwrap().push(&BlockHeight(0)).unwrap();
    assert_eq!(key.to_string(), "h/0");
    let key = Key::parse("h").unwrap().push(&BlockHeight(u64::MAX)).unwrap();
    assert_eq!(key.to_string(), "h/18446744073709551615");
}

#[test]
fn decimal_numerals() {
    assert_eq!(u64_to_decimal(0), "0");
    assert_eq!(u64_to_decimal(7), "7");
    assert_eq!(u64_to_decimal(10), "10");
    assert_eq!(u64_to_decimal(905), "905");
    assert_eq!(u64_to_decimal(1234567890), "1234567890");
    assert_eq!(u64_to_decimal(u64::MAX), "18446744073709551615");
}

#[test]
fn string_order_is_lexicographic() {
    assert_eq!(str_relation("a", "b"), Relation::Less);
    assert_eq!(str_relation("b", "a"), Relation::Greater);
    assert_eq!(str_relation("abc", "abc"), Relation::Equal);
    assert_eq!(str_relation("", ""), Relation::Equal);
    assert_eq!(str_relation("", "a"), Relation::Less);
    assert_eq!(str_relation("ab", "abc"), Relation::Less);
    assert_eq!(str_relation("abc", "ab"), Relation::Greater);
    assert_eq!(str_relation("10/", "9/"), Relation::Less);
    assert_eq!(str_relation("5/", "50/"), Relation::Less);
    assert_eq!(str_relation("z", "é"), Relation::Less);
}

#[test]
fn string_order_agrees_with_std() {
    let words = ["", "a", "ab", "b", "5/", "50/hash", "6/", "height", "subspace/a", "é", "日"];
    for a in words {
        for b in words {
            assert_eq!(str_lt(a, b), a < b);
            assert_eq!(str_eq(a, b), a == b);
            assert_eq!(starts_with(a, b), a.starts_with(b));
        }
    }
}

#[test]
fn chars_of_a_string() {
    assert_eq!(chars_of("a/é"), vec!['a', '/', 'é']);
    assert_eq!(chars_of(""), Vec::<char>::new());
}
