use fuzzyhash::{Error, FuzzyHash};

const A: &str = "96:U57GjXnLt9co6pZwvLhJluvrszNgMFwO6MFG8SvkpjTWf:Hj3BeoEcNJ0TspgIG8SvkpjTg";
const B: &str = "96:U57GjXnLt9co6pZwvLhJluvrs1eRTxYARdEallia:Hj3BeoEcNJ0TsI9xYeia3R";

#[test]
fn compare_similar_hashes() {
    assert_eq!(FuzzyHash::compare(A, B), Ok(63));
}

#[test]
fn compare_is_symmetric() {
    let pairs = [
        (A, B),
        (
            "3072:oQGiMXTMkux9BPSd0n4bmzwuy+WAAux3i8:op1XTsbBBnnU8nAu48",
            "3072:zszq392p8xWp9+fbhBpmLOCeTFvm7RAkEmq8RPFc21xgpYn9R:Agse0Yb//hu7RAkc87go9",
        ),
        ("3:YKKGhR0s/13F8KALE:YRGR/1luE", "3:YKIURFCs/13F8KALE:YTUjx1luE"),
        ("6:abcdefghijk:xyz", "3:zzz:abcdefghijkq"),
        ("", "3::"),
        ("x:a:b", "3:a:b"),
    ];
    for (a, b) in pairs {
        assert_eq!(FuzzyHash::compare(a, b), FuzzyHash::compare(b, a));
    }
}

#[test]
fn compare_scores_at_most_100() {
    let hashes = [
        A,
        B,
        "3:YKKGhR0s/13F8KALE:YRGR/1luE",
        "3:YKIURFCs/13F8KALE:YTUjx1luE",
        "6:YKIURFCs/13F8KALE:YTUjx1luE",
    ];
    for a in hashes {
        for b in hashes {
            if let Ok(v) = FuzzyHash::compare(a, b) {
                assert!(v <= 100);
            }
        }
    }
}

#[test]
fn compare_hashed_strings() {
    let first = FuzzyHash::new(b"this is our test data for a fuzzy hash comparison!");
    let second = FuzzyHash::new(b"this is my test data for a fuzzy hash comparison!");
    assert_eq!(first.to_string(), "3:YKKGhR0s/13F8KALE:YRGR/1luE");
    assert_eq!(second.to_string(), "3:YKIURFCs/13F8KALE:YTUjx1luE");
    assert_eq!(first.compare_to(&second), Some(17));
}

#[test]
fn compare_to_given_hash() {
    let fuzzy_hash = FuzzyHash::new(b"some data to hash for the purposes of running a test");
    assert_eq!(fuzzy_hash.compare_to(&"3:HEREar5MFUul0U0KMP:knl8lkKMP".into()), Some(18));
}

#[test]
fn compare_to_without_hash_is_none() {
    let empty = FuzzyHash::default();
    let other = FuzzyHash::from("3:abc:def".to_string());
    assert_eq!(empty.compare_to(&other), None);
    assert_eq!(other.compare_to(&empty), None);
}

#[test]
fn compare_empty_is_malformed() {
    assert_eq!(FuzzyHash::compare("", ""), Err(Error::MalformedInput));
    assert_eq!(FuzzyHash::compare("3:a:b", "3:a:b:c"), Err(Error::MalformedInput));
    assert_eq!(FuzzyHash::compare("3:a", "3:a:b"), Err(Error::MalformedInput));
}

#[test]
fn compare_bad_block_size() {
    assert_eq!(FuzzyHash::compare("x3:a:b", "3:a:b"), Err(Error::BlockSizeParse));
    assert_eq!(FuzzyHash::compare("3:a:b", ":a:b"), Err(Error::BlockSizeParse));
    assert_eq!(FuzzyHash::compare("4294967296:a:b", "3:a:b"), Err(Error::BlockSizeParse));
    assert_eq!(FuzzyHash::compare("-3:a:b", "3:a:b"), Err(Error::BlockSizeParse));
    assert_eq!(FuzzyHash::compare("+3:abc:d", "3:abc:d"), Ok(100));
}

#[test]
fn compare_incompatible_block_sizes() {
    assert_eq!(FuzzyHash::compare("3:a:b", "12:a:b"), Err(Error::IncompatibleBlockSizes));
    assert_eq!(FuzzyHash::compare("3:a:b", "9:a:b"), Err(Error::IncompatibleBlockSizes));
}

#[test]
fn compare_no_common_substring_on_single_path() {
    assert_eq!(
        FuzzyHash::compare("6:abcdefghijk:xyz", "3:zzz:ABCDEFGHIJK"),
        Err(Error::NoCommonSubstrings)
    );
}

#[test]
fn compare_double_block_size_path() {
    assert_eq!(FuzzyHash::compare("6:abcdefghijk:xyz", "3:zzz:abcdefghijkq"), Ok(22));
}

#[test]
fn compare_no_common_substring_on_both_paths_scores_zero() {
    assert_eq!(FuzzyHash::compare("3:abcdefghijk:lmnopqrstu", "3:ABCDEFGHIJK:LMNOPQRSTU"), Ok(0));
}

#[test]
fn compare_eliminates_long_runs() {
    assert_eq!(FuzzyHash::compare("3:AAAAAAAAAAB:x", "3:AAAB:y"), Ok(100));
    assert_eq!(FuzzyHash::compare("3:AAAAAAAB:x", "3:AAAAB:y"), Ok(100));
    assert_eq!(FuzzyHash::compare("3:AAB:x", "3:AAAB:y"), Ok(0));
}

#[test]
fn compare_signature_too_long_scores_zero() {
    let long: String = "abcdefghij".repeat(7);
    let a = format!("3:{}:x", long);
    let b = format!("3:{}Z:y", long);
    assert_eq!(FuzzyHash::compare(&a, &b), Ok(0));
}

#[test]
fn error_descriptions() {
    assert_eq!(
        Error::NoCommonSubstrings.description(),
        "No common substrings were found between two fuzzy hashes"
    );
    assert_eq!(Error::MalformedInput.description(), "Strings are not in proper fuzzy hash format");
    assert_eq!(Error::BlockSizeParse.description(), "Could not parse block sizes in string(s)");
    assert_eq!(
        Error::IncompatibleBlockSizes.description(),
        "Fuzzy hashes have incompatible block sizes"
    );
    assert_eq!(Error::TooManyBlocks.description(), "Total number of blocks exceeds limit");
}
