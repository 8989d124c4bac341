//! The ordering laws and scenarios on concrete values.

use std::cmp::Ordering;

use uapi_version::{
    compare_special_char, is_valid_version_char, sort_versions, strverscmp, Version,
};

const SAMPLES: [&str; 16] = [
    "", "~", "0", "0_", "00", "0.0.1", "0.0.10", "1.0.0", "1.0.0~rc1", "123^1", "123-a", "123.",
    "abc-5", "a", "0a", "5.2",
];

#[test]
fn antisymmetric_on_samples() {
    for a in SAMPLES.iter() {
        for b in SAMPLES.iter() {
            assert_eq!(strverscmp(a, b), strverscmp(b, a).reverse(), "{:?} {:?}", a, b);
        }
    }
}

#[test]
fn reflexive_on_samples() {
    for a in SAMPLES.iter() {
        assert_eq!(strverscmp(a, a), Ordering::Equal);
    }
    assert_eq!(strverscmp("", ""), Ordering::Equal);
}

#[test]
fn transitive_on_samples() {
    for a in SAMPLES.iter() {
        for b in SAMPLES.iter() {
            for c in SAMPLES.iter() {
                if strverscmp(a, b) != Ordering::Greater && strverscmp(b, c) != Ordering::Greater {
                    assert_ne!(strverscmp(a, c), Ordering::Greater, "{:?} {:?} {:?}", a, b, c);
                }
            }
        }
    }
}

#[test]
fn leading_zeros_do_not_count() {
    assert_eq!(strverscmp("0001", "002"), Ordering::Less);
    assert_eq!(strverscmp("007", "7"), Ordering::Equal);
    assert_eq!(strverscmp("0010", "9"), Ordering::Greater);
    assert_eq!(strverscmp("100000000000000000000000000001", "99999999999999999999999999999"), Ordering::Greater);
}

#[test]
fn pre_release_marker_first() {
    assert_eq!(strverscmp("123~rc1", "123"), Ordering::Less);
    assert_eq!(strverscmp("", "~"), Ordering::Greater);
    assert_eq!(strverscmp("~", ""), Ordering::Less);
    assert_eq!(strverscmp("~", "~"), Ordering::Equal);
}

#[test]
fn trailing_separator_beats_end() {
    assert_eq!(strverscmp("123.", "123"), Ordering::Greater);
    assert_eq!(strverscmp("123-", "123"), Ordering::Greater);
    assert_eq!(strverscmp("123^", "123"), Ordering::Greater);
}

#[test]
fn zero_run_before_letters() {
    assert_eq!(strverscmp("0a", "a"), Ordering::Equal);
    assert_eq!(strverscmp("0a", "b"), Ordering::Less);
    assert_eq!(strverscmp("0", "a"), Ordering::Less);
    assert_eq!(strverscmp("0_5", "05"), Ordering::Less);
}

#[test]
fn scenarios() {
    assert_eq!(strverscmp("225.1", "2"), Ordering::Greater);
    assert_eq!(strverscmp("123.45-67.88", "123.45-67.89"), Ordering::Less);
    assert_eq!(strverscmp("123^aa2-67.89", "123aa2-67.89"), Ordering::Less);
    assert_eq!(strverscmp("1٠١٢٣٤٥٦٧٨٩", "1"), Ordering::Equal);
    assert_eq!(strverscmp("0.0.1", "0.0.10"), Ordering::Less);
    assert_eq!(strverscmp("124", "123"), Ordering::Greater);
    assert_eq!(strverscmp("1.0.0", "2.0.0"), Ordering::Less);
}

#[test]
fn version_order() {
    let a = Version::from("225.1");
    let b = Version::from("2");
    assert_eq!(a.cmp(&b), Ordering::Greater);
    assert!(b < a);
    assert_eq!(a.partial_cmp(&b), Some(Ordering::Greater));
    assert_eq!(Version::from("1.0.0").cmp(&Version::from("2.0.0")), Ordering::Less);
}

#[test]
fn version_equality_is_by_the_rule() {
    let a = Version::from("0");
    let b = Version::from("0___");
    assert!(a == b);
    assert_eq!(a.as_str(), "0");
    assert_eq!(b.as_str(), "0___");
    assert!(Version::from("1") != Version::from("2"));
}

#[test]
fn version_text_is_kept() {
    let v = Version::from(String::from("1.2_x"));
    assert_eq!(v.as_str(), "1.2_x");
    assert_eq!(v.to_string(), "1.2_x");
    assert_eq!(Version::from(&String::from("")).into_string(), "");
    assert_eq!(Version::from("abc").into_string(), String::from("abc"));
}

#[test]
fn version_sort() {
    let mut versions = ["5.2", "abc-5", "1.0.0~rc1"].map(Version::from).to_vec();
    versions.sort_by(|a, b| a.cmp(b));
    let texts: Vec<&str> = versions.iter().map(|v| v.as_str()).collect();
    assert_eq!(texts, ["abc-5", "1.0.0~rc1", "5.2"]);
}

#[test]
fn valid_characters() {
    for c in ['a', 'Z', '0', '9', '~', '-', '^', '.'] {
        assert!(is_valid_version_char(c));
    }
    for c in ['_', '+', ' ', '٠', 'é', '\u{0}'] {
        assert!(!is_valid_version_char(c));
    }
}

#[test]
fn marker_rule() {
    assert_eq!(compare_special_char('~', Some('~'), None), Ordering::Less);
    assert_eq!(compare_special_char('~', None, Some('~')), Ordering::Greater);
    assert_eq!(compare_special_char('-', Some('-'), Some('-')), Ordering::Equal);
    assert_eq!(compare_special_char('.', Some('a'), Some('1')), Ordering::Equal);
    assert_eq!(compare_special_char('^', Some('a'), Some('^')), Ordering::Greater);
}

#[test]
fn sort_versions_orders_and_keeps_equal_ones_in_place() {
    let mut versions: Vec<Version> = ["5.2", "abc-5", "1.0.0~rc1"].map(Version::from).to_vec();
    sort_versions(&mut versions);
    let texts: Vec<&str> = versions.iter().map(|v| v.as_str()).collect();
    assert_eq!(texts, ["abc-5", "1.0.0~rc1", "5.2"]);

    let mut versions: Vec<Version> =
        ["0___", "2", "0", "1", "_0"].map(Version::from).to_vec();
    sort_versions(&mut versions);
    let texts: Vec<&str> = versions.iter().map(|v| v.as_str()).collect();
    assert_eq!(texts, ["0___", "0", "_0", "1", "2"]);

    let mut empty: Vec<Version> = Vec::new();
    sort_versions(&mut empty);
    assert!(empty.is_empty());
}

#[test]
fn sorting_reproduces_a_known_order() {
    let ordered = ["~1", "", "ab", "0001", "1.0.0", "122.9", "123~rc1", "123", "123-a", "123^1", "123.1-1", "124"];
    let mut shuffled: Vec<Version> = [7, 2, 11, 0, 5, 9, 1, 3, 10, 6, 4, 8]
        .iter()
        .map(|&k| Version::from(ordered[k]))
        .collect();
    sort_versions(&mut shuffled);
    let texts: Vec<&str> = shuffled.iter().map(|v| v.as_str()).collect();
    assert_eq!(texts, ordered);
}
