use migrations::{ParseVersionError, Version};
use std::cmp::Ordering;
use std::num::IntErrorKind;
use std::str::FromStr;

fn version(text: &str) -> Version {
    Version::from_str(text).unwrap()
}

fn failure(text: &str) -> IntErrorKind {
    match Version::from_str(text) {
        Ok(v) => panic!("{:?} parsed as {:?}", text, v),
        Err(ParseVersionError::ParseIntError(e)) => e.kind().clone(),
    }
}

#[test]
fn lib_equals() {
    assert!(Version::from_str("1.0.0").unwrap() == Version::from_str("1.0.0").unwrap());
}

#[test]
fn lib_major_less() {
    assert!(Version::from_str("1.1.0").unwrap() < Version::from_str("2.0.0").unwrap());
}

#[test]
fn lib_minor_less() {
    assert!(Version::from_str("1.1.1").unwrap() < Version::from_str("1.2.0").unwrap());
}

#[test]
fn display() {
    assert_eq!("1.2.3.4.5", Version::from_str("1.2.3.4.5").unwrap().to_string());
}

#[test]
fn canonical_text_round_trips() {
    let samples = [
        "0",
        "1",
        "1.0.0",
        "10.20.30",
        "0.0.1",
        "4294967295",
        "7.0.4294967295.12",
        "1.2.3.4.5.6.7.8.9.10",
    ];
    for text in samples {
        assert_eq!(text, version(text).to_string());
    }
}

#[test]
fn format_then_parse_gives_the_version_back() {
    for text in ["0", "3.14", "4294967295.0", "1.2.3"] {
        let v = version(text);
        assert_eq!(v, version(&v.to_string()));
    }
}

#[test]
fn leading_zeros_and_plus_signs_are_read_but_not_written() {
    assert_eq!("1.2.3", version("01.002.3").to_string());
    assert_eq!("1.2", version("+1.+2").to_string());
    assert_eq!("0.0", version("000.+0").to_string());
    assert_eq!(version("1.2.3"), version("01.+2.0003"));
}

#[test]
fn each_digit_is_written() {
    assert_eq!("1234567890", version("1234567890").to_string());
    assert_eq!("9.8.7.6.5.4.3.2.1.0", version("9.8.7.6.5.4.3.2.1.0").to_string());
    assert_eq!("100.1000.10000", version("100.1000.10000").to_string());
}

#[test]
fn parsing_reads_the_number_of_each_component() {
    assert!(version("12") > version("3"));
    assert!(version("1.12") > version("1.3"));
    assert_eq!(version("12.3"), version("12.3"));
    assert_ne!(version("12.3"), version("1.23"));
    assert_ne!(version("12.3"), version("123"));
}

#[test]
fn text_with_a_letter_is_refused() {
    assert!(Version::from_str("1.x.0").is_err());
    assert_eq!(IntErrorKind::InvalidDigit, failure("1.x.0"));
}

#[test]
fn empty_text_is_refused() {
    assert!(Version::from_str("").is_err());
    assert_eq!(IntErrorKind::Empty, failure(""));
}

#[test]
fn empty_components_are_refused() {
    assert_eq!(IntErrorKind::Empty, failure("1."));
    assert_eq!(IntErrorKind::Empty, failure(".1"));
    assert_eq!(IntErrorKind::Empty, failure("1..2"));
    assert_eq!(IntErrorKind::Empty, failure("."));
}

#[test]
fn malformed_components_are_refused() {
    assert_eq!(IntErrorKind::InvalidDigit, failure("-1"));
    assert_eq!(IntErrorKind::InvalidDigit, failure("1.-0"));
    assert_eq!(IntErrorKind::InvalidDigit, failure(" 1"));
    assert_eq!(IntErrorKind::InvalidDigit, failure("1 "));
    assert_eq!(IntErrorKind::InvalidDigit, failure("1_0"));
    assert_eq!(IntErrorKind::InvalidDigit, failure("+"));
    assert_eq!(IntErrorKind::InvalidDigit, failure("++1"));
    assert_eq!(IntErrorKind::InvalidDigit, failure("1,2"));
    assert_eq!(IntErrorKind::InvalidDigit, failure("1.2a"));
    assert_eq!(IntErrorKind::InvalidDigit, failure("\u{0663}"));
}

#[test]
fn numbers_beyond_u32_are_refused() {
    assert_eq!("4294967295", version("4294967295").to_string());
    assert_eq!(IntErrorKind::PosOverflow, failure("4294967296"));
    assert_eq!(IntErrorKind::PosOverflow, failure("1.99999999999999999999"));
}

#[test]
fn the_first_malformed_component_gives_the_error() {
    assert_eq!(IntErrorKind::Empty, failure("1..x"));
    assert_eq!(IntErrorKind::InvalidDigit, failure("1.x."));
    assert_eq!(IntErrorKind::PosOverflow, failure("4294967296.x."));
    assert_eq!(IntErrorKind::InvalidDigit, failure("x.4294967296"));
}

#[test]
fn compare_decides_by_the_first_difference() {
    assert_eq!(Ordering::Less, version("1.1.0").compare(&version("2.0.0")));
    assert_eq!(Ordering::Less, version("1.1.1").compare(&version("1.2.0")));
    assert_eq!(Ordering::Equal, version("1.0.0").compare(&version("1.0.0")));
    assert_eq!(Ordering::Greater, version("2.0.0").compare(&version("1.1.0")));
    assert_eq!(Ordering::Greater, version("1.2.0").compare(&version("1.1.1")));
    assert_eq!(Ordering::Less, version("2.0.0").compare(&version("10.0.0")));
}

#[test]
fn a_prefix_comes_before_the_longer_version() {
    assert_eq!(Ordering::Less, version("1.2").compare(&version("1.2.0")));
    assert_eq!(Ordering::Greater, version("1.2.0").compare(&version("1.2")));
    assert!(version("1.2") < version("1.2.0"));
    assert!(version("1.2") != version("1.2.0"));
    assert!(version("1") < version("1.0.0.0"));
}

#[test]
fn is_before_is_the_strict_order() {
    assert!(version("1.0.0").is_before(&version("1.0.1")));
    assert!(!version("1.0.1").is_before(&version("1.0.0")));
    assert!(!version("1.0.0").is_before(&version("1.0.0")));
    assert!(version("0.9").is_before(&version("0.10")));
}

#[test]
fn the_order_is_a_strict_total_order_on_samples() {
    let texts = ["0", "0.0", "0.1", "1", "1.0", "1.0.0", "1.2", "1.10", "2", "10", "10.0.1"];
    let samples: Vec<Version> = texts.iter().map(|text| version(text)).collect();
    for a in &samples {
        assert_eq!(Ordering::Equal, a.compare(a));
        for b in &samples {
            let ab = a.compare(b);
            assert_eq!(ab.reverse(), b.compare(a));
            assert_eq!(ab == Ordering::Equal, a == b);
            assert_eq!(ab, a.cmp(b));
            assert_eq!(Some(ab), a.partial_cmp(b));
            assert_eq!(ab == Ordering::Less, a.is_before(b));
            for c in &samples {
                if ab == Ordering::Less && b.compare(c) == Ordering::Less {
                    assert_eq!(Ordering::Less, a.compare(c));
                }
            }
        }
    }
    for pair in samples.windows(2) {
        assert!(pair[0] < pair[1]);
    }
}

#[test]
fn parse_works_through_the_standard_trait() {
    let v: Version = "1.0.0".parse().unwrap();
    assert_eq!(version("1.0.0"), v);
    assert!("1.0.x".parse::<Version>().is_err());
}

#[test]
fn a_clone_is_equal() {
    let v = version("3.2.1");
    assert_eq!(v, v.clone());
    assert_eq!("3.2.1", v.clone().to_string());
}
