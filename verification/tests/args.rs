use nippy_jar::args::{MaxU32, ZeroAsNone, U32, U64};

type TestU32 = U32;
type TestU64 = U64;

#[test]
fn test_zero_parse() {
    let val = "0".parse::<ZeroAsNone>().unwrap();
    assert_eq!(val, ZeroAsNone(None));
    assert_eq!(val.unwrap_or_max(), u64::MAX);
}

#[test]
fn test_max_parse() {
    let val = "max".parse::<MaxU32>().unwrap();
    assert_eq!(val, MaxU32(u32::MAX));
}

#[test]
fn test_number_parse() {
    let val = "123".parse::<MaxU32>().unwrap();
    assert_eq!(val, MaxU32(123));
}

#[test]
fn parse_max() {
    assert_eq!("max".parse::<TestU32>().unwrap().0, u32::MAX);
    assert_eq!("max".parse::<TestU64>().unwrap().0, u64::MAX);
}

#[test]
fn parse_numeric_values() {
    assert_eq!("123".parse::<TestU32>().unwrap().0, 123);
    assert_eq!("456".parse::<TestU64>().unwrap().0, 456);
}

#[test]
fn zero_as_none_keeps_other_numbers() {
    let val = "42".parse::<ZeroAsNone>().unwrap();
    assert_eq!(val, ZeroAsNone(Some(42)));
    assert_eq!(val.unwrap_or_max(), 42);
    assert_eq!(ZeroAsNone::parse("18446744073709551615").unwrap(), ZeroAsNone(Some(u64::MAX)));
}

#[test]
fn zero_as_none_new_wraps_zero_as_present() {
    assert_eq!(ZeroAsNone::new(0), ZeroAsNone(Some(0)));
    assert_eq!(ZeroAsNone::new(0).unwrap_or_max(), 0);
    assert_eq!(ZeroAsNone::new(7).unwrap_or_max(), 7);
}

#[test]
fn zero_as_none_accepts_a_plus_sign_and_leading_zeros() {
    assert_eq!(ZeroAsNone::parse("+5").unwrap(), ZeroAsNone(Some(5)));
    assert_eq!(ZeroAsNone::parse("007").unwrap(), ZeroAsNone(Some(7)));
    assert_eq!(ZeroAsNone::parse("000").unwrap(), ZeroAsNone(None));
}

#[test]
fn zero_as_none_rejects_what_is_no_number() {
    assert!(ZeroAsNone::parse("").is_err());
    assert!(ZeroAsNone::parse("+").is_err());
    assert!(ZeroAsNone::parse("-1").is_err());
    assert!(ZeroAsNone::parse("12a").is_err());
    assert!(ZeroAsNone::parse(" 12").is_err());
    assert!(ZeroAsNone::parse("max").is_err());
    assert!(ZeroAsNone::parse("18446744073709551616").is_err());
}

#[test]
fn zero_as_none_text_form() {
    assert_eq!(ZeroAsNone(None).to_string(), "0");
    assert_eq!(ZeroAsNone(Some(1234567890)).to_string(), "1234567890");
    assert_eq!(ZeroAsNone(Some(u64::MAX)).to_string(), "18446744073709551615");
}

#[test]
fn max_u32_is_case_sensitive() {
    assert!(MaxU32::parse("MAX").is_err());
    assert!(MaxU32::parse("Max").is_err());
    assert!(MaxU32::parse("maxx").is_err());
    assert_eq!(MaxU32::parse("max").unwrap(), MaxU32(u32::MAX));
}

#[test]
fn max_u32_range() {
    assert_eq!(MaxU32::parse("4294967295").unwrap(), MaxU32(u32::MAX));
    assert!(MaxU32::parse("4294967296").is_err());
    assert_eq!(MaxU32::parse("0").unwrap(), MaxU32(0));
    assert_eq!(MaxU32(77).to_string(), "77");
}

#[test]
fn max_values_ignore_letter_case() {
    assert_eq!(U32::parse("MAX").unwrap(), U32(u32::MAX));
    assert_eq!(U32::parse("mAx").unwrap(), U32(u32::MAX));
    assert_eq!(U64::parse("Max").unwrap(), U64(u64::MAX));
    assert!(U32::parse("maxi").is_err());
    assert!(U64::parse("ma").is_err());
}

#[test]
fn max_values_numbers_and_text() {
    assert_eq!(U32::parse("4294967295").unwrap().0, u32::MAX);
    assert!(U32::parse("4294967296").is_err());
    assert_eq!(U64::parse("4294967296").unwrap().0, 4294967296);
    assert_eq!(U32(5).to_string(), "5");
    assert_eq!(U64(u64::MAX).to_string(), "18446744073709551615");
}
