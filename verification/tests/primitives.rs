use nippy_jar::error::NippyJarError;
use nippy_jar::json_u256::{JsonU256, JsonU256Error};
use nippy_jar::primitives::U256;
use nippy_jar::snapshot::{Filters, InclusionFilter, PerfectHashingFunction};

#[test]
fn jsonu256_deserialize() {
    let deserialized: Vec<JsonU256> = vec![
        JsonU256::parse_str("").unwrap(),
        JsonU256::parse_str("0").unwrap(),
        JsonU256::parse_str("0x").unwrap(),
        JsonU256::parse_str("10").unwrap(),
        JsonU256::from_u64(10),
        JsonU256::parse_str("0x10").unwrap(),
    ];
    assert_eq!(
        deserialized,
        vec![
            JsonU256(U256::zero()),
            JsonU256(U256::zero()),
            JsonU256(U256::zero()),
            JsonU256(U256::from_u64(10)),
            JsonU256(U256::from_u64(10)),
            JsonU256(U256::from_u64(16)),
        ]
    );
}

#[test]
fn jsonu256_serialize() {
    let data = JsonU256(U256::from_u64(16));
    let serialized = format!("\"0x{}\"", data.to_hex_string());

    assert_eq!(serialized, r#""0x10""#);
}

#[test]
fn jsonu256_text_forms() {
    assert_eq!(JsonU256::from_u64(0).to_hex_string(), "0");
    assert_eq!(JsonU256::from_u64(0).to_dec_string(), "0");
    assert_eq!(JsonU256::from_u64(255).to_hex_string(), "ff");
    assert_eq!(JsonU256::from_u64(255).to_dec_string(), "255");
    let big = JsonU256(U256::from_limbs([0, 1, 0, 0]));
    assert_eq!(big.to_hex_string(), "10000000000000000");
    assert_eq!(big.to_dec_string(), "18446744073709551616");
    let top = JsonU256(U256::from_limbs([u64::MAX, u64::MAX, u64::MAX, u64::MAX]));
    assert_eq!(top.to_hex_string(), "f".repeat(64));
    assert_eq!(
        top.to_dec_string(),
        "115792089237316195423570985008687907853269984665640564039457584007913129639935"
    );
}

#[test]
fn jsonu256_reads_large_numbers() {
    let hex = JsonU256::parse_str("0x10000000000000000").unwrap();
    assert_eq!(hex.0.limbs, [0, 1, 0, 0]);
    let dec = JsonU256::parse_str("18446744073709551616").unwrap();
    assert_eq!(dec, hex);
    let top = JsonU256::parse_str(
        "115792089237316195423570985008687907853269984665640564039457584007913129639935",
    )
    .unwrap();
    assert_eq!(top.0.limbs, [u64::MAX; 4]);
}

#[test]
fn jsonu256_rejects_bad_digits() {
    match JsonU256::parse_str("0xzz") {
        Err(JsonU256Error::Hex(m)) => {
            assert!(m.starts_with("Parsing JsonU256 as hex failed 0xzz: "));
            assert!(m.len() > "Parsing JsonU256 as hex failed 0xzz: ".len());
        }
        other => panic!("unexpected {:?}", other),
    }
    match JsonU256::parse_str("12a") {
        Err(JsonU256Error::Decimal(m)) => {
            assert!(m.starts_with("Parsing JsonU256 as decimal failed 12a: "));
            assert!(m.len() > "Parsing JsonU256 as decimal failed 12a: ".len());
        }
        other => panic!("unexpected {:?}", other),
    }
    let err = JsonU256::parse_str("12a").unwrap_err();
    assert!(err.message().starts_with("Parsing JsonU256 as decimal"));
}

#[test]
fn jsonu256_rejects_overflow() {
    let too_big =
        "115792089237316195423570985008687907853269984665640564039457584007913129639936";
    assert!(matches!(JsonU256::parse_str(too_big), Err(JsonU256Error::Decimal(_))));
    let too_long = format!("0x1{}", "0".repeat(64));
    assert!(matches!(JsonU256::parse_str(&too_long), Err(JsonU256Error::Hex(_))));
}

#[test]
fn jsonu256_conversions() {
    let n = U256::from_u64(99);
    let j: JsonU256 = n.into();
    assert_eq!(j, JsonU256(n));
    let back: U256 = j.into();
    assert_eq!(back, n);
    assert_eq!(JsonU256::default(), JsonU256(U256::zero()));
}

#[test]
fn u256_from_u128_splits_limbs() {
    let v = U256::from_u128(u128::MAX);
    assert_eq!(v.limbs, [u64::MAX, u64::MAX, 0, 0]);
    let w = U256::from_u128((7u128 << 64) | 9);
    assert_eq!(w.limbs, [9, 7, 0, 0]);
    assert!(U256::zero().is_zero());
    assert!(!w.is_zero());
    assert!(!U256::from_limbs([0, 0, 0, 1]).is_zero());
}

#[test]
fn filters_has_filters() {
    assert!(Filters::WithFilters(InclusionFilter::Cuckoo, PerfectHashingFunction::Fmph).has_filters());
    assert!(Filters::WithFilters(InclusionFilter::Cuckoo, PerfectHashingFunction::GoFmph).has_filters());
    assert!(!Filters::WithoutFilters.has_filters());
}

#[test]
fn error_messages_are_distinct() {
    let all = [
        NippyJarError::UnsupportedFilterQuery,
        NippyJarError::FilterMaxCapacity,
        NippyJarError::DuplicateKey,
        NippyJarError::ColumnCountMismatch,
        NippyJarError::TooLarge,
        NippyJarError::Corruption,
        NippyJarError::NotFound,
    ];
    for (i, a) in all.iter().enumerate() {
        assert!(!a.message().is_empty());
        for b in all.iter().skip(i + 1) {
            assert_ne!(a.message(), b.message());
        }
    }
    assert_eq!(NippyJarError::NotFound.message(), "key not found");
}
