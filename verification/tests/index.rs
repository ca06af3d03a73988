use nippy_jar::codec::{decode_words, encode_words, seal, unseal};
use nippy_jar::column::Column;
use nippy_jar::error::NippyJarError;
use nippy_jar::phf::PerfectHash;
use nippy_jar::snapshot::PerfectHashingFunction;

fn keys(n: u32) -> Vec<Vec<u8>> {
    (0..n).map(|i| format!("account-{i}").into_bytes()).collect()
}

fn is_permutation(index: &PerfectHash, keys: &Vec<Vec<u8>>) {
    let mut seen = vec![false; keys.len()];
    for (i, key) in keys.iter().enumerate() {
        let o = index.get(key);
        assert_eq!(o, i);
        assert!(!seen[o]);
        seen[o] = true;
    }
    assert!(seen.iter().all(|s| *s));
}

#[test]
fn fmph_is_a_bijection() {
    let keys = keys(1000);
    let index = PerfectHash::build(PerfectHashingFunction::Fmph, &keys).unwrap();
    assert_eq!(index.len(), 1000);
    is_permutation(&index, &keys);
}

#[test]
fn gofmph_is_a_bijection() {
    let keys = keys(1000);
    let index = PerfectHash::build(PerfectHashingFunction::GoFmph, &keys).unwrap();
    assert_eq!(index.len(), 1000);
    is_permutation(&index, &keys);
}

#[test]
fn phf_small_sets() {
    for n in 0..20 {
        let keys = keys(n);
        for variant in [PerfectHashingFunction::Fmph, PerfectHashingFunction::GoFmph] {
            let index = PerfectHash::build(variant, &keys).unwrap();
            assert_eq!(index.len(), n as usize);
            is_permutation(&index, &keys);
        }
    }
}

#[test]
fn phf_answers_strangers_in_range() {
    let keys = keys(100);
    for variant in [PerfectHashingFunction::Fmph, PerfectHashingFunction::GoFmph] {
        let index = PerfectHash::build(variant, &keys).unwrap();
        for i in 0..1000 {
            let stranger = format!("stranger-{i}").into_bytes();
            assert!(index.get(&stranger) < 100);
        }
    }
    let empty = PerfectHash::build(PerfectHashingFunction::Fmph, &vec![]).unwrap();
    assert_eq!(empty.get(b"anything"), 0);
}

#[test]
fn phf_refuses_duplicate_keys() {
    let mut keys = keys(50);
    keys.push(keys[17].clone());
    for variant in [PerfectHashingFunction::Fmph, PerfectHashingFunction::GoFmph] {
        assert!(matches!(PerfectHash::build(variant, &keys), Err(NippyJarError::DuplicateKey)));
    }
    let pair = vec![vec![], vec![]];
    assert!(matches!(
        PerfectHash::build(PerfectHashingFunction::Fmph, &pair),
        Err(NippyJarError::DuplicateKey)
    ));
}

#[test]
fn phf_is_deterministic() {
    let keys = keys(300);
    for variant in [PerfectHashingFunction::Fmph, PerfectHashingFunction::GoFmph] {
        let a = PerfectHash::build(variant, &keys).unwrap();
        let b = PerfectHash::build(variant, &keys).unwrap();
        assert_eq!(a.to_sections(), b.to_sections());
    }
}

#[test]
fn phf_variants_differ_in_layout() {
    let keys = keys(300);
    let plain = PerfectHash::build(PerfectHashingFunction::Fmph, &keys).unwrap().to_sections();
    let grouped = PerfectHash::build(PerfectHashingFunction::GoFmph, &keys).unwrap().to_sections();
    // plain: one seed per level; grouped: one per group of sixteen slots
    assert_eq!(plain[1].len(), 16);
    assert_eq!(grouped[1].len(), 8 * (1 + 300 / 8 + 1));
    assert_eq!(plain[2].len(), 8 * 600);
    assert_eq!(grouped[2].len(), 8 * 16 * (300 / 8 + 1));
    assert!(grouped.len() <= plain.len());
}

#[test]
fn phf_sections_round_trip() {
    let keys = keys(500);
    for variant in [PerfectHashingFunction::Fmph, PerfectHashingFunction::GoFmph] {
        let index = PerfectHash::build(variant, &keys).unwrap();
        let sections = index.to_sections();
        let back = PerfectHash::from_sections(&sections).unwrap();
        assert_eq!(back.len(), 500);
        assert_eq!(back.to_sections(), sections);
        is_permutation(&back, &keys);
    }
}

#[test]
fn phf_refuses_malformed_sections() {
    let keys = keys(40);
    let index = PerfectHash::build(PerfectHashingFunction::Fmph, &keys).unwrap();
    let sections = index.to_sections();
    assert!(PerfectHash::from_sections(&vec![]).is_none());
    assert!(PerfectHash::from_sections(&sections[..1].to_vec()).is_none());
    let mut missing = sections.clone();
    missing.pop();
    assert!(PerfectHash::from_sections(&missing).is_none());
    let mut ordinal = sections.clone();
    // a slot that names a key the index does not have
    ordinal[2][..8].copy_from_slice(&1000u64.to_le_bytes());
    assert!(PerfectHash::from_sections(&ordinal).is_none());
    let mut size = sections.clone();
    size[1][..8].copy_from_slice(&0u64.to_le_bytes());
    assert!(PerfectHash::from_sections(&size).is_none());
    let mut table = sections.clone();
    table[2].truncate(16);
    assert!(PerfectHash::from_sections(&table).is_none());
}

#[test]
fn words_round_trip() {
    let words = vec![0u64, 1, 0x0102_0304_0506_0708, u64::MAX];
    let bytes = encode_words(&words);
    assert_eq!(bytes.len(), 32);
    assert_eq!(&bytes[8..16], &[1, 0, 0, 0, 0, 0, 0, 0]);
    assert_eq!(&bytes[16..24], &[8, 7, 6, 5, 4, 3, 2, 1]);
    assert_eq!(decode_words(&bytes), Some(words));
    assert_eq!(decode_words(&bytes[..31]), None);
    assert_eq!(decode_words(&[]), Some(vec![]));
}

#[test]
fn frames_round_trip() {
    let cases: Vec<Vec<Vec<u8>>> = vec![
        vec![],
        vec![vec![]],
        vec![vec![1, 2, 3]],
        vec![vec![], vec![9; 100], vec![], vec![0]],
    ];
    for sections in cases {
        let bytes = seal(&sections);
        assert_eq!(unseal(&bytes), Ok(sections));
    }
}

#[test]
fn frame_layout() {
    let bytes = seal(&vec![vec![0xaa, 0xbb]]);
    assert_eq!(bytes.len(), 8 + 8 + 8 + 2 + 8);
    assert_eq!(&bytes[..8], &0x4e49_5050_594a_4152u64.to_le_bytes());
    assert_eq!(&bytes[8..16], &1u64.to_le_bytes());
    assert_eq!(&bytes[16..24], &2u64.to_le_bytes());
    assert_eq!(&bytes[24..26], &[0xaa, 0xbb]);
    assert_eq!(seal(&vec![]).len(), 24);
}

#[test]
fn damaged_frames_are_refused() {
    let bytes = seal(&vec![vec![1, 2, 3], vec![4, 5]]);
    for i in 0..bytes.len() {
        let mut damaged = bytes.clone();
        damaged[i] ^= 0x01;
        assert_eq!(unseal(&damaged), Err(NippyJarError::Corruption), "byte {i}");
    }
    for n in 0..bytes.len() {
        assert_eq!(unseal(&bytes[..n]), Err(NippyJarError::Corruption), "length {n}");
    }
    let mut longer = bytes.clone();
    longer.push(0);
    assert_eq!(unseal(&longer), Err(NippyJarError::Corruption));
    assert_eq!(unseal(&[]), Err(NippyJarError::Corruption));
}

#[test]
fn column_reads_back_what_was_pushed() {
    let mut column = Column::new();
    assert_eq!(column.len(), 0);
    assert_eq!(column.get(0), None);
    column.push(b"alpha");
    column.push(b"");
    column.push(b"gamma!");
    assert_eq!(column.len(), 3);
    assert_eq!(column.get(0), Some(&b"alpha"[..]));
    assert_eq!(column.get(1), Some(&b""[..]));
    assert_eq!(column.get(2), Some(&b"gamma!"[..]));
    assert_eq!(column.get(3), None);
    assert_eq!(column.data(), &b"alphagamma!".to_vec());
    assert_eq!(column.offsets(), &vec![0, 5, 5, 11]);
}

#[test]
fn column_from_parts_checks_the_offsets() {
    assert!(Column::from_parts(b"abc".to_vec(), vec![0, 1, 3]).is_some());
    assert!(Column::from_parts(vec![], vec![0]).is_some());
    assert!(Column::from_parts(vec![], vec![]).is_none());
    assert!(Column::from_parts(b"abc".to_vec(), vec![1, 3]).is_none());
    assert!(Column::from_parts(b"abc".to_vec(), vec![0, 2]).is_none());
    assert!(Column::from_parts(b"abc".to_vec(), vec![0, 2, 1, 3]).is_none());
    assert!(Column::from_parts(b"abc".to_vec(), vec![0, 4, 3]).is_none());
    let column = Column::from_parts(b"abc".to_vec(), vec![0, 1, 3]).unwrap();
    assert_eq!(column.get(1), Some(&b"bc"[..]));
}
