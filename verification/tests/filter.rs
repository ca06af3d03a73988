use nippy_jar::cuckoo::Cuckoo;
use nippy_jar::error::NippyJarError;
use nippy_jar::filter::{InclusionFilter, InclusionFilters};
use nippy_jar::hash::{hash, mix};

fn key(i: u32) -> Vec<u8> {
    format!("key-{i}").into_bytes()
}

#[test]
fn hash_depends_on_seed_and_data() {
    assert_eq!(hash(1, b"abc"), hash(1, b"abc"));
    assert_ne!(hash(1, b"abc"), hash(2, b"abc"));
    assert_ne!(hash(1, b"abc"), hash(1, b"abd"));
    assert_ne!(hash(1, b""), hash(1, b"\0"));
    assert_ne!(mix(0), mix(1));
}

#[test]
fn hash_has_fixed_values() {
    // splitmix64 finalizer
    assert_eq!(mix(0), 0);
    assert_eq!(mix(1), 0x5692161d100b05e5);
    let seed: u64 = 0;
    let expected = mix(mix(seed ^ 0xcbf2_9ce4_8422_2325));
    assert_eq!(hash(0, b""), expected);
    let one = (mix(0xcbf2_9ce4_8422_2325) ^ 0x61).wrapping_mul(0x0000_0100_0000_01b3);
    assert_eq!(hash(0, b"a"), mix(one));
}

#[test]
fn cuckoo_has_no_false_negatives() {
    let mut filter = Cuckoo::new(1000);
    for i in 0..1000 {
        assert_eq!(filter.add(&key(i)), Ok(()));
        for j in (0..=i).step_by(97) {
            assert_eq!(filter.contains(&key(j)), Ok(true));
        }
    }
    for i in 0..1000 {
        assert_eq!(filter.contains(&key(i)), Ok(true));
    }
}

#[test]
fn cuckoo_empty_contains_nothing() {
    let filter = Cuckoo::new(100);
    for i in 0..100 {
        assert_eq!(filter.contains(&key(i)), Ok(false));
    }
    assert_eq!(filter.contains(b""), Ok(false));
}

#[test]
fn cuckoo_capacity_is_a_power_of_two_of_buckets() {
    assert_eq!(Cuckoo::new(0).capacity(), 4);
    assert_eq!(Cuckoo::new(1).capacity(), 4);
    assert_eq!(Cuckoo::new(3).capacity(), 4);
    assert_eq!(Cuckoo::new(4).capacity(), 8);
    assert_eq!(Cuckoo::new(6).capacity(), 8);
    assert_eq!(Cuckoo::new(7).capacity(), 16);
    assert_eq!(Cuckoo::new(1000).capacity(), 2048);
    assert_eq!(Cuckoo::with_false_positive_rate(1000, 100).capacity(), 2048);
}

#[test]
fn cuckoo_false_positive_rate_is_bounded() {
    let mut filter = Cuckoo::with_false_positive_rate(1000, 100);
    for i in 0..1000 {
        filter.add(&key(i)).unwrap();
    }
    let mut hits = 0;
    for i in 1000..11000 {
        if filter.contains(&key(i)).unwrap() {
            hits += 1;
        }
    }
    // target: one in a hundred; ten thousand probes
    assert!(hits <= 200, "{hits} false positives");
}

#[test]
fn cuckoo_narrow_fingerprints_collide_more() {
    let mut narrow = Cuckoo::with_false_positive_rate(1000, 1);
    let mut wide = Cuckoo::with_false_positive_rate(1000, 100000);
    for i in 0..1000 {
        narrow.add(&key(i)).unwrap();
        wide.add(&key(i)).unwrap();
    }
    let mut narrow_hits = 0;
    let mut wide_hits = 0;
    for i in 1000..6000 {
        if narrow.contains(&key(i)).unwrap() {
            narrow_hits += 1;
        }
        if wide.contains(&key(i)).unwrap() {
            wide_hits += 1;
        }
    }
    assert!(narrow_hits > 500, "{narrow_hits}");
    assert!(wide_hits <= 1, "{wide_hits}");
}

#[test]
fn cuckoo_full_filter_reports_capacity_and_stays_as_it_was() {
    let mut filter = Cuckoo::new(1);
    let mut added = Vec::new();
    let mut failed = None;
    for i in 0..100 {
        let before = filter.to_sections();
        match filter.add(&key(i)) {
            Ok(()) => added.push(i),
            Err(e) => {
                assert_eq!(e, NippyJarError::FilterMaxCapacity);
                assert_eq!(filter.to_sections(), before);
                failed = Some(i);
                break;
            }
        }
    }
    assert_eq!(added.len(), 4);
    assert_eq!(failed, Some(4));
    for i in added {
        assert_eq!(filter.contains(&key(i)), Ok(true));
    }
}

#[test]
fn cuckoo_relocates_when_both_buckets_are_full() {
    // 16 slots and 15 keys: some insertion has to evict
    let mut filter = Cuckoo::new(7);
    let mut added = Vec::new();
    for i in 0..15 {
        if filter.add(&key(i)).is_ok() {
            added.push(i);
        }
    }
    assert!(added.len() >= 12, "{}", added.len());
    for i in added {
        assert_eq!(filter.contains(&key(i)), Ok(true));
    }
}

#[test]
fn cuckoo_is_deterministic() {
    let mut a = Cuckoo::new(50);
    let mut b = Cuckoo::new(50);
    for i in 0..60 {
        assert_eq!(a.add(&key(i)), b.add(&key(i)));
    }
    assert_eq!(a.to_sections(), b.to_sections());
}

#[test]
fn cuckoo_sections_round_trip() {
    let mut filter = Cuckoo::with_false_positive_rate(200, 50);
    for i in 0..200 {
        filter.add(&key(i)).unwrap();
    }
    let sections = filter.to_sections();
    assert_eq!(sections.len(), 2);
    assert_eq!(sections[0].len(), 24);
    assert_eq!(sections[1].len(), 8 * filter.capacity());
    let back = Cuckoo::from_sections(&sections).unwrap();
    assert_eq!(back.to_sections(), sections);
    for i in 0..400 {
        assert_eq!(back.contains(&key(i)), filter.contains(&key(i)));
    }
}

#[test]
fn cuckoo_refuses_malformed_sections() {
    let filter = Cuckoo::new(10);
    let sections = filter.to_sections();
    assert!(Cuckoo::from_sections(&sections[..1].to_vec()).is_none());
    let mut short = sections.clone();
    short[1].truncate(8);
    assert!(Cuckoo::from_sections(&short).is_none());
    let mut odd = sections.clone();
    odd[1].push(0);
    assert!(Cuckoo::from_sections(&odd).is_none());
    let mut mask = sections.clone();
    mask[0][0] = 2; // three buckets: no power of two
    assert!(Cuckoo::from_sections(&mask).is_none());
}

#[test]
fn unused_filter_is_unsupported() {
    let mut filter = InclusionFilters::Unused;
    assert_eq!(filter.add(b"a"), Err(NippyJarError::UnsupportedFilterQuery));
    assert_eq!(filter.contains(b"a"), Err(NippyJarError::UnsupportedFilterQuery));
    assert_eq!(filter.add(b""), Err(NippyJarError::UnsupportedFilterQuery));
    assert_eq!(filter.contains(b""), Err(NippyJarError::UnsupportedFilterQuery));
    assert!(filter.to_sections().is_empty());
    assert!(matches!(InclusionFilters::from_sections(&vec![]), Some(InclusionFilters::Unused)));
}

#[test]
fn filters_enum_forwards_to_cuckoo() {
    let mut filter = InclusionFilters::Cuckoo(Cuckoo::new(10));
    assert_eq!(filter.contains(b"a"), Ok(false));
    assert_eq!(filter.add(b"a"), Ok(()));
    assert_eq!(filter.contains(b"a"), Ok(true));
    let back = InclusionFilters::from_sections(&filter.to_sections()).unwrap();
    assert_eq!(back.contains(b"a"), Ok(true));
    assert_eq!(back.contains(b"b"), filter.contains(b"b"));
}

fn words(bytes: &[u8]) -> Vec<u64> {
    bytes.chunks(8).map(|c| u64::from_le_bytes([c[0], c[1], c[2], c[3], c[4], c[5], c[6], c[7]])).collect()
}

#[test]
fn cuckoo_masks_follow_capacity_and_rate() {
    // bucket mask, fingerprint mask, generator state
    let plain = words(&Cuckoo::new(1000).to_sections()[0]);
    assert_eq!(plain, vec![511, 0xffff, 0x3c6e_f372_fe94_f82b]);
    let one_percent = words(&Cuckoo::with_false_positive_rate(1000, 100).to_sections()[0]);
    assert_eq!(one_percent[0], 511);
    assert_eq!(one_percent[1], 1023);
    assert_eq!(words(&Cuckoo::with_false_positive_rate(0, 0).to_sections()[0])[..2], [0, 1]);
    assert_eq!(words(&Cuckoo::with_false_positive_rate(12, 1).to_sections()[0])[..2], [3, 7]);
    assert_eq!(words(&Cuckoo::with_false_positive_rate(13, 128).to_sections()[0])[..2], [7, 1023]);
    assert_eq!(
        words(&Cuckoo::with_false_positive_rate(1, u32::MAX).to_sections()[0])[..2],
        [0, 0xffff_ffff]
    );
}

#[test]
fn cuckoo_first_element_takes_the_first_free_slot() {
    let mut filter = Cuckoo::new(1);
    filter.add(b"a").unwrap();
    let slots = words(&filter.to_sections()[1]);
    assert_eq!(slots.len(), 4);
    assert_ne!(slots[0], 0);
    assert!(slots[0] <= 0xffff);
    assert_eq!(&slots[1..], &[0, 0, 0]);
    filter.add(b"a").unwrap();
    let again = words(&filter.to_sections()[1]);
    assert_eq!(again[0], slots[0]);
    assert_eq!(again[1], slots[0]);
    assert_eq!(&again[2..], &[0, 0]);
}
