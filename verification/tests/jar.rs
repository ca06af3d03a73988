use nippy_jar::cuckoo::Cuckoo;
use nippy_jar::error::NippyJarError;
use nippy_jar::jar::{Artifacts, Generations, NippyJar, NippyJarBuilder, MAX_COLUMNS};
use nippy_jar::snapshot::{Filters, InclusionFilter, PerfectHashingFunction};

fn key(i: u32) -> Vec<u8> {
    format!("block-{i}").into_bytes()
}

fn row(i: u32) -> Vec<Vec<u8>> {
    vec![
        format!("header {i}").into_bytes(),
        vec![(i % 251) as u8; (i % 7) as usize],
        i.to_be_bytes().to_vec(),
    ]
}

fn with(variant: PerfectHashingFunction) -> Filters {
    Filters::WithFilters(InclusionFilter::Cuckoo, variant)
}

fn build(config: Filters, rows: u32) -> NippyJar {
    let mut builder = NippyJarBuilder::new(3, config, rows as usize).unwrap();
    for i in 0..rows {
        builder.append_row(&row(i), &key(i)).unwrap();
    }
    assert_eq!(builder.rows(), rows as usize);
    builder.freeze().unwrap()
}

#[test]
fn thousand_rows_with_filters() {
    let filter = Cuckoo::with_false_positive_rate(1000, 100);
    let mut builder =
        NippyJarBuilder::with_filter(3, PerfectHashingFunction::Fmph, filter).unwrap();
    for i in 0..1000 {
        builder.append_row(&row(i), &key(i)).unwrap();
    }
    let jar = builder.freeze().unwrap();
    assert_eq!(jar.rows(), 1000);
    assert_eq!(jar.columns(), 3);
    for i in 0..1000 {
        assert_eq!(jar.contains(&key(i)), Ok(true));
        assert_eq!(jar.find(&key(i)), Some(i as usize));
        assert_eq!(jar.get(&key(i)), Ok(row(i)));
    }
    let mut rejected = 0;
    for i in 1000..2000 {
        if jar.contains(&key(i)) == Ok(false) {
            rejected += 1;
        }
        assert_eq!(jar.get(&key(i)), Err(NippyJarError::NotFound));
        assert_eq!(jar.find(&key(i)), None);
    }
    assert!(rejected >= 970, "{rejected} rejected by the filter");
}

#[test]
fn every_configuration_finds_every_row() {
    for config in [
        Filters::WithoutFilters,
        with(PerfectHashingFunction::Fmph),
        with(PerfectHashingFunction::GoFmph),
    ] {
        let jar = build(config, 200);
        for i in 0..200 {
            assert_eq!(jar.get(&key(i)), Ok(row(i)));
            assert_eq!(jar.row(i as usize), Some(row(i)));
            assert_eq!(jar.key(i as usize), Some(&key(i)[..]));
        }
        for i in 200..400 {
            assert_eq!(jar.get(&key(i)), Err(NippyJarError::NotFound));
        }
        assert_eq!(jar.row(200), None);
        assert_eq!(jar.key(200), None);
    }
}

#[test]
fn jar_without_filters_does_not_support_filter_queries() {
    let jar = build(Filters::WithoutFilters, 10);
    assert!(!jar.config().has_filters());
    for i in 0..20 {
        assert_eq!(jar.contains(&key(i)), Err(NippyJarError::UnsupportedFilterQuery));
    }
    assert_eq!(jar.contains(b""), Err(NippyJarError::UnsupportedFilterQuery));
}

#[test]
fn cells_and_rows() {
    let jar = build(with(PerfectHashingFunction::Fmph), 5);
    assert_eq!(jar.cell(3, 0), Some(&b"header 3"[..]));
    assert_eq!(jar.cell(3, 1), Some(&[3u8, 3, 3][..]));
    assert_eq!(jar.cell(0, 1), Some(&[][..]));
    assert_eq!(jar.cell(4, 2), Some(&[0u8, 0, 0, 4][..]));
    assert_eq!(jar.cell(5, 0), None);
    assert_eq!(jar.cell(0, 3), None);
}

#[test]
fn scan_walks_rows_in_order() {
    let jar = build(with(PerfectHashingFunction::GoFmph), 10);
    assert_eq!(jar.scan(0, 10), (0..10).map(row).collect::<Vec<_>>());
    assert_eq!(jar.scan(3, 4), (3..7).map(row).collect::<Vec<_>>());
    assert_eq!(jar.scan(8, 100), (8..10).map(row).collect::<Vec<_>>());
    assert_eq!(jar.scan(8, usize::MAX), (8..10).map(row).collect::<Vec<_>>());
    assert_eq!(jar.scan(10, 1), Vec::<Vec<Vec<u8>>>::new());
    assert_eq!(jar.scan(usize::MAX, usize::MAX), Vec::<Vec<Vec<u8>>>::new());
    assert_eq!(jar.scan(2, 0), Vec::<Vec<Vec<u8>>>::new());
}

#[test]
fn empty_jars() {
    for config in [Filters::WithoutFilters, with(PerfectHashingFunction::Fmph)] {
        let jar = build(config, 0);
        assert_eq!(jar.rows(), 0);
        assert_eq!(jar.get(b"x"), Err(NippyJarError::NotFound));
        assert!(jar.scan(0, 5).is_empty());
        let back = NippyJar::open(&jar.to_artifacts()).unwrap();
        assert_eq!(back.rows(), 0);
        assert_eq!(back.columns(), 3);
    }
    let mut none = NippyJarBuilder::new(0, Filters::WithoutFilters, 0).unwrap();
    none.append_row(&vec![], b"k").unwrap();
    let jar = none.freeze().unwrap();
    assert_eq!(jar.get(b"k"), Ok(vec![]));
}

#[test]
fn rows_of_the_wrong_width_are_refused() {
    let mut builder = NippyJarBuilder::new(3, with(PerfectHashingFunction::Fmph), 10).unwrap();
    builder.append_row(&row(0), &key(0)).unwrap();
    assert_eq!(
        builder.append_row(&vec![vec![1], vec![2]], &key(1)),
        Err(NippyJarError::ColumnCountMismatch)
    );
    assert_eq!(
        builder.append_row(&vec![vec![]; 4], &key(1)),
        Err(NippyJarError::ColumnCountMismatch)
    );
    assert_eq!(builder.rows(), 1);
    assert_eq!(builder.columns(), 3);
    let jar = builder.freeze().unwrap();
    assert_eq!(jar.rows(), 1);
    assert_eq!(jar.get(&key(1)), Err(NippyJarError::NotFound));
    assert_eq!(jar.contains(&key(1)), Ok(false));
}

#[test]
fn too_many_columns_are_refused() {
    assert!(matches!(
        NippyJarBuilder::new(MAX_COLUMNS + 1, Filters::WithoutFilters, 0),
        Err(NippyJarError::TooLarge)
    ));
    assert!(matches!(
        NippyJarBuilder::new(MAX_COLUMNS + 1, with(PerfectHashingFunction::Fmph), 0),
        Err(NippyJarError::TooLarge)
    ));
    assert!(NippyJarBuilder::new(MAX_COLUMNS, Filters::WithoutFilters, 0).is_ok());
}

#[test]
fn a_full_filter_refuses_the_row_and_keeps_the_builder() {
    let mut builder =
        NippyJarBuilder::with_filter(1, PerfectHashingFunction::Fmph, Cuckoo::new(1)).unwrap();
    let mut added = 0;
    for i in 0..10 {
        match builder.append_row(&vec![key(i)], &key(i)) {
            Ok(()) => added += 1,
            Err(e) => {
                assert_eq!(e, NippyJarError::FilterMaxCapacity);
                break;
            }
        }
    }
    assert_eq!(added, 4);
    assert_eq!(builder.rows(), 4);
    let jar = builder.freeze().unwrap();
    for i in 0..4 {
        assert_eq!(jar.get(&key(i)), Ok(vec![key(i)]));
    }
    assert_eq!(jar.get(&key(4)), Err(NippyJarError::NotFound));
}

#[test]
fn equal_keys_are_refused_with_filters() {
    for variant in [PerfectHashingFunction::Fmph, PerfectHashingFunction::GoFmph] {
        let mut builder = NippyJarBuilder::new(3, with(variant), 10).unwrap();
        builder.append_row(&row(0), &key(0)).unwrap();
        builder.append_row(&row(1), &key(1)).unwrap();
        builder.append_row(&row(2), &key(0)).unwrap();
        assert!(matches!(builder.freeze(), Err(NippyJarError::DuplicateKey)));
    }
}

#[test]
fn equal_keys_without_filters_find_the_first_row() {
    let mut builder = NippyJarBuilder::new(3, Filters::WithoutFilters, 10).unwrap();
    builder.append_row(&row(0), &key(0)).unwrap();
    builder.append_row(&row(1), &key(1)).unwrap();
    builder.append_row(&row(2), &key(1)).unwrap();
    let jar = builder.freeze().unwrap();
    assert_eq!(jar.find(&key(1)), Some(1));
    assert_eq!(jar.get(&key(1)), Ok(row(1)));
    assert_eq!(jar.row(2), Some(row(2)));
}

#[test]
fn artifacts_round_trip() {
    for config in [
        Filters::WithoutFilters,
        with(PerfectHashingFunction::Fmph),
        with(PerfectHashingFunction::GoFmph),
    ] {
        let jar = build(config, 300);
        let artifacts = jar.to_artifacts();
        let back = NippyJar::open(&artifacts).unwrap();
        assert_eq!(back.rows(), 300);
        assert_eq!(back.columns(), 3);
        assert_eq!(back.config().has_filters(), config.has_filters());
        for i in 0..300 {
            assert_eq!(back.row(i as usize), Some(row(i)));
            assert_eq!(back.key(i as usize), Some(&key(i)[..]));
            assert_eq!(back.get(&key(i)), Ok(row(i)));
            assert_eq!(back.contains(&key(i)), jar.contains(&key(i)));
        }
        for i in 300..600 {
            assert_eq!(back.get(&key(i)), Err(NippyJarError::NotFound));
        }
        assert_eq!(back.to_artifacts(), artifacts);
    }
}

#[test]
fn identical_input_gives_identical_artifacts() {
    for config in [
        Filters::WithoutFilters,
        with(PerfectHashingFunction::Fmph),
        with(PerfectHashingFunction::GoFmph),
    ] {
        let a = build(config, 500).to_artifacts();
        let b = build(config, 500).to_artifacts();
        assert_eq!(a.data, b.data);
        assert_eq!(a.offsets, b.offsets);
        assert_eq!(a.filter, b.filter);
        assert_eq!(a.phf, b.phf);
        let c = build(config, 499).to_artifacts();
        assert_ne!(a.data, c.data);
        assert_ne!(a.offsets, c.offsets);
    }
}

#[test]
fn artifacts_are_separate_regions() {
    let plain = build(Filters::WithoutFilters, 50).to_artifacts();
    let fmph = build(with(PerfectHashingFunction::Fmph), 50).to_artifacts();
    let gofmph = build(with(PerfectHashingFunction::GoFmph), 50).to_artifacts();
    assert_eq!(plain.data, fmph.data);
    assert_eq!(fmph.data, gofmph.data);
    assert_ne!(plain.offsets, fmph.offsets);
    assert_eq!(fmph.filter, gofmph.filter);
    assert_ne!(fmph.phf, gofmph.phf);
    assert_eq!(plain.filter.len(), 24);
    assert_eq!(plain.phf.len(), 24);
}

fn damaged(artifacts: &Artifacts, region: usize, at: usize) -> Artifacts {
    let mut copy = artifacts.clone();
    let bytes = match region {
        0 => &mut copy.data,
        1 => &mut copy.offsets,
        2 => &mut copy.filter,
        _ => &mut copy.phf,
    };
    let i = at % bytes.len();
    bytes[i] ^= 0x40;
    copy
}

#[test]
fn damaged_artifacts_are_refused() {
    let artifacts = build(with(PerfectHashingFunction::Fmph), 40).to_artifacts();
    for region in 0..4 {
        for at in [0, 9, 17, 100, 1000, 12345] {
            assert!(matches!(
                NippyJar::open(&damaged(&artifacts, region, at)),
                Err(NippyJarError::Corruption)
            ));
        }
    }
    let mut short = artifacts.clone();
    short.data.pop();
    assert!(matches!(NippyJar::open(&short), Err(NippyJarError::Corruption)));
    let mut empty = artifacts.clone();
    empty.phf.clear();
    assert!(matches!(NippyJar::open(&empty), Err(NippyJarError::Corruption)));
}

#[test]
fn artifacts_of_different_jars_do_not_mix() {
    let a = build(with(PerfectHashingFunction::Fmph), 40).to_artifacts();
    let b = build(with(PerfectHashingFunction::Fmph), 41).to_artifacts();
    let plain = build(Filters::WithoutFilters, 40).to_artifacts();
    // every frame is intact, the jar is not
    let mixed = Artifacts { phf: b.phf.clone(), ..a.clone() };
    assert!(matches!(NippyJar::open(&mixed), Err(NippyJarError::Corruption)));
    let mixed = Artifacts { offsets: b.offsets.clone(), ..a.clone() };
    assert!(matches!(NippyJar::open(&mixed), Err(NippyJarError::Corruption)));
    let mixed = Artifacts { filter: plain.filter.clone(), ..a.clone() };
    assert!(matches!(NippyJar::open(&mixed), Err(NippyJarError::Corruption)));
    let mixed = Artifacts { phf: plain.phf.clone(), ..a.clone() };
    assert!(matches!(NippyJar::open(&mixed), Err(NippyJarError::Corruption)));
    let mixed = Artifacts { offsets: plain.offsets.clone(), ..a.clone() };
    assert!(matches!(NippyJar::open(&mixed), Err(NippyJarError::Corruption)));
    // a filter that does not know the keys
    let mut other = NippyJarBuilder::new(3, with(PerfectHashingFunction::Fmph), 40).unwrap();
    for i in 0..40 {
        other.append_row(&row(i), &key(i + 1000)).unwrap();
    }
    let other = other.freeze().unwrap().to_artifacts();
    let mixed = Artifacts { filter: other.filter.clone(), ..a.clone() };
    assert!(matches!(NippyJar::open(&mixed), Err(NippyJarError::Corruption)));
    let mixed = Artifacts { phf: other.phf, ..a.clone() };
    assert!(matches!(NippyJar::open(&mixed), Err(NippyJarError::Corruption)));
    assert!(NippyJar::open(&a).is_ok());
}

#[test]
fn a_failed_publish_keeps_the_current_generation() {
    let mut shelf = Generations::new();
    assert_eq!(shelf.number(), 0);
    assert!(shelf.current().is_none());
    assert!(shelf.open_current().is_none());

    let mut first = NippyJarBuilder::new(3, with(PerfectHashingFunction::Fmph), 10).unwrap();
    for i in 0..10 {
        first.append_row(&row(i), &key(i)).unwrap();
    }
    assert_eq!(shelf.publish(first), Ok(1));
    let published = shelf.current().unwrap().clone();

    let mut bad = NippyJarBuilder::new(3, with(PerfectHashingFunction::Fmph), 10).unwrap();
    bad.append_row(&row(0), &key(0)).unwrap();
    bad.append_row(&row(1), &key(0)).unwrap();
    assert_eq!(shelf.publish(bad), Err(NippyJarError::DuplicateKey));
    assert_eq!(shelf.number(), 1);
    assert_eq!(shelf.current(), Some(&published));
    let jar = shelf.open_current().unwrap().unwrap();
    for i in 0..10 {
        assert_eq!(jar.get(&key(i)), Ok(row(i)));
    }

    let mut second = NippyJarBuilder::new(3, Filters::WithoutFilters, 0).unwrap();
    second.append_row(&row(77), &key(77)).unwrap();
    assert_eq!(shelf.publish(second), Ok(2));
    assert_ne!(shelf.current(), Some(&published));
    let jar = shelf.open_current().unwrap().unwrap();
    assert_eq!(jar.rows(), 1);
    assert_eq!(jar.get(&key(77)), Ok(row(77)));
    assert_eq!(jar.get(&key(0)), Err(NippyJarError::NotFound));
}

#[test]
fn offsets_artifact_starts_with_configuration_and_counts() {
    let word = |bytes: &[u8], i: usize| {
        let mut w = [0u8; 8];
        w.copy_from_slice(&bytes[8 * i..8 * i + 8]);
        u64::from_le_bytes(w)
    };
    for (config, tag) in [
        (Filters::WithoutFilters, 0),
        (with(PerfectHashingFunction::Fmph), 1),
        (with(PerfectHashingFunction::GoFmph), 2),
    ] {
        let artifacts = build(config, 7).to_artifacts();
        let sections = nippy_jar::codec::unseal(&artifacts.offsets).unwrap();
        // head, three columns, keys
        assert_eq!(sections.len(), 5);
        assert_eq!(sections[0].len(), 24);
        assert_eq!(word(&sections[0], 0), tag);
        assert_eq!(word(&sections[0], 1), 3);
        assert_eq!(word(&sections[0], 2), 7);
        for section in &sections[1..] {
            assert_eq!(section.len(), 8 * 8);
            assert_eq!(word(section, 0), 0);
        }
        // third column: four bytes per row
        assert_eq!(word(&sections[3], 7), 28);
        let data = nippy_jar::codec::unseal(&artifacts.data).unwrap();
        assert_eq!(data.len(), 4);
        assert_eq!(data[2].len(), 28);
        assert_eq!(data[3], b"block-0block-1block-2block-3block-4block-5block-6".to_vec());
    }
}
