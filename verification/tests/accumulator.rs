use static_opti::worker::{etag, reduce, Accumulator, Item};

fn key(item: &Item) -> (String, (String, (u64, u32)), Option<(String, (u64, u32))>, Option<(String, (u64, u32))>) {
    (
        item.path.clone(),
        item.plain.clone(),
        item.gzip.clone(),
        item.brotli.clone(),
    )
}

fn keys(items: &[Item]) -> Vec<(String, (String, (u64, u32)), Option<(String, (u64, u32))>, Option<(String, (u64, u32))>)> {
    items.iter().map(key).collect()
}

fn filled(files: &[(&str, &[u8], Option<&[u8]>, Option<&[u8]>)]) -> Accumulator {
    let mut acc = Accumulator::new();
    for (path, plain, gzip, brotli) in files {
        acc.add((
            path.to_string(),
            plain.to_vec(),
            gzip.map(|b| b.to_vec()),
            brotli.map(|b| b.to_vec()),
        ));
    }
    acc
}

#[test]
fn new_accumulator_is_empty() {
    let (blob, items) = Accumulator::new().into_raw();
    assert!(blob.is_empty());
    assert!(items.is_empty());
}

#[test]
fn add_appends_variants_in_fixed_order() {
    let mut acc = Accumulator::new();
    acc.add((
        "a.txt".to_string(),
        b"hello".to_vec(),
        Some(vec![1, 2, 3]),
        Some(vec![9, 8]),
    ));
    let (blob, items) = acc.into_raw();
    assert_eq!(blob, vec![b'h', b'e', b'l', b'l', b'o', 1, 2, 3, 9, 8]);
    assert_eq!(items.len(), 1);
    assert_eq!(items[0].path, "a.txt");
    assert_eq!(items[0].plain, (etag(b"hello"), (0, 5)));
    assert_eq!(items[0].gzip, Some((etag(&[1, 2, 3]), (5, 3))));
    assert_eq!(items[0].brotli, Some((etag(&[9, 8]), (8, 2))));
}

#[test]
fn add_without_gzip_places_brotli_after_plain() {
    let mut acc = Accumulator::new();
    acc.add(("a".to_string(), b"xyz".to_vec(), None, Some(vec![4, 4])));
    let (blob, items) = acc.into_raw();
    assert_eq!(blob, vec![b'x', b'y', b'z', 4, 4]);
    assert_eq!(items[0].plain.1, (0, 3));
    assert_eq!(items[0].gzip, None);
    assert_eq!(items[0].brotli, Some((etag(&[4, 4]), (3, 2))));
}

#[test]
fn second_file_starts_where_the_first_ends() {
    let acc = filled(&[
        ("one", b"11111", Some(b"gz"), None),
        ("two", b"22", None, None),
    ]);
    let (blob, items) = acc.into_raw();
    assert_eq!(blob, b"11111gz22");
    assert_eq!(items[0].plain.1, (0, 5));
    assert_eq!(items[0].gzip.as_ref().unwrap().1, (5, 2));
    assert_eq!(items[1].path, "two");
    assert_eq!(items[1].plain, (etag(b"22"), (7, 2)));
}

#[test]
fn empty_file_has_a_zero_length_plain_region() {
    let acc = filled(&[("before", b"abc", None, None), ("empty", b"", None, None), ("after", b"d", None, None)]);
    let (blob, items) = acc.into_raw();
    assert_eq!(blob, b"abcd");
    assert_eq!(items[1].path, "empty");
    assert_eq!(items[1].plain, (etag(b""), (3, 0)));
    assert!(items[1].gzip.is_none());
    assert!(items[1].brotli.is_none());
    assert_eq!(items[2].plain.1, (3, 1));
}

#[test]
fn merge_rebases_the_offsets_of_the_second() {
    let left = filled(&[("l", b"left!", None, None)]);
    let right = filled(&[("r", b"right", Some(b"rg"), Some(b"rb")), ("s", b"s", None, None)]);
    let (blob, items) = left.merge(right).into_raw();
    assert_eq!(blob, b"left!rightrgrbs");
    assert_eq!(items.len(), 3);
    assert_eq!(items[0].path, "l");
    assert_eq!(items[0].plain, (etag(b"left!"), (0, 5)));
    assert_eq!(items[1].path, "r");
    assert_eq!(items[1].plain, (etag(b"right"), (5, 5)));
    assert_eq!(items[1].gzip, Some((etag(b"rg"), (10, 2))));
    assert_eq!(items[1].brotli, Some((etag(b"rb"), (12, 2))));
    assert_eq!(items[2].path, "s");
    assert_eq!(items[2].plain, (etag(b"s"), (14, 1)));
}

#[test]
fn merge_with_empty_changes_nothing() {
    let (blob, items) = filled(&[("a", b"aa", Some(b"g"), None)])
        .merge(Accumulator::new())
        .into_raw();
    let (blob2, items2) = Accumulator::new()
        .merge(filled(&[("a", b"aa", Some(b"g"), None)]))
        .into_raw();
    let (blob3, items3) = filled(&[("a", b"aa", Some(b"g"), None)]).into_raw();
    assert_eq!(blob, blob3);
    assert_eq!(blob2, blob3);
    assert_eq!(keys(&items), keys(&items3));
    assert_eq!(keys(&items2), keys(&items3));
}

#[test]
fn merge_is_associative() {
    let a = || filled(&[("a", b"aaaa", Some(b"ga"), None)]);
    let b = || filled(&[("b", b"bb", None, Some(b"bb-br")), ("b2", b"", None, None)]);
    let c = || filled(&[("c", b"cccccc", Some(b"gc"), Some(b"bc"))]);
    let (left_blob, left_items) = a().merge(b()).merge(c()).into_raw();
    let (right_blob, right_items) = a().merge(b().merge(c())).into_raw();
    assert_eq!(left_blob, right_blob);
    assert_eq!(keys(&left_items), keys(&right_items));
}

#[test]
fn merging_groups_equals_adding_in_sequence() {
    let all: Vec<(&str, &[u8], Option<&[u8]>, Option<&[u8]>)> = vec![
        ("a", b"aaaa", Some(b"ga"), None),
        ("b", b"bb", None, Some(b"bb-br")),
        ("c", b"", None, None),
        ("d", b"dddddd", Some(b"gd"), Some(b"bd")),
        ("e", b"e", None, None),
    ];
    let (whole_blob, whole_items) = filled(&all).into_raw();
    for cut in 0..=all.len() {
        let (blob, items) = filled(&all[..cut]).merge(filled(&all[cut..])).into_raw();
        assert_eq!(blob, whole_blob);
        assert_eq!(keys(&items), keys(&whole_items));
    }
    let parts = vec![filled(&all[..1]), filled(&all[1..1]), filled(&all[1..4]), filled(&all[4..])];
    let (blob, items) = reduce(parts).into_raw();
    assert_eq!(blob, whole_blob);
    assert_eq!(keys(&items), keys(&whole_items));
}

#[test]
fn reduce_of_nothing_is_empty() {
    let (blob, items) = reduce(vec![]).into_raw();
    assert!(blob.is_empty());
    assert!(items.is_empty());
}

#[test]
fn every_region_addresses_its_variant() {
    let left = filled(&[("l", b"left!", Some(b"LG"), None)]);
    let right = filled(&[("r", b"right", Some(b"rg"), Some(b"rb"))]);
    let (blob, items) = left.merge(right).into_raw();
    let slice = |region: (u64, u32)| &blob[region.0 as usize..region.0 as usize + region.1 as usize];
    assert_eq!(slice(items[0].plain.1), b"left!");
    assert_eq!(slice(items[0].gzip.as_ref().unwrap().1), b"LG");
    assert_eq!(slice(items[1].plain.1), b"right");
    assert_eq!(slice(items[1].gzip.as_ref().unwrap().1), b"rg");
    assert_eq!(slice(items[1].brotli.as_ref().unwrap().1), b"rb");
}

#[test]
fn persist_replaces_the_destination() {
    let mut out = vec![0xffu8; 4];
    let items = filled(&[("a", b"abc", None, None)]).persist(&mut out);
    assert_eq!(out, b"abc");
    assert_eq!(items.len(), 1);
    assert_eq!(items[0].plain, (etag(b"abc"), (0, 3)));
}
