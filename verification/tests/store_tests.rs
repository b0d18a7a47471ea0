use mmap_cache::Builder;
use mmap_cache::Cache;
use mmap_cache::KeyBound;
use mmap_cache::StoreError;

const PAIRS: [(&[u8], [i32; 3]); 5] = [
    (b"cat", [1, 2, 3]),
    (b"dog", [2, 3, 4]),
    (b"doggy", [3, 4, 5]),
    (b"frog", [4, 5, 6]),
    (b"goose", [5, 6, 7]),
];

fn triple_bytes(triple: [i32; 3]) -> Vec<u8> {
    let mut v = Vec::new();
    for x in triple {
        v.extend_from_slice(&x.to_ne_bytes());
    }
    v
}

fn example_cache() -> Cache {
    let mut builder = Builder::new();
    for (key, value) in PAIRS {
        builder.insert(key, &triple_bytes(value)).unwrap();
    }
    let (index_bytes, value_bytes) = builder.finish().unwrap();
    Cache::new(index_bytes, value_bytes).unwrap()
}

#[test]
fn serialize_and_read_range() {
    let cache = example_cache();
    let dog: &[u8] = b"dog";
    let gator: &[u8] = b"gator";
    let stream = cache.range(
        &KeyBound::Included(dog.to_vec()),
        &KeyBound::Included(gator.to_vec()),
    );
    let mut key_values = Vec::new();
    for (key, offset) in stream {
        let start = offset as usize;
        let value = cache.value_bytes()[start..start + 12].to_vec();
        key_values.push((key, value));
    }

    assert_eq!(
        key_values,
        vec![
            (b"dog".to_vec(), triple_bytes(PAIRS[1].1)),
            (b"doggy".to_vec(), triple_bytes(PAIRS[2].1)),
            (b"frog".to_vec(), triple_bytes(PAIRS[3].1)),
        ]
    );
}

#[test]
fn key_lookups() {
    let cache = example_cache();

    let (first_key, first_offset) = cache.first().unwrap();
    assert_eq!(&first_key, b"cat");
    assert_eq!(first_offset, 0);

    let (last_key, last_offset) = cache.last().unwrap();
    assert_eq!(&last_key, b"goose");
    assert_eq!(last_offset, 48);

    // Equal.
    let (le_key, le_offset) = cache.last_le::<4>(b"frog").unwrap();
    assert_eq!(&le_key, b"frog");
    assert_eq!(le_offset, 36);

    // Lesser, same length.
    let (le_key, le_offset) = cache.last_le::<4>(b"full").unwrap();
    assert_eq!(&le_key, b"frog");
    assert_eq!(le_offset, 36);

    // Lesser, same length, different starting letter.
    let (le_key, le_offset) = cache.last_le::<4>(b"goon").unwrap();
    assert_eq!(&le_key, b"frog");
    assert_eq!(le_offset, 36);

    // Lesser, longer.
    let (le_key, le_offset) = cache.last_le::<4>(b"goony").unwrap();
    assert_eq!(&le_key, b"frog");
    assert_eq!(le_offset, 36);

    // Lesser, longer, superstring.
    let (le_key, le_offset) = cache.last_le::<3>(b"doge").unwrap();
    assert_eq!(le_key.as_ref(), b"dog");
    assert_eq!(le_offset, 12);

    // Lesser, same length, substring matches greater key.
    let (le_key, le_offset) = cache.last_le::<4>(b"goos").unwrap();
    assert_eq!(&le_key, b"frog");
    assert_eq!(le_offset, 36);

    // Lesser, shorter.
    let (le_key, le_offset) = cache.last_le::<4>(b"fry").unwrap();
    assert_eq!(&le_key, b"frog");
    assert_eq!(le_offset, 36);
    let (le_key, le_offset) = cache.last_le::<3>(b"do").unwrap();
    assert_eq!(le_key.as_ref(), b"cat");
    assert_eq!(le_offset, 0);
    let (le_key, le_offset) = cache.last_le::<5>(b"food").unwrap();
    assert_eq!(le_key.as_ref(), b"doggy");
    assert_eq!(le_offset, 24);

    // Lesser, shorter, substring matches greater key.
    let (le_key, le_offset) = cache.last_le::<5>(b"fro").unwrap();
    assert_eq!(&le_key, b"doggy");
    assert_eq!(le_offset, 24);

    // No LE keys.
    let result = cache.last_le::<4>(b"candy");
    assert_eq!(result, None);
}

#[test]
fn point_lookups_return_recorded_offsets() {
    let cache = example_cache();
    assert_eq!(cache.get_value_offset(b"cat"), Some(0));
    assert_eq!(cache.get_value_offset(b"dog"), Some(12));
    assert_eq!(cache.get_value_offset(b"doggy"), Some(24));
    assert_eq!(cache.get_value_offset(b"frog"), Some(36));
    assert_eq!(cache.get_value_offset(b"goose"), Some(48));
    assert_eq!(cache.get_value_offset(b"gopher"), None);
    assert_eq!(cache.get_value_offset(b""), None);
}

#[test]
fn inserted_values_sit_at_their_offsets() {
    let cache = example_cache();
    for (key, value) in PAIRS {
        let offset = cache.get_value_offset(key).unwrap() as usize;
        assert_eq!(
            &cache.value_bytes()[offset..offset + 12],
            triple_bytes(value).as_slice()
        );
    }
    assert_eq!(cache.value_bytes().len(), 60);
}

#[test]
fn full_range_is_insertion_order() {
    let cache = example_cache();
    let stream = cache.range(&KeyBound::Unbounded, &KeyBound::Unbounded);
    let keys: Vec<Vec<u8>> = stream.iter().map(|p| p.0.clone()).collect();
    let expected: Vec<Vec<u8>> = PAIRS.iter().map(|p| p.0.to_vec()).collect();
    assert_eq!(keys, expected);
    let offsets: Vec<u64> = stream.iter().map(|p| p.1).collect();
    assert_eq!(offsets, vec![0, 12, 24, 36, 48]);
}

#[test]
fn range_respects_open_endpoints() {
    let cache = example_cache();
    let stream = cache.range(
        &KeyBound::Excluded(b"dog".to_vec()),
        &KeyBound::Excluded(b"goose".to_vec()),
    );
    let keys: Vec<Vec<u8>> = stream.into_iter().map(|p| p.0).collect();
    assert_eq!(keys, vec![b"doggy".to_vec(), b"frog".to_vec()]);

    let stream = cache.range(&KeyBound::Unbounded, &KeyBound::Excluded(b"cat".to_vec()));
    assert!(stream.is_empty());
}

#[test]
fn empty_store_has_no_first_or_last() {
    let builder = Builder::new();
    let (index_bytes, value_bytes) = builder.finish().unwrap();
    let cache = Cache::new(index_bytes, value_bytes).unwrap();
    assert_eq!(cache.first::<3>(), None);
    assert_eq!(cache.last::<3>(), None);
    assert_eq!(cache.last_le::<3>(b"zzz"), None);
    assert_eq!(cache.get_value_offset(b"cat"), None);
    assert!(cache.range(&KeyBound::Unbounded, &KeyBound::Unbounded).is_empty());
}

#[test]
fn last_returns_none_on_width_mismatch() {
    let cache = example_cache();
    // the greatest key is five bytes long, so a four-byte request yields none
    assert_eq!(cache.last::<4>(), None);
}

#[test]
fn out_of_order_keys_are_rejected() {
    let mut builder = Builder::new();
    builder.insert(b"dog", b"1").unwrap();
    let err = builder.insert(b"cat", b"2").unwrap_err();
    assert!(matches!(err, StoreError::Fst(_)));
}

#[test]
fn duplicate_keys_are_rejected() {
    let mut builder = Builder::new();
    builder.insert(b"dog", b"1").unwrap();
    let err = builder.insert(b"dog", b"2").unwrap_err();
    assert!(matches!(err, StoreError::Fst(_)));
}

#[test]
fn chunked_values_commit_at_their_start() {
    let mut builder = Builder::new();
    builder.append_value_bytes(&777u32.to_be_bytes()).unwrap();
    builder.append_value_bytes(&777u32.to_be_bytes()).unwrap();
    builder.commit_entry(b"hot_garbage").unwrap();
    let mut buf = [0u8; 8];
    buf[0..4].copy_from_slice(&777u32.to_be_bytes());
    buf[4..8].copy_from_slice(&777u32.to_be_bytes());
    builder.insert(b"lots_of_garbage", &buf).unwrap();
    let (index_bytes, value_bytes) = builder.finish().unwrap();
    let cache = Cache::new(index_bytes, value_bytes).unwrap();
    assert_eq!(cache.get_value_offset(b"hot_garbage"), Some(0));
    assert_eq!(cache.get_value_offset(b"lots_of_garbage"), Some(8));
    assert_eq!(&cache.value_bytes()[0..8], &buf);
    assert_eq!(&cache.value_bytes()[8..16], &buf);
}

#[test]
fn malformed_index_bytes_are_rejected() {
    let r = Cache::new(vec![1, 2, 3], Vec::new());
    assert!(matches!(r, Err(StoreError::Fst(_))));
}

#[test]
fn zero_length_values_share_offsets() {
    let mut builder = Builder::new();
    builder.insert(b"a", b"").unwrap();
    builder.insert(b"b", b"x").unwrap();
    builder.insert(b"c", b"").unwrap();
    let (index_bytes, value_bytes) = builder.finish().unwrap();
    let cache = Cache::new(index_bytes, value_bytes).unwrap();
    assert_eq!(cache.get_value_offset(b"a"), Some(0));
    assert_eq!(cache.get_value_offset(b"b"), Some(0));
    assert_eq!(cache.get_value_offset(b"c"), Some(1));
    assert_eq!(cache.value_bytes(), b"x");
}

#[test]
fn first_and_last_agree_on_singleton() {
    let mut builder = Builder::new();
    builder.insert(b"only", b"v").unwrap();
    let (index_bytes, value_bytes) = builder.finish().unwrap();
    let cache = Cache::new(index_bytes, value_bytes).unwrap();
    assert_eq!(cache.first::<4>(), Some((*b"only", 0)));
    assert_eq!(cache.last::<4>(), Some((*b"only", 0)));
    assert_eq!(cache.last_le::<4>(b"only"), Some((*b"only", 0)));
}

#[test]
fn last_le_against_linear_scan() {
    let keys: [&[u8]; 7] = [b"ab", b"abc", b"b", b"ba", b"bb", b"ca", b"cb"];
    let mut builder = Builder::new();
    for (i, key) in keys.iter().enumerate() {
        builder.insert(key, &[i as u8]).unwrap();
    }
    let (index_bytes, value_bytes) = builder.finish().unwrap();
    let cache = Cache::new(index_bytes, value_bytes).unwrap();

    let bounds: [&[u8]; 8] = [b"a", b"ab", b"abcd", b"azz", b"b", b"bazz", b"cc", b"z"];
    for bound in bounds {
        let expected = keys
            .iter()
            .copied()
            .filter(|k| *k <= bound)
            .max()
            .map(|k| k.to_vec());
        let got = match expected.as_ref().map(|k| k.len()) {
            None | Some(1) => cache.last_le::<1>(bound).map(|(k, o)| (k.to_vec(), o)),
            Some(2) => cache.last_le::<2>(bound).map(|(k, o)| (k.to_vec(), o)),
            _ => cache.last_le::<3>(bound).map(|(k, o)| (k.to_vec(), o)),
        };
        assert_eq!(got.as_ref().map(|p| &p.0), expected.as_ref());
        if let Some((k, o)) = got {
            assert_eq!(cache.get_value_offset(&k), Some(o));
        }
    }
}
