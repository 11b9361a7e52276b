use horreum::error::StoreError;
use horreum::format::InternalPair;
use horreum::table::SSTable;

/// Looks `key` up the way a reader of the table's file does.
fn lookup(table: &SSTable, file: &[u8], key: &[u8]) -> Option<InternalPair> {
    match table.locate(key) {
        Some((position, length)) => table
            .get(key, &file[position..position + length])
            .unwrap(),
        None => None,
    }
}

#[test]
fn search_table() {
    let pairs = vec![
        InternalPair::new(b"abc00", Some(b"def")),
        InternalPair::new(b"abc01", Some(b"defg")),
        InternalPair::new(b"abc02", Some(b"de")),
        InternalPair::new(b"abc03", Some(b"defgh")),
        InternalPair::new(b"abc04", Some(b"defg")),
        InternalPair::new(b"abc05", Some(b"defghij")),
        InternalPair::new(b"abc06", Some(b"def")),
        InternalPair::new(b"abc07", Some(b"defgh")),
        InternalPair::new(b"abc08", None),
        InternalPair::new(b"abc09", None),
        InternalPair::new(b"abc10", None),
        InternalPair::new(b"abc11", None),
        InternalPair::new(b"abc12", None),
        InternalPair::new(b"abc13", None),
        InternalPair::new(b"abc14", None),
        InternalPair::new(b"abc15", None),
    ];
    let file = InternalPair::serialize_flatten(&pairs);
    let table = SSTable::new(pairs, 113, 3).unwrap();
    assert_eq!(113, table.get_size());
    assert_eq!(
        Some(InternalPair::new(b"abc04", Some(b"defg"))),
        lookup(&table, &file, b"abc04")
    );
    assert_eq!(
        Some(InternalPair::new(b"abc15", None)),
        lookup(&table, &file, b"abc15")
    );
    assert_eq!(None, lookup(&table, &file, b"abc011"));
    assert_eq!(None, lookup(&table, &file, b"abc16"));
    assert_eq!(None, lookup(&table, &file, b"a"));
}

#[test]
fn iterate_table() {
    let pairs = vec![
        InternalPair::new(b"abc00", Some(b"def")),
        InternalPair::new(b"abc01", Some(b"defg")),
        InternalPair::new(b"abc02", None),
    ];
    let file = InternalPair::serialize_flatten(&pairs);
    let table = SSTable::new(pairs, 22, 3).unwrap();
    let mut pairs = table.get_all(&file).unwrap().into_iter();
    assert_eq!(
        Some(InternalPair::new(b"abc00", Some(b"def"))),
        pairs.next()
    );
    assert_eq!(
        Some(InternalPair::new(b"abc01", Some(b"defg"))),
        pairs.next()
    );
    assert_eq!(Some(InternalPair::new(b"abc02", None)), pairs.next());
    assert_eq!(None, pairs.next());
}

#[test]
fn open_existing_file() {
    let pairs = vec![
        InternalPair::new(b"abc00", Some(b"def")),
        InternalPair::new(b"abc01", Some(b"defg")),
        InternalPair::new(b"abc02", None),
    ];
    let data = InternalPair::serialize_flatten(&pairs);
    let table = SSTable::open(&data, 3).unwrap();
    let opened_pairs = table.get_all(&data).unwrap();
    assert_eq!(pairs, opened_pairs);
    // key and value bytes, a tombstone counting its key only
    assert_eq!(5 + 3 + 5 + 4 + 5, table.get_size());
    assert_eq!(
        Some(InternalPair::new(b"abc01", Some(b"defg"))),
        lookup(&table, &data, b"abc01")
    );
}

#[test]
fn table_rejects_bad_runs() {
    let unsorted = vec![
        InternalPair::new(b"b", Some(b"1")),
        InternalPair::new(b"a", Some(b"2")),
    ];
    assert_eq!(
        Err(StoreError::UnsortedRecords),
        SSTable::new(unsorted, 4, 2).map(|_| ())
    );
    let repeated = vec![
        InternalPair::new(b"abc", Some(b"defg")),
        InternalPair::new(b"abc", None),
    ];
    assert_eq!(
        Err(StoreError::UnsortedRecords),
        SSTable::new(repeated, 7, 1).map(|_| ())
    );
    let empty_value = vec![InternalPair::new(b"a", Some(b""))];
    assert_eq!(
        Err(StoreError::EmptyValue),
        SSTable::new(empty_value, 1, 1).map(|_| ())
    );
    assert_eq!(
        Err(StoreError::MalformedRecord),
        SSTable::open(&[1, 2, 3], 1).map(|_| ())
    );
}

#[test]
fn wrong_block_bytes_are_reported() {
    let pairs = vec![InternalPair::new(b"a", Some(b"1"))];
    let table = SSTable::new(pairs, 2, 1).unwrap();
    assert_eq!(Err(StoreError::MalformedRecord), table.get(b"a", &[9, 9]));
}
