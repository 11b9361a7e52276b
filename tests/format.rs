use horreum::error::StoreError;
use horreum::format::InternalPair;

#[test]
fn serialize() {
    let pair = InternalPair::new("abc".as_bytes(), Some("defg".as_bytes()));
    assert_eq!(
        vec![3, 0, 0, 0, 0, 0, 0, 0, 4, 0, 0, 0, 0, 0, 0, 0, 97, 98, 99, 100, 101, 102, 103,],
        pair.serialize()
    );
}

#[test]
fn format_serialize_lacking_value() {
    let pair = InternalPair::new("abc".as_bytes(), None);
    assert_eq!(
        vec![3, 0, 0, 0, 0, 0, 0, 0, 0, 0, 0, 0, 0, 0, 0, 0, 97, 98, 99],
        pair.serialize()
    );
}

#[test]
fn format_serialize_non_ascii() {
    let pair = InternalPair::new("日本語💖".as_bytes(), Some("ржавчина".as_bytes()));
    assert_eq!(
        vec![
            13, 0, 0, 0, 0, 0, 0, 0, 16, 0, 0, 0, 0, 0, 0, 0, 230, 151, 165, 230, 156, 172,
            232, 170, 158, 240, 159, 146, 150, 209, 128, 208, 182, 208, 176, 208, 178, 209,
            135, 208, 184, 208, 189, 208, 176,
        ],
        pair.serialize()
    );
}

#[test]
fn serialize_flatten() {
    let pairs = vec![
        InternalPair::new("abc00".as_bytes(), Some("def".as_bytes())),
        InternalPair::new("abc01".as_bytes(), Some("defg".as_bytes())),
        InternalPair::new("abc02".as_bytes(), Some("de".as_bytes())),
    ];
    assert_eq!(
        vec![
            5, 0, 0, 0, 0, 0, 0, 0, 3, 0, 0, 0, 0, 0, 0, 0, 97, 98, 99, 48, 48, 100, 101, 102,
            5, 0, 0, 0, 0, 0, 0, 0, 4, 0, 0, 0, 0, 0, 0, 0, 97, 98, 99, 48, 49, 100, 101, 102,
            103, 5, 0, 0, 0, 0, 0, 0, 0, 2, 0, 0, 0, 0, 0, 0, 0, 97, 98, 99, 48, 50, 100, 101,
        ],
        InternalPair::serialize_flatten(&pairs)
    );
}

#[test]
fn deserialize() {
    let bytes = vec![
        3, 0, 0, 0, 0, 0, 0, 0, 4, 0, 0, 0, 0, 0, 0, 0, 97, 98, 99, 100, 101, 102, 103,
    ];
    let pair = InternalPair::deserialize(bytes.as_slice()).unwrap();
    assert_eq!(pair, InternalPair::new("abc".as_bytes(), Some("defg".as_bytes())));
}

#[test]
fn format_deserialize_lacking_value() {
    let bytes = vec![3, 0, 0, 0, 0, 0, 0, 0, 0, 0, 0, 0, 0, 0, 0, 0, 97, 98, 99];
    let pair = InternalPair::deserialize(bytes.as_slice()).unwrap();
    assert_eq!(InternalPair::new("abc".as_bytes(), None), pair);
}

#[test]
fn format_deserialize_non_ascii() {
    let bytes = vec![
        13, 0, 0, 0, 0, 0, 0, 0, 16, 0, 0, 0, 0, 0, 0, 0, 230, 151, 165, 230, 156, 172, 232,
        170, 158, 240, 159, 146, 150, 209, 128, 208, 182, 208, 176, 208, 178, 209, 135, 208,
        184, 208, 189, 208, 176,
    ];
    let pair = InternalPair::deserialize(bytes.as_slice()).unwrap();
    assert_eq!(
        InternalPair::new("日本語💖".as_bytes(), Some("ржавчина".as_bytes())),
        pair
    );
}

#[test]
fn format_ordering() {
    assert!(
        InternalPair::new("abc".as_bytes(), Some("defg".as_bytes()))
            < InternalPair::new("日本語💖".as_bytes(), Some("ржавчина".as_bytes()))
    );
}

#[test]
fn ordering() {
    assert!(
        InternalPair::new("abc".as_bytes(), Some("defg".as_bytes()))
            < InternalPair::new("日本語💖".as_bytes(), Some("ржавчина".as_bytes()))
    );
}

#[test]
fn format_deserialize_from_bytes() {
    let pairs = vec![
        InternalPair::new("abc00".as_bytes(), Some("def".as_bytes())),
        InternalPair::new("abc01".as_bytes(), Some("defg".as_bytes())),
        InternalPair::new("abc02".as_bytes(), Some("de".as_bytes())),
        InternalPair::new("abc03".as_bytes(), Some("defgh".as_bytes())),
    ];
    let bytes: Vec<u8> = pairs.iter().flat_map(|pair| pair.serialize()).collect();
    assert_eq!(
        pairs,
        InternalPair::deserialize_from_bytes(&bytes).unwrap()
    );
}

#[test]
fn record_round_trip() {
    let pair = InternalPair::new(b"key", Some(b"value"));
    let bytes = pair.serialize();
    assert_eq!(pair, InternalPair::deserialize(&bytes).unwrap());
    let tombstone = InternalPair::new(b"gone", None);
    assert_eq!(tombstone, InternalPair::deserialize(&tombstone.serialize()).unwrap());
}

#[test]
fn list_round_trip() {
    let pairs = vec![
        InternalPair::new(b"a", Some(b"1")),
        InternalPair::new(b"b", None),
        InternalPair::new(b"", Some(b"empty key")),
    ];
    let bytes = InternalPair::serialize_flatten(&pairs);
    assert_eq!(pairs, InternalPair::deserialize_from_bytes(&bytes).unwrap());
    assert_eq!(
        Vec::<InternalPair>::new(),
        InternalPair::deserialize_from_bytes(&[]).unwrap()
    );
}

#[test]
fn long_length_field_is_malformed() {
    let bytes = vec![200, 0, 0, 0, 0, 0, 0, 0, 0, 0, 0, 0, 0, 0, 0, 0, 97];
    assert_eq!(Err(StoreError::MalformedRecord), InternalPair::deserialize(&bytes));
    assert_eq!(
        Err(StoreError::MalformedRecord),
        InternalPair::deserialize_from_bytes(&bytes)
    );
}

#[test]
fn short_header_is_malformed() {
    let bytes = vec![3, 0, 0, 0, 0, 0, 0, 0, 0, 0];
    assert_eq!(Err(StoreError::MalformedRecord), InternalPair::deserialize(&bytes));
    let mut two = InternalPair::new(b"abc", Some(b"d")).serialize();
    two.push(1);
    assert_eq!(
        Err(StoreError::MalformedRecord),
        InternalPair::deserialize_from_bytes(&two)
    );
}

#[test]
fn lengths_are_little_endian() {
    let key = vec![7u8; 258];
    let bytes = InternalPair::new(&key, Some(b"v")).serialize();
    assert_eq!(vec![2, 1, 0, 0, 0, 0, 0, 0], bytes[..8].to_vec());
    assert_eq!(vec![1, 0, 0, 0, 0, 0, 0, 0], bytes[8..16].to_vec());
    assert_eq!(16 + 258 + 1, bytes.len());
}

#[test]
fn default_is_tombstone_of_empty_key() {
    assert_eq!(InternalPair::new(b"", None), InternalPair::default());
}
