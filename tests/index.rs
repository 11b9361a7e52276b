use horreum::format::InternalPair;
use horreum::index::{Block, Index};

fn sixteen_pairs() -> Vec<InternalPair> {
    vec![
        InternalPair::new(b"abc00", Some(b"def")),
        InternalPair::new(b"abc01", Some(b"defg")),
        InternalPair::new(b"abc02", Some(b"de")),
        InternalPair::new(b"abc03", Some(b"defgh")),
        InternalPair::new(b"abc04", Some(b"defg")),
        InternalPair::new(b"abc05", Some(b"defghij")),
        InternalPair::new(b"abc06", Some(b"def")),
        InternalPair::new(b"abc07", Some(b"defgh")),
        InternalPair::new(b"abc08", None),
        InternalPair::new(b"abc09", None),
        InternalPair::new(b"abc10", None),
        InternalPair::new(b"abc11", None),
        InternalPair::new(b"abc12", None),
        InternalPair::new(b"abc13", None),
        InternalPair::new(b"abc14", None),
        InternalPair::new(b"abc15", None),
    ]
}

#[test]
fn index_creation() {
    let pairs = sixteen_pairs();
    let index = Index::new(pairs, 3);
    assert_eq!(
        vec![
            Block::new(&[97, 98, 99, 48, 48], 0, 72),
            Block::new(&[97, 98, 99, 48, 51], 72, 79),
            Block::new(&[97, 98, 99, 48, 54], 151, 71),
            Block::new(&[97, 98, 99, 48, 57], 222, 63),
            Block::new(&[97, 98, 99, 49, 50], 285, 63),
            Block::new(&[97, 98, 99, 49, 53], 348, 21),
        ]
        .as_slice(),
        index.blocks()
    );
}

#[test]
fn index_get() {
    let pairs = sixteen_pairs();
    let index = Index::new(pairs, 3);
    assert_eq!(None, index.get(b"a"));
    assert_eq!(Some((0, 72)), index.get(b"abc01"));
    assert_eq!(Some((72, 79)), index.get(b"abc03"));
    assert_eq!(Some((348, 21)), index.get(b"abc15"));
}

#[test]
fn index_key_between_blocks_takes_floor() {
    let index = Index::new(sixteen_pairs(), 3);
    // "abc025" sorts after "abc02", the last key of the first block.
    assert_eq!(Some((0, 72)), index.get(b"abc025"));
    // Past the last key: the last block.
    assert_eq!(Some((348, 21)), index.get(b"zzz"));
    // Every key of a block finds that block.
    for key in [b"abc06", b"abc07", b"abc08"] {
        assert_eq!(Some((151, 71)), index.get(key));
    }
}

#[test]
fn index_of_nothing_finds_nothing() {
    let index = Index::new(Vec::new(), 4);
    assert!(index.blocks().is_empty());
    assert_eq!(None, index.get(b"abc"));
}

#[test]
fn block_length_can_be_set() {
    let mut block = Block::new(b"k", 10, 0);
    block.set_length(42);
    assert_eq!(Block::new(b"k", 10, 42), block);
}
