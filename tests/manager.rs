use horreum::error::StoreError;
use horreum::format::InternalPair;
use horreum::manager::{Probe, SSTableManager};

/// Reads `key` the way the store does: newest table first, one block at a
/// time, from the table files in `files`.
fn read(manager: &SSTableManager, files: &[Vec<u8>], key: &[u8]) -> Option<InternalPair> {
    let mut step = manager.get(key);
    loop {
        match step {
            Probe::Read {
                table,
                position,
                length,
            } => {
                let block = &files[table][position..position + length];
                step = manager.resume(key, table, block).unwrap();
            }
            Probe::Done(answer) => return answer,
        }
    }
}

fn create(manager: &mut SSTableManager, files: &mut Vec<Vec<u8>>, pairs: Vec<InternalPair>, size: usize) {
    files.push(InternalPair::serialize_flatten(&pairs));
    manager.create(pairs, size).unwrap();
}

/// Compacts the way the store does when the rule says so.
fn compact(manager: &mut SSTableManager, files: &mut Vec<Vec<u8>>) -> bool {
    let size = match manager.should_compact() {
        Some(size) => size,
        None => return false,
    };
    let merged = manager.merge_tables(files).unwrap();
    files.clear();
    files.push(InternalPair::serialize_flatten(&merged));
    manager.replace_all(merged, size).unwrap();
    true
}

#[test]
fn open_existing_files() {
    let data0 = InternalPair::serialize_flatten(&vec![
        InternalPair::new(b"abc00", Some(b"def")),
        InternalPair::new(b"abc01", Some(b"defg")),
    ]);
    let data1 = InternalPair::serialize_flatten(&vec![
        InternalPair::new(b"abc00", Some(b"xyz")),
        InternalPair::new(b"abc01", None),
    ]);
    let data2 = InternalPair::serialize_flatten(&vec![InternalPair::new(b"abc02", Some(b"def"))]);
    let files = vec![data0, data1, data2];
    let mut manager = SSTableManager::new(2, 1000);
    for file in files.iter() {
        manager.open_table(file).unwrap();
    }
    assert_eq!(3, manager.table_count());
    assert_eq!(
        InternalPair::new(b"abc00", Some(b"xyz")),
        read(&manager, &files, b"abc00").unwrap()
    );
    assert_eq!(
        InternalPair::new(b"abc01", None),
        read(&manager, &files, b"abc01").unwrap()
    );
    assert_eq!(
        InternalPair::new(b"abc02", Some(b"def")),
        read(&manager, &files, b"abc02").unwrap()
    );
}

#[test]
fn get_pairs() {
    let mut manager = SSTableManager::new(2, 1000);
    let mut files = Vec::new();
    create(
        &mut manager,
        &mut files,
        vec![
            InternalPair::new(b"abc00", Some(b"def")),
            InternalPair::new(b"abc01", Some(b"defg")),
        ],
        17,
    );
    create(
        &mut manager,
        &mut files,
        vec![
            InternalPair::new(b"abc00", Some(b"xyz")),
            InternalPair::new(b"abc01", None),
        ],
        13,
    );
    create(&mut manager, &mut files, vec![InternalPair::new(b"abc02", Some(b"def"))], 8);
    create(&mut manager, &mut files, vec![InternalPair::new(b"xxx", Some(b"42"))], 5);

    assert_eq!(
        InternalPair::new(b"abc00", Some(b"xyz")),
        read(&manager, &files, b"abc00").unwrap()
    );
    assert_eq!(
        InternalPair::new(b"abc01", None),
        read(&manager, &files, b"abc01").unwrap()
    );
    assert_eq!(
        InternalPair::new(b"abc02", Some(b"def")),
        read(&manager, &files, b"abc02").unwrap()
    );
    assert_eq!(
        InternalPair::new(b"xxx", Some(b"42")),
        read(&manager, &files, b"xxx").unwrap()
    );
    assert_eq!(None, read(&manager, &files, b"nothing"));
}

#[test]
fn compaction() {
    let mut manager = SSTableManager::new(2, 50);
    let mut files = Vec::new();
    // Older, lower priority for reference
    create(
        &mut manager,
        &mut files,
        vec![
            InternalPair::new(b"abc00", Some(b"def")),
            InternalPair::new(b"abc01", Some(b"dog")),
            InternalPair::new(b"abc02", None),
            InternalPair::new(b"abc03", Some(b"cat")),
        ],
        29,
    );
    create(
        &mut manager,
        &mut files,
        vec![
            InternalPair::new(b"abc00", Some(b"xyz")),
            InternalPair::new(b"abc01", None),
        ],
        13,
    );
    // Newer, higher priority for reference
    create(
        &mut manager,
        &mut files,
        vec![
            InternalPair::new(b"abc02", Some(b"fuga")),
            InternalPair::new(b"abc04", Some(b"hoge")),
        ],
        18,
    );
    assert!(compact(&mut manager, &mut files));

    assert_eq!(1, manager.table_count());
    assert_eq!(60, manager.table(0).get_size());
    assert_eq!(
        vec![
            InternalPair::new(b"abc00", Some(b"xyz")),
            InternalPair::new(b"abc01", None),
            InternalPair::new(b"abc02", Some(b"fuga")),
            InternalPair::new(b"abc03", Some(b"cat")),
            InternalPair::new(b"abc04", Some(b"hoge")),
        ],
        manager.table(0).get_all(&files[0]).unwrap()
    );
}

#[test]
fn compaction_merges_duplicates_newest_wins() {
    let merged = SSTableManager::compact_inner(vec![
        vec![
            InternalPair::new(b"c", Some(b"30")),
            InternalPair::new(b"e", Some(b"5")),
            InternalPair::new(b"f", None),
        ],
        vec![InternalPair::new(b"a", Some(b"9")), InternalPair::new(b"b", None)],
        vec![
            InternalPair::new(b"a", Some(b"1")),
            InternalPair::new(b"b", Some(b"2")),
            InternalPair::new(b"c", Some(b"3")),
            InternalPair::new(b"d", Some(b"4")),
        ],
    ]);
    assert_eq!(
        vec![
            InternalPair::new(b"a", Some(b"9")),
            InternalPair::new(b"b", None),
            InternalPair::new(b"c", Some(b"30")),
            InternalPair::new(b"d", Some(b"4")),
            InternalPair::new(b"e", Some(b"5")),
            InternalPair::new(b"f", None),
        ],
        merged
    );
    assert!(SSTableManager::compact_inner(vec![Vec::new(), Vec::new()]).is_empty());
}

#[test]
fn compaction_keeps_reads() {
    let mut manager = SSTableManager::new(1, 0);
    let mut files = Vec::new();
    create(&mut manager, &mut files, vec![InternalPair::new(b"k", Some(b"old")), InternalPair::new(b"m", Some(b"1"))], 5);
    create(&mut manager, &mut files, vec![InternalPair::new(b"k", None)], 1);
    create(&mut manager, &mut files, vec![InternalPair::new(b"m", Some(b"2"))], 2);
    let keys: [&[u8]; 4] = [b"k", b"m", b"x", b""];
    let before: Vec<_> = keys.iter().map(|k| read(&manager, &files, k)).collect();
    assert!(compact(&mut manager, &mut files));
    let after: Vec<_> = keys.iter().map(|k| read(&manager, &files, k)).collect();
    assert_eq!(before, after);
    assert_eq!(Some(InternalPair::new(b"k", None)), after[0]);
}

#[test]
fn should_act_compact() {
    let mut manager = SSTableManager::new(2, 25);
    let mut files = Vec::new();
    create(&mut manager, &mut files, vec![InternalPair::new(b"0123", None)], 4);
    create(&mut manager, &mut files, vec![InternalPair::new(b"0", None)], 1);
    create(&mut manager, &mut files, vec![InternalPair::new(b"0", None)], 1);
    // 1 1 4 => 6
    assert_eq!(Some(6), manager.should_compact());
}

#[test]
fn should_not_act_compact() {
    let mut manager = SSTableManager::new(2, 25);
    let mut files = Vec::new();
    create(&mut manager, &mut files, vec![InternalPair::new(b"012345", None)], 6);
    create(&mut manager, &mut files, vec![InternalPair::new(b"0", None)], 1);
    // 1 6 => 1 6 (compaction not triggered)
    assert_eq!(None, manager.should_compact());
}

#[test]
fn compaction_rule_at_half() {
    let mut manager = SSTableManager::new(2, 50);
    let mut files = Vec::new();
    assert_eq!(None, manager.should_compact());
    create(&mut manager, &mut files, vec![InternalPair::new(b"012345", None)], 6);
    assert_eq!(None, manager.should_compact());
    create(&mut manager, &mut files, vec![InternalPair::new(b"0", None)], 1);
    // 1/6 is not above one half
    assert_eq!(None, manager.should_compact());
    create(&mut manager, &mut files, vec![InternalPair::new(b"1", None)], 1);
    create(&mut manager, &mut files, vec![InternalPair::new(b"2", None)], 2);
    // 4/6 is
    assert_eq!(Some(10), manager.should_compact());
}

#[test]
fn newer_table_wins() {
    let mut manager = SSTableManager::new(3, 1000);
    let mut files = Vec::new();
    create(&mut manager, &mut files, vec![InternalPair::new(b"key", Some(b"T1"))], 5);
    create(&mut manager, &mut files, vec![InternalPair::new(b"key", Some(b"T2"))], 5);
    assert_eq!(
        Some(InternalPair::new(b"key", Some(b"T2"))),
        read(&manager, &files, b"key")
    );
}

#[test]
fn merge_reads_files_newest_first() {
    let mut manager = SSTableManager::new(2, 1000);
    let mut files = Vec::new();
    create(&mut manager, &mut files, vec![InternalPair::new(b"a", Some(b"old")), InternalPair::new(b"b", Some(b"kept"))], 8);
    create(&mut manager, &mut files, vec![InternalPair::new(b"a", None)], 1);
    assert_eq!(
        vec![InternalPair::new(b"a", None), InternalPair::new(b"b", Some(b"kept"))],
        manager.merge_tables(&files).unwrap()
    );
    let broken = vec![files[0].clone(), vec![1, 2, 3]];
    assert_eq!(Err(StoreError::MalformedRecord), manager.merge_tables(&broken));
}
