use horreum::command::Command;
use horreum::format::InternalPair;
use horreum::memtable::{Entry, MemTable};

const MEMTABLE_SIZE: usize = 128;

#[test]
fn put_and_get() {
    let mut table = MemTable::new(MEMTABLE_SIZE);
    assert_eq!(None, table.put(b"abc".to_vec(), b"def".to_vec()));
    assert_eq!(None, table.put(b"xyz".to_vec(), b"xxx".to_vec()));
    assert_eq!(
        Some(b"xxx".to_vec()),
        table.put(b"xyz".to_vec(), b"qwerty".to_vec())
    );
    assert_eq!(Some(Entry::Value(b"def".to_vec())), table.get(b"abc"));
    assert_eq!(Some(Entry::Value(b"qwerty".to_vec())), table.get(b"xyz"));
}

#[test]
fn delete() {
    let mut table = MemTable::new(MEMTABLE_SIZE);
    table.put(b"abc".to_vec(), b"def".to_vec());
    table.put(b"xyz".to_vec(), b"xxx".to_vec());
    assert_eq!(Some(b"def".to_vec()), table.delete(b"abc"));
    assert_eq!(None, table.delete(b"abcdef"));
    // A deleted key reads as a tombstone, which hides older tables.
    assert_eq!(Some(Entry::Deleted), table.get(b"abc"));
    assert_eq!(None, table.get(b"111"));
    assert_eq!(Some(Entry::Value(b"xxx".to_vec())), table.get(b"xyz"));
}

#[test]
fn delete_non_existing() {
    let mut table = MemTable::new(MEMTABLE_SIZE);
    assert_eq!(None, table.delete(b"abc"));
    assert_eq!(Some(Entry::Deleted), table.get(b"abc"));
}

#[test]
fn accounting_follows_live_entries() {
    let mut table = MemTable::new(MEMTABLE_SIZE);
    table.put(b"abc".to_vec(), b"def".to_vec());
    assert_eq!(6, table.actual_size());
    table.put(b"abc".to_vec(), b"d".to_vec());
    assert_eq!(4, table.actual_size());
    table.put(b"xy".to_vec(), b"z".to_vec());
    assert_eq!(7, table.actual_size());
    table.delete(b"abc");
    assert_eq!(3, table.actual_size());
    table.delete(b"abc");
    assert_eq!(3, table.actual_size());
    table.put(b"abc".to_vec(), b"12345".to_vec());
    assert_eq!(11, table.actual_size());
}

#[test]
fn flush_fires_on_first_put_over_the_limit() {
    let mut table = MemTable::new(10);
    assert_eq!(None, table.put(b"ab".to_vec(), b"cdef".to_vec()));
    table.delete(b"zz");
    assert_eq!(None, table.take_flush());
    assert_eq!(None, table.put(b"gh".to_vec(), b"ij".to_vec()));
    assert_eq!(10, table.actual_size());
    assert_eq!(None, table.take_flush());
    assert_eq!(None, table.put(b"k".to_vec(), b"l".to_vec()));
    assert_eq!(0, table.actual_size());
    assert_eq!(None, table.get(b"ab"));
    assert_eq!(None, table.get(b"zz"));
    assert_eq!(
        Some(Command::Flush {
            pairs: vec![
                InternalPair::new(b"ab", Some(b"cdef")),
                InternalPair::new(b"gh", Some(b"ij")),
                InternalPair::new(b"k", Some(b"l")),
                InternalPair::new(b"zz", None),
            ],
            size: 12,
        }),
        table.take_flush()
    );
    assert_eq!(None, table.take_flush());
}

#[test]
fn apply_dispatches_commands() {
    let mut table = MemTable::new(MEMTABLE_SIZE);
    assert_eq!(
        None,
        table.apply(Command::Put {
            key: b"k".to_vec(),
            value: b"v".to_vec()
        })
    );
    assert_eq!(
        Some(Entry::Value(b"v".to_vec())),
        table.apply(Command::Get { key: b"k".to_vec() })
    );
    assert_eq!(
        Some(Entry::Value(b"v".to_vec())),
        table.apply(Command::Delete { key: b"k".to_vec() })
    );
    assert_eq!(
        Some(Entry::Deleted),
        table.apply(Command::Get { key: b"k".to_vec() })
    );
}
