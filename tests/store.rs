use horreum::command::Command;
use horreum::format::InternalPair;
use horreum::manager::{Probe, SSTableManager};
use horreum::memtable::{Entry, MemTable};
use horreum::router::{after_memtable, entry_of, Route};

const MEMTABLE_SIZE: usize = 128;

/// The store with its table files held in memory.
struct Store {
    memtable: MemTable,
    manager: SSTableManager,
    files: Vec<Vec<u8>>,
}

impl Store {
    fn new(limit: usize, block_stride: usize, ratio: u64) -> Store {
        Store {
            memtable: MemTable::new(limit),
            manager: SSTableManager::new(block_stride, ratio),
            files: Vec::new(),
        }
    }

    fn create(&mut self, pairs: Vec<InternalPair>, size: usize) {
        self.files.push(InternalPair::serialize_flatten(&pairs));
        self.manager.create(pairs, size).unwrap();
    }

    fn read(&self, key: &[u8]) -> Option<InternalPair> {
        let mut step = self.manager.get(key);
        loop {
            match step {
                Probe::Read {
                    table,
                    position,
                    length,
                } => {
                    let block = &self.files[table][position..position + length];
                    step = self.manager.resume(key, table, block).unwrap();
                }
                Probe::Done(answer) => return answer,
            }
        }
    }

    fn apply(&mut self, command: Command) -> Option<Entry> {
        let reply = self.memtable.apply(command.clone());
        if let Some(Command::Flush { pairs, size }) = self.memtable.take_flush() {
            self.create(pairs, size);
        }
        match after_memtable(&command, reply) {
            Route::Reply(reply) => reply,
            Route::AskManager => match &command {
                Command::Get { key } => entry_of(self.read(key)),
                _ => None,
            },
        }
    }
}

fn get(key: &[u8]) -> Command {
    Command::Get { key: key.to_vec() }
}

fn put(key: &[u8], value: &[u8]) -> Command {
    Command::Put {
        key: key.to_vec(),
        value: value.to_vec(),
    }
}

#[test]
fn put_and_get_integrated() {
    let mut store = Store::new(MEMTABLE_SIZE, 3, 1000);
    store.create(
        vec![
            InternalPair::new(b"rust", Some(b"wonderful")),
            InternalPair::new(b"xxx", Some(b"sstable")),
        ],
        23,
    );
    store.apply(put(b"abc", b"def"));
    store.apply(put(b"xxx", b"memtable"));

    // Simply read from MemTable
    assert_eq!(Some(Entry::Value(b"def".to_vec())), store.apply(get(b"abc")));
    // Exists the same entry in SSTable, but read from MemTable
    assert_eq!(
        Some(Entry::Value(b"memtable".to_vec())),
        store.apply(get(b"xxx"))
    );
    // Simply read from SSTable
    assert_eq!(
        Some(Entry::Value(b"wonderful".to_vec())),
        store.apply(get(b"rust"))
    );
}

#[test]
fn tombstone_hides_sstable() {
    let mut store = Store::new(MEMTABLE_SIZE, 3, 1000);
    store.create(vec![InternalPair::new(b"k", Some(b"v"))], 2);
    assert_eq!(Some(Entry::Value(b"v".to_vec())), store.apply(get(b"k")));
    store.apply(Command::Delete { key: b"k".to_vec() });
    assert_eq!(Some(Entry::Deleted), store.apply(get(b"k")));
    assert_eq!(None, store.apply(get(b"other")));
}

#[test]
fn flush_then_read() {
    let mut store = Store::new(MEMTABLE_SIZE, 2, 1000);
    let keys: Vec<Vec<u8>> = (0..5).map(|i| format!("key{}", i).into_bytes()).collect();
    let values: Vec<Vec<u8>> = (0..5)
        .map(|i| format!("a fairly long value number {}", i).into_bytes())
        .collect();
    for (key, value) in keys.iter().zip(values.iter()) {
        assert_eq!(None, store.apply(put(key, value)));
    }
    assert_eq!(1, store.manager.table_count());
    assert_eq!(0, store.memtable.actual_size());
    for (key, value) in keys.iter().zip(values.iter()) {
        assert_eq!(None, store.memtable.get(key));
        assert_eq!(Some(Entry::Value(value.clone())), store.apply(get(key)));
    }
}

#[test]
fn router_decisions() {
    assert!(matches!(after_memtable(&get(b"k"), None), Route::AskManager));
    assert!(matches!(
        after_memtable(&get(b"k"), Some(Entry::Deleted)),
        Route::Reply(Some(Entry::Deleted))
    ));
    assert!(matches!(
        after_memtable(&put(b"k", b"v"), None),
        Route::Reply(None)
    ));
    assert_eq!(None, entry_of(None));
    assert_eq!(
        Some(Entry::Deleted),
        entry_of(Some(InternalPair::new(b"k", None)))
    );
    assert_eq!(
        Some(Entry::Value(b"v".to_vec())),
        entry_of(Some(InternalPair::new(b"k", Some(b"v"))))
    );
}
