use re_queue::log::{read_record, records_in};
use re_queue::meta::Meta;
use re_queue::record::Record;
use re_queue::record_header::RecordHeader;
use re_queue::storage::{data_file_name, meta_file_name, StorageError};

/// A queue whose log and metadata are kept in memory, driven by the
/// library's functions as the file-backed queue drives them.
struct MemQueue {
    log: Vec<u8>,
    meta: Meta,
}

impl MemQueue {
    fn new() -> Self {
        MemQueue { log: Vec::new(), meta: Meta::default() }
    }

    fn save(&mut self, value: &str) {
        let record = Record::new(value.to_string(), self.meta.total_records_added);
        let bytes = record.to_bytes();
        self.log.extend_from_slice(&bytes);
        self.meta = self.meta.saved(bytes.len() as u64);
    }

    fn pick(&self) -> Result<String, StorageError> {
        let offset = self.meta.pick_pointer()?;
        Ok(read_record(&self.log, offset)?.data)
    }

    fn advance(&mut self) -> Result<(), StorageError> {
        let record = read_record(&self.log, self.meta.read_pointer)?;
        self.meta = self.meta.advanced(&record.meta);
        Ok(())
    }
}

#[test]
fn pick_on_empty_queue_fails() {
    let q = MemQueue::new();
    assert!(matches!(q.pick(), Err(StorageError::Empty)));
    assert!(matches!(Meta::default().pick_pointer(), Err(StorageError::Empty)));
}

#[test]
fn repeated_pick_returns_first_value() {
    let mut q = MemQueue::new();
    q.save("v1");
    q.save("v2");
    q.save("v3");
    assert_eq!(q.pick().unwrap(), "v1");
    assert_eq!(q.pick().unwrap(), "v1");
    assert_eq!(q.pick().unwrap(), "v1");
}

#[test]
fn n_advances_wrap_to_start() {
    let mut q = MemQueue::new();
    let values = ["a", "bb", "", "ünï"];
    for v in values {
        q.save(v);
    }
    for (i, v) in values.iter().enumerate() {
        assert_eq!(q.pick().unwrap(), *v);
        q.advance().unwrap();
        if i + 1 < values.len() {
            assert_ne!(q.meta.read_pointer, 0);
        }
    }
    assert_eq!(q.meta.read_pointer, 0);
    assert_eq!(q.pick().unwrap(), "a");
}

#[test]
fn end_to_end_hello_world() {
    let mut q = MemQueue::new();
    q.save("hello");
    q.save("world");
    assert_eq!(q.pick().unwrap(), "hello");
    q.advance().unwrap();
    assert_eq!(q.pick().unwrap(), "world");
    q.advance().unwrap();
    assert_eq!(q.pick().unwrap(), "hello");
}

#[test]
fn listing_grows_by_one_per_save_in_order() {
    let mut q = MemQueue::new();
    assert_eq!(records_in(&q.log).unwrap().len(), 0);
    q.save("first");
    q.save("second");
    q.advance().unwrap();
    q.save("third");
    let all = records_in(&q.log).unwrap();
    assert_eq!(all.len(), 3);
    let texts: Vec<&str> = all.iter().map(|r| r.data.as_str()).collect();
    assert_eq!(texts, vec!["first", "second", "third"]);
    let ids: Vec<u64> = all.iter().map(|r| r.meta.get_id()).collect();
    assert_eq!(ids, vec![0, 1, 2]);
}

#[test]
fn identifiers_follow_total_records_added() {
    let mut q = MemQueue::new();
    q.save("a");
    q.save("b");
    assert_eq!(q.meta.total_records_added, 2);
    assert_eq!(q.meta.write_pointer, 2 * 17 + 2);
    assert_eq!(q.meta.read_pointer, 0);
}

#[test]
fn saved_adds_written_bytes_and_counts() {
    let m = Meta::new(3, 4, 10, 2).saved(20);
    assert_eq!((m.version, m.read_pointer, m.write_pointer, m.total_records_added), (3, 4, 30, 3));
}

#[test]
fn advanced_moves_or_wraps() {
    let m = Meta::new(0, 0, 40, 2);
    let h = RecordHeader::new(3, 0);
    assert_eq!(m.advanced(&h).read_pointer, 20);
    let m2 = Meta::new(0, 20, 40, 2);
    assert_eq!(m2.advanced(&h).read_pointer, 0);
    let m3 = Meta::new(0, u64::MAX - 5, u64::MAX, 1);
    assert_eq!(m3.advanced(&h).read_pointer, 0);
}

#[test]
fn listing_truncated_log_fails() {
    let mut q = MemQueue::new();
    q.save("hello");
    let cut = &q.log[..q.log.len() - 1];
    assert!(matches!(records_in(cut), Err(StorageError::CorruptLog)));
    assert!(matches!(records_in(&q.log[..10]), Err(StorageError::CorruptLog)));
}

#[test]
fn listing_invalid_text_fails() {
    let mut log = RecordHeader::new(2, 0).to_bytes();
    log.extend_from_slice(&[0xff, 0xfe]);
    assert!(matches!(records_in(&log), Err(StorageError::CorruptRecord)));
}

#[test]
fn read_past_end_fails() {
    let mut q = MemQueue::new();
    q.save("x");
    assert!(matches!(read_record(&q.log, 100), Err(StorageError::CorruptLog)));
}

#[test]
fn queue_file_names() {
    assert_eq!(meta_file_name("q1"), "q1.mt");
    assert_eq!(data_file_name("q1"), "q1.dt");
}
