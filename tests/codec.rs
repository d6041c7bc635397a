use re_queue::command::Command;
use re_queue::meta::Meta;
use re_queue::record::Record;
use re_queue::record_header::RecordHeader;
use re_queue::storage::StorageError;

#[test]
fn header_layout() {
    let h = RecordHeader::new(5, 258);
    assert_eq!(
        h.to_bytes(),
        vec![1, 5, 0, 0, 0, 0, 0, 0, 0, 2, 1, 0, 0, 0, 0, 0, 0]
    );
    assert_eq!(RecordHeader::size(), 17);
}

#[test]
fn header_round_trip() {
    let h = RecordHeader::new(123456789, 42);
    let back = RecordHeader::from_bytes(&h.to_bytes());
    assert!(back.is_active);
    assert_eq!(back.get_content_size(), 123456789);
    assert_eq!(back.get_id(), 42);
    let inactive = RecordHeader::from_bytes(&[0; 17]);
    assert!(!inactive.is_active);
}

#[test]
fn record_content_size_counts_bytes() {
    let r = Record::new("héllo".to_string(), 7);
    assert_eq!(r.meta.get_content_size(), 6);
    assert_eq!(r.size(), 23);
    let bytes = r.to_bytes();
    assert_eq!(bytes.len(), 23);
    assert_eq!(&bytes[17..], "héllo".as_bytes());
}

#[test]
fn record_round_trip() {
    for text in ["", "plain", "多字节 text ✓"] {
        let r = Record::new(text.to_string(), 9);
        let bytes = r.to_bytes();
        let header = RecordHeader::from_bytes(&bytes[..17]);
        let back = Record::from_bytes(header, &bytes[17..]).unwrap();
        assert_eq!(back.data, text);
        assert_eq!(back.meta.get_id(), 9);
        assert_eq!(back.meta.get_content_size(), text.len() as u64);
    }
}

#[test]
fn invalid_text_is_corrupt_record() {
    let header = RecordHeader::new(2, 0);
    assert!(matches!(
        Record::from_bytes(header, &[0xc3, 0x28]),
        Err(StorageError::CorruptRecord)
    ));
}

#[test]
fn length_mismatch_is_corrupt_record() {
    let header = RecordHeader::new(3, 0);
    assert!(matches!(
        Record::from_bytes(header, b"ab"),
        Err(StorageError::CorruptRecord)
    ));
}

#[test]
fn meta_layout_and_round_trip() {
    let m = Meta::new(1, 2, 3, 0x0102030405060708);
    let bytes = m.to_bytes();
    assert_eq!(bytes.len(), 32);
    assert_eq!(Meta::size(), 32);
    assert_eq!(&bytes[0..8], &[1, 0, 0, 0, 0, 0, 0, 0]);
    assert_eq!(&bytes[24..32], &[8, 7, 6, 5, 4, 3, 2, 1]);
    let back = Meta::from_bytes(&bytes);
    assert_eq!(
        (back.version, back.read_pointer, back.write_pointer, back.total_records_added),
        (1, 2, 3, 0x0102030405060708)
    );
}

#[test]
fn default_meta_is_zero_and_empty() {
    let m = Meta::default();
    assert_eq!(m.to_bytes(), vec![0u8; 32]);
    assert!(m.is_empty());
    assert!(!Meta::new(0, 0, 5, 1).is_empty());
}

#[test]
fn commands_parse() {
    assert_eq!(Command::parse("save"), Some(Command::Save));
    assert_eq!(Command::parse("next"), Some(Command::MoveNext));
    assert_eq!(Command::parse("create-storage"), Some(Command::CreateStorage));
    assert_eq!(Command::parse("storage-list"), Some(Command::StorageList));
    assert_eq!(Command::parse("Save"), None);
    assert_eq!(Command::parse(""), None);
}

#[test]
fn largest_values_round_trip() {
    let m = Meta::new(u64::MAX, u64::MAX - 1, u64::MAX, u64::MAX);
    let back = Meta::from_bytes(&m.to_bytes());
    assert_eq!(
        (back.version, back.read_pointer, back.write_pointer, back.total_records_added),
        (u64::MAX, u64::MAX - 1, u64::MAX, u64::MAX)
    );
    let h = RecordHeader::from_bytes(&RecordHeader::new(u64::MAX, u64::MAX).to_bytes());
    assert_eq!((h.get_content_size(), h.get_id()), (u64::MAX, u64::MAX));
}
