use vstd::bytes::*;
use vstd::prelude::*;
use vstd::slice::*;

use crate::record_header::{RecordHeader, HEADER_SIZE};
use crate::storage::StorageError;

verus! {

/// Number of bytes of an encoded `Meta`.
pub const META_SIZE: usize = 32;

/// A queue's cursors and counters.
#[derive(Clone, Copy, Debug)]
pub struct Meta {
    pub version: u64,
    /// Byte offset of the record that `pick` exposes.
    pub read_pointer: u64,
    /// Byte offset of the end of the log.
    pub write_pointer: u64,
    /// Number of records ever appended; the next record's identifier.
    pub total_records_added: u64,
}

/// The encoded form: the four fields in order, each as 8 little-endian bytes.
pub open spec fn meta_bytes(m: Meta) -> Seq<u8> {
    spec_u64_to_le_bytes(m.version) + spec_u64_to_le_bytes(m.read_pointer)
        + spec_u64_to_le_bytes(m.write_pointer) + spec_u64_to_le_bytes(m.total_records_added)
}

/// Where the read cursor goes after the record at the read cursor, whose
/// content is `content_size` bytes long: the next record, or back to the
/// start when that would reach the end of the log.
pub open spec fn next_read_pointer(m: Meta, content_size: u64) -> u64 {
    let next = m.read_pointer + HEADER_SIZE + content_size;
    if next < m.write_pointer {
        next as u64
    } else {
        0
    }
}

impl Meta {
    /// The cursors are ordered as the queue requires.
    pub open spec fn wf(&self) -> bool {
        self.read_pointer <= self.write_pointer
    }

    pub open spec fn spec_is_empty(&self) -> bool {
        self.read_pointer == self.write_pointer
    }

    pub fn new(version: u64, read_pointer: u64, write_pointer: u64, total_records_added: u64) -> (r: Self)
        ensures
            r == (Meta { version, read_pointer, write_pointer, total_records_added }),
    {
        Meta { version, read_pointer, write_pointer, total_records_added }
    }

    /// The metadata of a queue that holds nothing yet: all fields zero.
    pub fn default() -> (r: Meta)
        ensures
            r == (Meta { version: 0, read_pointer: 0, write_pointer: 0, total_records_added: 0 }),
    {
        Self::new(0, 0, 0, 0)
    }

    pub fn to_bytes(&self) -> (r: Vec<u8>)
        ensures
            r@ == meta_bytes(*self),
            r@.len() == META_SIZE,
    {
        proof {
            lemma_auto_spec_u64_to_from_le_bytes();
        }
        let mut bytes: Vec<u8> = Vec::with_capacity(META_SIZE);
        let mut v = u64_to_le_bytes(self.version);
        bytes.append(&mut v);
        let mut rp = u64_to_le_bytes(self.read_pointer);
        bytes.append(&mut rp);
        let mut wp = u64_to_le_bytes(self.write_pointer);
        bytes.append(&mut wp);
        let mut total = u64_to_le_bytes(self.total_records_added);
        bytes.append(&mut total);
        bytes
    }

    pub fn from_bytes(bytes: &[u8]) -> (r: Self)
        requires
            bytes@.len() >= META_SIZE,
        ensures
            r.version == spec_u64_from_le_bytes(bytes@.subrange(0, 8)),
            r.read_pointer == spec_u64_from_le_bytes(bytes@.subrange(8, 16)),
            r.write_pointer == spec_u64_from_le_bytes(bytes@.subrange(16, 24)),
            r.total_records_added == spec_u64_from_le_bytes(bytes@.subrange(24, 32)),
    {
        let version = u64_from_le_bytes(slice_subrange(bytes, 0, 8));
        let read_pointer = u64_from_le_bytes(slice_subrange(bytes, 8, 16));
        let write_pointer = u64_from_le_bytes(slice_subrange(bytes, 16, 24));
        let total_records_added = u64_from_le_bytes(slice_subrange(bytes, 24, 32));
        Meta { version, read_pointer, write_pointer, total_records_added }
    }

    pub fn is_empty(&self) -> (r: bool)
        ensures
            r == self.spec_is_empty(),
    {
        self.read_pointer == self.write_pointer
    }

    pub fn size() -> (r: usize)
        ensures
            r == META_SIZE,
    {
        META_SIZE
    }

    /// The offset that `pick` reads from: the read cursor, unless the queue
    /// has nothing to expose.
    pub fn pick_pointer(&self) -> (r: Result<u64, StorageError>)
        ensures
            self.spec_is_empty() ==> r matches Err(StorageError::Empty),
            !self.spec_is_empty() ==> r == Ok::<u64, StorageError>(self.read_pointer),
    {
        if self.is_empty() {
            Err(StorageError::Empty)
        } else {
            Ok(self.read_pointer)
        }
    }

    /// The metadata after a record of `written` bytes was appended to the log.
    pub fn saved(&self, written: u64) -> (r: Meta)
        requires
            self.write_pointer + written <= u64::MAX,
            self.total_records_added < u64::MAX,
        ensures
            r == (Meta {
                write_pointer: (self.write_pointer + written) as u64,
                total_records_added: (self.total_records_added + 1) as u64,
                ..*self
            }),
            self.wf() ==> r.wf(),
    {
        Meta {
            version: self.version,
            read_pointer: self.read_pointer,
            write_pointer: self.write_pointer + written,
            total_records_added: self.total_records_added + 1,
        }
    }

    /// The metadata after the cursor moved past the record at the read
    /// cursor, whose header is `header`.
    pub fn advanced(&self, header: &RecordHeader) -> (r: Meta)
        ensures
            r == (Meta { read_pointer: next_read_pointer(*self, header.content_size), ..*self }),
            r.wf(),
    {
        let next = self.read_pointer.checked_add(HEADER_SIZE as u64);
        let next = match next {
            Some(n) => n.checked_add(header.get_content_size()),
            None => None,
        };
        let read_pointer = match next {
            Some(n) if n < self.write_pointer => n,
            _ => 0,
        };
        Meta { read_pointer, ..*self }
    }
}

/// Encoding a `Meta` and decoding it again gives it back.
pub proof fn lemma_meta_round_trip(m: Meta)
    ensures
        meta_bytes(m).len() == META_SIZE,
        spec_u64_from_le_bytes(meta_bytes(m).subrange(0, 8)) == m.version,
        spec_u64_from_le_bytes(meta_bytes(m).subrange(8, 16)) == m.read_pointer,
        spec_u64_from_le_bytes(meta_bytes(m).subrange(16, 24)) == m.write_pointer,
        spec_u64_from_le_bytes(meta_bytes(m).subrange(24, 32)) == m.total_records_added,
{
    lemma_auto_spec_u64_to_from_le_bytes();
    let b = meta_bytes(m);
    assert(b.subrange(0, 8) =~= spec_u64_to_le_bytes(m.version));
    assert(b.subrange(8, 16) =~= spec_u64_to_le_bytes(m.read_pointer));
    assert(b.subrange(16, 24) =~= spec_u64_to_le_bytes(m.write_pointer));
    assert(b.subrange(24, 32) =~= spec_u64_to_le_bytes(m.total_records_added));
}

} // verus!
