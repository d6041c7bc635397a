use vstd::prelude::*;
use vstd::slice::*;
use vstd::string::*;
use vstd::utf8::*;

use crate::record_header::{header_bytes, RecordHeader, HEADER_SIZE};
use crate::storage::StorageError;

verus! {

broadcast use {encode_utf8_decode_utf8, decode_utf8_encode_utf8, encode_utf8_valid_utf8};

/// One stored unit: its header and its text payload.
#[derive(Debug)]
pub struct Record {
    pub meta: RecordHeader,
    pub data: String,
}

/// The encoded form of a record whose payload is `data`.
pub open spec fn record_bytes(is_active: bool, id: u64, data: Seq<char>) -> Seq<u8> {
    header_bytes(is_active, encode_utf8(data).len() as u64, id) + encode_utf8(data)
}

/// Relies on `String::from_utf8`: it succeeds exactly on valid UTF-8, and the
/// string then holds the characters that the bytes encode.
#[verifier::external_body]
fn string_from_utf8(bytes: Vec<u8>) -> (r: Option<String>)
    ensures
        r.is_some() <==> valid_utf8(bytes@),
        r matches Some(s) ==> s@ == decode_utf8(bytes@),
{
    String::from_utf8(bytes).ok()
}

impl Record {
    /// The stored content size agrees with the payload's byte length.
    pub open spec fn wf(&self) -> bool {
        self.meta.content_size == encode_utf8(self.data@).len()
    }

    pub open spec fn spec_bytes(&self) -> Seq<u8> {
        self.meta.spec_bytes() + encode_utf8(self.data@)
    }

    pub fn new(data: String, id: u64) -> (r: Self)
        ensures
            r.wf(),
            r.meta.is_active,
            r.meta.id == id,
            r.data@ == data@,
            r.spec_bytes() == record_bytes(true, id, data@),
    {
        let len = data.as_str().as_bytes().len() as u64;
        Record { meta: RecordHeader::new(len, id), data }
    }

    /// Decodes a payload read after `meta`. Fails with `CorruptRecord` when the
    /// bytes are not valid UTF-8 or their number differs from the header's.
    pub fn from_bytes(meta: RecordHeader, bytes: &[u8]) -> (r: Result<Self, StorageError>)
        ensures
            r.is_ok() <==> (valid_utf8(bytes@) && bytes@.len() == meta.content_size),
            r matches Err(e) ==> e is CorruptRecord,
            r matches Ok(rec) ==> rec.meta == meta && rec.data@ == decode_utf8(bytes@)
                && rec.wf(),
    {
        if bytes.len() as u64 != meta.content_size {
            return Err(StorageError::CorruptRecord);
        }
        match string_from_utf8(slice_to_vec(bytes)) {
            Some(data) => Ok(Record { meta, data }),
            None => Err(StorageError::CorruptRecord),
        }
    }

    pub fn to_bytes(&self) -> (r: Vec<u8>)
        ensures
            r@ == self.spec_bytes(),
    {
        let mut buffer = self.meta.to_bytes();
        let mut payload = slice_to_vec(self.data.as_str().as_bytes());
        buffer.append(&mut payload);
        buffer
    }

    /// Total encoded size: header plus content.
    pub fn size(&self) -> (r: u64)
        requires
            self.meta.content_size + HEADER_SIZE <= u64::MAX,
        ensures
            r == self.meta.content_size + HEADER_SIZE,
    {
        self.meta.get_content_size() + RecordHeader::size() as u64
    }
}

} // verus!
