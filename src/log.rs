use vstd::prelude::*;
use vstd::slice::*;
use vstd::utf8::*;

use crate::record::Record;
use crate::record_header::{RecordHeader, HEADER_SIZE};
use crate::storage::StorageError;

verus! {

/// What a reader learns of a record: its header and its text.
pub open spec fn record_view(r: Record) -> (RecordHeader, Seq<char>) {
    (r.meta, r.data@)
}

pub open spec fn records_view(v: Seq<Record>) -> Seq<(RecordHeader, Seq<char>)> {
    v.map_values(|r: Record| record_view(r))
}

/// The record at the start of `b`: `CorruptLog` when `b` ends inside it,
/// `CorruptRecord` when its payload is not valid UTF-8.
pub open spec fn read_first(b: Seq<u8>) -> Result<(RecordHeader, Seq<char>), StorageError> {
    if b.len() < HEADER_SIZE {
        Err(StorageError::CorruptLog)
    } else {
        let h = RecordHeader::spec_from_bytes(b);
        let end = HEADER_SIZE + h.content_size;
        if end > b.len() {
            Err(StorageError::CorruptLog)
        } else if !valid_utf8(b.subrange(HEADER_SIZE as int, end)) {
            Err(StorageError::CorruptRecord)
        } else {
            Ok((h, decode_utf8(b.subrange(HEADER_SIZE as int, end))))
        }
    }
}

/// The record that starts at byte `offset` of the log `b`.
pub open spec fn read_at(b: Seq<u8>, offset: int) -> Result<(RecordHeader, Seq<char>), StorageError> {
    if offset > b.len() {
        Err(StorageError::CorruptLog)
    } else {
        read_first(b.subrange(offset, b.len() as int))
    }
}

/// Prepends `xs` to a successful result.
pub open spec fn prepend(
    xs: Seq<(RecordHeader, Seq<char>)>,
    r: Result<Seq<(RecordHeader, Seq<char>)>, StorageError>,
) -> Result<Seq<(RecordHeader, Seq<char>)>, StorageError> {
    match r {
        Ok(rest) => Ok(xs + rest),
        Err(e) => Err(e),
    }
}

/// Every record of the log `b`, from offset 0 to its end, in order.
pub open spec fn parse_log(b: Seq<u8>) -> Result<Seq<(RecordHeader, Seq<char>)>, StorageError>
    decreases b.len(),
{
    if b.len() == 0 {
        Ok(Seq::empty())
    } else {
        match read_first(b) {
            Ok(rec) => {
                let end = HEADER_SIZE + rec.0.content_size;
                prepend(seq![rec], parse_log(b.subrange(end, b.len() as int)))
            },
            Err(e) => Err(e),
        }
    }
}

/// Reads the record that starts at byte `offset` of `log`.
pub fn read_record(log: &[u8], offset: u64) -> (r: Result<Record, StorageError>)
    ensures
        r matches Ok(rec) ==> read_at(log@, offset as int) == Ok::<_, StorageError>(record_view(rec))
            && rec.wf(),
        r matches Err(e) ==> read_at(log@, offset as int) == Err::<(RecordHeader, Seq<char>), _>(e),
{
    let len = log.len() as u64;
    if offset > len || len - offset < HEADER_SIZE as u64 {
        return Err(StorageError::CorruptLog);
    }
    let start = offset as usize;
    let ghost b = log@.subrange(offset as int, log@.len() as int);
    let header = RecordHeader::from_bytes(slice_subrange(log, start, start + HEADER_SIZE));
    assert(log@.subrange(start as int, start + HEADER_SIZE).subrange(1, 9) =~= b.subrange(1, 9));
    assert(log@.subrange(start as int, start + HEADER_SIZE).subrange(9, 17) =~= b.subrange(9, 17));
    let size = header.get_content_size();
    if size > len - offset - HEADER_SIZE as u64 {
        return Err(StorageError::CorruptLog);
    }
    let body = start + HEADER_SIZE;
    let end = body + size as usize;
    let payload = slice_subrange(log, body, end);
    assert(payload@ =~= b.subrange(HEADER_SIZE as int, HEADER_SIZE + size));
    Record::from_bytes(header, payload)
}

/// Every record of `log` in order, independent of any cursor.
pub fn records_in(log: &[u8]) -> (r: Result<Vec<Record>, StorageError>)
    ensures
        r matches Ok(v) ==> parse_log(log@) == Ok::<_, StorageError>(records_view(v@)),
        r matches Err(e) ==> parse_log(log@) == Err::<Seq<(RecordHeader, Seq<char>)>, _>(e),
{
    let mut out: Vec<Record> = Vec::new();
    let mut offset: usize = 0;
    assert(log@.subrange(0, log@.len() as int) =~= log@);
    while offset < log.len()
        invariant
            offset <= log@.len(),
            parse_log(log@) == prepend(records_view(out@), parse_log(log@.subrange(offset as int, log@.len() as int))),
        decreases log@.len() - offset,
    {
        let ghost rest = log@.subrange(offset as int, log@.len() as int);
        let rec = match read_record(log, offset as u64) {
            Ok(rec) => rec,
            Err(e) => {
                return Err(e);
            },
        };
        let next = offset + HEADER_SIZE + rec.meta.get_content_size() as usize;
        let ghost before = out@;
        assert(rest.subrange(HEADER_SIZE + rec.meta.content_size, rest.len() as int)
            =~= log@.subrange(next as int, log@.len() as int));
        out.push(rec);
        assert(records_view(out@) =~= records_view(before) + seq![record_view(rec)]);
        proof {
            let tail = parse_log(log@.subrange(next as int, log@.len() as int));
            assert(parse_log(rest) == prepend(seq![record_view(rec)], tail));
            match tail {
                Ok(t) => {
                    assert(records_view(before) + (seq![record_view(rec)] + t) =~= records_view(out@) + t);
                },
                Err(_) => {},
            }
        }
        offset = next;
    }
    assert(log@.subrange(offset as int, log@.len() as int) =~= Seq::<u8>::empty());
    assert(records_view(out@) + Seq::empty() =~= records_view(out@));
    Ok(out)
}

} // verus!
