use vstd::prelude::*;
use vstd::string::*;
use vstd::utf8::*;

use crate::log::{parse_log, prepend, read_at, read_first};
use crate::meta::{next_read_pointer, Meta};
use crate::record::{record_bytes, Record};
use crate::record_header::{lemma_header_round_trip, RecordHeader, HEADER_SIZE};

verus! {

broadcast use {encode_utf8_decode_utf8, encode_utf8_valid_utf8};

/// Declares std's I/O error so that a storage error can carry its cause.
#[verifier::external_type_specification]
#[verifier::external_body]
pub struct ExIoError(std::io::Error);

/// Why an operation on a queue failed.
#[derive(Debug)]
pub enum StorageError {
    /// The underlying file operation failed.
    Io(std::io::Error),
    /// `pick` or `move_next` on a queue with nothing to expose.
    Empty,
    /// A record's payload is not valid UTF-8, or not as long as its header says.
    CorruptRecord,
    /// The log ends inside a record.
    CorruptLog,
}

/// The log after saving `payloads` in order into an empty queue: each
/// record's identifier is its position.
pub open spec fn log_of(payloads: Seq<Seq<char>>) -> Seq<u8>
    decreases payloads.len(),
{
    if payloads.len() == 0 {
        Seq::empty()
    } else {
        log_of(payloads.drop_last()) + record_bytes(
            true,
            (payloads.len() - 1) as u64,
            payloads.last(),
        )
    }
}

/// The metadata after saving `payloads` in order into an empty queue, each
/// save as `Meta::saved` with the size of the appended record.
pub open spec fn meta_after_saves(payloads: Seq<Seq<char>>) -> Meta
    decreases payloads.len(),
{
    if payloads.len() == 0 {
        Meta { version: 0, read_pointer: 0, write_pointer: 0, total_records_added: 0 }
    } else {
        let m = meta_after_saves(payloads.drop_last());
        let written = record_bytes(true, m.total_records_added, payloads.last()).len();
        Meta {
            write_pointer: (m.write_pointer + written) as u64,
            total_records_added: (m.total_records_added + 1) as u64,
            ..m
        }
    }
}

/// The metadata after `k` advances over `log`, each as `Meta::advanced`
/// with the header of the record at the read cursor; a failed read leaves
/// the metadata as it was.
pub open spec fn after_advances(m: Meta, log: Seq<u8>, k: nat) -> Meta
    decreases k,
{
    if k == 0 {
        m
    } else {
        let prev = after_advances(m, log, (k - 1) as nat);
        match read_at(log, prev.read_pointer as int) {
            Ok(rec) => Meta { read_pointer: next_read_pointer(prev, rec.0.content_size), ..prev },
            Err(_) => prev,
        }
    }
}

/// What `pick` gives on metadata `m` over `log`: `Empty` when the cursors
/// meet, else the text of the record at the read cursor.
pub open spec fn spec_pick(m: Meta, log: Seq<u8>) -> Result<Seq<char>, StorageError> {
    if m.spec_is_empty() {
        Err(StorageError::Empty)
    } else {
        match read_at(log, m.read_pointer as int) {
            Ok(rec) => Ok(rec.1),
            Err(e) => Err(e),
        }
    }
}

/// What a reader learns of the `i`-th saved record.
pub open spec fn saved_record(payloads: Seq<Seq<char>>, i: int) -> (RecordHeader, Seq<char>) {
    (
        RecordHeader {
            is_active: true,
            content_size: encode_utf8(payloads[i]).len() as u64,
            id: i as u64,
        },
        payloads[i],
    )
}

/// The log of `payloads` fits the 64-bit cursors.
pub open spec fn fits(payloads: Seq<Seq<char>>) -> bool {
    log_of(payloads).len() <= u64::MAX
}

/// The byte offset at which the `k`-th saved record starts.
pub open spec fn offset_of(payloads: Seq<Seq<char>>, k: int) -> int {
    log_of(payloads.take(k)).len() as int
}

proof fn lemma_record_len(id: u64, d: Seq<char>)
    ensures
        record_bytes(true, id, d).len() == HEADER_SIZE + encode_utf8(d).len(),
{
    vstd::bytes::lemma_auto_spec_u64_to_from_le_bytes();
}

proof fn lemma_read_first_record(id: u64, d: Seq<char>, rest: Seq<u8>)
    requires
        encode_utf8(d).len() <= u64::MAX,
    ensures
        read_first(record_bytes(true, id, d) + rest) == Ok::<_, StorageError>(
            (RecordHeader { is_active: true, content_size: encode_utf8(d).len() as u64, id }, d),
        ),
{
    let enc = encode_utf8(d);
    let h = RecordHeader { is_active: true, content_size: enc.len() as u64, id };
    let b = record_bytes(true, id, d) + rest;
    assert(b =~= h.spec_bytes() + (enc + rest));
    lemma_header_round_trip(h, enc + rest);
    assert(b.subrange(HEADER_SIZE as int, HEADER_SIZE + enc.len()) =~= enc);
}

proof fn lemma_parse_append(x: Seq<u8>, y: Seq<u8>)
    requires
        parse_log(x) is Ok,
    ensures
        parse_log(x + y) == prepend(parse_log(x)->Ok_0, parse_log(y)),
    decreases x.len(),
{
    if x.len() == 0 {
        assert(x + y =~= y);
        match parse_log(y) {
            Ok(t) => assert(Seq::<(RecordHeader, Seq<char>)>::empty() + t =~= t),
            Err(_) => {},
        }
    } else {
        let rec = read_first(x)->Ok_0;
        let end = HEADER_SIZE + rec.0.content_size;
        let xy = x + y;
        assert(xy.subrange(1, 9) =~= x.subrange(1, 9));
        assert(xy.subrange(9, 17) =~= x.subrange(9, 17));
        assert(xy.subrange(HEADER_SIZE as int, end) =~= x.subrange(HEADER_SIZE as int, end));
        assert(read_first(xy) == read_first(x));
        let xr = x.subrange(end, x.len() as int);
        assert(xy.subrange(end, xy.len() as int) =~= xr + y);
        lemma_parse_append(xr, y);
        let xs = parse_log(xr)->Ok_0;
        match parse_log(y) {
            Ok(t) => assert(seq![rec] + (xs + t) =~= (seq![rec] + xs) + t),
            Err(_) => {},
        }
    }
}

proof fn lemma_log_of_take(payloads: Seq<Seq<char>>, k: int)
    requires
        0 <= k < payloads.len(),
    ensures
        log_of(payloads.take(k + 1)) == log_of(payloads.take(k)) + record_bytes(
            true,
            k as u64,
            payloads[k],
        ),
{
    assert(payloads.take(k + 1).drop_last() =~= payloads.take(k));
}

proof fn lemma_log_prefix(payloads: Seq<Seq<char>>, j: int)
    requires
        0 <= j <= payloads.len(),
    ensures
        log_of(payloads) =~= log_of(payloads.take(j)) + log_of(payloads).subrange(
            offset_of(payloads, j),
            log_of(payloads).len() as int,
        ),
        offset_of(payloads, j) <= log_of(payloads).len(),
    decreases payloads.len(),
{
    if j == payloads.len() {
        assert(payloads.take(j) =~= payloads);
    } else {
        let p = payloads.drop_last();
        assert(p.take(j) =~= payloads.take(j));
        lemma_log_prefix(p, j);
    }
}

proof fn lemma_meta_after_saves(payloads: Seq<Seq<char>>)
    requires
        fits(payloads),
    ensures
        meta_after_saves(payloads) == (Meta {
            version: 0,
            read_pointer: 0,
            write_pointer: log_of(payloads).len() as u64,
            total_records_added: payloads.len() as u64,
        }),
        payloads.len() <= log_of(payloads).len(),
    decreases payloads.len(),
{
    if payloads.len() > 0 {
        lemma_meta_after_saves(payloads.drop_last());
    }
}

proof fn lemma_read_saved(payloads: Seq<Seq<char>>, k: int)
    requires
        fits(payloads),
        0 <= k < payloads.len(),
    ensures
        read_at(log_of(payloads), offset_of(payloads, k)) == Ok::<_, StorageError>(
            saved_record(payloads, k),
        ),
        offset_of(payloads, k + 1) == offset_of(payloads, k) + HEADER_SIZE + encode_utf8(
            payloads[k],
        ).len(),
        offset_of(payloads, k + 1) <= log_of(payloads).len(),
{
    let log = log_of(payloads);
    lemma_log_of_take(payloads, k);
    lemma_log_prefix(payloads, k + 1);
    lemma_record_len(k as u64, payloads[k]);
    let rec = record_bytes(true, k as u64, payloads[k]);
    let tail = log.subrange(offset_of(payloads, k + 1), log.len() as int);
    assert(log.subrange(offset_of(payloads, k), log.len() as int) =~= rec + tail);
    lemma_read_first_record(k as u64, payloads[k], tail);
}

/// Saving payloads into an empty queue and listing its log gives one record
/// per save, in the order of the saves, each with its position as identifier
/// and its text unchanged. So each save adds exactly one record at the end of
/// the listing, wherever the read cursor stands.
pub proof fn law_list_after_saves(payloads: Seq<Seq<char>>)
    requires
        fits(payloads),
    ensures
        parse_log(log_of(payloads)) == Ok::<_, StorageError>(
            Seq::new(payloads.len(), |i: int| saved_record(payloads, i)),
        ),
    decreases payloads.len(),
{
    if payloads.len() > 0 {
        let p = payloads.drop_last();
        let n = payloads.len() - 1;
        law_list_after_saves(p);
        lemma_meta_after_saves(payloads);
        lemma_record_len(n as u64, payloads.last());
        lemma_log_prefix(payloads, n);
        let rec = record_bytes(true, n as u64, payloads.last());
        lemma_parse_append(log_of(p), rec);
        lemma_read_first_record(n as u64, payloads.last(), Seq::empty());
        assert(rec + Seq::empty() =~= rec);
        let end = HEADER_SIZE + encode_utf8(payloads.last()).len();
        assert(rec.subrange(end, rec.len() as int) =~= Seq::<u8>::empty());
        assert(read_first(rec) == Ok::<_, StorageError>(saved_record(payloads, n)));
        assert(parse_log(Seq::<u8>::empty()) == Ok::<_, StorageError>(Seq::<(RecordHeader, Seq<char>)>::empty()));
        assert(seq![saved_record(payloads, n)] + Seq::empty() =~= seq![saved_record(payloads, n)]);
        assert(parse_log(rec) == Ok::<_, StorageError>(seq![saved_record(payloads, n)]));
        let before = Seq::new(p.len(), |i: int| saved_record(p, i));
        assert(before + seq![saved_record(payloads, n)] =~= Seq::new(
            payloads.len(),
            |i: int| saved_record(payloads, i),
        ));
        assert(log_of(payloads) == log_of(p) + rec);
        assert(parse_log(log_of(payloads)) == prepend(before, parse_log(rec)));
    } else {
        assert(Seq::new(payloads.len(), |i: int| saved_record(payloads, i)) =~= Seq::empty());
    }
}

/// After saves into an empty queue and no advance, `pick` gives the first
/// payload, and keeps giving it since it changes nothing.
pub proof fn law_pick_after_saves(payloads: Seq<Seq<char>>)
    requires
        fits(payloads),
        payloads.len() > 0,
    ensures
        meta_after_saves(payloads).read_pointer == 0,
        spec_pick(meta_after_saves(payloads), log_of(payloads)) == Ok::<_, StorageError>(
            payloads[0],
        ),
{
    lemma_meta_after_saves(payloads);
    lemma_read_saved(payloads, 0);
    assert(payloads.take(0) =~= Seq::<Seq<char>>::empty());
}

/// After `n` saves into an empty queue, the `k`-th advance (`k < n`) moves
/// the read cursor to the next record, so `pick` gives the `k`-th payload;
/// the `n`-th brings the cursor back to offset 0.
pub proof fn law_advances_walk_the_ring(payloads: Seq<Seq<char>>, k: nat)
    requires
        fits(payloads),
        0 < payloads.len(),
        k <= payloads.len(),
    ensures
        k < payloads.len() ==> after_advances(meta_after_saves(payloads), log_of(payloads), k).read_pointer
            == offset_of(payloads, k as int),
        k < payloads.len() ==> spec_pick(
            after_advances(meta_after_saves(payloads), log_of(payloads), k),
            log_of(payloads),
        ) == Ok::<_, StorageError>(payloads[k as int]),
        k == payloads.len() ==> after_advances(
            meta_after_saves(payloads),
            log_of(payloads),
            k,
        ).read_pointer == 0,
        after_advances(meta_after_saves(payloads), log_of(payloads), k).write_pointer == log_of(
            payloads,
        ).len(),
    decreases k,
{
    let m = meta_after_saves(payloads);
    let log = log_of(payloads);
    lemma_meta_after_saves(payloads);
    if k == 0 {
        assert(payloads.take(0) =~= Seq::<Seq<char>>::empty());
    } else {
        law_advances_walk_the_ring(payloads, (k - 1) as nat);
        let j = k - 1;
        lemma_read_saved(payloads, j);
        let prev = after_advances(m, log, (k - 1) as nat);
        assert(prev.read_pointer == offset_of(payloads, j));
        assert(read_at(log, prev.read_pointer as int) == Ok::<_, StorageError>(
            saved_record(payloads, j),
        ));
        if k < payloads.len() {
            lemma_read_saved(payloads, k as int);
            assert(offset_of(payloads, k as int) < log.len());
        } else {
            assert(payloads.take(k as int) =~= payloads);
        }
    }
    if k < payloads.len() {
        lemma_read_saved(payloads, k as int);
    }
}

/// After `n` saves into an empty queue and `n` advances, the read cursor is
/// back at offset 0 and `pick` gives the first payload again.
pub proof fn law_ring_wraps_around(payloads: Seq<Seq<char>>)
    requires
        fits(payloads),
        payloads.len() > 0,
    ensures
        after_advances(meta_after_saves(payloads), log_of(payloads), payloads.len()).read_pointer
            == 0,
        spec_pick(
            after_advances(meta_after_saves(payloads), log_of(payloads), payloads.len()),
            log_of(payloads),
        ) == Ok::<_, StorageError>(payloads[0]),
{
    law_advances_walk_the_ring(payloads, payloads.len());
    lemma_meta_after_saves(payloads);
    lemma_read_saved(payloads, 0);
    assert(payloads.take(0) =~= Seq::<Seq<char>>::empty());
}


/// Decoding the encoded form of any well-formed record, followed by any
/// bytes, gives back its header (identifier, content length, flag) and its
/// text, for every text, the empty one and multi-byte ones included.
pub proof fn law_record_round_trip(r: Record, rest: Seq<u8>)
    requires
        r.wf(),
    ensures
        read_first(r.spec_bytes() + rest) == Ok::<_, StorageError>((r.meta, r.data@)),
        parse_log(r.spec_bytes()) == Ok::<_, StorageError>(seq![(r.meta, r.data@)]),
{
    let enc = encode_utf8(r.data@);
    lemma_header_round_trip(r.meta, enc + rest);
    assert(r.spec_bytes() + rest =~= r.meta.spec_bytes() + (enc + rest));
    let b = r.spec_bytes() + rest;
    assert(b.subrange(HEADER_SIZE as int, HEADER_SIZE + enc.len()) =~= enc);
    lemma_header_round_trip(r.meta, enc);
    let only = r.spec_bytes();
    assert(only.subrange(HEADER_SIZE as int, HEADER_SIZE + enc.len()) =~= enc);
    assert(only.subrange(HEADER_SIZE + enc.len(), only.len() as int) =~= Seq::<u8>::empty());
    assert(parse_log(Seq::<u8>::empty()) == Ok::<_, StorageError>(
        Seq::<(RecordHeader, Seq<char>)>::empty(),
    ));
    assert(seq![(r.meta, r.data@)] + Seq::empty() =~= seq![(r.meta, r.data@)]);
}

/// The name of the file that holds the metadata of queue `name`.
pub fn meta_file_name(name: &str) -> (r: String)
    ensures
        r@ == name@ + ".mt"@,
{
    let mut r = String::from_str(name);
    r.append(".mt");
    r
}

/// The name of the file that holds the log of queue `name`.
pub fn data_file_name(name: &str) -> (r: String)
    ensures
        r@ == name@ + ".dt"@,
{
    let mut r = String::from_str(name);
    r.append(".dt");
    r
}

} // verus!
