use crate::document::{Document, DocumentId};
use crate::storage::record::{
    decoding, encoding, fits, lemma_decode_encoding, lemma_decoding_ignores_what_follows,
    lemma_truncated_encoding,
    record_of, DecodeError, Operation, Record, RecordModel,
};
use vstd::prelude::*;
use vstd::slice::{slice_subrange, slice_to_vec};
use vstd::utf8::*;

verus! {

/// Length of the header that opens every log file: the magic, then the version.
pub const HEADER_LEN: usize = 7;

/// The format version this library writes and reads.
pub const VERSION: u8 = 1;

/// The six bytes a log file starts with: `MEMDB` and a zero byte.
pub open spec fn magic() -> Seq<u8> {
    seq![77u8, 69u8, 77u8, 68u8, 66u8, 0u8]
}

/// The header of a new log file.
pub open spec fn header_bytes() -> Seq<u8> {
    magic().push(VERSION)
}

/// Why the start of a file is not the start of a log this library can read.
#[derive(Debug, Clone, Copy, PartialEq, Eq, Structural)]
pub enum HeaderError {
    /// The file is too short for a header, or does not start with the magic.
    NotALog,
    /// The file is a log of another format version.
    UnsupportedVersion,
}

/// What reading the header at the front of `start` gives.
pub open spec fn header_check(start: Seq<u8>) -> Result<(), HeaderError> {
    if start.len() < HEADER_LEN || start.subrange(0, 6) != magic() {
        Err(HeaderError::NotALog)
    } else if start[6] != VERSION {
        Err(HeaderError::UnsupportedVersion)
    } else {
        Ok(())
    }
}

/// The header that `create` writes.
pub fn header() -> (h: Vec<u8>)
    ensures
        h@ == header_bytes(),
{
    let h: Vec<u8> = vec![77u8, 69u8, 77u8, 68u8, 66u8, 0u8, VERSION];
    assert(h@ =~= header_bytes());
    h
}

/// Checks the header at the front of `start`, the first bytes of a file (all of them,
/// where the file is shorter than a header).
pub fn check_header(start: &[u8]) -> (r: Result<(), HeaderError>)
    ensures
        r == header_check(start@),
{
    if start.len() < HEADER_LEN {
        return Err(HeaderError::NotALog);
    }
    let m = header();
    let mut i: usize = 0;
    while i < 6
        invariant
            HEADER_LEN <= start@.len(),
            m@ == header_bytes(),
            0 <= i <= 6,
            forall|j: int| 0 <= j < i ==> start@[j] == magic()[j],
        decreases 6 - i,
    {
        if start[i] != m[i] {
            assert(start@.subrange(0, 6)[i as int] != magic()[i as int]);
            return Err(HeaderError::NotALog);
        }
        i = i + 1;
    }
    assert(start@.subrange(0, 6) =~= magic());
    if start[6] != VERSION {
        Err(HeaderError::UnsupportedVersion)
    } else {
        Ok(())
    }
}

/// The records of a log body, read one after the other from the front: each is
/// decoded where the one before it ends, and the first that cannot be decoded makes
/// the whole read fail with its error.
pub open spec fn records_of(bytes: Seq<u8>) -> Result<Seq<RecordModel>, DecodeError>
    decreases bytes.len(),
{
    if bytes.len() == 0 {
        Ok(Seq::empty())
    } else {
        match decoding(bytes) {
            Err(e) => Err(e),
            Ok((r, n)) => prepend(seq![r], records_of(bytes.subrange(n as int, bytes.len() as int))),
        }
    }
}

/// `done` in front of the records of a successful read; an error stays as it is.
pub open spec fn prepend(done: Seq<RecordModel>, rest: Result<Seq<RecordModel>, DecodeError>) -> Result<Seq<RecordModel>, DecodeError> {
    match rest {
        Ok(rs) => Ok(done + rs),
        Err(e) => Err(e),
    }
}

/// The mathematical values of a sequence of records.
pub open spec fn models(v: Seq<Record>) -> Seq<RecordModel> {
    v.map_values(|r: Record| r@)
}

/// Reads every record of a log body, in order.
pub fn decode_all(bytes: &[u8]) -> (r: Result<Vec<Record>, DecodeError>)
    ensures
        match r {
            Ok(v) => records_of(bytes@) == Ok::<Seq<RecordModel>, DecodeError>(models(v@)),
            Err(e) => records_of(bytes@) == Err::<Seq<RecordModel>, DecodeError>(e),
        },
{
    let mut out: Vec<Record> = Vec::new();
    let mut pos: usize = 0;
    assert(bytes@.subrange(0, bytes@.len() as int) =~= bytes@);
    assert(models(out@) =~= Seq::<RecordModel>::empty());
    assert(records_of(bytes@) == prepend(Seq::empty(), records_of(bytes@))) by {
        match records_of(bytes@) {
            Ok(rs) => { assert(Seq::<RecordModel>::empty() + rs =~= rs); },
            Err(_) => {},
        }
    }
    while pos < bytes.len()
        invariant
            pos <= bytes@.len(),
            records_of(bytes@) == prepend(models(out@), records_of(bytes@.subrange(pos as int, bytes@.len() as int))),
        decreases bytes@.len() - pos,
    {
        let rest = slice_subrange(bytes, pos, bytes.len());
        match Record::decode(rest) {
            Err(e) => {
                return Err(e);
            },
            Ok((rec, n)) => {
                let ghost before = models(out@);
                let ghost r = rec@;
                assert(rest@.subrange(n as int, rest@.len() as int) =~= bytes@.subrange(pos + n, bytes@.len() as int));
                out.push(rec);
                pos = pos + n;
                assert(models(out@) =~= before + seq![r]);
                assert(records_of(bytes@) == prepend(models(out@), records_of(bytes@.subrange(pos as int, bytes@.len() as int)))) by {
                    let tail = records_of(bytes@.subrange(pos as int, bytes@.len() as int));
                    match tail {
                        Ok(rs) => {
                            assert(before + (seq![r] + rs) =~= (before + seq![r]) + rs);
                        },
                        Err(_) => {},
                    }
                }
            },
        }
    }
    assert(bytes@.subrange(pos as int, bytes@.len() as int) =~= Seq::<u8>::empty());
    assert(models(out@) + Seq::<RecordModel>::empty() =~= models(out@));
    Ok(out)
}

/// The documents after one more record: an insert or an update sets the content
/// under the record's id, a delete removes the id, and any other operation byte
/// makes the log unreadable.
pub open spec fn apply(store: Map<u64, Seq<u8>>, r: RecordModel) -> Option<Map<u64, Seq<u8>>> {
    if r.op == 0 || r.op == 2 {
        Some(store.insert(r.id, r.content))
    } else if r.op == 1 {
        Some(store.remove(r.id))
    } else {
        None
    }
}

/// The documents, as content bytes by id, after replaying `rs` from an empty store.
pub open spec fn store_of(rs: Seq<RecordModel>) -> Option<Map<u64, Seq<u8>>>
    decreases rs.len(),
{
    if rs.len() == 0 {
        Some(Map::empty())
    } else {
        match store_of(rs.drop_last()) {
            None => None,
            Some(m) => apply(m, rs.last()),
        }
    }
}

/// The content bytes stored under `id`, if any, after replaying `rs`.
pub open spec fn entry(rs: Seq<RecordModel>, id: u64) -> Result<Option<Seq<u8>>, DecodeError> {
    match store_of(rs) {
        None => Err(DecodeError::InvalidData),
        Some(m) => Ok(
            if m.contains_key(id) {
                Some(m[id])
            } else {
                None
            },
        ),
    }
}

/// A replay that has failed stays failed, whatever records follow.
pub proof fn lemma_store_failure_persists(rs: Seq<RecordModel>, k: int)
    requires
        0 <= k <= rs.len(),
        store_of(rs.take(k)) is None,
    ensures
        store_of(rs) is None,
    decreases rs.len(),
{
    if k < rs.len() {
        assert(rs.drop_last().take(k) =~= rs.take(k));
        lemma_store_failure_persists(rs.drop_last(), k);
    } else {
        assert(rs.take(k) =~= rs);
    }
}

/// The content bytes under `id` after replaying `records`, or invalid data where a
/// record holds an operation byte that is not one of the three operations.
pub fn latest(records: &Vec<Record>, id: DocumentId) -> (r: Result<Option<Vec<u8>>, DecodeError>)
    ensures
        match r {
            Ok(Some(c)) => entry(models(records@), id.0) == Ok::<Option<Seq<u8>>, DecodeError>(Some(c@)),
            Ok(None) => entry(models(records@), id.0) == Ok::<Option<Seq<u8>>, DecodeError>(None),
            Err(e) => entry(models(records@), id.0) == Err::<Option<Seq<u8>>, DecodeError>(e),
        },
{
    let ghost rs = models(records@);
    let mut found: Option<Vec<u8>> = None;
    let mut i: usize = 0;
    assert(rs.take(0) =~= Seq::<RecordModel>::empty());
    while i < records.len()
        invariant
            rs == models(records@),
            0 <= i <= records@.len(),
            store_of(rs.take(i as int)) is Some,
            ({
                let m = store_of(rs.take(i as int))->Some_0;
                match found {
                    Some(c) => m.contains_key(id.0) && m[id.0] == c@,
                    None => !m.contains_key(id.0),
                }
            }),
        decreases records@.len() - i,
    {
        let rec = &records[i];
        proof {
            assert(rs.take(i + 1).drop_last() =~= rs.take(i as int));
            assert(rs.take(i + 1).last() == rec@);
        }
        if rec.op == 0 || rec.op == 2 {
            if rec.id == id {
                found = Some(slice_to_vec(rec.content.as_slice()));
            }
        } else if rec.op == 1 {
            if rec.id == id {
                found = None;
            }
        } else {
            proof {
                lemma_store_failure_persists(rs, i + 1);
            }
            return Err(DecodeError::InvalidData);
        }
        i = i + 1;
    }
    assert(rs.take(i as int) =~= rs);
    Ok(found)
}

/// Calls `String::from_utf8`, which keeps the bytes as the string's own buffer when
/// they are valid UTF-8 and fails when they are not.
/// Claimed: it succeeds exactly on valid UTF-8, and the string it gives encodes to the
/// bytes it was given.
#[verifier::external_body]
fn string_from_utf8(bytes: Vec<u8>) -> (s: Option<String>)
    ensures
        s is Some <==> valid_utf8(bytes@),
        s matches Some(t) ==> encode_utf8(t@) == bytes@,
{
    String::from_utf8(bytes).ok()
}

/// What looking up `id` in a log body gives: the error of a body that cannot be read
/// or replayed, nothing where no document is stored under the id, and otherwise the
/// text whose UTF-8 bytes are stored (invalid data where they are not UTF-8).
pub open spec fn lookup_result(body: Seq<u8>, id: u64) -> Result<Option<Seq<char>>, DecodeError> {
    match records_of(body) {
        Err(e) => Err(e),
        Ok(rs) => match entry(rs, id) {
            Err(e) => Err(e),
            Ok(None) => Ok(None),
            Ok(Some(c)) => if valid_utf8(c) {
                Ok(Some(decode_utf8(c)))
            } else {
                Err(DecodeError::InvalidData)
            },
        },
    }
}

/// A lookup result, as a mathematical value.
pub open spec fn found(r: Result<Option<Document>, DecodeError>) -> Result<Option<Seq<char>>, DecodeError> {
    match r {
        Ok(Some(d)) => Ok(Some(d.spec_content())),
        Ok(None) => Ok(None),
        Err(e) => Err(e),
    }
}

/// The document stored under `id` in a log body (the bytes after the header), as the
/// last insert, update or delete of that id left it.
pub fn lookup(body: &[u8], id: DocumentId) -> (r: Result<Option<Document>, DecodeError>)
    ensures
        found(r) == lookup_result(body@, id.0),
        r matches Ok(Some(d)) ==> d.spec_id() == id,
{
    let records = match decode_all(body) {
        Ok(records) => records,
        Err(e) => return Err(e),
    };
    match latest(&records, id) {
        Err(e) => Err(e),
        Ok(None) => Ok(None),
        Ok(Some(bytes)) => {
            let ghost b = bytes@;
            match string_from_utf8(bytes) {
                None => Err(DecodeError::InvalidData),
                Some(text) => {
                    proof {
                        encode_utf8_decode_utf8(text@);
                    }
                    Ok(Some(Document::new(id, text)))
                },
            }
        },
    }
}

/// The bytes that writing `rs` one after the other leaves in a log body.
pub open spec fn log_bytes(rs: Seq<RecordModel>) -> Seq<u8>
    decreases rs.len(),
{
    if rs.len() == 0 {
        Seq::empty()
    } else {
        log_bytes(rs.drop_last()) + encoding(rs.last())
    }
}

/// Reading a body that starts with the complete records `ra` gives `ra`, then what the
/// rest of the body gives.
pub proof fn lemma_records_of_concat(a: Seq<u8>, b: Seq<u8>)
    requires
        records_of(a) is Ok,
    ensures
        records_of(a + b) == prepend(records_of(a)->Ok_0, records_of(b)),
    decreases a.len(),
{
    let ra = records_of(a)->Ok_0;
    if a.len() == 0 {
        assert(a + b =~= b);
        assert(ra =~= Seq::<RecordModel>::empty());
        match records_of(b) {
            Ok(rb) => { assert(ra + rb =~= rb); },
            Err(_) => {},
        }
    } else {
        let (r, n) = decoding(a)->Ok_0;
        lemma_decoding_ignores_what_follows(a, b);
        let a2 = a.subrange(n as int, a.len() as int);
        assert((a + b).subrange(n as int, (a + b).len() as int) =~= a2 + b);
        lemma_records_of_concat(a2, b);
        let ra2 = records_of(a2)->Ok_0;
        assert(ra == seq![r] + ra2);
        match records_of(b) {
            Ok(rb) => { assert(seq![r] + (ra2 + rb) =~= ra + rb); },
            Err(_) => {},
        }
    }
}

/// The bytes of one record read as that record alone.
pub proof fn lemma_records_of_encoding(r: RecordModel)
    requires
        fits(r),
    ensures
        records_of(encoding(r)) == Ok::<Seq<RecordModel>, DecodeError>(seq![r]),
{
    lemma_decode_encoding(r, Seq::empty());
    let e = encoding(r);
    assert(e + Seq::<u8>::empty() =~= e);
    assert(decoding(e) == Ok::<(RecordModel, nat), DecodeError>((r, e.len())));
    assert(e.len() > 0);
    let tail = e.subrange(e.len() as int, e.len() as int);
    assert(tail =~= Seq::<u8>::empty());
    assert(records_of(tail) == Ok::<Seq<RecordModel>, DecodeError>(Seq::empty()));
    assert(seq![r] + Seq::<RecordModel>::empty() =~= seq![r]);
}

/// Records written one after the other are read back, all of them and in the order
/// they were written.
pub proof fn lemma_read_back_in_order(rs: Seq<RecordModel>)
    requires
        forall|i: int| 0 <= i < rs.len() ==> fits(#[trigger] rs[i]),
    ensures
        records_of(log_bytes(rs)) == Ok::<Seq<RecordModel>, DecodeError>(rs),
    decreases rs.len(),
{
    if rs.len() == 0 {
        assert(rs =~= Seq::<RecordModel>::empty());
    } else {
        let front = rs.drop_last();
        assert forall|i: int| 0 <= i < front.len() implies fits(#[trigger] front[i]) by {
            assert(front[i] == rs[i]);
        }
        lemma_read_back_in_order(front);
        lemma_records_of_encoding(rs.last());
        lemma_records_of_concat(log_bytes(front), encoding(rs.last()));
        assert(log_bytes(rs) == log_bytes(front) + encoding(rs.last()));
        assert(front + seq![rs.last()] =~= rs);
    }
}

/// A log whose last record was cut short, anywhere after its first byte, reads as an
/// unexpected end of input.
pub proof fn lemma_torn_tail_is_eof(rs: Seq<RecordModel>, r: RecordModel, cut: int)
    requires
        forall|i: int| 0 <= i < rs.len() ==> fits(#[trigger] rs[i]),
        fits(r),
        0 < cut < encoding(r).len(),
    ensures
        records_of(log_bytes(rs) + encoding(r).take(cut)) == Err::<Seq<RecordModel>, DecodeError>(DecodeError::UnexpectedEof),
{
    lemma_read_back_in_order(rs);
    lemma_truncated_encoding(r, cut);
    lemma_records_of_concat(log_bytes(rs), encoding(r).take(cut));
}

/// The id that an operation is about.
pub open spec fn operation_id(op: Operation) -> u64 {
    match op {
        Operation::Insert(d) => d.spec_id().0,
        Operation::Delete(i) => i.0,
        Operation::Update(d) => d.spec_id().0,
    }
}

/// What a lookup of the id of `op` gives right after `op` is written: the text of an
/// inserted or updated document, and nothing after a delete.
pub open spec fn after_write(op: Operation) -> Result<Option<Seq<char>>, DecodeError> {
    match op {
        Operation::Insert(d) => Ok(Some(d.spec_content())),
        Operation::Update(d) => Ok(Some(d.spec_content())),
        Operation::Delete(_) => Ok(None),
    }
}

/// Whether every record of a log body can be read and replayed.
pub open spec fn reads_cleanly(body: Seq<u8>) -> bool {
    records_of(body) is Ok && store_of(records_of(body)->Ok_0) is Some
}

/// The bytes that writing the operations `ops` one after the other appends to a log.
pub open spec fn writes(ops: Seq<Operation>) -> Seq<u8> {
    log_bytes(ops.map_values(|o: Operation| record_of(o)))
}

/// Writing an operation to a log that reads cleanly decides what a lookup of its id
/// gives (the last write wins), leaves every other id as it was, and leaves a log
/// that still reads cleanly.
pub proof fn lemma_lookup_after_write(body: Seq<u8>, op: Operation, id: u64)
    requires
        reads_cleanly(body),
        fits(record_of(op)),
    ensures
        reads_cleanly(body + encoding(record_of(op))),
        id == operation_id(op) ==> lookup_result(body + encoding(record_of(op)), id) == after_write(op),
        id != operation_id(op) ==> lookup_result(body + encoding(record_of(op)), id) == lookup_result(body, id),
{
    let r = record_of(op);
    let rs = records_of(body)->Ok_0;
    lemma_records_of_encoding(r);
    lemma_records_of_concat(body, encoding(r));
    let rs2 = rs + seq![r];
    assert(records_of(body + encoding(r)) == Ok::<Seq<RecordModel>, DecodeError>(rs2));
    assert(rs2.drop_last() =~= rs);
    assert(rs2.last() == r);
    match op {
        Operation::Insert(d) => {
            encode_utf8_valid_utf8(d.spec_content());
            encode_utf8_decode_utf8(d.spec_content());
        },
        Operation::Update(d) => {
            encode_utf8_valid_utf8(d.spec_content());
            encode_utf8_decode_utf8(d.spec_content());
        },
        Operation::Delete(_) => {},
    }
}

/// A document written to a log that reads cleanly is what a lookup of its id gives
/// after any number of later writes, as long as none of them is to that id.
pub proof fn lemma_lookup_after_later_writes(body: Seq<u8>, op: Operation, later: Seq<Operation>)
    requires
        reads_cleanly(body),
        fits(record_of(op)),
        forall|i: int| 0 <= i < later.len() ==> fits(record_of(#[trigger] later[i])),
        forall|i: int| 0 <= i < later.len() ==> operation_id(#[trigger] later[i]) != operation_id(op),
    ensures
        reads_cleanly(body + encoding(record_of(op)) + writes(later)),
        lookup_result(body + encoding(record_of(op)) + writes(later), operation_id(op)) == after_write(op),
    decreases later.len(),
{
    let first = body + encoding(record_of(op));
    if later.len() == 0 {
        lemma_lookup_after_write(body, op, operation_id(op));
        assert(later.map_values(|o: Operation| record_of(o)) =~= Seq::<RecordModel>::empty());
        assert(first + writes(later) =~= first);
    } else {
        let front = later.drop_last();
        let last = later.last();
        assert forall|i: int| 0 <= i < front.len() implies fits(record_of(#[trigger] front[i])) by {
            assert(front[i] == later[i]);
        }
        assert forall|i: int| 0 <= i < front.len() implies operation_id(#[trigger] front[i]) != operation_id(op) by {
            assert(front[i] == later[i]);
        }
        lemma_lookup_after_later_writes(body, op, front);
        let ms = later.map_values(|o: Operation| record_of(o));
        assert(ms.drop_last() =~= front.map_values(|o: Operation| record_of(o)));
        assert(ms.last() == record_of(last));
        assert(writes(later) == writes(front) + encoding(record_of(last)));
        let before = first + writes(front);
        assert(first + writes(later) =~= before + encoding(record_of(last)));
        assert(fits(record_of(later[later.len() - 1])));
        assert(operation_id(later[later.len() - 1]) != operation_id(op));
        lemma_lookup_after_write(before, last, operation_id(op));
    }
}

/// An id that no record of a cleanly replayed log mentions has no document.
pub proof fn lemma_unwritten_id_not_found(rs: Seq<RecordModel>, id: u64)
    requires
        store_of(rs) is Some,
        forall|i: int| 0 <= i < rs.len() ==> (#[trigger] rs[i]).id != id,
    ensures
        entry(rs, id) == Ok::<Option<Seq<u8>>, DecodeError>(None),
    decreases rs.len(),
{
    if rs.len() > 0 {
        let front = rs.drop_last();
        assert forall|i: int| 0 <= i < front.len() implies (#[trigger] front[i]).id != id by {
            assert(front[i] == rs[i]);
        }
        lemma_unwritten_id_not_found(front, id);
        assert(rs.last() == rs[rs.len() - 1]);
    }
}

/// A log starts with the header that `header` writes, whatever is appended after it.
pub proof fn lemma_header_accepted(rest: Seq<u8>)
    ensures
        header_check(header_bytes() + rest) == Ok::<(), HeaderError>(()),
{
    assert((header_bytes() + rest).subrange(0, 6) =~= magic());
}

/// Only a file that starts with exactly the header that `header` writes is accepted;
/// one that starts with the magic and another version byte is of an unsupported version.
pub proof fn lemma_only_the_header_is_accepted(start: Seq<u8>)
    ensures
        header_check(start) is Ok <==> (start.len() >= HEADER_LEN && start.subrange(0, 7) == header_bytes()),
        header_check(start) == Err::<(), HeaderError>(HeaderError::UnsupportedVersion) <==> (
            start.len() >= HEADER_LEN && start.subrange(0, 6) == magic() && start[6] != VERSION),
{
    if start.len() >= HEADER_LEN {
        let h = start.subrange(0, 7);
        if h == header_bytes() {
            assert(start.subrange(0, 6) =~= h.subrange(0, 6));
            assert(h.subrange(0, 6) =~= magic());
            assert(start[6] == h[6]);
        }
        if start.subrange(0, 6) == magic() && start[6] == VERSION {
            assert(h =~= header_bytes());
        }
    }
}

} // verus!
