use crate::document::{Document, DocumentId};
use crate::storage::checksum::{checksum, crc32_ieee};
use vstd::bytes::*;
use vstd::prelude::*;
use vstd::slice::{slice_subrange, slice_to_vec};
use vstd::string::*;
use vstd::utf8::*;

verus! {

/// Bytes of a record in front of its content: checksum (4), operation (1), id (8), length (4).
pub const RECORD_HEADER_LEN: usize = 17;

/// A change to the store, as it is written to the log.
#[derive(Debug)]
pub enum Operation {
    Insert(Document),
    Delete(DocumentId),
    Update(Document),
}

impl Operation {
    /// The byte that stands for this kind of operation on disk.
    pub open spec fn spec_tag(&self) -> u8 {
        match self {
            Operation::Insert(_) => 0,
            Operation::Delete(_) => 1,
            Operation::Update(_) => 2,
        }
    }

    pub fn tag(&self) -> (t: u8)
        ensures
            t == self.spec_tag(),
    {
        match self {
            Operation::Insert(_) => 0,
            Operation::Delete(_) => 1,
            Operation::Update(_) => 2,
        }
    }
}

/// Why a record could not be read back.
#[derive(Debug, Clone, Copy, PartialEq, Eq, Structural)]
pub enum DecodeError {
    /// The input ends before the record does.
    UnexpectedEof,
    /// The record is complete but its bytes are not what was written.
    InvalidData,
}

/// A record as a mathematical value.
pub struct RecordModel {
    pub op: u8,
    pub id: u64,
    pub content: Seq<u8>,
}

/// One entry of the log, in the order its fields are saved.
#[derive(Debug, PartialEq)]
pub struct Record {
    pub op: u8,
    pub id: DocumentId,
    pub content: Vec<u8>,
}

impl View for Record {
    type V = RecordModel;

    open spec fn view(&self) -> RecordModel {
        RecordModel { op: self.op, id: self.id.0, content: self.content@ }
    }
}

/// The record that an operation is saved as: its tag, its id and, for a document,
/// the UTF-8 bytes of the text.
pub open spec fn record_of(op: Operation) -> RecordModel {
    match op {
        Operation::Delete(id) => RecordModel { op: 1, id: id.0, content: Seq::empty() },
        Operation::Insert(doc) => RecordModel { op: 0, id: doc.spec_id().0, content: encode_utf8(doc.spec_content()) },
        Operation::Update(doc) => RecordModel { op: 2, id: doc.spec_id().0, content: encode_utf8(doc.spec_content()) },
    }
}

/// Whether the length of the content can be written in the four length bytes.
pub open spec fn fits(r: RecordModel) -> bool {
    r.content.len() <= u32::MAX
}

/// What the checksum covers: operation, little-endian id, little-endian length, content.
pub open spec fn body_bytes(r: RecordModel) -> Seq<u8> {
    seq![r.op] + spec_u64_to_le_bytes(r.id) + spec_u32_to_le_bytes(r.content.len() as u32)
        + r.content
}

/// The bytes of a record on disk: the checksum of the body, little-endian, then the body.
pub open spec fn encoding(r: RecordModel) -> Seq<u8> {
    spec_u32_to_le_bytes(crc32_ieee(body_bytes(r))) + body_bytes(r)
}

/// The content length that the length field of `input` announces.
pub open spec fn announced_len(input: Seq<u8>) -> nat {
    spec_u32_from_le_bytes(input.subrange(13, 17)) as nat
}

/// The length of the record at the front of `input`, by its length field.
pub open spec fn frame_len(input: Seq<u8>) -> nat {
    RECORD_HEADER_LEN as nat + announced_len(input)
}

/// The bytes that the checksum of the record at the front of `input` covers.
pub open spec fn covered(input: Seq<u8>) -> Seq<u8> {
    input.subrange(4, frame_len(input) as int)
}

/// Reading a record from the front of `input`, given the checksum of its covered bytes:
/// too few bytes for the fixed fields or for the announced content is an end of input,
/// a stored checksum that differs from `crc` is invalid data, and otherwise the record
/// is returned with the number of bytes it takes.
pub open spec fn parse_with(input: Seq<u8>, crc: u32) -> Result<(RecordModel, nat), DecodeError> {
    if input.len() < RECORD_HEADER_LEN {
        Err(DecodeError::UnexpectedEof)
    } else if input.len() < frame_len(input) {
        Err(DecodeError::UnexpectedEof)
    } else if crc != spec_u32_from_le_bytes(input.subrange(0, 4)) {
        Err(DecodeError::InvalidData)
    } else {
        Ok(
            (
                RecordModel {
                    op: input[4],
                    id: spec_u64_from_le_bytes(input.subrange(5, 13)),
                    content: input.subrange(RECORD_HEADER_LEN as int, frame_len(input) as int),
                },
                frame_len(input),
            ),
        )
    }
}

/// Reading a record from the front of `input`, checked against the CRC-32 of its bytes.
pub open spec fn decoding(input: Seq<u8>) -> Result<(RecordModel, nat), DecodeError> {
    parse_with(input, crc32_ieee(covered(input)))
}

/// A decoding result, as a mathematical value.
pub open spec fn decoded(r: Result<(Record, usize), DecodeError>) -> Result<(RecordModel, nat), DecodeError> {
    match r {
        Ok((rec, n)) => Ok((rec@, n as nat)),
        Err(e) => Err(e),
    }
}

impl Record {
    /// The record that saves `op`.
    pub fn from_operation(op: &Operation) -> (r: Self)
        ensures
            r@ == record_of(*op),
    {
        match op {
            Operation::Delete(id) => Record { op: op.tag(), id: *id, content: Vec::new() },
            Operation::Insert(doc) => Record {
                op: op.tag(),
                id: doc.id(),
                content: slice_to_vec(doc.content().as_str().as_bytes()),
            },
            Operation::Update(doc) => Record {
                op: op.tag(),
                id: doc.id(),
                content: slice_to_vec(doc.content().as_str().as_bytes()),
            },
        }
    }

    /// The bytes that the checksum covers, in order of the fields.
    pub fn body(&self) -> (b: Vec<u8>)
        ensures
            b@ == body_bytes(self@),
    {
        let mut b: Vec<u8> = Vec::new();
        b.push(self.op);
        let mut id_bytes = u64_to_le_bytes(self.id.0);
        b.append(&mut id_bytes);
        let mut len_bytes = u32_to_le_bytes(self.content.len() as u32);
        b.append(&mut len_bytes);
        let mut content = slice_to_vec(self.content.as_slice());
        b.append(&mut content);
        b
    }

    /// A body with its checksum in front, little-endian.
    pub fn seal(crc: u32, body: Vec<u8>) -> (framed: Vec<u8>)
        ensures
            framed@ == spec_u32_to_le_bytes(crc) + body@,
    {
        let mut framed = u32_to_le_bytes(crc);
        let mut body = body;
        framed.append(&mut body);
        framed
    }

    /// The bytes of this record on disk.
    pub fn encode(&self) -> (bytes: Vec<u8>)
        ensures
            bytes@ == encoding(self@),
            bytes@.len() == RECORD_HEADER_LEN + self.content@.len(),
    {
        let body = self.body();
        let crc = checksum(body.as_slice());
        proof {
            lemma_auto_spec_u64_to_from_le_bytes();
            lemma_auto_spec_u32_to_from_le_bytes();
        }
        Record::seal(crc, body)
    }

    /// The length of the record at the front of `input`, where the input holds all of it.
    fn complete_len(input: &[u8]) -> (n: Option<usize>)
        ensures
            match n {
                Some(n) => {
                    &&& RECORD_HEADER_LEN <= input@.len()
                    &&& n == frame_len(input@)
                    &&& n <= input@.len()
                },
                None => input@.len() < RECORD_HEADER_LEN || input@.len() < frame_len(input@),
            },
    {
        if input.len() < RECORD_HEADER_LEN {
            return None;
        }
        let len = u32_from_le_bytes(slice_subrange(input, 13, 17));
        if input.len() - RECORD_HEADER_LEN < len as usize {
            None
        } else {
            Some(RECORD_HEADER_LEN + len as usize)
        }
    }

    /// Reads the record at the front of `input`, where `crc` is the checksum of the bytes
    /// that its stored checksum covers.
    pub fn parse(input: &[u8], crc: u32) -> (r: Result<(Record, usize), DecodeError>)
        ensures
            decoded(r) == parse_with(input@, crc),
    {
        match Record::complete_len(input) {
            None => Err(DecodeError::UnexpectedEof),
            Some(end) => {
                let stored = u32_from_le_bytes(slice_subrange(input, 0, 4));
                if crc != stored {
                    return Err(DecodeError::InvalidData);
                }
                let id = u64_from_le_bytes(slice_subrange(input, 5, 13));
                let content = slice_to_vec(slice_subrange(input, RECORD_HEADER_LEN, end));
                Ok((Record { op: input[4], id: DocumentId(id), content }, end))
            },
        }
    }

    /// Reads the record at the front of `input` and checks it against its checksum.
    /// On success, also returns how many bytes of `input` the record takes.
    pub fn decode(input: &[u8]) -> (r: Result<(Record, usize), DecodeError>)
        ensures
            decoded(r) == decoding(input@),
    {
        match Record::complete_len(input) {
            None => Err(DecodeError::UnexpectedEof),
            Some(end) => {
                let crc = checksum(slice_subrange(input, 4, end));
                Record::parse(input, crc)
            },
        }
    }
}

/// A record is read back from its own bytes, whatever follows them: the same record,
/// taking exactly the bytes of its encoding.
pub proof fn lemma_decode_encoding(r: RecordModel, rest: Seq<u8>)
    requires
        fits(r),
    ensures
        decoding(encoding(r) + rest) == Ok::<(RecordModel, nat), DecodeError>((r, encoding(r).len())),
{
    lemma_auto_spec_u64_to_from_le_bytes();
    lemma_auto_spec_u32_to_from_le_bytes();
    let body = body_bytes(r);
    let crc = crc32_ieee(body);
    let e = encoding(r);
    let input = e + rest;
    let len = r.content.len();
    assert(input.subrange(0, 4) =~= spec_u32_to_le_bytes(crc));
    assert(input.subrange(13, 17) =~= spec_u32_to_le_bytes(len as u32));
    assert(input.subrange(5, 13) =~= spec_u64_to_le_bytes(r.id));
    assert(frame_len(input) == e.len());
    assert(covered(input) =~= body);
    assert(input.subrange(RECORD_HEADER_LEN as int, frame_len(input) as int) =~= r.content);
    assert(input[4] == r.op);
}

/// Every proper prefix of the bytes of a record reads as an unexpected end of input.
pub proof fn lemma_truncated_encoding(r: RecordModel, cut: int)
    requires
        fits(r),
        0 <= cut < encoding(r).len(),
    ensures
        decoding(encoding(r).take(cut)) == Err::<(RecordModel, nat), DecodeError>(DecodeError::UnexpectedEof),
{
    lemma_auto_spec_u64_to_from_le_bytes();
    lemma_auto_spec_u32_to_from_le_bytes();
    let e = encoding(r);
    let input = e.take(cut);
    if cut >= RECORD_HEADER_LEN {
        assert(input.subrange(13, 17) =~= spec_u32_to_le_bytes(r.content.len() as u32));
        assert(frame_len(input) == e.len());
    }
}

/// Reading a record looks no further than the record: bytes after it do not change
/// what is read.
pub proof fn lemma_decoding_ignores_what_follows(input: Seq<u8>, more: Seq<u8>)
    requires
        decoding(input) is Ok,
    ensures
        decoding(input + more) == decoding(input),
{
    let all = input + more;
    let n = frame_len(input);
    assert(all.subrange(13, 17) =~= input.subrange(13, 17));
    assert(all.subrange(0, 4) =~= input.subrange(0, 4));
    assert(all.subrange(5, 13) =~= input.subrange(5, 13));
    assert(covered(all) =~= covered(input));
    assert(all.subrange(RECORD_HEADER_LEN as int, n as int) =~= input.subrange(RECORD_HEADER_LEN as int, n as int));
}

/// The record of an operation is about the operation's own document: it carries that
/// id, the operation's tag, and, for an insert or an update, bytes that read back as
/// the document's text; a delete carries no content.
pub proof fn lemma_record_of_operation(op: Operation)
    ensures
        record_of(op).op == op.spec_tag(),
        match op {
            Operation::Insert(d) => {
                &&& record_of(op).id == d.spec_id().0
                &&& valid_utf8(record_of(op).content)
                &&& decode_utf8(record_of(op).content) == d.spec_content()
            },
            Operation::Update(d) => {
                &&& record_of(op).id == d.spec_id().0
                &&& valid_utf8(record_of(op).content)
                &&& decode_utf8(record_of(op).content) == d.spec_content()
            },
            Operation::Delete(i) => {
                &&& record_of(op).id == i.0
                &&& record_of(op).content.len() == 0
            },
        },
{
    match op {
        Operation::Insert(d) => {
            encode_utf8_valid_utf8(d.spec_content());
            encode_utf8_decode_utf8(d.spec_content());
        },
        Operation::Update(d) => {
            encode_utf8_valid_utf8(d.spec_content());
            encode_utf8_decode_utf8(d.spec_content());
        },
        Operation::Delete(_) => {},
    }
}

/// A record is only ever read from a front whose stored checksum is the checksum it
/// was given, whatever the announced length of its content, zero included.
pub proof fn lemma_parse_checks_checksum(input: Seq<u8>, crc: u32)
    ensures
        parse_with(input, crc) is Ok ==> spec_u32_from_le_bytes(input.subrange(0, 4)) == crc,
{
}

/// Whatever is read as a record is exactly the encoding of that record: the bytes it
/// takes are its checksum, tag, id, length and content as `encode` writes them, so a
/// record whose stored checksum is not the CRC-32 of its other bytes is never read.
pub proof fn lemma_decoded_bytes_are_an_encoding(input: Seq<u8>)
    ensures
        decoding(input) matches Ok((r, n)) ==> {
            &&& fits(r)
            &&& n == encoding(r).len()
            &&& input.subrange(0, n as int) == encoding(r)
            &&& spec_u32_from_le_bytes(input.subrange(0, 4)) == crc32_ieee(covered(input))
        },
{
    if let Ok((r, n)) = decoding(input) {
        lemma_auto_spec_u64_to_from_le_bytes();
        lemma_auto_spec_u32_to_from_le_bytes();
        let len_bytes = input.subrange(13, 17);
        let id_bytes = input.subrange(5, 13);
        let crc_bytes = input.subrange(0, 4);
        assert(spec_u32_to_le_bytes(spec_u32_from_le_bytes(len_bytes)) == len_bytes);
        assert(spec_u64_to_le_bytes(spec_u64_from_le_bytes(id_bytes)) == id_bytes);
        assert(spec_u32_to_le_bytes(spec_u32_from_le_bytes(crc_bytes)) == crc_bytes);
        assert(r.content.len() == announced_len(input));
        assert((r.content.len() as u32) == spec_u32_from_le_bytes(len_bytes));
        assert(body_bytes(r) =~= covered(input));
        assert(input.subrange(0, n as int) =~= crc_bytes + covered(input));
    }
}

/// Reading stops at an unexpected end of input exactly when the input does not hold the
/// fixed fields and all the content that the length field announces.
pub proof fn lemma_end_of_input_exactly_when_short(input: Seq<u8>)
    ensures
        decoding(input) == Err::<(RecordModel, nat), DecodeError>(DecodeError::UnexpectedEof) <==> (
            input.len() < RECORD_HEADER_LEN || input.len() < RECORD_HEADER_LEN + spec_u32_from_le_bytes(input.subrange(13, 17))),
{
}

} // verus!
