use memdb::document::{Document, DocumentId};
use memdb::storage::record::RECORD_HEADER_LEN;
use memdb::storage::{DecodeError, Operation, Record};

fn insert(id: u64, content: &str) -> Operation {
    Operation::Insert(Document::new(DocumentId(id), String::from(content)))
}

fn round_trip(op: &Operation) -> Record {
    let bytes = Record::from_operation(op).encode();
    Record::decode(&bytes).unwrap().0
}

fn decode_bytes(bytes: &[u8]) -> Result<Record, DecodeError> {
    Record::decode(bytes).map(|(record, _)| record)
}

#[test]
fn tags_are_stable() {
    assert_eq!(insert(1, "a").tag(), 0);
    assert_eq!(Operation::Delete(DocumentId(1)).tag(), 1);
    assert_eq!(
        Operation::Update(Document::new(DocumentId(1), String::from("a"))).tag(),
        2
    );
}

#[test]
fn encode_lays_out_bytes_in_order() {
    let record = Record::from_operation(&insert(7, "hi"));
    let body: Vec<u8> = vec![
        0, // op: insert
        7, 0, 0, 0, 0, 0, 0, 0, // id: u64 little-endian
        2, 0, 0, 0, // content length: u32 little-endian
        b'h', b'i', // content
    ];
    let mut expected = crc32fast::hash(&body).to_le_bytes().to_vec(); // crc first
    expected.extend_from_slice(&body);
    assert_eq!(record.encode(), expected);
}

#[test]
fn insert_round_trips() {
    let op = insert(42, "hello");
    assert_eq!(round_trip(&op), Record::from_operation(&op));
}

#[test]
fn update_round_trips() {
    let op = Operation::Update(Document::new(DocumentId(9), String::from("new text")));
    assert_eq!(round_trip(&op), Record::from_operation(&op));
}

#[test]
fn delete_round_trips_with_empty_content() {
    let op = Operation::Delete(DocumentId(3));
    let record = round_trip(&op);
    assert_eq!(record.op, 1);
    assert_eq!(record.id, DocumentId(3));
    assert!(record.content.is_empty());
}

#[test]
fn multibyte_content_round_trips() {
    // length on disk is in bytes, not chars: "héllo 🦀" is 7 chars but 11 bytes
    let op = insert(1, "héllo 🦀");
    let record = round_trip(&op);
    assert_eq!(record.content, "héllo 🦀".as_bytes());
}

#[test]
fn large_id_round_trips() {
    let op = insert(u64::MAX, "x");
    assert_eq!(round_trip(&op).id, DocumentId(u64::MAX));
}

#[test]
fn decode_reads_consecutive_records_from_one_reader() {
    let mut bytes = Record::from_operation(&insert(1, "first")).encode();
    bytes.extend(Record::from_operation(&Operation::Delete(DocumentId(1))).encode());
    bytes.extend(Record::from_operation(&insert(2, "second")).encode());

    let mut pos: usize = 0;
    let (a, n) = Record::decode(&bytes[pos..]).unwrap();
    pos += n;
    let (b, n) = Record::decode(&bytes[pos..]).unwrap();
    pos += n;
    let (c, n) = Record::decode(&bytes[pos..]).unwrap();
    pos += n;

    assert_eq!(a.content, b"first");
    assert_eq!(b.op, 1);
    assert_eq!(c.id, DocumentId(2));
    assert!(bytes[pos..].is_empty(), "reader should be fully consumed");
}

#[test]
fn decode_on_empty_input_is_unexpected_eof() {
    let err = decode_bytes(&[]).unwrap_err();
    assert_eq!(err, DecodeError::UnexpectedEof);
}

#[test]
fn decode_truncated_record_is_unexpected_eof() {
    let bytes = Record::from_operation(&insert(1, "hello")).encode();
    // cut every prefix short of the full record: header and content cases
    for cut in 0..bytes.len() {
        let err = decode_bytes(&bytes[..cut]).unwrap_err();
        assert_eq!(err, DecodeError::UnexpectedEof, "cut at {cut}");
    }
}

#[test]
fn corrupt_crc_is_invalid_data() {
    let mut bytes = Record::from_operation(&insert(1, "hello")).encode();
    bytes[0] ^= 0x01; // flip a bit inside the stored crc
    let err = decode_bytes(&bytes).unwrap_err();
    assert_eq!(err, DecodeError::InvalidData);
}

#[test]
fn corrupt_op_is_invalid_data() {
    let mut bytes = Record::from_operation(&insert(1, "hello")).encode();
    bytes[4] ^= 0x01; // op byte
    let err = decode_bytes(&bytes).unwrap_err();
    assert_eq!(err, DecodeError::InvalidData);
}

#[test]
fn corrupt_id_is_invalid_data() {
    let mut bytes = Record::from_operation(&insert(1, "hello")).encode();
    bytes[5] ^= 0x01; // first id byte
    let err = decode_bytes(&bytes).unwrap_err();
    assert_eq!(err, DecodeError::InvalidData);
}

#[test]
fn corrupt_content_is_invalid_data() {
    let mut bytes = Record::from_operation(&insert(1, "hello")).encode();
    let last = bytes.len() - 1;
    bytes[last] ^= 0x01; // last content byte
    let err = decode_bytes(&bytes).unwrap_err();
    assert_eq!(err, DecodeError::InvalidData);
}

#[test]
fn corrupt_length_is_detected() {
    let mut bytes = Record::from_operation(&insert(1, "hello")).encode();
    bytes[13] ^= 0x01; // length 5 -> 4: still fits in the file, so only the crc catches it
    let err = decode_bytes(&bytes).unwrap_err();
    assert_eq!(err, DecodeError::InvalidData);
}

#[test]
fn encoded_length_is_header_plus_content() {
    let bytes = Record::from_operation(&insert(1, "héllo 🦀")).encode();
    assert_eq!(bytes.len(), RECORD_HEADER_LEN + 11);
    let bytes = Record::from_operation(&Operation::Delete(DocumentId(1))).encode();
    assert_eq!(bytes.len(), RECORD_HEADER_LEN);
}

#[test]
fn body_is_the_fields_in_order() {
    let record = Record::from_operation(&Operation::Update(Document::new(DocumentId(258), String::from("ab"))));
    assert_eq!(record.body(), vec![2, 2, 1, 0, 0, 0, 0, 0, 0, 2, 0, 0, 0, b'a', b'b']);
}

#[test]
fn seal_puts_the_checksum_in_front_little_endian() {
    assert_eq!(Record::seal(0x0403_0201, vec![9, 8]), vec![1, 2, 3, 4, 9, 8]);
}

#[test]
fn encode_uses_the_crc32_of_the_body() {
    let record = Record::from_operation(&insert(3, "abc"));
    let body = record.body();
    let crc = crc32fast::hash(&body);
    assert_ne!(crc, 0);
    assert_eq!(record.encode()[..4], crc.to_le_bytes());
}

#[test]
fn parse_accepts_the_matching_checksum_only() {
    let record = Record::from_operation(&insert(6, "abc"));
    let bytes = Record::seal(77, record.body());
    let (parsed, n) = Record::parse(&bytes, 77).unwrap();
    assert_eq!(parsed, record);
    assert_eq!(n, bytes.len());
    assert_eq!(Record::parse(&bytes, 78).unwrap_err(), DecodeError::InvalidData);
    assert_eq!(Record::parse(&bytes[..10], 77).unwrap_err(), DecodeError::UnexpectedEof);
    assert_eq!(
        Record::parse(&bytes[..bytes.len() - 1], 77).unwrap_err(),
        DecodeError::UnexpectedEof
    );
}

#[test]
fn decode_ignores_bytes_after_the_record() {
    let mut bytes = Record::from_operation(&insert(4, "tail")).encode();
    let len = bytes.len();
    bytes.extend_from_slice(&[1, 2, 3]);
    let (record, n) = Record::decode(&bytes).unwrap();
    assert_eq!(n, len);
    assert_eq!(record.content, b"tail");
}
