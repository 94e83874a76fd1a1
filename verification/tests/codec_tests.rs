use treediff::codec::{decode_diff, encode_diff, encode_record, CodecError};
use treediff::record::{ChangeType, FileDiff};

fn rec(kind: ChangeType, path: &[u8], contents: &[u8]) -> FileDiff {
    FileDiff { path: path.to_vec(), change_type: kind, change_contents: contents.to_vec() }
}

#[test]
fn encode_one_record_wire_format() {
    let bytes = encode_record(&rec(ChangeType::Add, b"a", b"xy"));
    assert_eq!(bytes, vec![b'A', b'a', 0xd6, 2, 0, 0, 0, b'x', b'y']);
}

#[test]
fn encode_tags_per_kind() {
    assert_eq!(encode_record(&rec(ChangeType::Delete, b"p", b""))[0], b'D');
    assert_eq!(encode_record(&rec(ChangeType::Modify, b"p", b""))[0], b'M');
    assert_eq!(encode_record(&rec(ChangeType::Add, b"p", b""))[0], b'A');
}

#[test]
fn delete_record_round_trips_with_contents() {
    // A Delete record carries the old contents; the codec must reproduce
    // them even though apply never reads them.
    let records = vec![rec(ChangeType::Delete, b"x.txt", b"hi")];
    let bytes = encode_diff(&records);
    let decoded = decode_diff(&bytes).unwrap();
    assert_eq!(decoded, records);
}

#[test]
fn many_records_round_trip_in_order() {
    let records = vec![
        rec(ChangeType::Add, b"dir/new.txt", b"fresh"),
        rec(ChangeType::Modify, b"a.txt", b"goodbye"),
        rec(ChangeType::Delete, b"old/gone.bin", &[0, 1, 2, 0xd6, 255]),
        rec(ChangeType::Add, b"empty", b""),
    ];
    let bytes = encode_diff(&records);
    let decoded = decode_diff(&bytes).unwrap();
    assert_eq!(decoded, records);
}

#[test]
fn empty_stream_decodes_to_nothing() {
    let decoded = decode_diff(&Vec::new()).unwrap();
    assert!(decoded.is_empty());
}

#[test]
fn unrecognized_tag_ends_the_stream() {
    let mut bytes = encode_diff(&vec![rec(ChangeType::Add, b"a.txt", b"hello")]);
    bytes.push(b'Z');
    bytes.push(0x00);
    let decoded = decode_diff(&bytes).unwrap();
    assert_eq!(decoded, vec![rec(ChangeType::Add, b"a.txt", b"hello")]);
}

#[test]
fn truncated_contents_end_the_stream() {
    let full = encode_diff(&vec![
        rec(ChangeType::Add, b"a.txt", b"hello"),
        rec(ChangeType::Add, b"b.txt", b"world"),
    ]);
    // Cut into the second record's contents.
    let cut = full[..full.len() - 2].to_vec();
    let decoded = decode_diff(&cut).unwrap();
    assert_eq!(decoded, vec![rec(ChangeType::Add, b"a.txt", b"hello")]);
}

#[test]
fn truncated_length_field_ends_the_stream() {
    let mut bytes = encode_diff(&vec![rec(ChangeType::Modify, b"a", b"1")]);
    bytes.push(b'A');
    bytes.push(b'b');
    bytes.push(0xd6);
    bytes.push(1); // only 1 of the 4 length bytes
    let decoded = decode_diff(&bytes).unwrap();
    assert_eq!(decoded, vec![rec(ChangeType::Modify, b"a", b"1")]);
}

#[test]
fn missing_sentinel_ends_the_stream() {
    let bytes = vec![b'A', b'n', b'o', b'e', b'n', b'd'];
    let decoded = decode_diff(&bytes).unwrap();
    assert!(decoded.is_empty());
}

#[test]
fn invalid_utf8_path_is_an_error() {
    // 0xFF can never appear in UTF-8.
    let bytes = vec![b'A', 0xff, 0xd6, 0, 0, 0, 0];
    assert_eq!(decode_diff(&bytes), Err(CodecError::InvalidEncoding));
}

#[test]
fn overlong_utf8_path_is_an_error() {
    // 0xC0 0x80 is the overlong encoding of NUL, rejected by strict UTF-8.
    let bytes = vec![b'A', 0xc0, 0x80, 0xd6, 0, 0, 0, 0];
    assert_eq!(decode_diff(&bytes), Err(CodecError::InvalidEncoding));
}

#[test]
fn multibyte_utf8_path_round_trips() {
    // "sm\u{f8}rg\u{e5}sbord/\u{65e5}\u{672c}.txt" in UTF-8 bytes.
    let path = "sm\u{f8}rg\u{e5}sbord/\u{65e5}\u{672c}.txt".as_bytes();
    let records = vec![rec(ChangeType::Add, path, b"data")];
    let decoded = decode_diff(&encode_diff(&records)).unwrap();
    assert_eq!(decoded, records);
}

#[test]
fn content_length_is_little_endian() {
    let contents = vec![7u8; 258];
    let bytes = encode_record(&rec(ChangeType::Add, b"f", &contents));
    // tag + path (1) + sentinel, then the length 258 = 0x0102 little-endian.
    assert_eq!(&bytes[3..7], &[0x02, 0x01, 0x00, 0x00]);
    assert_eq!(bytes.len(), 7 + 258);
}
