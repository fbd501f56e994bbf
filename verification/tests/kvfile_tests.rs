use kvfile::Reader;
use kvfile::ReaderOptions;
use kvfile::Writer;
use kvfile::codec::push_u32_le;
use kvfile::codec::push_u64_le;
use kvfile::format::ReadError;

fn open_bytes(bytes: Vec<u8>) -> Result<Reader, ReadError> {
    Reader::open(bytes, ReaderOptions::default())
}

#[test]
fn test_int() {
    let mut writer = Writer::new();

    writer.add_str("Foo bar", &[1u8, 7u8]);
    writer.add_int(43, &[72u8, 101u8, 108u8, 108u8, 111u8]);
    writer.add_int(21, &[72u8, 101u8, 32u8, 111u8]);
    writer.add_str("Hello world", &[14u8, 21u8]);
    writer.add_int(65, &[1u8, 37u8, 121u8]);
    writer.close();

    let reader = open_bytes(writer.bytes().clone()).unwrap();
    assert_eq!(reader.get_int(42), None);
    assert_eq!(reader.get_int(43).unwrap(), &[72u8, 101u8, 108u8, 108u8, 111u8]);
    assert_eq!(reader.get_int(65).unwrap(), &[1u8, 37u8, 121u8]);
    assert_eq!(reader.get_str("Hello world").unwrap(), &[14u8, 21u8]);
    assert_eq!(reader.get_str("Foo bar").unwrap(), &[1u8, 7u8]);
}

#[test]
fn namespaces_are_disjoint() {
    let mut writer = Writer::new();
    writer.add_int(42, &[1u8, 2u8]);
    writer.add_str("42", &[3u8, 4u8]);
    writer.close();

    let reader = open_bytes(writer.bytes().clone()).unwrap();
    assert_eq!(reader.get_int(42).unwrap(), &[1u8, 2u8]);
    assert_eq!(reader.get_str("42").unwrap(), &[3u8, 4u8]);
}

#[test]
fn last_write_wins() {
    let mut writer = Writer::new();
    writer.add_int(7, &[10u8]);
    writer.add_str("k", &[20u8]);
    writer.add_int(7, &[11u8, 12u8]);
    writer.add_str("k", &[21u8, 22u8]);
    writer.close();

    let reader = open_bytes(writer.bytes().clone()).unwrap();
    assert_eq!(reader.get_int(7).unwrap(), &[11u8, 12u8]);
    assert_eq!(reader.get_str("k").unwrap(), &[21u8, 22u8]);
}

#[test]
fn absent_keys_are_not_errors() {
    let mut writer = Writer::new();
    writer.add_int(1, &[9u8]);
    writer.close();

    let reader = open_bytes(writer.bytes().clone()).unwrap();
    assert_eq!(reader.get_int(2), None);
    assert_eq!(reader.get_str("1"), None);
    assert_eq!(reader.get_str(""), None);
}

#[test]
fn footer_holds_data_length() {
    let mut writer = Writer::new();
    writer.add_int(1, &[1u8, 2u8]);
    writer.add_str("x", &[3u8, 4u8, 5u8]);
    writer.close();

    let bytes = writer.bytes().clone();
    let footer = &bytes[bytes.len() - 8..];
    assert_eq!(footer, &[5u8, 0u8, 0u8, 0u8, 0u8, 0u8, 0u8, 0u8]);
}

#[test]
fn empty_file_has_zero_footer() {
    let mut writer = Writer::new();
    writer.close();

    let bytes = writer.bytes().clone();
    assert_eq!(bytes, vec![0u8; 8]);

    let reader = open_bytes(bytes).unwrap();
    assert_eq!(reader.get_int(0), None);
    assert_eq!(reader.get_str(""), None);
}

#[test]
fn exact_file_layout_for_one_int_entry() {
    let mut writer = Writer::new();
    writer.add_int(1, &[0xabu8]);
    writer.close();

    let mut expected: Vec<u8> = vec![0xabu8];
    expected.extend_from_slice(&[0u8, 0u8, 0u8, 0u8]); // tag: integer
    expected.extend_from_slice(&[0u8; 8]); // start = 0
    expected.extend_from_slice(&[1u8, 0u8, 0u8, 0u8, 0u8, 0u8, 0u8, 0u8]); // end = 1
    expected.extend_from_slice(&[1u8, 0u8, 0u8, 0u8, 0u8, 0u8, 0u8, 0u8]); // key = 1
    expected.extend_from_slice(&[1u8, 0u8, 0u8, 0u8, 0u8, 0u8, 0u8, 0u8]); // footer = 1
    assert_eq!(writer.bytes(), &expected);
}

#[test]
fn negative_key_round_trips() {
    let mut writer = Writer::new();
    writer.add_int(-5, &[42u8]);
    writer.add_int(i64::MIN, &[43u8]);
    writer.close();

    let reader = open_bytes(writer.bytes().clone()).unwrap();
    assert_eq!(reader.get_int(-5).unwrap(), &[42u8]);
    assert_eq!(reader.get_int(i64::MIN).unwrap(), &[43u8]);
    assert_eq!(reader.get_int(5), None);
}

#[test]
fn empty_value_is_present() {
    let mut writer = Writer::new();
    writer.add_int(1, &[]);
    writer.add_str("empty", &[]);
    writer.close();

    let reader = open_bytes(writer.bytes().clone()).unwrap();
    assert_eq!(reader.get_int(1), Some(&[] as &[u8]));
    assert_eq!(reader.get_str("empty"), Some(&[] as &[u8]));
}

#[test]
fn empty_string_key_round_trips() {
    let mut writer = Writer::new();
    writer.add_str("", &[7u8, 8u8]);
    writer.close();

    let reader = open_bytes(writer.bytes().clone()).unwrap();
    assert_eq!(reader.get_str("").unwrap(), &[7u8, 8u8]);
}

#[test]
fn close_twice_appends_no_second_footer() {
    let mut writer = Writer::new();
    writer.add_int(3, &[1u8]);
    writer.close();
    let once = writer.bytes().clone();
    writer.close();
    assert_eq!(writer.bytes(), &once);
}

#[test]
fn invalid_utf8_key_is_a_decode_error() {
    // A trailer with one string entry whose single key byte cannot
    // begin a UTF-8 sequence.
    let mut bytes: Vec<u8> = Vec::new();
    push_u32_le(&mut bytes, 1); // tag: string
    push_u64_le(&mut bytes, 0); // start
    push_u64_le(&mut bytes, 0); // end
    push_u64_le(&mut bytes, 1); // key length
    bytes.push(0xff); // not valid UTF-8
    push_u64_le(&mut bytes, 0); // footer: trailer starts at offset 0

    assert_eq!(open_bytes(bytes).unwrap_err(), ReadError::InvalidUtf8);
}

#[test]
fn short_file_is_corrupt() {
    assert_eq!(open_bytes(vec![]).unwrap_err(), ReadError::Corrupt);
    assert_eq!(open_bytes(vec![1u8, 2u8, 3u8]).unwrap_err(), ReadError::Corrupt);
}

#[test]
fn footer_past_trailer_is_corrupt() {
    let mut bytes: Vec<u8> = Vec::new();
    push_u64_le(&mut bytes, 9); // footer points past itself
    assert_eq!(open_bytes(bytes).unwrap_err(), ReadError::Corrupt);
}

#[test]
fn truncated_entry_is_corrupt() {
    let mut bytes: Vec<u8> = Vec::new();
    push_u32_le(&mut bytes, 0); // tag only, rest of the entry missing
    push_u64_le(&mut bytes, 0); // footer
    assert_eq!(open_bytes(bytes).unwrap_err(), ReadError::Corrupt);
}

#[test]
fn unknown_tag_is_corrupt() {
    let mut bytes: Vec<u8> = Vec::new();
    push_u32_le(&mut bytes, 2); // no such entry type
    push_u64_le(&mut bytes, 0);
    push_u64_le(&mut bytes, 0);
    push_u64_le(&mut bytes, 0);
    push_u64_le(&mut bytes, 0); // footer
    assert_eq!(open_bytes(bytes).unwrap_err(), ReadError::Corrupt);
}

#[test]
fn range_outside_data_region_is_corrupt() {
    let mut bytes: Vec<u8> = vec![9u8]; // one data byte
    push_u32_le(&mut bytes, 0); // tag: integer
    push_u64_le(&mut bytes, 0); // start
    push_u64_le(&mut bytes, 2); // end: past the data region
    push_u64_le(&mut bytes, 1); // key
    push_u64_le(&mut bytes, 1); // footer
    assert_eq!(open_bytes(bytes).unwrap_err(), ReadError::Corrupt);
}

#[test]
fn string_key_length_past_trailer_is_corrupt() {
    let mut bytes: Vec<u8> = Vec::new();
    push_u32_le(&mut bytes, 1); // tag: string
    push_u64_le(&mut bytes, 0); // start
    push_u64_le(&mut bytes, 0); // end
    push_u64_le(&mut bytes, 50); // key length: more bytes than remain
    push_u64_le(&mut bytes, 0); // footer
    assert_eq!(open_bytes(bytes).unwrap_err(), ReadError::Corrupt);
}

#[test]
fn multibyte_string_keys_round_trip() {
    let mut writer = Writer::new();
    writer.add_str("clé", &[1u8]);
    writer.add_str("ключ", &[2u8]);
    writer.add_str("鍵", &[3u8]);
    writer.close();

    let reader = open_bytes(writer.bytes().clone()).unwrap();
    assert_eq!(reader.get_str("clé").unwrap(), &[1u8]);
    assert_eq!(reader.get_str("ключ").unwrap(), &[2u8]);
    assert_eq!(reader.get_str("鍵").unwrap(), &[3u8]);
    assert_eq!(reader.get_str("cle"), None);
}
