use miniredis::redis_db::{RDBLenEncodings, RDBOpCodes, RdbError, RedisDB};

fn reader() -> RedisDB {
    RedisDB::new("dir".to_string(), "dump.rdb".to_string())
}

fn image(body: &[u8]) -> Vec<u8> {
    let mut v = b"REDIS0011".to_vec();
    v.extend_from_slice(body);
    v
}

fn str_enc(s: &[u8]) -> Vec<u8> {
    let mut v = vec![s.len() as u8];
    v.extend_from_slice(s);
    v
}

fn entry(key: &[u8], val: &[u8]) -> Vec<u8> {
    let mut v = vec![0u8];
    v.extend_from_slice(&str_enc(key));
    v.extend_from_slice(&str_enc(val));
    v
}

fn db_section(entries: &[u8], size: u8, expires: u8) -> Vec<u8> {
    let mut v = vec![0xFE, 0x00, 0xFB, size, expires];
    v.extend_from_slice(entries);
    v
}

#[test]
fn reads_one_entry() {
    let mut body = db_section(&entry(b"foo", b"bar"), 1, 0);
    body.push(0xFF);
    let mut ks = reader().read_rdb(&image(&body), 0).expect("valid image");
    assert_eq!(ks.get(&b"foo".to_vec(), 0), Some(b"bar".to_vec()));
}

#[test]
fn reads_two_entries() {
    let mut es = entry(b"a", b"1");
    es.extend_from_slice(&entry(b"b", b"2"));
    let mut body = db_section(&es, 2, 0);
    body.push(0xFF);
    let mut ks = reader().read_rdb(&image(&body), 0).expect("valid image");
    assert_eq!(ks.get(&b"a".to_vec(), 0), Some(b"1".to_vec()));
    assert_eq!(ks.get(&b"b".to_vec(), 0), Some(b"2".to_vec()));
}

#[test]
fn millisecond_expiry_is_applied() {
    // 0xFC, then eight little-endian bytes: expiry at 500 ms.
    let mut es = vec![0xFC, 0xF4, 0x01, 0, 0, 0, 0, 0, 0];
    es.extend_from_slice(&entry(b"k", b"v"));
    let mut body = db_section(&es, 1, 1);
    body.push(0xFF);
    let mut ks = reader().read_rdb(&image(&body), 100).expect("valid image");
    assert_eq!(ks.get(&b"k".to_vec(), 400), Some(b"v".to_vec()));
    let mut ks = reader().read_rdb(&image(&body), 100).expect("valid image");
    assert_eq!(ks.get(&b"k".to_vec(), 600), None);
}

#[test]
fn second_expiry_is_scaled_to_ms() {
    // 0xFD, then four little-endian bytes: 2 seconds = 2000 ms.
    let mut es = vec![0xFD, 0x02, 0, 0, 0];
    es.extend_from_slice(&entry(b"k", b"v"));
    let mut body = db_section(&es, 1, 1);
    body.push(0xFF);
    let mut ks = reader().read_rdb(&image(&body), 0).expect("valid image");
    assert_eq!(ks.get(&b"k".to_vec(), 1999), Some(b"v".to_vec()));
    let mut ks = reader().read_rdb(&image(&body), 0).expect("valid image");
    assert_eq!(ks.get(&b"k".to_vec(), 2001), None);
}

#[test]
fn entry_already_expired_at_load_is_omitted() {
    let mut es = vec![0xFC, 0x64, 0, 0, 0, 0, 0, 0, 0]; // expiry at 100 ms
    es.extend_from_slice(&entry(b"dead", b"x"));
    es.extend_from_slice(&entry(b"live", b"y"));
    let mut body = db_section(&es, 2, 1);
    body.push(0xFF);
    let ks = reader().read_rdb(&image(&body), 200).expect("valid image");
    assert_eq!(ks.keys(), vec![b"live".to_vec()]);
}

#[test]
fn aux_fields_are_skipped() {
    let mut body = vec![0xFA];
    body.extend_from_slice(&str_enc(b"redis-ver"));
    body.extend_from_slice(&str_enc(b"7.2.0"));
    body.extend_from_slice(&db_section(&entry(b"k", b"v"), 1, 0));
    body.push(0xFF);
    let mut ks = reader().read_rdb(&image(&body), 0).expect("valid image");
    assert_eq!(ks.get(&b"k".to_vec(), 0), Some(b"v".to_vec()));
}

#[test]
fn special_int_value_reads_as_decimal_text() {
    // Value encoded as an int8 special form: 0xC0 then the byte 64.
    let mut es = vec![0u8];
    es.extend_from_slice(&str_enc(b"bits"));
    es.extend_from_slice(&[0xC0, 64]);
    let mut body = db_section(&es, 1, 0);
    body.push(0xFF);
    let mut ks = reader().read_rdb(&image(&body), 0).expect("valid image");
    assert_eq!(ks.get(&b"bits".to_vec(), 0), Some(b"64".to_vec()));
}

#[test]
fn fourteen_bit_length_is_read() {
    // Length 0x40 0x05: tag 01, value 5.
    let mut es = vec![0u8, 0x40, 0x05];
    es.extend_from_slice(b"abcde");
    es.extend_from_slice(&str_enc(b"v"));
    let mut body = db_section(&es, 1, 0);
    body.push(0xFF);
    let ks = reader().read_rdb(&image(&body), 0).expect("valid image");
    assert_eq!(ks.keys().len(), 1);
}

#[test]
fn thirty_two_bit_length_is_read() {
    // Length 0x80 then four big-endian bytes: 3.
    let mut es = vec![0u8, 0x80, 0, 0, 0, 3];
    es.extend_from_slice(b"key");
    es.extend_from_slice(&str_enc(b"v"));
    let mut body = db_section(&es, 1, 0);
    body.push(0xFF);
    let mut ks = reader().read_rdb(&image(&body), 0).expect("valid image");
    assert_eq!(ks.get(&b"key".to_vec(), 0), Some(b"v".to_vec()));
}

#[test]
fn bad_magic_is_rejected() {
    let r = reader().read_rdb(&b"REDIX0011\xFF".to_vec(), 0);
    assert_eq!(r.err(), Some(RdbError::BadMagic));
}

#[test]
fn short_image_is_rejected() {
    assert_eq!(reader().read_rdb(&b"RED".to_vec(), 0).err(), Some(RdbError::BadMagic));
    assert_eq!(reader().read_rdb(&b"REDIS00".to_vec(), 0).err(), Some(RdbError::Truncated));
}

#[test]
fn missing_eof_is_rejected() {
    assert_eq!(reader().read_rdb(&image(&[]), 0).err(), Some(RdbError::Truncated));
}

#[test]
fn unknown_opcode_is_rejected() {
    assert_eq!(reader().read_rdb(&image(&[0x42]), 0).err(), Some(RdbError::BadOpcode));
}

#[test]
fn resize_before_select_is_rejected() {
    assert_eq!(
        reader().read_rdb(&image(&[0xFB, 0, 0, 0xFF]), 0).err(),
        Some(RdbError::UnexpectedOpcode)
    );
}

#[test]
fn select_without_resize_is_rejected() {
    assert_eq!(
        reader().read_rdb(&image(&[0xFE, 0x00, 0xFF]), 0).err(),
        Some(RdbError::UnexpectedOpcode)
    );
}

#[test]
fn compressed_string_is_rejected() {
    // Length byte 0xC3 names an unsupported compressed form.
    let mut es = vec![0u8, 0xC3, 0x01];
    es.extend_from_slice(&str_enc(b"v"));
    let mut body = db_section(&es, 1, 0);
    body.push(0xFF);
    assert_eq!(
        reader().read_rdb(&image(&body), 0).err(),
        Some(RdbError::UnsupportedEncoding)
    );
}

#[test]
fn non_string_value_type_is_rejected() {
    let mut es = vec![5u8];
    es.extend_from_slice(&str_enc(b"k"));
    es.extend_from_slice(&str_enc(b"v"));
    let mut body = db_section(&es, 1, 0);
    body.push(0xFF);
    assert_eq!(
        reader().read_rdb(&image(&body), 0).err(),
        Some(RdbError::UnsupportedValueType)
    );
}

#[test]
fn truncated_entry_is_rejected() {
    let body = db_section(&[0u8, 0x05, b'k'], 1, 0);
    assert_eq!(reader().read_rdb(&image(&body), 0).err(), Some(RdbError::Truncated));
}

#[test]
fn opcode_bytes_round_trip() {
    for b in [0xFFu8, 0xFE, 0xFD, 0xFC, 0xFB, 0xFA] {
        let op = RDBOpCodes::from_u8(b).expect("known opcode");
        assert_eq!(op.to_u8(), b);
    }
    assert!(RDBOpCodes::from_u8(0x00).is_none());
}

#[test]
fn length_encoding_renders_decimal() {
    assert_eq!(RDBLenEncodings::SixBit(42).to_bytes(), b"42".to_vec());
    assert_eq!(RDBLenEncodings::SpecialEncoding(0).to_bytes(), b"0".to_vec());
    assert_eq!(
        RDBLenEncodings::SixtyFourBit(4294967295).to_bytes(),
        b"4294967295".to_vec()
    );
}

#[test]
fn reader_keeps_its_paths() {
    let r = reader();
    assert_eq!(r.dir().as_str(), "dir");
    assert_eq!(r.file_name().as_str(), "dump.rdb");
}

#[test]
fn non_utf8_string_is_rejected() {
    // Value bytes [0xFF, 0xFE] are no valid UTF-8.
    let mut es = vec![0u8];
    es.extend_from_slice(&str_enc(b"k"));
    es.extend_from_slice(&[0x02, 0xFF, 0xFE]);
    let mut body = db_section(&es, 1, 0);
    body.push(0xFF);
    assert_eq!(
        reader().read_rdb(&image(&body), 0).err(),
        Some(RdbError::InvalidUtf8)
    );
}

#[test]
fn multi_byte_utf8_string_is_read() {
    // Key is a two-byte UTF-8 scalar.
    let mut es = vec![0u8, 0x02, 0xC3, 0xA9];
    es.extend_from_slice(&str_enc(b"v"));
    let mut body = db_section(&es, 1, 0);
    body.push(0xFF);
    let mut ks = reader().read_rdb(&image(&body), 0).expect("valid image");
    assert_eq!(ks.get(&vec![0xC3, 0xA9], 0), Some(b"v".to_vec()));
}
