use redis_starter_rust::database::kv::KeyValueStore;
use redis_starter_rust::rdb::{
    empty_rdb, encode_rdb, init_db, length_encoded_int, load_from_rdb, parse_rdb, read_length,
    read_op, read_string, write_to_disk, OpCode, RdbError, RdbRecord,
};

fn b(s: &str) -> Vec<u8> {
    s.as_bytes().to_vec()
}

fn record(key: &str, value: &str, expires_at: Option<u64>) -> RdbRecord {
    RdbRecord { key: b(key), value: b(value), expires_at }
}

#[test]
fn lengths_take_one_two_or_five_bytes() {
    assert_eq!(length_encoded_int(0), vec![0]);
    assert_eq!(length_encoded_int(63), vec![63]);
    assert_eq!(length_encoded_int(64), vec![0x40, 64]);
    assert_eq!(length_encoded_int(700), vec![0x42, 0xbc]);
    assert_eq!(length_encoded_int(16383), vec![0x7f, 0xff]);
    assert_eq!(length_encoded_int(16384), vec![0x80, 0, 0, 0x40, 0]);
    assert_eq!(length_encoded_int(17000), vec![0x80, 0, 0, 0x42, 0x68]);
    assert_eq!(length_encoded_int(0xffff_ffff), vec![0x80, 0xff, 0xff, 0xff, 0xff]);
    assert_eq!(length_encoded_int(0x1_0000_0000), Vec::<u8>::new());
}

#[test]
fn lengths_are_read_back() {
    for n in [0usize, 1, 63, 64, 65, 255, 256, 16383, 16384, 65536, 0x0102_0304, 0xffff_ffff] {
        let mut bytes = vec![0xaa];
        bytes.extend(length_encoded_int(n));
        let end = bytes.len();
        bytes.push(0xbb);
        assert_eq!(read_length(&bytes, 1), Ok((n, end)), "{}", n);
    }
    assert_eq!(read_length(&[0x80, 1, 2, 3, 4], 0), Ok((0x0102_0304, 5)));
    assert_eq!(read_length(&[0x80, 4, 3, 2, 1], 0), Ok((0x0403_0201, 5)));
    assert_eq!(read_length(&[0xbf, 0, 0, 0, 9], 0), Ok((9, 5)));
}

#[test]
fn a_length_can_be_cut_short_or_special() {
    assert_eq!(read_length(&[], 0), Err(RdbError::Truncated));
    assert_eq!(read_length(&[5], 1), Err(RdbError::Truncated));
    assert_eq!(read_length(&[0x40], 0), Err(RdbError::Truncated));
    assert_eq!(read_length(&[0x80, 1, 2, 3], 0), Err(RdbError::Truncated));
    assert_eq!(read_length(&[0xc0, 1], 0), Err(RdbError::Unsupported));
    assert_eq!(read_length(&[0xff], 0), Err(RdbError::Unsupported));
    assert_eq!(read_string(&[3, 97, 98, 99, 100], 0), Ok((b("abc"), 4)));
    assert_eq!(read_string(&[0], 0), Ok((vec![], 1)));
    assert_eq!(read_string(&[3, 97, 98], 0), Err(RdbError::Truncated));
    assert_eq!(read_string(&[0xc1, 97, 98], 0), Err(RdbError::Unsupported));
}

#[test]
fn the_first_byte_of_a_record_says_what_follows() {
    assert_eq!(read_op(0x00), OpCode::Value);
    assert_eq!(read_op(0xfc), OpCode::ExpiryMs);
    assert_eq!(read_op(0xfd), OpCode::ExpirySec);
    assert_eq!(read_op(0xff), OpCode::Eof);
    let mut others = 0;
    for byte in 0..=255u8 {
        if read_op(byte) == OpCode::Other {
            others += 1;
        }
    }
    assert_eq!(others, 252);
    assert_eq!(read_op(0xfb), OpCode::Other);
    assert_eq!(read_op(0xcf), OpCode::Other);
    assert_eq!(read_op(0x0f), OpCode::Other);
    assert_eq!(read_op(0xf0), OpCode::Other);
}

#[test]
fn the_header_names_the_format_and_the_server() {
    let mut expected = b("REDIS0011");
    expected.push(0xfa);
    expected.push(9);
    expected.extend(b("redis-ver"));
    expected.push(6);
    expected.extend(b("6.0.16"));
    assert_eq!(init_db(), expected);
}

#[test]
fn a_snapshot_is_laid_out_as_the_format_has_it() {
    let records = vec![record("foo", "bar", None), record("k", "v", Some(0x0102030405060708))];
    let mut expected = init_db();
    expected.extend([0xfe, 0x00, 0xfb, 2, 1]);
    expected.extend([0x00, 3]);
    expected.extend(b("foo"));
    expected.push(3);
    expected.extend(b("bar"));
    expected.extend([0xfc, 8, 7, 6, 5, 4, 3, 2, 1]);
    expected.extend([0x00, 1, b'k', 1, b'v']);
    expected.extend([0xff, 0, 0, 0, 0, 0, 0, 0, 0]);
    assert_eq!(encode_rdb(&records), expected);
}

#[test]
fn a_snapshot_is_read_back() {
    let long = "x".repeat(300);
    let records = vec![
        record("foo", "bar", None),
        record("with-deadline", "v", Some(1_700_000_000_123)),
        record("", "", None),
        record(&long, &long, Some(u64::MAX)),
        record("zero", "0", Some(0)),
    ];
    assert_eq!(parse_rdb(&encode_rdb(&records)), Ok(records));
    assert_eq!(parse_rdb(&encode_rdb(&vec![])), Ok(vec![]));
}

#[test]
fn a_deadline_in_seconds_is_read_as_milliseconds() {
    let mut bytes = init_db();
    bytes.extend([0xfe, 0x00, 0xfb, 1, 1]);
    bytes.extend([0xfd, 0x01, 0x02, 0x00, 0x00]);
    bytes.extend([0x00, 1, b'k', 1, b'v', 0xff]);
    assert_eq!(parse_rdb(&bytes), Ok(vec![record("k", "v", Some(513_000))]));
    let mut bytes = init_db();
    bytes.extend([0xfe, 0x00, 0xfb, 1, 1]);
    bytes.extend([0xfd, 0xff, 0xff, 0xff, 0xff]);
    bytes.extend([0x00, 1, b'k', 1, b'v', 0xff]);
    assert_eq!(parse_rdb(&bytes), Ok(vec![record("k", "v", Some(4_294_967_295_000))]));
}

#[test]
fn a_snapshot_without_sizes_holds_nothing() {
    assert_eq!(parse_rdb(&empty_rdb()), Ok(vec![]));
    assert_eq!(parse_rdb(&init_db()), Ok(vec![]));
    assert_eq!(empty_rdb().len(), 88);
    assert_eq!(&empty_rdb()[..9], b"REDIS0011");
    let mut bytes = init_db();
    bytes.push(0xfb);
    assert_eq!(parse_rdb(&bytes), Ok(vec![]));
}

#[test]
fn the_count_bounds_the_records_and_other_bytes_are_passed_over() {
    let mut bytes = init_db();
    bytes.extend([0xfb, 1, 0]);
    bytes.extend([0x07, 0x00, 1, b'a', 1, b'1']);
    bytes.extend([0x00, 1, b'b', 1, b'2', 0xff]);
    assert_eq!(parse_rdb(&bytes), Ok(vec![record("a", "1", None)]));
    let mut bytes = init_db();
    bytes.extend([0xfb, 5, 0]);
    bytes.extend([0x00, 1, b'a', 1, b'1', 0xff]);
    bytes.extend([0x00, 1, b'b', 1, b'2']);
    assert_eq!(parse_rdb(&bytes), Ok(vec![record("a", "1", None)]));
}

#[test]
fn a_snapshot_that_is_cut_short_is_refused() {
    assert_eq!(parse_rdb(b"REDIS"), Err(RdbError::Truncated));
    let whole = encode_rdb(&vec![record("foo", "bar", Some(7))]);
    let sizes = init_db().len() + 3;
    for cut in sizes + 1..whole.len() - 9 {
        assert_eq!(parse_rdb(&whole[..cut]), Err(RdbError::Truncated), "{}", cut);
    }
    let mut bytes = init_db();
    bytes.extend([0xfb, 0xc0, 0]);
    assert_eq!(parse_rdb(&bytes), Err(RdbError::Unsupported));
    let mut bytes = init_db();
    bytes.extend([0xfb, 1, 0, 0x00, 0xc3, b'a']);
    assert_eq!(parse_rdb(&bytes), Err(RdbError::Unsupported));
}

#[test]
fn loading_binds_the_keys_with_the_time_they_have_left() {
    let records = vec![
        record("forever", "a", None),
        record("soon", "b", Some(1_000_500)),
        record("gone", "c", Some(999_000)),
    ];
    let bytes = encode_rdb(&records);
    let mut db = KeyValueStore::new();
    db.insert(b("old"), b("kept"), None, 0);
    assert_eq!(load_from_rdb(&mut db, &bytes, 1_000_000, 40), Ok(()));
    assert_eq!(db.get_ht_size(), 4);
    assert_eq!(db.peek(b"forever", u64::MAX), Some(b("a")));
    assert_eq!(db.peek(b"soon", 540), Some(b("b")));
    assert_eq!(db.peek(b"soon", 541), None);
    assert_eq!(db.peek(b"gone", 40), Some(b("c")));
    assert_eq!(db.peek(b"gone", 41), None);
    assert_eq!(db.peek(b"old", 0), Some(b("kept")));
    let mut db = KeyValueStore::new();
    assert_eq!(load_from_rdb(&mut db, &bytes[..bytes.len() - 12], 0, 0), Err(RdbError::Truncated));
    assert_eq!(db.get_ht_size(), 0);
}

#[test]
fn a_store_is_written_with_deadlines_on_the_wall_clock() {
    let mut db = KeyValueStore::new();
    db.insert(b("a"), b("1"), None, 0);
    db.insert(b("b"), b("2"), Some(500), 100);
    db.insert(b("c"), b("3"), Some(10), 100);
    let bytes = write_to_disk(&db, 1_000_000, 200);
    assert_eq!(
        parse_rdb(&bytes),
        Ok(vec![
            record("a", "1", None),
            record("b", "2", Some(1_000_400)),
            record("c", "3", Some(999_910)),
        ])
    );
    let mut back = KeyValueStore::new();
    load_from_rdb(&mut back, &bytes, 1_000_000, 200).unwrap();
    assert_eq!(back.peek(b"b", 600), Some(b("2")));
    assert_eq!(back.peek(b"b", 601), None);
    assert_eq!(write_to_disk(&KeyValueStore::new(), 0, 0), encode_rdb(&vec![]));
}
