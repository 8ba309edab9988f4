use redis_starter_rust::resp::{command_bytes, Frame, RespData, RespError};

fn bulk(s: &str) -> RespData {
    RespData::BulkStr(s.as_bytes().to_vec())
}

#[test]
fn decodes_a_ping_array() {
    let values = RespData::parse(b"*1\r\n$4\r\nPING\r\n").unwrap();
    assert_eq!(values, vec![RespData::Array(vec![bulk("PING")])]);
}

#[test]
fn rejects_a_length_mismatch() {
    assert_eq!(RespData::parse(b"$5\r\nabc\r\n").err(), Some(RespError::Invalid));
    assert_eq!(RespData::parse(b"$2\r\nabc\r\n").err(), Some(RespError::Invalid));
}

#[test]
fn empty_input_holds_no_value() {
    assert_eq!(RespData::parse(b""), Ok(vec![]));
}

#[test]
fn decodes_each_kind_of_value() {
    assert_eq!(RespData::parse(b"+OK\r\n"), Ok(vec![RespData::String(b"OK".to_vec())]));
    assert_eq!(RespData::parse(b"-ERR x\r\n"), Ok(vec![RespData::ErrorStr(b"ERR x".to_vec())]));
    assert_eq!(RespData::parse(b":-42\r\n"), Ok(vec![RespData::Integer(-42)]));
    assert_eq!(RespData::parse(b"$3\r\nfoo\r\n"), Ok(vec![bulk("foo")]));
    assert_eq!(RespData::parse(b"$0\r\n\r\n"), Ok(vec![bulk("")]));
    assert_eq!(RespData::parse(b"$-1\r\n"), Ok(vec![RespData::Null]));
    assert_eq!(RespData::parse(b"*-1\r\n"), Ok(vec![RespData::NullArray]));
    assert_eq!(RespData::parse(b"*0\r\n"), Ok(vec![RespData::Array(vec![])]));
}

#[test]
fn decodes_pipelined_values_in_order() {
    let values = RespData::parse(b"*1\r\n$4\r\nPING\r\n*2\r\n$3\r\nGET\r\n$1\r\nk\r\n:7\r\n").unwrap();
    assert_eq!(
        values,
        vec![
            RespData::Array(vec![bulk("PING")]),
            RespData::Array(vec![bulk("GET"), bulk("k")]),
            RespData::Integer(7),
        ]
    );
}

#[test]
fn decodes_nested_arrays() {
    let values = RespData::parse(b"*2\r\n*1\r\n:1\r\n*2\r\n+a\r\n$1\r\nb\r\n").unwrap();
    assert_eq!(
        values,
        vec![RespData::Array(vec![
            RespData::Array(vec![RespData::Integer(1)]),
            RespData::Array(vec![RespData::String(b"a".to_vec()), bulk("b")]),
        ])]
    );
}

#[test]
fn a_bulk_string_may_hold_line_ends() {
    assert_eq!(RespData::parse(b"$4\r\na\r\nb\r\n"), Ok(vec![bulk("a\r\nb")]));
}

#[test]
fn rejects_malformed_framing() {
    for input in [
        &b"?\r\n"[..],
        b"+OK",
        b"+OK\r",
        b":12a\r\n",
        b":\r\n",
        b"$3\r\nfoo",
        b"$3\r\nfooXY",
        b"$-2\r\n",
        b"$x\r\nfoo\r\n",
        b"*2\r\n$3\r\nGET\r\n",
        b"*-3\r\n",
        b"*1\r\n",
        b"PING\r\n",
    ] {
        assert_eq!(RespData::parse(input), Err(RespError::Invalid), "{:?}", input);
    }
}

#[test]
fn integers_take_a_sign() {
    assert_eq!(RespData::parse(b":+5\r\n"), Ok(vec![RespData::Integer(5)]));
    assert_eq!(RespData::parse(b":007\r\n"), Ok(vec![RespData::Integer(7)]));
    assert_eq!(
        RespData::parse(b":9223372036854775807\r\n"),
        Ok(vec![RespData::Integer(i64::MAX)])
    );
    assert_eq!(
        RespData::parse(b":-9223372036854775808\r\n"),
        Ok(vec![RespData::Integer(i64::MIN)])
    );
    assert_eq!(RespData::parse(b":9223372036854775808\r\n"), Err(RespError::Invalid));
    assert_eq!(RespData::parse(b":-9223372036854775809\r\n"), Err(RespError::Invalid));
}

#[test]
fn encodes_each_kind_of_value() {
    assert_eq!(RespData::String(b"OK".to_vec()).encode(), b"+OK\r\n".to_vec());
    assert_eq!(RespData::ErrorStr(b"ERR x".to_vec()).encode(), b"-ERR x\r\n".to_vec());
    assert_eq!(RespData::Integer(0).encode(), b":0\r\n".to_vec());
    assert_eq!(RespData::Integer(-120).encode(), b":-120\r\n".to_vec());
    assert_eq!(RespData::Integer(i64::MIN).encode(), b":-9223372036854775808\r\n".to_vec());
    assert_eq!(bulk("hello").encode(), b"$5\r\nhello\r\n".to_vec());
    assert_eq!(bulk("").encode(), b"$0\r\n\r\n".to_vec());
    assert_eq!(RespData::Null.encode(), b"$-1\r\n".to_vec());
    assert_eq!(RespData::NullArray.encode(), b"*-1\r\n".to_vec());
    assert_eq!(
        RespData::Array(vec![bulk("GET"), bulk("foo")]).encode(),
        b"*2\r\n$3\r\nGET\r\n$3\r\nfoo\r\n".to_vec()
    );
    assert_eq!(RespData::Array(vec![]).encode(), b"*0\r\n".to_vec());
}

#[test]
fn encode_then_decode_gives_the_value_back() {
    let values = vec![
        RespData::String(b"simple".to_vec()),
        RespData::ErrorStr(b"ERR broken".to_vec()),
        RespData::Integer(1234567890123),
        RespData::Integer(-1),
        bulk("with \r\n inside"),
        RespData::BulkStr(vec![0, 255, 13, 10, 36]),
        RespData::Null,
        RespData::NullArray,
        RespData::Array(vec![
            RespData::Array(vec![bulk("a"), RespData::Null]),
            RespData::Integer(5),
            RespData::Array(vec![]),
        ]),
    ];
    for v in &values {
        let back = RespData::parse(&v.encode()).unwrap();
        assert_eq!(back.len(), 1);
        assert_eq!(&back[0], v);
    }
    let mut all = Vec::new();
    for v in &values {
        v.write_to(&mut all);
    }
    assert_eq!(RespData::parse(&all), Ok(values));
}

#[test]
fn a_simple_string_with_a_line_end_does_not_come_back() {
    let v = RespData::String(b"a\r\nb".to_vec());
    assert_ne!(RespData::parse(&v.encode()), Ok(vec![v]));
}

#[test]
fn decode_starts_where_it_is_told() {
    let input = b"+a\r\n:12\r\n";
    assert_eq!(RespData::decode(input, 0), Some((RespData::String(b"a".to_vec()), 4)));
    assert_eq!(RespData::decode(input, 4), Some((RespData::Integer(12), 9)));
    assert_eq!(RespData::decode(input, 9), None);
    assert_eq!(RespData::decode(input, 1), None);
}

#[test]
fn decode_items_reads_a_run_of_values() {
    let input = b":1\r\n:2\r\n:3\r\n";
    assert_eq!(
        RespData::decode_items(input, 0, 2),
        Some((vec![RespData::Integer(1), RespData::Integer(2)], 8))
    );
    assert_eq!(RespData::decode_items(input, 4, 0), Some((vec![], 4)));
    assert_eq!(RespData::decode_items(input, 0, 4), None);
}

#[test]
fn frames_say_where_each_value_stands() {
    let input = b"*1\r\n$4\r\nPING\r\n+OK\r\n";
    let frames: Vec<Frame> = RespData::parse_frames(input).unwrap().into_iter().collect();
    assert_eq!(
        frames,
        vec![
            Frame { value: RespData::Array(vec![bulk("PING")]), start: 0, end: 14 },
            Frame { value: RespData::String(b"OK".to_vec()), start: 14, end: 19 },
        ]
    );
    assert_eq!(RespData::parse_frames(b"+OK\r\n+").err(), Some(RespError::Invalid));
}

#[test]
fn a_command_is_an_array_of_bulk_strings() {
    let words = vec![b"REPLCONF".to_vec(), b"GETACK".to_vec(), b"*".to_vec()];
    assert_eq!(
        command_bytes(&words),
        b"*3\r\n$8\r\nREPLCONF\r\n$6\r\nGETACK\r\n$1\r\n*\r\n".to_vec()
    );
    assert_eq!(command_bytes(&vec![]), b"*0\r\n".to_vec());
}

#[test]
fn large_counts_without_items_are_invalid() {
    assert_eq!(RespData::parse(b"*4294967296\r\n:1\r\n"), Err(RespError::Invalid));
    assert_eq!(RespData::parse(b"$99999999999999999999\r\nabc\r\n"), Err(RespError::Invalid));
}
