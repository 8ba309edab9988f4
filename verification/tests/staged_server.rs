use bytes::BytesMut;
use redis_starter_rust::stages::test::{
    advance_until_next_crlf, bytes_until_next_crlf, execute_command, handle_connection,
    parse_command, parse_message, serialize, ArrayValue, BulkStringValue, Command,
    CommandParseError, EchoCommand, GetCommand, InfoCommand, InfoSection, ParseError,
    RequestError, Role, ServerSettings, SetCommand, SimpleStringValue, State, Value,
};

fn b(s: &str) -> Vec<u8> {
    s.as_bytes().to_vec()
}

fn simple(s: &str) -> Value {
    Value::SimpleString(SimpleStringValue { data: b(s) })
}

fn bulk(s: &str) -> Value {
    Value::BulkString(BulkStringValue { length: s.len() as i64, data: b(s) })
}

fn array(elements: Vec<Value>) -> Value {
    Value::Array(ArrayValue { length: elements.len() as i64, elements })
}

fn words(ws: &[&str]) -> Value {
    array(ws.iter().map(|w| bulk(w)).collect())
}

#[test]
fn the_first_line_leaves_the_buffer() {
    let mut buffer = BytesMut::from(&b"PING\r\nrest\r\n"[..]);
    assert_eq!(bytes_until_next_crlf(&buffer), Some(4));
    let line = advance_until_next_crlf(&mut buffer).unwrap();
    assert_eq!(&line[..], b"PING");
    assert_eq!(&buffer[..], b"rest\r\n");
    let line = advance_until_next_crlf(&mut buffer).unwrap();
    assert_eq!(&line[..], b"rest");
    assert_eq!(&buffer[..], b"");
    assert!(advance_until_next_crlf(&mut buffer).is_none());
    let mut buffer = BytesMut::from(&b"no line end\r"[..]);
    assert_eq!(bytes_until_next_crlf(&buffer), None);
    assert!(advance_until_next_crlf(&mut buffer).is_none());
    assert_eq!(&buffer[..], b"no line end\r");
    let mut buffer = BytesMut::from(&b"\r\n"[..]);
    assert_eq!(&advance_until_next_crlf(&mut buffer).unwrap()[..], b"");
}

#[test]
fn messages_are_read_from_the_buffer() {
    let mut buffer = BytesMut::from(&b"+OK\r\n$3\r\nfoo\r\n*2\r\n$4\r\nECHO\r\n$2\r\nhi\r\ntail"[..]);
    assert_eq!(parse_message(&mut buffer), Ok(simple("OK")));
    assert_eq!(parse_message(&mut buffer), Ok(bulk("foo")));
    assert_eq!(parse_message(&mut buffer), Ok(words(&["ECHO", "hi"])));
    assert_eq!(&buffer[..], b"tail");
    assert_eq!(parse_message(&mut buffer), Err(ParseError::UnknownPrefix));
}

#[test]
fn a_length_is_carried_as_it_was_written() {
    let mut buffer = BytesMut::from(&b"$9\r\nfoo\r\n"[..]);
    assert_eq!(
        parse_message(&mut buffer),
        Ok(Value::BulkString(BulkStringValue { length: 9, data: b("foo") }))
    );
    let mut buffer = BytesMut::from(&b"*-1\r\n+x\r\n"[..]);
    assert_eq!(
        parse_message(&mut buffer),
        Ok(Value::Array(ArrayValue { length: -1, elements: vec![] }))
    );
    assert_eq!(&buffer[..], b"+x\r\n");
    let mut buffer = BytesMut::from(&b"*1\r\n*1\r\n+deep\r\n"[..]);
    assert_eq!(parse_message(&mut buffer), Ok(array(vec![array(vec![simple("deep")])])));
}

#[test]
fn a_message_can_be_cut_short_or_malformed() {
    for (input, error) in [
        (&b""[..], ParseError::Incomplete),
        (b"+OK", ParseError::Incomplete),
        (b"$3\r\nfoo", ParseError::Incomplete),
        (b"$3", ParseError::Incomplete),
        (b"*2\r\n+a\r\n", ParseError::Incomplete),
        (b"*9999999999999\r\n+a\r\n", ParseError::Incomplete),
        (b"$x\r\nfoo\r\n", ParseError::BadLength),
        (b"*\r\n", ParseError::BadLength),
        (b":1\r\n", ParseError::UnknownPrefix),
        (b"*2\r\n+a\r\n:1\r\n", ParseError::UnknownPrefix),
    ] {
        let mut buffer = BytesMut::from(input);
        assert_eq!(parse_message(&mut buffer), Err(error), "{:?}", input);
    }
}

#[test]
fn messages_are_written_as_bytes() {
    assert_eq!(serialize(&simple("PONG")), b("+PONG\r\n"));
    assert_eq!(serialize(&bulk("hello")), b("$5\r\nhello\r\n"));
    assert_eq!(
        serialize(&Value::BulkString(BulkStringValue { length: -1, data: b("") })),
        b("$-1\r\n")
    );
    assert_eq!(
        serialize(&Value::BulkString(BulkStringValue { length: 0, data: b("") })),
        b("$0\r\n\r\n")
    );
    assert_eq!(serialize(&words(&["GET", "k"])), b("*2\r\n$3\r\nGET\r\n$1\r\nk\r\n"));
    assert_eq!(serialize(&array(vec![])), b("*0"));
    assert_eq!(
        serialize(&array(vec![array(vec![simple("a")]), bulk("b")])),
        b("*2\r\n*1\r\n+a\r\n$1\r\nb\r\n")
    );
}

#[test]
fn what_is_written_is_read_back() {
    for v in [simple("OK"), bulk("hello"), words(&["SET", "k", "v"]), array(vec![array(vec![bulk("x")])])] {
        let bytes = serialize(&v);
        let mut buffer = BytesMut::from(&bytes[..]);
        assert_eq!(parse_message(&mut buffer), Ok(v));
        assert!(buffer.is_empty());
    }
}

#[test]
fn a_value_is_taken_for_what_it_is() {
    let s = simple("a");
    assert_eq!(s.as_simple_string(), Ok(&SimpleStringValue { data: b("a") }));
    assert_eq!(s.as_bulk_string(), Err("Value provided is not a BULK STRING"));
    assert_eq!(s.as_array(), Err("Value is not an ARRAY"));
    let bs = bulk("a");
    assert_eq!(bs.as_bulk_string(), Ok(&BulkStringValue { length: 1, data: b("a") }));
    assert_eq!(bs.as_simple_string(), Err("Value provided is not a SIMPLE STRING"));
    let a = array(vec![]);
    assert_eq!(a.as_array(), Ok(&ArrayValue { length: 0, elements: vec![] }));
    let ping = Command::Ping;
    assert_eq!(ping.as_echo(), Err("Command is not an ECHO command"));
    assert_eq!(ping.as_set(), Err("Command is not a SET command"));
    assert_eq!(ping.as_get(), Err("Command is not a GET command"));
    assert_eq!(ping.as_info(), Err("Command is not an INFO command"));
    let get = Command::Get(GetCommand { key: b("k") });
    assert_eq!(get.as_get(), Ok(&GetCommand { key: b("k") }));
}

#[test]
fn commands_are_read_from_messages() {
    assert_eq!(parse_command(&words(&["ping"])), Ok(Command::Ping));
    assert_eq!(
        parse_command(&words(&["ECHO", "hi"])),
        Ok(Command::Echo(EchoCommand { value: b("hi") }))
    );
    assert_eq!(
        parse_command(&words(&["set", "k", "v"])),
        Ok(Command::SetCmd(SetCommand { key: b("k"), value: b("v"), ttl: None }))
    );
    assert_eq!(
        parse_command(&words(&["SET", "k", "v", "px", "100", "PX", "200"])),
        Ok(Command::SetCmd(SetCommand { key: b("k"), value: b("v"), ttl: Some(200) }))
    );
    assert_eq!(
        parse_command(&words(&["GET", "k"])),
        Ok(Command::Get(GetCommand { key: b("k") }))
    );
    assert_eq!(
        parse_command(&words(&["INFO"])),
        Ok(Command::Info(InfoCommand { info_section: InfoSection::ALL }))
    );
    assert_eq!(
        parse_command(&words(&["INFO", "Replication"])),
        Ok(Command::Info(InfoCommand { info_section: InfoSection::REPLICATION }))
    );
}

#[test]
fn commands_from_messages_report_their_errors() {
    assert_eq!(parse_command(&simple("PING")), Err(CommandParseError::NotBulkStrings));
    assert_eq!(
        parse_command(&array(vec![bulk("GET"), simple("k")])),
        Err(CommandParseError::NotBulkStrings)
    );
    assert_eq!(parse_command(&array(vec![])), Err(CommandParseError::Empty));
    assert_eq!(parse_command(&words(&["ECHO"])), Err(CommandParseError::BadArgument));
    assert_eq!(parse_command(&words(&["GET"])), Err(CommandParseError::BadArgument));
    assert_eq!(parse_command(&words(&["SET", "k"])), Err(CommandParseError::BadArgument));
    assert_eq!(parse_command(&words(&["SET", "k", "v", "PX"])), Err(CommandParseError::BadArgument));
    assert_eq!(
        parse_command(&words(&["SET", "k", "v", "PX", "-1"])),
        Err(CommandParseError::BadArgument)
    );
    assert_eq!(
        parse_command(&words(&["SET", "k", "v", "EX", "1"])),
        Err(CommandParseError::Unsupported)
    );
    assert_eq!(parse_command(&words(&["INFO", "cpu"])), Err(CommandParseError::Unsupported));
    assert_eq!(parse_command(&words(&["DEL", "k"])), Err(CommandParseError::Unsupported));
}

#[test]
fn the_settings_start_as_a_leader() {
    let settings = ServerSettings::new();
    assert_eq!(
        settings,
        ServerSettings {
            port: b("6379"),
            role: Role::Master,
            replica_of_host: None,
            replica_of_port: None,
        }
    );
    assert_eq!(State::new().settings, settings);
}

#[test]
fn the_state_keeps_values_for_their_time() {
    let mut state = State::new();
    assert_eq!(state.get(b"k", 0), None);
    state.set(b"k", b"v");
    assert_eq!(state.get(b"k", u64::MAX), Some(b("v")));
    state.set_with_ttl(b"k", b"w", 100, 1000);
    assert_eq!(state.get(b"k", 1100), Some(b("w")));
    assert_eq!(state.get(b"k", 1101), None);
    state.set_with_ttl(b"z", b"w", u64::MAX, 1000);
    assert_eq!(state.get(b"z", u64::MAX), Some(b("w")));
}

#[test]
fn commands_are_run_against_the_state() {
    let mut state = State::new();
    assert_eq!(execute_command(&mut state, &Command::Ping, 0), simple("PONG"));
    assert_eq!(
        execute_command(&mut state, &Command::Echo(EchoCommand { value: b("hi") }), 0),
        bulk("hi")
    );
    let set = Command::SetCmd(SetCommand { key: b("k"), value: b("v"), ttl: Some(10) });
    assert_eq!(execute_command(&mut state, &set, 100), simple("OK"));
    let get = Command::Get(GetCommand { key: b("k") });
    assert_eq!(execute_command(&mut state, &get, 110), bulk("v"));
    assert_eq!(
        execute_command(&mut state, &get, 111),
        Value::BulkString(BulkStringValue { length: -1, data: b("") })
    );
    let info = Command::Info(InfoCommand { info_section: InfoSection::ALL });
    assert_eq!(execute_command(&mut state, &info, 0), bulk("role:master"));
    let mut settings = ServerSettings::new();
    settings.role = Role::Slave;
    let mut follower = State::with_settings(settings);
    assert_eq!(execute_command(&mut follower, &info, 0), bulk("role:slave"));
}

#[test]
fn a_request_is_answered_in_bytes() {
    let mut state = State::new();
    assert_eq!(handle_connection(&mut state, b"*1\r\n$4\r\nPING\r\n", 0), Ok(b("+PONG\r\n")));
    assert_eq!(
        handle_connection(&mut state, b"*3\r\n$3\r\nSET\r\n$3\r\nfoo\r\n$3\r\nbar\r\n", 0),
        Ok(b("+OK\r\n"))
    );
    assert_eq!(
        handle_connection(&mut state, b"*2\r\n$3\r\nGET\r\n$3\r\nfoo\r\n", 0),
        Ok(b("$3\r\nbar\r\n"))
    );
    assert_eq!(
        handle_connection(&mut state, b"*2\r\n$3\r\nGET\r\n$3\r\nbaz\r\n", 0),
        Ok(b("$-1\r\n"))
    );
    assert_eq!(
        handle_connection(&mut state, b"*2\r\n$4\r\nECHO\r\n$5\r\nHELLO\r\n", 0),
        Ok(b("$5\r\nHELLO\r\n"))
    );
    assert_eq!(
        handle_connection(&mut state, b"*2\r\n$4\r\nECHO\r\n", 0),
        Err(RequestError::Message(ParseError::Incomplete))
    );
    assert_eq!(
        handle_connection(&mut state, b"*1\r\n$4\r\nECHO\r\n", 0),
        Err(RequestError::Command(CommandParseError::BadArgument))
    );
}
