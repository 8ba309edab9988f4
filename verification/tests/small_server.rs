use redis_starter_rust::command_handling::{join_lines, CommandHandler};
use redis_starter_rust::commands::{
    Command, EchoCommand, GetCommand, InfoCommand, Section, SetCommand,
};
use redis_starter_rust::helpers::{digits_string, RespHandler};
use redis_starter_rust::protocol_parser::{parse_protocol, split_lines};
use redis_starter_rust::resp::RespData;
use redis_starter_rust::server::{
    generate_server_id, CacheValue, MasterServerInfo, ServerInfo, Session,
};
use redis_starter_rust::storage::Storage;

fn b(s: &str) -> Vec<u8> {
    s.as_bytes().to_vec()
}

fn now_ms() -> i64 {
    std::time::SystemTime::now()
        .duration_since(std::time::UNIX_EPOCH)
        .unwrap()
        .as_millis() as i64
}

#[test]
fn commands_are_built_from_their_parts() {
    assert_eq!(EchoCommand::new(b"hi"), EchoCommand { message: b("hi") });
    assert_eq!(
        SetCommand::new(b"k", b"v", Some(5)),
        SetCommand { key: b("k"), value: b("v"), px: Some(5) }
    );
    assert_eq!(GetCommand::new(b"k"), GetCommand { key: b("k") });
    assert_eq!(InfoCommand::new(Section::All), InfoCommand { section: Section::All });
}

#[test]
fn a_request_is_parted_at_its_line_ends() {
    assert_eq!(
        split_lines(b"*1\r\n$4\r\nPING\r\n"),
        vec![b("*1"), b("$4"), b("PING"), b("")]
    );
    assert_eq!(split_lines(b""), vec![b("")]);
    assert_eq!(split_lines(b"a\rb\nc"), vec![b("a\rb\nc")]);
    assert_eq!(split_lines(b"\r\n\r\n"), vec![b(""), b(""), b("")]);
}

#[test]
fn requests_are_read_by_lines() {
    assert_eq!(parse_protocol(b"*1\r\n$4\r\nping\r\n"), Ok(Command::Ping));
    assert_eq!(
        parse_protocol(b"*2\r\n$4\r\nECHO\r\n$5\r\nHELLO\r\n"),
        Ok(Command::ECHO(EchoCommand { message: b("HELLO") }))
    );
    assert_eq!(
        parse_protocol(b"*2\r\n$3\r\nGET\r\n$3\r\nfoo\r\n"),
        Ok(Command::GET(GetCommand { key: b("foo") }))
    );
    assert_eq!(
        parse_protocol(b"*3\r\n$3\r\nSET\r\n$3\r\nfoo\r\n$3\r\nbar\r\n"),
        Ok(Command::SET(SetCommand { key: b("foo"), value: b("bar"), px: None }))
    );
    assert_eq!(
        parse_protocol(b"*5\r\n$3\r\nset\r\n$3\r\nfoo\r\n$3\r\nbar\r\n$2\r\npx\r\n$3\r\n100\r\n"),
        Ok(Command::SET(SetCommand { key: b("foo"), value: b("bar"), px: Some(100) }))
    );
    assert_eq!(
        parse_protocol(b"*1\r\n$4\r\nINFO"),
        Ok(Command::INFO(InfoCommand { section: Section::All }))
    );
    assert_eq!(
        parse_protocol(b"*2\r\n$4\r\nINFO\r\n$11\r\nreplication\r\n"),
        Ok(Command::INFO(InfoCommand { section: Section::Custom(b("replication")) }))
    );
}

#[test]
fn requests_by_lines_report_what_is_missing() {
    assert_eq!(parse_protocol(b""), Err("No command was found in protocol input."));
    assert_eq!(parse_protocol(b"*1\r\n$4"), Err("No command was found in protocol input."));
    assert_eq!(parse_protocol(b"*1\r\n$4\r\nNOPE\r\n"), Err("Command not recognized"));
    assert_eq!(parse_protocol(b"*1\r\n$4\r\nECHO\r\n"), Err("Could not get ECHO message"));
    assert_eq!(parse_protocol(b"*1\r\n$3\r\nGET\r\n$3"), Err("Could not get GET key"));
    assert_eq!(parse_protocol(b"*1\r\n$3\r\nSET\r\n"), Err("Could not get set key"));
    assert_eq!(
        parse_protocol(b"*1\r\n$3\r\nSET\r\n$1\r\nk\r\n"),
        Err("Could not get set value")
    );
    assert_eq!(
        parse_protocol(b"*5\r\n$3\r\nSET\r\n$1\r\nk\r\n$1\r\nv\r\n$2\r\nPX\r\n"),
        Err("Could not get PX value")
    );
    assert_eq!(
        parse_protocol(b"*5\r\n$3\r\nSET\r\n$1\r\nk\r\n$1\r\nv\r\n$2\r\nPX\r\n$1\r\nx\r\n"),
        Err("Could not get PX value")
    );
}

#[test]
fn commands_are_written_as_text() {
    assert_eq!(RespHandler::to_resp_string("PING"), "$4\r\nPING\r\n");
    assert_eq!(RespHandler::to_resp_string(""), "$0\r\n\r\n");
    assert_eq!(RespHandler::to_resp_string("h\u{e9}llo w\u{f6}rld!"), "$14\r\nh\u{e9}llo w\u{f6}rld!\r\n");
    assert_eq!(
        RespHandler::to_resp_array(vec!["REPLCONF", "listening-port", "6380"]),
        "*3\r\n$8\r\nREPLCONF\r\n$14\r\nlistening-port\r\n$4\r\n6380\r\n"
    );
    assert_eq!(RespHandler::to_resp_array(vec![]), "*0\r\n");
    assert_eq!(RespHandler::to_resp_array(vec!["a"; 12]), format!("*12\r\n{}", "$1\r\na\r\n".repeat(12)));
    assert_eq!(digits_string(0), "0");
    assert_eq!(digits_string(1234567890), "1234567890");
}

#[test]
fn a_cached_value_expires_by_the_wall_clock() {
    let v = CacheValue::at(b"v", Some(100), 1000);
    assert_eq!(v.value, b("v"));
    assert_eq!(v.expiry_dt, 1100);
    assert!(!v.is_expired_at(1100));
    assert!(v.is_expired_at(1101));
    assert_eq!(CacheValue::at(b"v", None, 1000).expiry_dt, 1000 + 2147483647);
    assert_eq!(CacheValue::at(b"v", Some(i64::MAX), 1000).expiry_dt, i64::MAX);
    assert_eq!(CacheValue::at(b"v", Some(i64::MIN), -1000).expiry_dt, i64::MIN);
    assert_eq!(CacheValue::at(b"v", Some(-5), 1000).expiry_dt, 995);
}

#[test]
fn a_cached_value_reads_the_clock() {
    let before = now_ms();
    let v = CacheValue::new(b"v", Some(60_000));
    let after = now_ms();
    assert!(before + 60_000 <= v.expiry_dt && v.expiry_dt <= after + 60_000);
    assert!(!v.is_expired());
    let past = CacheValue::new(b"v", Some(-60_000));
    assert!(past.is_expired());
    let edge = CacheValue { value: b("v"), expiry_dt: i64::MAX };
    assert!(!edge.is_expired());
    let long_gone = CacheValue { value: b("v"), expiry_dt: 0 };
    assert!(long_gone.is_expired());
}

#[test]
fn a_server_id_is_forty_random_letters_and_digits() {
    let id = generate_server_id();
    assert_eq!(id.len(), 40);
    assert!(id.iter().all(|c| c.is_ascii_alphanumeric()));
    assert_ne!(id, generate_server_id());
    assert_ne!(id, vec![id[0]; 40]);
}

#[test]
fn a_server_knows_its_role() {
    let master = ServerInfo::new_master(b"127.0.0.1:6379");
    assert_eq!(master.addr, b("127.0.0.1:6379"));
    assert_eq!(master.master_addr, None);
    let lines = master.replication_info();
    assert_eq!(lines.len(), 3);
    assert_eq!(lines[0], b("role:master"));
    assert_eq!(lines[1].len(), "master_replid:".len() + 40);
    assert!(lines[1].starts_with(b"master_replid:"));
    assert!(lines[1]["master_replid:".len()..].iter().all(|c| c.is_ascii_alphanumeric()));
    assert_eq!(lines[1]["master_replid:".len()..], master.master_info.as_ref().unwrap().replid[..]);
    assert_eq!(lines[2], b("master_repl_offset:0"));
    let slave = ServerInfo::new_slave(b"127.0.0.1:6380", b"127.0.0.1:6379");
    assert_eq!(slave.master_addr, Some(b("127.0.0.1:6379")));
    assert_eq!(slave.replication_info(), vec![b("role:slave")]);
    let info = ServerInfo {
        addr: b("a"),
        master_addr: None,
        role: b("master"),
        master_info: Some(MasterServerInfo::new(b"abc", -7)),
    };
    assert_eq!(
        info.replication_info(),
        vec![b("role:master"), b("master_replid:abc"), b("master_repl_offset:-7")]
    );
}

fn session() -> Session {
    Session::new(ServerInfo::new_slave(b"a", b"m"))
}

#[test]
fn the_small_server_answers_its_commands() {
    let mut handler = CommandHandler;
    let mut s = session();
    assert_eq!(handler.handle_at(&mut s, Command::Ping, 0), b("+PONG\r\n"));
    assert_eq!(
        handler.handle_at(&mut s, Command::ECHO(EchoCommand::new(b"hey")), 0),
        b("$3\r\nhey\r\n")
    );
    assert_eq!(
        handler.handle_at(&mut s, Command::SET(SetCommand::new(b"k", b"v", Some(100))), 1000),
        b("+OK\r\n")
    );
    assert_eq!(
        handler.handle_at(&mut s, Command::GET(GetCommand::new(b"k")), 1100),
        b("$1\r\nv\r\n")
    );
    assert_eq!(handler.handle_at(&mut s, Command::GET(GetCommand::new(b"k")), 1101), b(""));
    assert_eq!(handler.handle_at(&mut s, Command::GET(GetCommand::new(b"none")), 0), b(""));
    assert_eq!(
        handler.handle_at(&mut s, Command::INFO(InfoCommand::new(Section::All)), 0),
        b("$10\r\nrole:slave\r\n")
    );
    assert_eq!(
        handler.handle_at(
            &mut s,
            Command::INFO(InfoCommand::new(Section::Custom(b("replication")))),
            0
        ),
        b("$10\r\nrole:slave\r\n")
    );
    assert_eq!(
        handler.handle_at(&mut s, Command::INFO(InfoCommand::new(Section::Custom(b("cpu")))), 0),
        b("$0\r\n\r\n")
    );
}

#[test]
fn the_small_server_reads_the_clock() {
    let mut handler = CommandHandler;
    let mut s = session();
    assert_eq!(handler.handle(&mut s, Command::SET(SetCommand::new(b"k", b"v", None))), b("+OK\r\n"));
    assert_eq!(handler.handle(&mut s, Command::GET(GetCommand::new(b"k"))), b("$1\r\nv\r\n"));
    assert_eq!(
        handler.handle(&mut s, Command::SET(SetCommand::new(b"old", b"v", Some(-1000)))),
        b("+OK\r\n")
    );
    assert_eq!(handler.handle(&mut s, Command::GET(GetCommand::new(b"old"))), b(""));
    let stored = s.storage.get(b"k").unwrap().expiry_dt;
    let now = now_ms();
    assert!(now + 2147483647 - 60_000 <= stored && stored <= now + 2147483647);
}

#[test]
fn the_lines_of_info_are_joined_by_line_ends() {
    assert_eq!(join_lines(&vec![]), b(""));
    assert_eq!(join_lines(&vec![b("a")]), b("a"));
    assert_eq!(join_lines(&vec![b("a"), b(""), b("c")]), b("a\r\n\r\nc"));
    let mut handler = CommandHandler;
    let mut s = Session::new(ServerInfo {
        addr: b("a"),
        master_addr: None,
        role: b("master"),
        master_info: Some(MasterServerInfo::new(b"id", 0)),
    });
    let text = "role:master\r\nmaster_replid:id\r\nmaster_repl_offset:0";
    assert_eq!(
        handler.handle_at(&mut s, Command::INFO(InfoCommand::new(Section::All)), 0),
        format!("${}\r\n{}\r\n", text.len(), text).into_bytes()
    );
}

#[test]
fn storage_keeps_items_for_their_time() {
    let mut storage = Storage::new();
    assert_eq!(storage.set(b"k", b"v", 100, 1000), RespData::String(b("OK")));
    let item = storage.get(b"k", 1100).unwrap();
    assert_eq!(item.value, b("v"));
    assert_eq!(item.created, 1000);
    assert_eq!(item.expires, 100);
    assert!(storage.get(b"k", 1101).is_none());
    assert!(storage.get(b"k", 0).is_some());
    assert!(storage.get(b"other", 0).is_none());
    storage.set(b"forever", b"v", 0, 1000);
    assert!(storage.get(b"forever", u64::MAX).is_some());
    storage.set(b"k", b"w", 0, 2000);
    assert_eq!(storage.get(b"k", u64::MAX).unwrap().value, b("w"));
    assert!(Storage::default().get(b"k", 0).is_none());
}

#[test]
fn a_command_as_text_has_the_bytes_of_the_command_on_the_wire() {
    let words = vec![b("REPLCONF"), b("listening-port"), b("6380")];
    let text = RespHandler::to_resp_array(vec!["REPLCONF", "listening-port", "6380"]);
    assert_eq!(text.into_bytes(), redis_starter_rust::resp::command_bytes(&words));
    let accented = RespHandler::to_resp_array(vec!["ECHO", "h\u{e9}"]).into_bytes();
    assert_eq!(accented, redis_starter_rust::resp::command_bytes(&vec![b("ECHO"), b("h\u{e9}")]));
    assert_eq!(
        RespData::decode(&accented, 0),
        Some((
            RespData::Array(vec![RespData::BulkStr(b("ECHO")), RespData::BulkStr(b("h\u{e9}"))]),
            accented.len()
        ))
    );
    assert_eq!(
        RespHandler::to_resp_string("abc").into_bytes(),
        RespData::BulkStr(b("abc")).encode()
    );
}
