use redis_starter_rust::cli::{Cli, CliError};
use redis_starter_rust::database::SharedState;
use redis_starter_rust::global::GlobalConfig;
use redis_starter_rust::{start_server, Instance, Leader, Request, Response, StartError};

fn b(s: &str) -> Vec<u8> {
    s.as_bytes().to_vec()
}

fn args(words: &[&str]) -> Vec<Vec<u8>> {
    words.iter().map(|w| b(w)).collect()
}

#[test]
fn the_options_have_defaults() {
    assert_eq!(
        Cli::new(&args(&["server"])),
        Ok(Cli {
            listening_port: Some(6379),
            bind_address: Some(b("127.0.0.1")),
            dir_name: None,
            db_filename: None,
            replicaof: None,
        })
    );
    assert_eq!(Cli::new(&vec![]).unwrap().listening_port, Some(6379));
}

#[test]
fn flags_are_read_in_whatever_case() {
    let cli = Cli::new(&args(&[
        "server",
        "--PORT",
        "6380",
        "--Dir",
        "/tmp/redis-files",
        "--dbfilename",
        "dump.rdb",
        "--replicaof",
        "localhost 6379",
        "--bind",
        "0.0.0.0",
        "stray",
    ]))
    .unwrap();
    assert_eq!(
        cli,
        Cli {
            listening_port: Some(6380),
            bind_address: Some(b("0.0.0.0")),
            dir_name: Some(b("/tmp/redis-files")),
            db_filename: Some(b("dump.rdb")),
            replicaof: Some(b("localhost 6379")),
        }
    );
}

#[test]
fn a_port_must_be_a_port() {
    assert_eq!(Cli::new(&args(&["--port", "http"])), Err(CliError::InvalidPort));
    assert_eq!(Cli::new(&args(&["--port", "65536"])), Err(CliError::InvalidPort));
    assert_eq!(Cli::new(&args(&["--port", "-1"])), Err(CliError::InvalidPort));
    assert_eq!(Cli::new(&args(&["--port", "65535"])).unwrap().listening_port, Some(65535));
    assert_eq!(Cli::new(&args(&["--port", "1", "--port"])).unwrap().listening_port, Some(6379));
    assert_eq!(Cli::new(&args(&["--port", "1", "--port", "2"])).unwrap().listening_port, Some(2));
}

#[test]
fn a_flag_takes_the_argument_behind_it() {
    let cli = Cli::new(&args(&["--dir", "--port", "7"])).unwrap();
    assert_eq!(cli.dir_name, Some(b("--port")));
    assert_eq!(cli.listening_port, Some(6379));
    let cli = Cli::new(&args(&["--dir"])).unwrap();
    assert_eq!(cli.dir_name, None);
}

#[test]
fn the_configuration_keeps_the_first_value_of_a_name() {
    let mut config = GlobalConfig::new();
    assert!(!config.contains(b"dir"));
    assert_eq!(config.get_val(b"dir"), None);
    config.push((b("dir"), b("/a")));
    config.push((b("dbfilename"), b("dump.rdb")));
    config.push((b("dir"), b("/b")));
    assert!(config.contains(b"dir"));
    assert_eq!(config.get_val(b"dir"), Some(&b("/a")));
    assert_eq!(config.get_val(b"dbfilename"), Some(&b("dump.rdb")));
    assert_eq!(config.get_val(b"DIR"), None);
}

#[test]
fn a_leader_takes_its_defaults() {
    let leader = Leader::new(None, None, None, None);
    assert_eq!(leader.bind_address, b("127.0.0.1"));
    assert_eq!(leader.listening_port, 6379);
    assert!(!leader.has_snapshot());
    let leader = Leader::new(Some(b("::1")), Some(7000), Some(b("/d")), Some(b("f")));
    assert_eq!(leader.bind_address, b("::1"));
    assert_eq!(leader.listening_port, 7000);
    assert!(leader.has_snapshot());
    assert!(!Leader::new(None, None, Some(b("/d")), None).has_snapshot());
}

#[test]
fn starting_notes_the_options_and_picks_the_role() {
    let mut config = GlobalConfig::new();
    let instance = start_server(
        &mut config,
        Some(b("127.0.0.1")),
        Some(6379),
        Some(b("/tmp")),
        Some(b("dump.rdb")),
        None,
    )
    .unwrap();
    match instance {
        Instance::Leader(leader) => {
            assert_eq!(leader.listening_port, 6379);
            assert_eq!(leader.dir_name, Some(b("/tmp")));
            assert_eq!(leader.dbfilename, Some(b("dump.rdb")));
        }
        other => panic!("{:?}", other),
    }
    assert_eq!(config.get_val(b"bind_address"), Some(&b("127.0.0.1")));
    assert_eq!(config.get_val(b"listening_port"), Some(&b("6379")));
    assert_eq!(config.get_val(b"dir"), Some(&b("/tmp")));
    assert_eq!(config.get_val(b"dbfilename"), Some(&b("dump.rdb")));
    assert_eq!(config.get_val(b"LEADER"), None);
}

#[test]
fn replicaof_makes_a_follower() {
    let mut config = GlobalConfig::new();
    let instance =
        start_server(&mut config, None, Some(6380), None, None, Some(b("localhost 6379"))).unwrap();
    match instance {
        Instance::Follower(f) => {
            assert_eq!(f.leader_addr, b("localhost:6379"));
            assert_eq!(f.listening_port, 6380);
            assert_eq!(f.bind_address, b("127.0.0.1"));
        }
        other => panic!("{:?}", other),
    }
    assert_eq!(config.get_val(b"LEADER"), Some(&b("localhost:6379")));
    assert_eq!(config.get_val(b"bind_address"), None);
    assert_eq!(config.get_val(b"listening_port"), Some(&b("6380")));
}

#[test]
fn starting_reports_its_errors() {
    for text in ["localhost", "a b c", "", "   "] {
        let mut config = GlobalConfig::new();
        assert_eq!(
            start_server(&mut config, None, Some(1), None, None, Some(b(text))).err(),
            Some(StartError::LeaderAddress),
            "{:?}",
            text
        );
        assert_eq!(config.get_val(b"LEADER"), None);
    }
    let mut config = GlobalConfig::new();
    assert_eq!(
        start_server(&mut config, None, None, None, None, Some(b("h 1"))).err(),
        Some(StartError::MissingPort)
    );
}

#[test]
fn an_accepted_connection_gets_a_record_and_the_leader_an_id() {
    let leader = Leader::new(None, None, None, None);
    let mut config = GlobalConfig::new();
    let mut state = SharedState::new();
    leader.accept(&mut config, &mut state, 11);
    leader.accept(&mut config, &mut state, 12);
    leader.accept(&mut config, &mut state, 11);
    assert_eq!(state.clients.len(), 2);
    assert_eq!(state.clients[0].addr, 11);
    assert_eq!(state.clients[1].addr, 12);
    let id = config.get_val(b"master_replid").unwrap().clone();
    assert_eq!(id.len(), 40);
    assert!(id.iter().all(|c| c.is_ascii_alphanumeric()));
    assert_eq!(config.get_val(b"master_repl_offset"), Some(&b("0")));
    config.push((b("marker"), b("1")));
    leader.accept(&mut config, &mut state, 14);
    config.push((b("master_replid"), b("later")));
    assert_eq!(config.get_val(b"master_replid"), Some(&id));
    let mut other = GlobalConfig::new();
    leader.accept(&mut other, &mut state, 13);
    assert_ne!(other.get_val(b"master_replid"), Some(&id));
}

#[test]
fn requests_and_responses_are_plain_values() {
    let r = Request::SetKey("k".to_string(), "v".to_string());
    assert_eq!(format!("{:?}", r), "SetKey(\"k\", \"v\")");
    assert_eq!(format!("{:?}", Request::Get("k".to_string())), "Get(\"k\")");
    assert_eq!(format!("{:?}", Request::Delete("k".to_string())), "Delete(\"k\")");
    assert_eq!(format!("{:?}", Response::Value(None)), "Value(None)");
    assert_eq!(format!("{:?}", Response::Acknowledged), "Acknowledged");
    assert_eq!(format!("{:?}", Response::Error("e".to_string())), "Error(\"e\")");
}
