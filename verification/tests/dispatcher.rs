use redis_starter_rust::cmds::{Command, Get, SetCmd};
use redis_starter_rust::connection::{
    full_resync_reply, getack_request, info_report, process_socket_read, stage_after, Action,
    Connection, Env, HandshakeStage, Processed, Reply,
};
use redis_starter_rust::database::{Client, Peer, SharedState};
use redis_starter_rust::global::GlobalConfig;
use redis_starter_rust::rdb::empty_rdb;
use redis_starter_rust::resp::{command_bytes, RespError};

const REPLID: &[u8] = b"8371b4fb1155b71f4a04d3e1bc3e18c4a990aeeb";

fn b(s: &str) -> Vec<u8> {
    s.as_bytes().to_vec()
}

fn cmd(words: &[&str]) -> Vec<u8> {
    command_bytes(&words.iter().map(|w| b(w)).collect())
}

fn leader_config() -> GlobalConfig {
    let mut config = GlobalConfig::new();
    config.push((b("dir"), b("/tmp/redis-files")));
    config.push((b("master_replid"), REPLID.to_vec()));
    config.push((b("master_repl_offset"), b("0")));
    config
}

struct Server {
    state: SharedState,
    config: GlobalConfig,
}

fn server() -> Server {
    Server { state: SharedState::new(), config: leader_config() }
}

fn client(srv: &mut Server, addr: u64) -> Connection {
    srv.state.insert_client(addr, Client::new(addr));
    Connection::new(addr)
}

fn env(now: u64) -> Env {
    Env { now, wall_clock_ms: 1_700_000_000_000 + now as u128 }
}

fn run(srv: &mut Server, conn: &mut Connection, input: &[u8], now: u64) -> Processed {
    process_socket_read(input, &mut srv.state, conn, &srv.config, env(now)).unwrap()
}

fn send(srv: &mut Server, conn: &mut Connection, input: &[u8], now: u64) -> Vec<u8> {
    let p = run(srv, conn, input, now);
    assert_eq!(p.consumed, input.len());
    let mut out = Vec::new();
    for r in p.replies {
        assert_eq!(r.action, Action::Nothing);
        out.extend(r.bytes);
    }
    out
}

fn say(srv: &mut Server, conn: &mut Connection, words: &[&str]) -> Vec<u8> {
    send(srv, conn, &cmd(words), 0)
}

fn handshake(srv: &mut Server, addr: u64) -> Connection {
    let mut conn = client(srv, addr);
    assert_eq!(say(srv, &mut conn, &["PING"]), b("+PONG\r\n"));
    assert_eq!(say(srv, &mut conn, &["REPLCONF", "listening-port", "6380"]), b("+OK\r\n"));
    assert_eq!(say(srv, &mut conn, &["REPLCONF", "capa", "psync2"]), b("+OK\r\n"));
    let reply = say(srv, &mut conn, &["PSYNC", "?", "-1"]);
    assert!(reply.starts_with(b"+FULLRESYNC "));
    conn
}

#[test]
fn scenario_ping() {
    let mut srv = server();
    let mut conn = client(&mut srv, 1);
    assert_eq!(send(&mut srv, &mut conn, b"*1\r\n$4\r\nPING\r\n", 0), b("+PONG\r\n"));
    assert_eq!(say(&mut srv, &mut conn, &["PING", "hi there"]), b("+hi there\r\n"));
}

#[test]
fn scenario_set_then_get() {
    let mut srv = server();
    let mut conn = client(&mut srv, 1);
    assert_eq!(
        send(&mut srv, &mut conn, b"*3\r\n$3\r\nSET\r\n$3\r\nfoo\r\n$3\r\nbar\r\n", 0),
        b("+OK\r\n")
    );
    assert_eq!(
        send(&mut srv, &mut conn, b"*2\r\n$3\r\nGET\r\n$3\r\nfoo\r\n", 0),
        b("$3\r\nbar\r\n")
    );
    assert_eq!(say(&mut srv, &mut conn, &["GET", "nothing"]), b("$-1\r\n"));
}

#[test]
fn scenario_incr_of_a_new_key() {
    let mut srv = server();
    let mut conn = client(&mut srv, 1);
    assert_eq!(send(&mut srv, &mut conn, b"*2\r\n$4\r\nINCR\r\n$1\r\nc\r\n", 0), b(":1\r\n"));
    assert_eq!(send(&mut srv, &mut conn, b"*2\r\n$4\r\nINCR\r\n$1\r\nc\r\n", 0), b(":2\r\n"));
    assert_eq!(say(&mut srv, &mut conn, &["GET", "c"]), b("$1\r\n2\r\n"));
}

#[test]
fn scenario_exec_runs_the_queue_in_order() {
    let mut srv = server();
    let mut conn = client(&mut srv, 1);
    assert_eq!(say(&mut srv, &mut conn, &["MULTI"]), b("+OK\r\n"));
    assert_eq!(say(&mut srv, &mut conn, &["SET", "k", "1"]), b("+QUEUED\r\n"));
    assert_eq!(say(&mut srv, &mut conn, &["INCR", "k"]), b("+QUEUED\r\n"));
    assert_eq!(say(&mut srv, &mut conn, &["EXEC"]), b("*2\r\n+OK\r\n:2\r\n"));
    assert_eq!(say(&mut srv, &mut conn, &["GET", "k"]), b("$1\r\n2\r\n"));
}

#[test]
fn scenario_xadd_then_xrange() {
    let mut srv = server();
    let mut conn = client(&mut srv, 1);
    assert_eq!(say(&mut srv, &mut conn, &["XADD", "s", "1-1", "f", "v"]), b("$3\r\n1-1\r\n"));
    assert_eq!(
        say(&mut srv, &mut conn, &["XADD", "s", "1-1", "f", "v"]),
        b("-ERR The ID specified in XADD is equal or smaller than the target stream top item\r\n")
    );
    assert_eq!(
        say(&mut srv, &mut conn, &["XRANGE", "s", "-", "+"]),
        b("*1\r\n*2\r\n$3\r\n1-1\r\n*2\r\n$1\r\nf\r\n$1\r\nv\r\n")
    );
}

#[test]
fn scenario_replication_handshake() {
    let mut srv = server();
    let mut follower = client(&mut srv, 7);
    assert_eq!(say(&mut srv, &mut follower, &["PING"]), b("+PONG\r\n"));
    assert_eq!(follower.stage, HandshakeStage::SawPing);
    assert_eq!(say(&mut srv, &mut follower, &["REPLCONF", "listening-port", "6380"]), b("+OK\r\n"));
    assert_eq!(follower.stage, HandshakeStage::SawPort);
    assert_eq!(say(&mut srv, &mut follower, &["REPLCONF", "capa", "psync2"]), b("+OK\r\n"));
    assert_eq!(follower.stage, HandshakeStage::SawCapa);
    assert_eq!(srv.state.peers.len(), 0);
    let reply = say(&mut srv, &mut follower, &["PSYNC", "?", "-1"]);
    let mut expected = b("+FULLRESYNC 8371b4fb1155b71f4a04d3e1bc3e18c4a990aeeb 0\r\n$88\r\n");
    assert_eq!(expected.len(), 56 + 5);
    expected.extend(empty_rdb());
    assert_eq!(reply, expected);
    assert_eq!(follower.stage, HandshakeStage::Identified);
    assert_eq!(srv.state.peers.len(), 1);
    assert_eq!(srv.state.peers[0].addr, 7);
    assert!(srv.state.clients.iter().all(|c| c.addr != 7));

    let mut other = client(&mut srv, 8);
    let set = b"*3\r\n$3\r\nSET\r\n$3\r\nfoo\r\n$3\r\nbar\r\n";
    assert_eq!(send(&mut srv, &mut other, set, 0), b("+OK\r\n"));
    assert_eq!(srv.state.take_outbound(7), vec![set.to_vec()]);
    assert_eq!(srv.state.take_outbound(7), Vec::<Vec<u8>>::new());
}

#[test]
fn any_deviation_leaves_a_normal_client() {
    let mut srv = server();
    let mut conn = client(&mut srv, 7);
    say(&mut srv, &mut conn, &["PING"]);
    say(&mut srv, &mut conn, &["REPLCONF", "listening-port", "6380"]);
    say(&mut srv, &mut conn, &["GET", "x"]);
    assert_eq!(conn.stage, HandshakeStage::Normal);
    say(&mut srv, &mut conn, &["REPLCONF", "capa", "psync2"]);
    let reply = say(&mut srv, &mut conn, &["PSYNC", "?", "-1"]);
    assert!(reply.starts_with(b"+FULLRESYNC "));
    assert_eq!(conn.stage, HandshakeStage::Normal);
    assert_eq!(srv.state.peers.len(), 0);
    assert_eq!(srv.state.clients.len(), 1);

    let mut again = handshake(&mut srv, 9);
    assert_eq!(again.stage, HandshakeStage::Identified);
    say(&mut srv, &mut again, &["GET", "x"]);
    assert_eq!(again.stage, HandshakeStage::Identified);
}

#[test]
fn the_stage_follows_the_exact_sequence() {
    let ping = Command::Get(Get { key: b("k") });
    assert_eq!(stage_after(HandshakeStage::SawCapa, &ping), HandshakeStage::Normal);
    assert_eq!(stage_after(HandshakeStage::Identified, &ping), HandshakeStage::Identified);
    let mut srv = server();
    let mut conn = client(&mut srv, 7);
    say(&mut srv, &mut conn, &["REPLCONF", "listening-port", "6380"]);
    assert_eq!(conn.stage, HandshakeStage::Normal);
    say(&mut srv, &mut conn, &["PING"]);
    say(&mut srv, &mut conn, &["PING"]);
    assert_eq!(conn.stage, HandshakeStage::SawPing);
    say(&mut srv, &mut conn, &["REPLCONF", "listening-port", "http"]);
    assert_eq!(conn.stage, HandshakeStage::Normal);
    say(&mut srv, &mut conn, &["PING"]);
    say(&mut srv, &mut conn, &["REPLCONF", "listening-port", "6380"]);
    say(&mut srv, &mut conn, &["REPLCONF", "capa", "eof"]);
    assert_eq!(conn.stage, HandshakeStage::Normal);
    say(&mut srv, &mut conn, &["NOSUCH"]);
    assert_eq!(conn.stage, HandshakeStage::Normal);
}

#[test]
fn a_value_expires_after_its_time() {
    let mut srv = server();
    let mut conn = client(&mut srv, 1);
    assert_eq!(send(&mut srv, &mut conn, &cmd(&["SET", "k", "v", "PX", "100"]), 1000), b("+OK\r\n"));
    assert_eq!(send(&mut srv, &mut conn, &cmd(&["GET", "k"]), 1099), b("$1\r\nv\r\n"));
    assert_eq!(send(&mut srv, &mut conn, &cmd(&["GET", "k"]), 1101), b("$-1\r\n"));
    assert_eq!(send(&mut srv, &mut conn, &cmd(&["SET", "k", "v", "EX", "2"]), 5000), b("+OK\r\n"));
    assert_eq!(send(&mut srv, &mut conn, &cmd(&["GET", "k"]), 6999), b("$1\r\nv\r\n"));
    assert_eq!(send(&mut srv, &mut conn, &cmd(&["GET", "k"]), 7001), b("$-1\r\n"));
}

#[test]
fn incr_wants_an_integer_with_room() {
    let mut srv = server();
    let mut conn = client(&mut srv, 1);
    say(&mut srv, &mut conn, &["SET", "k", "abc"]);
    assert_eq!(
        say(&mut srv, &mut conn, &["INCR", "k"]),
        b("-ERR value is not an integer or out of range\r\n")
    );
    assert_eq!(say(&mut srv, &mut conn, &["GET", "k"]), b("$3\r\nabc\r\n"));
    say(&mut srv, &mut conn, &["SET", "m", "9223372036854775807"]);
    assert_eq!(
        say(&mut srv, &mut conn, &["INCR", "m"]),
        b("-ERR value is not an integer or out of range\r\n")
    );
    say(&mut srv, &mut conn, &["SET", "n", "-5"]);
    assert_eq!(say(&mut srv, &mut conn, &["INCR", "n"]), b(":-4\r\n"));
    assert_eq!(send(&mut srv, &mut conn, &cmd(&["SET", "t", "7", "PX", "10"]), 0), b("+OK\r\n"));
    assert_eq!(send(&mut srv, &mut conn, &cmd(&["INCR", "t"]), 5), b(":8\r\n"));
    assert_eq!(send(&mut srv, &mut conn, &cmd(&["GET", "t"]), 1000), b("$1\r\n8\r\n"));
    assert_eq!(send(&mut srv, &mut conn, &cmd(&["SET", "u", "7", "PX", "10"]), 0), b("+OK\r\n"));
    assert_eq!(send(&mut srv, &mut conn, &cmd(&["INCR", "u"]), 11), b(":1\r\n"));
}

#[test]
fn queued_writes_are_invisible_until_exec() {
    let mut srv = server();
    let mut a = client(&mut srv, 1);
    let mut other = client(&mut srv, 2);
    let _follower = handshake(&mut srv, 3);
    say(&mut srv, &mut a, &["SET", "k", "old"]);
    srv.state.take_outbound(3);
    assert_eq!(say(&mut srv, &mut a, &["MULTI"]), b("+OK\r\n"));
    assert_eq!(say(&mut srv, &mut a, &["SET", "k", "new"]), b("+QUEUED\r\n"));
    assert_eq!(say(&mut srv, &mut a, &["GET", "k"]), b("+QUEUED\r\n"));
    assert_eq!(say(&mut srv, &mut other, &["GET", "k"]), b("$3\r\nold\r\n"));
    assert_eq!(srv.state.take_outbound(3), Vec::<Vec<u8>>::new());
    assert_eq!(say(&mut srv, &mut a, &["EXEC"]), b("*2\r\n+OK\r\n$3\r\nnew\r\n"));
    assert_eq!(say(&mut srv, &mut other, &["GET", "k"]), b("$3\r\nnew\r\n"));
    assert_eq!(srv.state.take_outbound(3), vec![cmd(&["SET", "k", "new"])]);
    assert_eq!(say(&mut srv, &mut a, &["SET", "k", "again"]), b("+OK\r\n"));
}

#[test]
fn discard_drops_the_queue() {
    let mut srv = server();
    let mut a = client(&mut srv, 1);
    say(&mut srv, &mut a, &["SET", "k", "old"]);
    say(&mut srv, &mut a, &["MULTI"]);
    assert_eq!(say(&mut srv, &mut a, &["SET", "k", "new"]), b("+QUEUED\r\n"));
    assert_eq!(say(&mut srv, &mut a, &["DISCARD"]), b("+OK\r\n"));
    assert_eq!(say(&mut srv, &mut a, &["GET", "k"]), b("$3\r\nold\r\n"));
    assert_eq!(say(&mut srv, &mut a, &["EXEC"]), b("-ERR EXEC without MULTI\r\n"));
    assert_eq!(say(&mut srv, &mut a, &["DISCARD"]), b("-ERR DISCARD without MULTI\r\n"));
}

#[test]
fn an_empty_transaction_answers_an_empty_array() {
    let mut srv = server();
    let mut a = client(&mut srv, 1);
    say(&mut srv, &mut a, &["MULTI"]);
    assert_eq!(say(&mut srv, &mut a, &["EXEC"]), b("*0\r\n"));
    assert_eq!(say(&mut srv, &mut a, &["EXEC"]), b("-ERR EXEC without MULTI\r\n"));
}

#[test]
fn transactions_belong_to_their_connection() {
    let mut srv = server();
    let mut a = client(&mut srv, 1);
    let mut other = client(&mut srv, 2);
    say(&mut srv, &mut a, &["MULTI"]);
    assert_eq!(say(&mut srv, &mut other, &["SET", "k", "v"]), b("+OK\r\n"));
    assert_eq!(say(&mut srv, &mut other, &["EXEC"]), b("-ERR EXEC without MULTI\r\n"));
    assert_eq!(say(&mut srv, &mut a, &["INCR", "n"]), b("+QUEUED\r\n"));
    assert_eq!(say(&mut srv, &mut a, &["PING"]), b("+PONG\r\n"));
    assert_eq!(say(&mut srv, &mut a, &["EXEC"]), b("*1\r\n:1\r\n"));
}

#[test]
fn a_failed_incr_in_a_transaction_is_answered_in_its_place() {
    let mut srv = server();
    let mut a = client(&mut srv, 1);
    say(&mut srv, &mut a, &["SET", "k", "abc"]);
    say(&mut srv, &mut a, &["MULTI"]);
    say(&mut srv, &mut a, &["INCR", "k"]);
    say(&mut srv, &mut a, &["INCR", "n"]);
    assert_eq!(
        say(&mut srv, &mut a, &["EXEC"]),
        b("*2\r\n-ERR value is not an integer or out of range\r\n:1\r\n")
    );
}

#[test]
fn command_errors_leave_the_connection_open() {
    let mut srv = server();
    let mut conn = client(&mut srv, 1);
    assert_eq!(say(&mut srv, &mut conn, &["FLUSHALL"]), b("-ERR Command Not Supported\r\n"));
    assert_eq!(
        say(&mut srv, &mut conn, &["GET"]),
        b("-ERR wrong number of arguments for 'get' command\r\n")
    );
    assert_eq!(say(&mut srv, &mut conn, &["SET", "k", "v", "NX"]), b("-ERR syntax error\r\n"));
    assert_eq!(
        say(&mut srv, &mut conn, &["CONFIG", "SET", "a"]),
        b("-ERR Unknown subcommand 'SET'\r\n")
    );
    assert_eq!(
        say(&mut srv, &mut conn, &["SET", "k", "v", "PX", "x"]),
        b("-ERR Not a valid type for the command 'set'\r\n")
    );
    assert_eq!(
        send(&mut srv, &mut conn, b"*1\r\n$4\r\nECHO\r\n", 0),
        b("-ERR wrong number of arguments for 'echo' command\r\n")
    );
    assert_eq!(say(&mut srv, &mut conn, &["PING"]), b("+PONG\r\n"));
}

#[test]
fn framing_errors_end_the_round_with_nothing_done() {
    let mut srv = server();
    let mut conn = client(&mut srv, 1);
    let mut input = cmd(&["SET", "k", "v"]);
    input.extend(b"*2\r\n$3\r\nGET\r\n");
    assert_eq!(
        process_socket_read(&input, &mut srv.state, &mut conn, &srv.config, env(0)),
        Err(RespError::Invalid)
    );
    assert_eq!(say(&mut srv, &mut conn, &["GET", "k"]), b("$-1\r\n"));
    let mut input = cmd(&["SET", "k", "v"]);
    input.extend(b"+OK\r\n");
    assert_eq!(
        process_socket_read(&input, &mut srv.state, &mut conn, &srv.config, env(0)),
        Err(RespError::Invalid)
    );
    assert_eq!(say(&mut srv, &mut conn, &["GET", "k"]), b("$-1\r\n"));
    assert_eq!(
        process_socket_read(b"", &mut srv.state, &mut conn, &srv.config, env(0)),
        Ok(Processed { replies: vec![], consumed: 0 })
    );
}

#[test]
fn pipelined_commands_are_answered_in_order() {
    let mut srv = server();
    let mut conn = client(&mut srv, 1);
    let mut input = cmd(&["SET", "k", "1"]);
    input.extend(cmd(&["INCR", "k"]));
    input.extend(cmd(&["GET", "k"]));
    let p = run(&mut srv, &mut conn, &input, 0);
    assert_eq!(
        p.replies,
        vec![
            Reply { bytes: b("+OK\r\n"), action: Action::Nothing },
            Reply { bytes: b(":2\r\n"), action: Action::Nothing },
            Reply { bytes: b("$1\r\n2\r\n"), action: Action::Nothing },
        ]
    );
    assert_eq!(p.consumed, input.len());
}

#[test]
fn each_write_goes_to_the_followers_in_its_own_bytes() {
    let mut srv = server();
    let mut conn = client(&mut srv, 1);
    let _f1 = handshake(&mut srv, 2);
    let _f2 = handshake(&mut srv, 3);
    let a = cmd(&["SET", "a", "1"]);
    let bb = cmd(&["INCR", "a"]);
    let c = cmd(&["set", "b", "2", "px", "10"]);
    let mut input = a.clone();
    input.extend(cmd(&["GET", "a"]));
    input.extend(bb.clone());
    send(&mut srv, &mut conn, &input, 0);
    send(&mut srv, &mut conn, &c, 0);
    let expected = vec![a, bb, c];
    assert_eq!(srv.state.peers[0].bytes_sent, expected.iter().map(|m| m.len()).sum::<usize>());
    assert_eq!(srv.state.take_outbound(2), expected);
    assert_eq!(srv.state.take_outbound(3), expected);
}

#[test]
fn wait_without_a_count_answers_at_once() {
    let mut srv = server();
    let mut conn = client(&mut srv, 1);
    assert_eq!(say(&mut srv, &mut conn, &["WAIT", "0", "60000"]), b(":0\r\n"));
    let _f1 = handshake(&mut srv, 2);
    let _f2 = handshake(&mut srv, 3);
    assert_eq!(say(&mut srv, &mut conn, &["WAIT", "0", "60000"]), b(":2\r\n"));
    assert_eq!(srv.state.take_outbound(2), Vec::<Vec<u8>>::new());
}

#[test]
fn wait_asks_for_acknowledgements_and_counts_them() {
    let mut srv = server();
    let mut conn = client(&mut srv, 1);
    let mut f1 = handshake(&mut srv, 2);
    let _f2 = handshake(&mut srv, 3);
    let set = cmd(&["SET", "k", "v"]);
    send(&mut srv, &mut conn, &set, 0);
    let mut input = cmd(&["WAIT", "1", "500"]);
    input.extend(cmd(&["PING"]));
    let p = run(&mut srv, &mut conn, &input, 0);
    assert_eq!(p.replies, vec![Reply { bytes: vec![], action: Action::Sleep { timeout: 500 } }]);
    assert_eq!(p.consumed, cmd(&["WAIT", "1", "500"]).len());
    let getack = b("*3\r\n$8\r\nREPLCONF\r\n$6\r\nGETACK\r\n$1\r\n*\r\n");
    assert_eq!(getack.len(), 37);
    assert_eq!(getack_request(), getack);
    assert_eq!(srv.state.take_outbound(2), vec![set.clone(), getack.clone()]);
    assert_eq!(srv.state.wait_finish(), b(":0\r\n"));
    let ack = cmd(&["REPLCONF", "ACK", &set.len().to_string()]);
    assert_eq!(send(&mut srv, &mut f1, &ack, 0), Vec::<u8>::new());
    assert_eq!(srv.state.peers[0].bytes_written, set.len());
    assert_eq!(srv.state.peers[0].bytes_sent, set.len() + 37);
    assert_eq!(srv.state.wait_finish(), b(":1\r\n"));
    assert_eq!(send(&mut srv, &mut conn, &input[p.consumed..], 0), b("+PONG\r\n"));
}

#[test]
fn wait_counts_every_follower_where_nothing_was_written() {
    let mut srv = server();
    let mut conn = client(&mut srv, 1);
    let _f1 = handshake(&mut srv, 2);
    let _f2 = handshake(&mut srv, 3);
    let p = run(&mut srv, &mut conn, &cmd(&["WAIT", "3", "10"]), 0);
    assert_eq!(p.replies[0].action, Action::Sleep { timeout: 10 });
    assert_eq!(srv.state.count_peers_commands_processed(), 0);
    assert_eq!(srv.state.wait_finish(), b(":2\r\n"));
}

#[test]
fn a_follower_record_keeps_the_last_ten_writes() {
    let mut peer = Peer::new(5);
    for i in 0..12 {
        peer.send(format!("write {}", i).as_bytes());
    }
    peer.send(b"*3\r\n$8\r\nREPLCONF\r\n$6\r\nGetAck\r\n$1\r\n*\r\n");
    let recent: Vec<Vec<u8>> = peer.commands_processed.iter().cloned().collect();
    let expected: Vec<Vec<u8>> = (2..12).map(|i| format!("write {}", i).into_bytes()).collect();
    assert_eq!(recent, expected);
    assert_eq!(peer.sender.len(), 13);
    assert_eq!(peer.bytes_sent, 10 * 7 + 2 * 8 + 37);
}

#[test]
fn the_count_of_bytes_sent_wraps() {
    let mut peer = Peer::new(5);
    peer.bytes_sent = usize::MAX - 1;
    peer.send(b"abc");
    assert_eq!(peer.bytes_sent, 1);
    let mut state = SharedState::new();
    state.insert_peer(5, peer);
    state.update_peers_bytes_written(5, usize::MAX - 1);
    assert_eq!(state.verify_peers_propagation(3), 1);
    assert_eq!(state.verify_peers_propagation(2), 0);
}

#[test]
fn a_connection_is_recorded_once() {
    let mut state = SharedState::new();
    state.insert_client(1, Client::new(1));
    let mut second = Client::new(1);
    second.multi_lock = true;
    state.insert_client(1, second);
    assert_eq!(state.clients.len(), 1);
    assert!(!state.clients[0].multi_lock);
    state.insert_peer(4, Peer::new(9));
    state.insert_peer(4, Peer::new(4));
    assert_eq!(state.peers.len(), 1);
    assert_eq!(state.peers[0].addr, 4);
    assert_eq!(state.peer_index(4), Some(0));
    assert_eq!(state.client_index(4), None);
    state.disconnect(4);
    state.disconnect(1);
    state.disconnect(99);
    assert_eq!(state.peers.len(), 0);
    assert_eq!(state.clients.len(), 0);
}

#[test]
fn type_names_the_store_of_a_key() {
    let mut srv = server();
    let mut conn = client(&mut srv, 1);
    say(&mut srv, &mut conn, &["SET", "k", "v"]);
    say(&mut srv, &mut conn, &["XADD", "s", "1-1", "f", "v"]);
    assert_eq!(say(&mut srv, &mut conn, &["TYPE", "k"]), b("+string\r\n"));
    assert_eq!(say(&mut srv, &mut conn, &["TYPE", "s"]), b("+stream\r\n"));
    assert_eq!(say(&mut srv, &mut conn, &["TYPE", "nothing"]), b("+none\r\n"));
    assert_eq!(send(&mut srv, &mut conn, &cmd(&["SET", "t", "v", "PX", "1"]), 0), b("+OK\r\n"));
    assert_eq!(send(&mut srv, &mut conn, &cmd(&["TYPE", "t"]), 5), b("+none\r\n"));
}

#[test]
fn keys_lists_every_key_once() {
    let mut srv = server();
    let mut conn = client(&mut srv, 1);
    assert_eq!(say(&mut srv, &mut conn, &["KEYS", "*"]), b("*0\r\n"));
    say(&mut srv, &mut conn, &["SET", "foo", "1"]);
    say(&mut srv, &mut conn, &["SET", "ba", "2"]);
    say(&mut srv, &mut conn, &["SET", "foo", "3"]);
    assert_eq!(say(&mut srv, &mut conn, &["KEYS", "*"]), b("*2\r\n$3\r\nfoo\r\n$2\r\nba\r\n"));
}

#[test]
fn config_get_answers_name_and_value() {
    let mut srv = server();
    let mut conn = client(&mut srv, 1);
    assert_eq!(
        say(&mut srv, &mut conn, &["CONFIG", "GET", "dir"]),
        b("*2\r\n$3\r\ndir\r\n$16\r\n/tmp/redis-files\r\n")
    );
    assert_eq!(say(&mut srv, &mut conn, &["CONFIG", "GET", "nothing"]), Vec::<u8>::new());
}

#[test]
fn info_reports_the_role() {
    let mut srv = server();
    let mut conn = client(&mut srv, 1);
    let text = "role:master\r\nmaster_replid:8371b4fb1155b71f4a04d3e1bc3e18c4a990aeeb\r\nmaster_repl_offset:0";
    assert_eq!(info_report(&srv.config), b(text));
    assert_eq!(
        say(&mut srv, &mut conn, &["INFO", "replication"]),
        format!("${}\r\n{}\r\n", text.len(), text).into_bytes()
    );
    assert_eq!(
        say(&mut srv, &mut conn, &["INFO"]),
        format!("${}\r\n{}\r\n", text.len(), text).into_bytes()
    );
    srv.config.push((b("LEADER"), b("localhost:6379")));
    assert_eq!(say(&mut srv, &mut conn, &["INFO", "replication"]), b("$10\r\nrole:slave\r\n"));
    let bare = GlobalConfig::new();
    assert_eq!(info_report(&bare), b("role:master\r\nmaster_replid:\r\nmaster_repl_offset:"));
    assert_eq!(full_resync_reply(&bare)[..17].to_vec(), b("+FULLRESYNC  0\r\n$"));
}

#[test]
fn save_leaves_the_snapshot_to_the_caller() {
    let mut srv = server();
    let mut conn = client(&mut srv, 1);
    let mut input = cmd(&["SAVE"]);
    input.extend(cmd(&["PING"]));
    let p = run(&mut srv, &mut conn, &input, 0);
    assert_eq!(p.replies, vec![Reply { bytes: b("+OK\r\n"), action: Action::Save }]);
    assert_eq!(p.consumed, cmd(&["SAVE"]).len());
}

#[test]
fn replconf_is_answered_where_it_is_understood() {
    let mut srv = server();
    let mut conn = client(&mut srv, 1);
    assert_eq!(say(&mut srv, &mut conn, &["REPLCONF", "capa", "psync2"]), b("+OK\r\n"));
    assert_eq!(say(&mut srv, &mut conn, &["REPLCONF", "capa", "eof"]), Vec::<u8>::new());
    assert_eq!(say(&mut srv, &mut conn, &["REPLCONF", "capa"]), Vec::<u8>::new());
    assert_eq!(say(&mut srv, &mut conn, &["REPLCONF", "listening-port", "70000"]), Vec::<u8>::new());
    assert_eq!(say(&mut srv, &mut conn, &["REPLCONF", "getack", "*"]), Vec::<u8>::new());
    assert_eq!(say(&mut srv, &mut conn, &["PSYNC", "?", "0"]), Vec::<u8>::new());
    assert_eq!(say(&mut srv, &mut conn, &["REPLCONF", "ACK", "5"]), Vec::<u8>::new());
}

#[test]
fn xrange_answers_null_where_nothing_is_found() {
    let mut srv = server();
    let mut conn = client(&mut srv, 1);
    assert_eq!(say(&mut srv, &mut conn, &["XRANGE", "s", "-", "+"]), b("$-1\r\n"));
    say(&mut srv, &mut conn, &["XADD", "s", "5-1", "a", "1", "b", "2"]);
    say(&mut srv, &mut conn, &["XADD", "s", "5-*", "c", "3"]);
    assert_eq!(say(&mut srv, &mut conn, &["XRANGE", "s", "6", "+"]), b("$-1\r\n"));
    assert_eq!(say(&mut srv, &mut conn, &["XRANGE", "s", "x", "+"]), b("$-1\r\n"));
    assert_eq!(
        say(&mut srv, &mut conn, &["XRANGE", "s", "5", "5"]),
        b("*2\r\n*2\r\n$3\r\n5-1\r\n*4\r\n$1\r\na\r\n$1\r\n1\r\n$1\r\nb\r\n$1\r\n2\r\n*2\r\n$3\r\n5-2\r\n*2\r\n$1\r\nc\r\n$1\r\n3\r\n")
    );
}

#[test]
fn xadd_reports_its_errors_and_takes_the_clock() {
    let mut srv = server();
    let mut conn = client(&mut srv, 1);
    assert_eq!(
        say(&mut srv, &mut conn, &["XADD", "s", "0-0", "f", "v"]),
        b("-ERR The ID specified in XADD must be greater than 0-0\r\n")
    );
    assert_eq!(
        say(&mut srv, &mut conn, &["XADD", "s", "soon", "f", "v"]),
        b("-ERR Cannot proess the entry id or it is less than or equal to the last one\r\n")
    );
    assert_eq!(
        send(&mut srv, &mut conn, &cmd(&["XADD", "s", "*", "f", "v"]), 12),
        b("$15\r\n1700000000012-0\r\n")
    );
    assert_eq!(
        send(&mut srv, &mut conn, &cmd(&["XADD", "s", "1700000000012-*", "f", "v"]), 12),
        b("$15\r\n1700000000012-1\r\n")
    );
}

#[test]
fn xread_answers_the_streams_that_have_news() {
    let mut srv = server();
    let mut conn = client(&mut srv, 1);
    say(&mut srv, &mut conn, &["XADD", "s", "1-1", "f", "v"]);
    say(&mut srv, &mut conn, &["XADD", "t", "2-2", "g", "w"]);
    let s = "*2\r\n$1\r\ns\r\n*1\r\n*2\r\n$3\r\n1-1\r\n*2\r\n$1\r\nf\r\n$1\r\nv\r\n";
    let t = "*2\r\n$1\r\nt\r\n*1\r\n*2\r\n$3\r\n2-2\r\n*2\r\n$1\r\ng\r\n$1\r\nw\r\n";
    assert_eq!(
        say(&mut srv, &mut conn, &["XREAD", "streams", "s", "0-0"]),
        format!("*1\r\n{}", s).into_bytes()
    );
    assert_eq!(
        say(&mut srv, &mut conn, &["XREAD", "STREAMS", "s", "t", "0-0", "0"]),
        format!("*2\r\n{}{}", s, t).into_bytes()
    );
    assert_eq!(
        say(&mut srv, &mut conn, &["XREAD", "STREAMS", "s", "t", "1-1", "0"]),
        format!("*1\r\n{}", t).into_bytes()
    );
    assert_eq!(
        say(&mut srv, &mut conn, &["XREAD", "STREAMS", "s", "t", "1-1", "2-2"]),
        b("$-1\r\n")
    );
    assert_eq!(say(&mut srv, &mut conn, &["XREAD", "STREAMS", "none", "0"]), b("$-1\r\n"));
}

#[test]
fn a_blocking_xread_waits_for_news() {
    let mut srv = server();
    let mut conn = client(&mut srv, 1);
    let mut writer = client(&mut srv, 2);
    say(&mut srv, &mut writer, &["XADD", "s", "1-1", "f", "v"]);
    let p = run(&mut srv, &mut conn, &cmd(&["XREAD", "BLOCK", "100", "STREAMS", "s", "$"]), 0);
    assert_eq!(
        p.replies,
        vec![Reply {
            bytes: vec![],
            action: Action::Block { keys: vec![b("s")], entry_ids: vec![b("1-1")], timeout: 100 },
        }]
    );
    let keys = vec![b("s")];
    let ids = vec![b("1-1")];
    assert_eq!(srv.state.xread_resume(&keys, &ids, false), None);
    assert_eq!(srv.state.xread_resume(&keys, &ids, true), Some(b("$-1\r\n")));
    say(&mut srv, &mut writer, &["XADD", "s", "1-2", "g", "w"]);
    let news = b("*1\r\n*2\r\n$1\r\ns\r\n*1\r\n*2\r\n$3\r\n1-2\r\n*2\r\n$1\r\ng\r\n$1\r\nw\r\n");
    assert_eq!(srv.state.xread_resume(&keys, &ids, false), Some(news.clone()));
    assert_eq!(srv.state.xread_resume(&keys, &ids, true), Some(news));
    assert_eq!(
        send(&mut srv, &mut conn, &cmd(&["XREAD", "BLOCK", "0", "STREAMS", "s", "1-1"]), 0),
        b("*1\r\n*2\r\n$1\r\ns\r\n*1\r\n*2\r\n$3\r\n1-2\r\n*2\r\n$1\r\ng\r\n$1\r\nw\r\n")
    );
    let p = run(&mut srv, &mut conn, &cmd(&["XREAD", "BLOCK", "0", "STREAMS", "new", "$"]), 0);
    assert_eq!(
        p.replies[0].action,
        Action::Block { keys: vec![b("new")], entry_ids: vec![b("0-0")], timeout: 0 }
    );
}

#[test]
fn a_read_of_nothing_ends_the_connection() {
    let mut srv = server();
    let mut conn = client(&mut srv, 1);
    assert_eq!(conn.handle(&mut srv.state, 0, b"", &srv.config, env(0)), Ok(None));
    assert_eq!(
        conn.handle(&mut srv.state, 0, b"left over", &srv.config, env(0)),
        Err(RespError::Invalid)
    );
    let mut buffer = cmd(&["PING"]);
    let n = buffer.len();
    buffer.extend(b"stale bytes");
    let p = conn.handle(&mut srv.state, n, &buffer, &srv.config, env(0)).unwrap().unwrap();
    assert_eq!(p.replies, vec![Reply { bytes: b("+PONG\r\n"), action: Action::Nothing }]);
}

#[test]
fn commands_run_without_a_client_record() {
    let mut srv = server();
    let mut conn = Connection::new(42);
    assert_eq!(say(&mut srv, &mut conn, &["MULTI"]), b("+OK\r\n"));
    assert_eq!(say(&mut srv, &mut conn, &["SET", "k", "v"]), b("+OK\r\n"));
    assert_eq!(say(&mut srv, &mut conn, &["EXEC"]), b("-ERR EXEC without MULTI\r\n"));
    assert_eq!(srv.state.clients.len(), 0);
}

#[test]
fn apply_runs_reads_and_writes_of_keys() {
    let mut state = SharedState::new();
    let set = Command::SetCmd(SetCmd { key: b("k"), value: b("v"), expiry: Some(10) });
    assert_eq!(state.apply(&set, b"raw", 100), b("+OK\r\n"));
    let get = Command::Get(Get { key: b("k") });
    assert_eq!(state.apply(&get, b"raw", 110), b("$1\r\nv\r\n"));
    assert_eq!(state.apply(&get, b"raw", 111), b("$-1\r\n"));
    assert_eq!(state.kv_store.get_ht_size(), 0);
}
