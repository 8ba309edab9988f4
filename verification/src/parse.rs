//! From an array of arguments to a command.

use crate::cmds::{
    Command, CommandError, Config, Discard, Echo, Exec, Get, Incr, Info, InfoSubCommand, Keys,
    Multi, Ping, Psync, Replconf, Save, SetCmd, SubCommand, Type, Wait, Xadd, Xrange, Xread,
};
use crate::resp::{views, RespData, RespValue};
use crate::text::{
    byte_seqs, bytes_eq, copy_bytes, i64_to_dec, i64_value, int_digits, is_word, lower_seq,
    nat_value, pair_seqs, parse_i64, parse_u64, to_ascii_lowercase,
};
use vstd::prelude::*;
use vstd::string::StringSliceAdditionalSpecFns;

verus! {

/// The text of an item that can stand as an argument: a bulk string, a
/// simple string, or an integer in its decimal form.
pub open spec fn text_of(v: RespValue) -> Option<Seq<u8>> {
    match v {
        RespValue::BulkStr(b) => Some(b),
        RespValue::String(s) => Some(s),
        RespValue::Integer(n) => Some(int_digits(n as int)),
        _ => None,
    }
}

/// Whether every item can stand as an argument.
pub open spec fn all_text(items: Seq<RespValue>) -> bool {
    forall|i: int| 0 <= i < items.len() ==> (#[trigger] text_of(items[i])) is Some
}

/// The texts of the items.
pub open spec fn texts_of(items: Seq<RespValue>) -> Seq<Seq<u8>> {
    Seq::new(items.len(), |i: int| text_of(items[i]).unwrap())
}

/// The time to live, in milliseconds, that `n` units stand for. A negative
/// count is read as the unsigned number of the same 64 bits; seconds that
/// exceed the range saturate.
pub open spec fn expiry_ms(seconds: bool, n: i64) -> u64 {
    let raw: int = if n >= 0 {
        n as int
    } else {
        n + 0x1_0000_0000_0000_0000
    };
    if seconds && raw * 1000 > u64::MAX {
        u64::MAX
    } else if seconds {
        (raw * 1000) as u64
    } else {
        raw as u64
    }
}

/// Whether the name of the command, case folded, reads `word`.
pub open spec fn named(a: Seq<Seq<u8>>, word: &str) -> bool {
    lower_seq(a[0]) == word.spec_bytes()
}

/// Whether `name`, in lower case, is one of the commands.
pub open spec fn known(name: Seq<u8>) -> bool {
    ||| name == "set".spec_bytes()
    ||| name == "get".spec_bytes()
    ||| name == "incr".spec_bytes()
    ||| name == "ping".spec_bytes()
    ||| name == "echo".spec_bytes()
    ||| name == "exec".spec_bytes()
    ||| name == "multi".spec_bytes()
    ||| name == "discard".spec_bytes()
    ||| name == "config".spec_bytes()
    ||| name == "keys".spec_bytes()
    ||| name == "info".spec_bytes()
    ||| name == "save".spec_bytes()
    ||| name == "replconf".spec_bytes()
    ||| name == "psync".spec_bytes()
    ||| name == "type".spec_bytes()
    ||| name == "wait".spec_bytes()
    ||| name == "xadd".spec_bytes()
    ||| name == "xrange".spec_bytes()
    ||| name == "xread".spec_bytes()
}

/// The name under which a command reports an argument of the wrong kind.
pub open spec fn kind_name(name: Seq<u8>) -> &'static str {
    if name == "set".spec_bytes() {
        "set"
    } else if name == "get".spec_bytes() {
        "get"
    } else if name == "incr".spec_bytes() {
        "INCR"
    } else if name == "ping".spec_bytes() {
        "ping"
    } else if name == "echo".spec_bytes() {
        "echo"
    } else if name == "exec".spec_bytes() {
        "exec"
    } else if name == "multi".spec_bytes() {
        "multi"
    } else if name == "discard".spec_bytes() {
        "discard"
    } else if name == "config".spec_bytes() {
        "config"
    } else if name == "keys".spec_bytes() {
        "KEYS"
    } else if name == "info".spec_bytes() {
        "info"
    } else if name == "save".spec_bytes() {
        "save"
    } else if name == "replconf".spec_bytes() {
        "replconf"
    } else if name == "psync".spec_bytes() {
        "psync"
    } else if name == "type".spec_bytes() {
        "type"
    } else if name == "wait".spec_bytes() {
        "wait"
    } else if name == "xadd".spec_bytes() {
        "XADD"
    } else if name == "xrange".spec_bytes() {
        "XRANGE"
    } else {
        "XREAD"
    }
}

/// Whether `r` is the error `e`.
pub open spec fn fails(r: Result<Command, CommandError>, e: CommandError) -> bool {
    r == Err::<Command, CommandError>(e)
}

/// `SET key value [EX seconds | PX milliseconds]`.
pub open spec fn set_parsed(a: Seq<Seq<u8>>, r: Result<Command, CommandError>) -> bool {
    if a.len() < 3 {
        fails(r, CommandError::WrongNumberOfArguments("set"))
    } else if a.len() == 3 {
        r matches Ok(Command::SetCmd(s)) && s.key@ == a[1] && s.value@ == a[2] && s.expiry is None
    } else if lower_seq(a[3]) != "ex".spec_bytes() && lower_seq(a[3]) != "px".spec_bytes() {
        fails(r, CommandError::SyntaxError("set"))
    } else if a.len() == 4 {
        fails(r, CommandError::SyntaxError("set"))
    } else if i64_value(a[4]) is None {
        fails(r, CommandError::NotValidType("set"))
    } else if a.len() > 5 {
        fails(r, CommandError::SyntaxError("set"))
    } else {
        r matches Ok(Command::SetCmd(s)) && s.key@ == a[1] && s.value@ == a[2] && s.expiry == Some(
            expiry_ms(lower_seq(a[3]) == "ex".spec_bytes(), i64_value(a[4]).unwrap()),
        )
    }
}

/// A command of one key: `GET`, `INCR`, `TYPE`, `KEYS`.
pub open spec fn key_parsed(a: Seq<Seq<u8>>, name: &'static str, r: Result<Command, CommandError>)
    -> bool {
    if a.len() != 2 {
        fails(r, CommandError::WrongNumberOfArguments(name))
    } else if named(a, "get") {
        r matches Ok(Command::Get(g)) && g.key@ == a[1]
    } else if named(a, "incr") {
        r matches Ok(Command::Incr(g)) && g.key@ == a[1]
    } else if named(a, "type") {
        r matches Ok(Command::Type(g)) && g.key@ == a[1]
    } else {
        r matches Ok(Command::Keys(g)) && g.arg@ == a[1]
    }
}

/// `PING [message]` and `ECHO message`.
pub open spec fn ping_parsed(a: Seq<Seq<u8>>, r: Result<Command, CommandError>) -> bool {
    if a.len() > 2 {
        fails(r, CommandError::WrongNumberOfArguments("ping"))
    } else if a.len() == 2 {
        r matches Ok(Command::Ping(p)) && p.value matches Some(m) && m@ == a[1]
    } else {
        r matches Ok(Command::Ping(p)) && p.value is None
    }
}

/// `ECHO message`.
pub open spec fn echo_parsed(a: Seq<Seq<u8>>, r: Result<Command, CommandError>) -> bool {
    if a.len() > 2 {
        fails(r, CommandError::WrongNumberOfArguments("echo"))
    } else if a.len() == 2 {
        r matches Ok(Command::Echo(p)) && p.value matches Some(m) && m@ == a[1]
    } else {
        r matches Ok(Command::Echo(p)) && p.value is None
    }
}

/// `CONFIG GET name`.
pub open spec fn config_parsed(a: Seq<Seq<u8>>, r: Result<Command, CommandError>) -> bool {
    if a.len() < 2 {
        fails(r, CommandError::WrongNumberOfArguments("config"))
    } else if lower_seq(a[1]) != "get".spec_bytes() {
        r matches Err(CommandError::UnknownSubCommand(s)) && s@ == a[1]
    } else if a.len() < 3 {
        fails(r, CommandError::WrongNumberOfArguments("config"))
    } else if a.len() > 3 {
        fails(r, CommandError::SyntaxError("config"))
    } else {
        r matches Ok(Command::Config(c)) && c.sub_command matches SubCommand::Get(p) && p@ == a[2]
    }
}

/// `INFO [section]`.
pub open spec fn info_parsed(a: Seq<Seq<u8>>, r: Result<Command, CommandError>) -> bool {
    if a.len() > 2 {
        fails(r, CommandError::WrongNumberOfArguments("info"))
    } else if a.len() == 2 {
        r matches Ok(Command::Info(i)) && i.sub_command == Some(InfoSubCommand::Replication)
    } else {
        r matches Ok(Command::Info(i)) && i.sub_command is None
    }
}

/// `REPLCONF subcommand [argument]`.
pub open spec fn replconf_parsed(a: Seq<Seq<u8>>, r: Result<Command, CommandError>) -> bool {
    if a.len() < 2 {
        fails(r, CommandError::WrongNumberOfArguments("replconf"))
    } else {
        let sub = lower_seq(a[1]);
        if sub == "listening-port".spec_bytes() {
            if a.len() < 3 || i64_value(a[2]) is None {
                fails(r, CommandError::NotValidType("replconf"))
            } else if a.len() > 3 {
                fails(r, CommandError::WrongNumberOfArguments("replconf"))
            } else {
                r matches Ok(Command::Replconf(c)) && byte_seqs(c.args@) == seq![sub, a[2]]
            }
        } else if sub == "capa".spec_bytes() || sub == "getack".spec_bytes() {
            if a.len() >= 3 {
                r matches Ok(Command::Replconf(c)) && byte_seqs(c.args@) == seq![sub, a[2]]
            } else {
                r matches Ok(Command::Replconf(c)) && byte_seqs(c.args@) == seq![sub]
            }
        } else if sub == "ack".spec_bytes() {
            if a.len() != 3 {
                fails(r, CommandError::WrongNumberOfArguments("replconf"))
            } else if !(nat_value(a[2]) matches Some(n) && n <= u64::MAX) {
                fails(r, CommandError::NotValidType("replconf"))
            } else {
                r matches Ok(Command::Replconf(c)) && byte_seqs(c.args@) == seq![sub, a[2]]
            }
        } else {
            fails(r, CommandError::NotSupported)
        }
    }
}

/// `PSYNC replid offset`.
pub open spec fn psync_parsed(a: Seq<Seq<u8>>, r: Result<Command, CommandError>) -> bool {
    if a.len() > 3 {
        fails(r, CommandError::WrongNumberOfArguments("psync"))
    } else {
        r matches Ok(Command::Psync(c)) && byte_seqs(c.args@) == a.skip(1)
    }
}

/// `WAIT numreplicas timeout`.
pub open spec fn wait_parsed(a: Seq<Seq<u8>>, r: Result<Command, CommandError>) -> bool {
    if a.len() != 3 {
        fails(r, CommandError::WrongNumberOfArguments("wait"))
    } else if !(nat_value(a[1]) matches Some(n) && n <= u64::MAX) || !(nat_value(a[2]) matches Some(
        t,
    ) && t <= u64::MAX) {
        fails(r, CommandError::NotValidType("wait"))
    } else {
        r matches Ok(Command::Wait(w)) && w.numreplicas == nat_value(a[1]).unwrap() && w.timeout
            == nat_value(a[2]).unwrap()
    }
}

/// `XADD key id field value ...`.
pub open spec fn xadd_parsed(a: Seq<Seq<u8>>, r: Result<Command, CommandError>) -> bool {
    if a.len() < 5 || (a.len() - 3) % 2 != 0 {
        fails(r, CommandError::WrongNumberOfArguments("xadd"))
    } else {
        r matches Ok(Command::Xadd(x)) && x.key@ == a[1] && x.entry_id@ == a[2] && pair_seqs(
            x.args@,
        ) == Seq::new(((a.len() - 3) / 2) as nat, |i: int| (a[3 + 2 * i], a[4 + 2 * i]))
    }
}

/// `XRANGE key start end`.
pub open spec fn xrange_parsed(a: Seq<Seq<u8>>, r: Result<Command, CommandError>) -> bool {
    if a.len() != 4 {
        fails(r, CommandError::WrongNumberOfArguments("xrange"))
    } else {
        r matches Ok(Command::Xrange(x)) && x.key@ == a[1] && x.start@ == a[2] && x.end@ == a[3]
    }
}

/// `XREAD [BLOCK milliseconds] STREAMS key ... id ...`, the keys first, then
/// as many ids.
pub open spec fn xread_parsed(a: Seq<Seq<u8>>, r: Result<Command, CommandError>) -> bool {
    if a.len() < 2 {
        fails(r, CommandError::WrongNumberOfArguments("XREAD"))
    } else if lower_seq(a[1]) == "block".spec_bytes() {
        if a.len() < 3 || !(nat_value(a[2]) matches Some(n) && n <= u64::MAX) {
            fails(r, CommandError::NotValidType("XREAD"))
        } else {
            streams_parsed(a, 3, Some(nat_value(a[2]).unwrap() as u64), r)
        }
    } else {
        streams_parsed(a, 1, None, r)
    }
}

/// The part of `XREAD` from the word `STREAMS` on, which stands at `at`.
pub open spec fn streams_parsed(
    a: Seq<Seq<u8>>,
    at: int,
    block: Option<u64>,
    r: Result<Command, CommandError>,
) -> bool {
    if a.len() <= at {
        fails(r, CommandError::WrongNumberOfArguments("XREAD"))
    } else if lower_seq(a[at]) != "streams".spec_bytes() {
        fails(r, CommandError::SyntaxError("XREAD"))
    } else if a.len() == at + 1 || (a.len() - at - 1) % 2 != 0 {
        fails(r, CommandError::WrongNumberOfArguments("XREAD"))
    } else {
        let n = (a.len() - at - 1) / 2;
        r matches Ok(Command::Xread(x)) && x.block == block && byte_seqs(x.keys@) == a.subrange(
            at + 1,
            at + 1 + n,
        ) && byte_seqs(x.entry_ids@) == a.subrange(at + 1 + n, a.len() as int)
    }
}

/// A command without arguments: `EXEC`, `MULTI`, `DISCARD`, `SAVE`.
pub open spec fn bare_parsed(a: Seq<Seq<u8>>, name: &'static str, r: Result<Command, CommandError>)
    -> bool {
    if a.len() > 1 {
        fails(r, CommandError::WrongNumberOfArguments(name))
    } else if named(a, "exec") {
        r == Ok::<Command, CommandError>(Command::Exec(Exec))
    } else if named(a, "multi") {
        r == Ok::<Command, CommandError>(Command::Multi(Multi))
    } else if named(a, "discard") {
        r == Ok::<Command, CommandError>(Command::Discard(Discard))
    } else {
        r == Ok::<Command, CommandError>(Command::Save(Save))
    }
}

/// What the texts `a`, the name first, parse to.
pub open spec fn texts_parsed(a: Seq<Seq<u8>>, r: Result<Command, CommandError>) -> bool {
    if named(a, "set") {
        set_parsed(a, r)
    } else if named(a, "get") {
        key_parsed(a, "get", r)
    } else if named(a, "incr") {
        key_parsed(a, "INCR", r)
    } else if named(a, "ping") {
        ping_parsed(a, r)
    } else if named(a, "echo") {
        echo_parsed(a, r)
    } else if named(a, "exec") {
        bare_parsed(a, "exec", r)
    } else if named(a, "multi") {
        bare_parsed(a, "multi", r)
    } else if named(a, "discard") {
        bare_parsed(a, "discard", r)
    } else if named(a, "config") {
        config_parsed(a, r)
    } else if named(a, "keys") {
        key_parsed(a, "keys", r)
    } else if named(a, "info") {
        info_parsed(a, r)
    } else if named(a, "save") {
        bare_parsed(a, "save", r)
    } else if named(a, "replconf") {
        replconf_parsed(a, r)
    } else if named(a, "psync") {
        psync_parsed(a, r)
    } else if named(a, "type") {
        key_parsed(a, "type", r)
    } else if named(a, "wait") {
        wait_parsed(a, r)
    } else if named(a, "xadd") {
        xadd_parsed(a, r)
    } else if named(a, "xrange") {
        xrange_parsed(a, r)
    } else {
        xread_parsed(a, r)
    }
}

/// What an array of items parses to: `r` is the one result that the rules
/// give. The name is the first item, read without regard to case. An array
/// without a name, or with a name that is no command, is `NotSupported`; an
/// item that is no text makes a known command `NotValidType`.
pub open spec fn command_parsed(items: Seq<RespValue>, r: Result<Command, CommandError>) -> bool {
    if items.len() == 0 || text_of(items[0]) is None {
        fails(r, CommandError::NotSupported)
    } else if !known(lower_seq(text_of(items[0]).unwrap())) {
        fails(r, CommandError::NotSupported)
    } else if !all_text(items) {
        fails(r, CommandError::NotValidType(kind_name(lower_seq(text_of(items[0]).unwrap()))))
    } else {
        texts_parsed(texts_of(items), r)
    }
}

fn item_text(d: &RespData) -> (r: Option<Vec<u8>>)
    ensures
        match r {
            Some(t) => text_of(d@) == Some(t@),
            None => text_of(d@) is None,
        },
{
    match d {
        RespData::BulkStr(b) => Some(copy_bytes(b.as_slice())),
        RespData::String(s) => Some(copy_bytes(s.as_slice())),
        RespData::Integer(n) => Some(i64_to_dec(*n)),
        _ => None,
    }
}

fn is_known(name: &[u8]) -> (r: bool)
    ensures
        r == known(name@),
{
    bytes_eq(name, "set".as_bytes()) || bytes_eq(name, "get".as_bytes()) || bytes_eq(
        name,
        "incr".as_bytes(),
    ) || bytes_eq(name, "ping".as_bytes()) || bytes_eq(name, "echo".as_bytes()) || bytes_eq(
        name,
        "exec".as_bytes(),
    ) || bytes_eq(name, "multi".as_bytes()) || bytes_eq(name, "discard".as_bytes()) || bytes_eq(
        name,
        "config".as_bytes(),
    ) || bytes_eq(name, "keys".as_bytes()) || bytes_eq(name, "info".as_bytes()) || bytes_eq(
        name,
        "save".as_bytes(),
    ) || bytes_eq(name, "replconf".as_bytes()) || bytes_eq(name, "psync".as_bytes()) || bytes_eq(
        name,
        "type".as_bytes(),
    ) || bytes_eq(name, "wait".as_bytes()) || bytes_eq(name, "xadd".as_bytes()) || bytes_eq(
        name,
        "xrange".as_bytes(),
    ) || bytes_eq(name, "xread".as_bytes())
}

fn kind_name_of(name: &[u8]) -> (r: &'static str)
    ensures
        r == kind_name(name@),
{
    if bytes_eq(name, "set".as_bytes()) {
        "set"
    } else if bytes_eq(name, "get".as_bytes()) {
        "get"
    } else if bytes_eq(name, "incr".as_bytes()) {
        "INCR"
    } else if bytes_eq(name, "ping".as_bytes()) {
        "ping"
    } else if bytes_eq(name, "echo".as_bytes()) {
        "echo"
    } else if bytes_eq(name, "exec".as_bytes()) {
        "exec"
    } else if bytes_eq(name, "multi".as_bytes()) {
        "multi"
    } else if bytes_eq(name, "discard".as_bytes()) {
        "discard"
    } else if bytes_eq(name, "config".as_bytes()) {
        "config"
    } else if bytes_eq(name, "keys".as_bytes()) {
        "KEYS"
    } else if bytes_eq(name, "info".as_bytes()) {
        "info"
    } else if bytes_eq(name, "save".as_bytes()) {
        "save"
    } else if bytes_eq(name, "replconf".as_bytes()) {
        "replconf"
    } else if bytes_eq(name, "psync".as_bytes()) {
        "psync"
    } else if bytes_eq(name, "type".as_bytes()) {
        "type"
    } else if bytes_eq(name, "wait".as_bytes()) {
        "wait"
    } else if bytes_eq(name, "xadd".as_bytes()) {
        "XADD"
    } else if bytes_eq(name, "xrange".as_bytes()) {
        "XRANGE"
    } else {
        "XREAD"
    }
}

/// The time to live that `n` units stand for.
pub fn expiry_of(seconds: bool, n: i64) -> (r: u64)
    ensures
        r == expiry_ms(seconds, n),
{
    let raw: u64 = if n >= 0 {
        n as u64
    } else {
        u64::MAX - ((-(n + 1)) as u64)
    };
    if seconds {
        if raw > u64::MAX / 1000 {
            u64::MAX
        } else {
            raw * 1000
        }
    } else {
        raw
    }
}

fn arg(a: &Vec<Vec<u8>>, i: usize) -> (r: Vec<u8>)
    requires
        i < a@.len(),
    ensures
        r@ == byte_seqs(a@)[i as int],
{
    copy_bytes(a[i].as_slice())
}

fn parse_set(a: &Vec<Vec<u8>>) -> (r: Result<Command, CommandError>)
    requires
        a@.len() > 0,
    ensures
        set_parsed(byte_seqs(a@), r),
{
    if a.len() < 3 {
        return Err(CommandError::WrongNumberOfArguments("set"));
    }
    if a.len() == 3 {
        return Ok(Command::SetCmd(SetCmd { key: arg(a, 1), value: arg(a, 2), expiry: None }));
    }
    let ex = is_word(a[3].as_slice(), "ex".as_bytes());
    let px = is_word(a[3].as_slice(), "px".as_bytes());
    assert(byte_seqs(a@)[3] == a@[3]@);
    if !ex && !px {
        return Err(CommandError::SyntaxError("set"));
    }
    if a.len() == 4 {
        return Err(CommandError::SyntaxError("set"));
    }
    assert(byte_seqs(a@)[4] == a@[4]@);
    let n = match parse_i64(a[4].as_slice()) {
        Some(n) => n,
        None => {
            return Err(CommandError::NotValidType("set"));
        },
    };
    if a.len() > 5 {
        return Err(CommandError::SyntaxError("set"));
    }
    Ok(Command::SetCmd(SetCmd { key: arg(a, 1), value: arg(a, 2), expiry: Some(expiry_of(ex, n)) }))
}

fn parse_key(a: &Vec<Vec<u8>>, name: &'static str) -> (r: Result<Command, CommandError>)
    requires
        a@.len() > 0,
    ensures
        key_parsed(byte_seqs(a@), name, r),
{
    if a.len() != 2 {
        return Err(CommandError::WrongNumberOfArguments(name));
    }
    assert(byte_seqs(a@)[0] == a@[0]@);
    if is_word(a[0].as_slice(), "get".as_bytes()) {
        Ok(Command::Get(Get { key: arg(a, 1) }))
    } else if is_word(a[0].as_slice(), "incr".as_bytes()) {
        Ok(Command::Incr(Incr { key: arg(a, 1) }))
    } else if is_word(a[0].as_slice(), "type".as_bytes()) {
        Ok(Command::Type(Type { key: arg(a, 1) }))
    } else {
        Ok(Command::Keys(Keys { arg: arg(a, 1) }))
    }
}

fn parse_bare(a: &Vec<Vec<u8>>, name: &'static str) -> (r: Result<Command, CommandError>)
    requires
        a@.len() > 0,
    ensures
        bare_parsed(byte_seqs(a@), name, r),
{
    if a.len() > 1 {
        return Err(CommandError::WrongNumberOfArguments(name));
    }
    assert(byte_seqs(a@)[0] == a@[0]@);
    if is_word(a[0].as_slice(), "exec".as_bytes()) {
        Ok(Command::Exec(Exec))
    } else if is_word(a[0].as_slice(), "multi".as_bytes()) {
        Ok(Command::Multi(Multi))
    } else if is_word(a[0].as_slice(), "discard".as_bytes()) {
        Ok(Command::Discard(Discard))
    } else {
        Ok(Command::Save(Save))
    }
}

fn parse_ping(a: &Vec<Vec<u8>>) -> (r: Result<Command, CommandError>)
    requires
        a@.len() > 0,
    ensures
        ping_parsed(byte_seqs(a@), r),
{
    if a.len() > 2 {
        Err(CommandError::WrongNumberOfArguments("ping"))
    } else if a.len() == 2 {
        Ok(Command::Ping(Ping { value: Some(arg(a, 1)) }))
    } else {
        Ok(Command::Ping(Ping { value: None }))
    }
}

fn parse_echo(a: &Vec<Vec<u8>>) -> (r: Result<Command, CommandError>)
    requires
        a@.len() > 0,
    ensures
        echo_parsed(byte_seqs(a@), r),
{
    if a.len() > 2 {
        Err(CommandError::WrongNumberOfArguments("echo"))
    } else if a.len() == 2 {
        Ok(Command::Echo(Echo { value: Some(arg(a, 1)) }))
    } else {
        Ok(Command::Echo(Echo { value: None }))
    }
}

fn parse_config(a: &Vec<Vec<u8>>) -> (r: Result<Command, CommandError>)
    requires
        a@.len() > 0,
    ensures
        config_parsed(byte_seqs(a@), r),
{
    if a.len() < 2 {
        return Err(CommandError::WrongNumberOfArguments("config"));
    }
    assert(byte_seqs(a@)[1] == a@[1]@);
    if !is_word(a[1].as_slice(), "get".as_bytes()) {
        return Err(CommandError::UnknownSubCommand(arg(a, 1)));
    }
    if a.len() < 3 {
        return Err(CommandError::WrongNumberOfArguments("config"));
    }
    if a.len() > 3 {
        return Err(CommandError::SyntaxError("config"));
    }
    Ok(Command::Config(Config { sub_command: SubCommand::Get(arg(a, 2)) }))
}

fn parse_info(a: &Vec<Vec<u8>>) -> (r: Result<Command, CommandError>)
    requires
        a@.len() > 0,
    ensures
        info_parsed(byte_seqs(a@), r),
{
    if a.len() > 2 {
        Err(CommandError::WrongNumberOfArguments("info"))
    } else if a.len() == 2 {
        Ok(Command::Info(Info { sub_command: Some(InfoSubCommand::Replication) }))
    } else {
        Ok(Command::Info(Info { sub_command: None }))
    }
}

fn two_args(first: Vec<u8>, second: Vec<u8>) -> (r: Vec<Vec<u8>>)
    ensures
        byte_seqs(r@) == seq![first@, second@],
{
    let mut args: Vec<Vec<u8>> = Vec::new();
    args.push(first);
    args.push(second);
    assert(byte_seqs(args@) =~= seq![first@, second@]);
    args
}

fn one_arg(first: Vec<u8>) -> (r: Vec<Vec<u8>>)
    ensures
        byte_seqs(r@) == seq![first@],
{
    let mut args: Vec<Vec<u8>> = Vec::new();
    args.push(first);
    assert(byte_seqs(args@) =~= seq![first@]);
    args
}

fn parse_replconf(a: &Vec<Vec<u8>>) -> (r: Result<Command, CommandError>)
    requires
        a@.len() > 0,
    ensures
        replconf_parsed(byte_seqs(a@), r),
{
    if a.len() < 2 {
        return Err(CommandError::WrongNumberOfArguments("replconf"));
    }
    assert(byte_seqs(a@)[1] == a@[1]@);
    let sub = to_ascii_lowercase(a[1].as_slice());
    if bytes_eq(sub.as_slice(), "listening-port".as_bytes()) {
        if a.len() < 3 {
            return Err(CommandError::NotValidType("replconf"));
        }
        assert(byte_seqs(a@)[2] == a@[2]@);
        if parse_i64(a[2].as_slice()).is_none() {
            return Err(CommandError::NotValidType("replconf"));
        }
        if a.len() > 3 {
            return Err(CommandError::WrongNumberOfArguments("replconf"));
        }
        Ok(Command::Replconf(Replconf { args: two_args(sub, arg(a, 2)) }))
    } else if bytes_eq(sub.as_slice(), "capa".as_bytes()) || bytes_eq(
        sub.as_slice(),
        "getack".as_bytes(),
    ) {
        if a.len() >= 3 {
            Ok(Command::Replconf(Replconf { args: two_args(sub, arg(a, 2)) }))
        } else {
            Ok(Command::Replconf(Replconf { args: one_arg(sub) }))
        }
    } else if bytes_eq(sub.as_slice(), "ack".as_bytes()) {
        if a.len() != 3 {
            return Err(CommandError::WrongNumberOfArguments("replconf"));
        }
        assert(byte_seqs(a@)[2] == a@[2]@);
        if parse_u64(a[2].as_slice()).is_none() {
            return Err(CommandError::NotValidType("replconf"));
        }
        Ok(Command::Replconf(Replconf { args: two_args(sub, arg(a, 2)) }))
    } else {
        Err(CommandError::NotSupported)
    }
}

/// Fresh copies of `a[from..to]`.
fn args_range(a: &Vec<Vec<u8>>, from: usize, to: usize) -> (r: Vec<Vec<u8>>)
    requires
        from <= to <= a@.len(),
    ensures
        byte_seqs(r@) == byte_seqs(a@).subrange(from as int, to as int),
{
    let mut r: Vec<Vec<u8>> = Vec::new();
    let mut i: usize = from;
    while i < to
        invariant
            from <= i <= to <= a@.len(),
            r@.len() == i - from,
            forall|j: int| 0 <= j < i - from ==> r@[j]@ == a@[from + j]@,
        decreases to - i,
    {
        r.push(copy_bytes(a[i].as_slice()));
        i += 1;
    }
    assert(byte_seqs(r@) =~= byte_seqs(a@).subrange(from as int, to as int));
    r
}

fn parse_psync(a: &Vec<Vec<u8>>) -> (r: Result<Command, CommandError>)
    requires
        a@.len() > 0,
    ensures
        psync_parsed(byte_seqs(a@), r),
{
    if a.len() > 3 {
        return Err(CommandError::WrongNumberOfArguments("psync"));
    }
    let args = args_range(a, 1, a.len());
    assert(byte_seqs(a@).subrange(1, a@.len() as int) =~= byte_seqs(a@).skip(1));
    Ok(Command::Psync(Psync { args }))
}

fn parse_wait(a: &Vec<Vec<u8>>) -> (r: Result<Command, CommandError>)
    requires
        a@.len() > 0,
    ensures
        wait_parsed(byte_seqs(a@), r),
{
    if a.len() != 3 {
        return Err(CommandError::WrongNumberOfArguments("wait"));
    }
    assert(byte_seqs(a@)[1] == a@[1]@);
    assert(byte_seqs(a@)[2] == a@[2]@);
    let numreplicas = match parse_u64(a[1].as_slice()) {
        Some(n) => n,
        None => {
            return Err(CommandError::NotValidType("wait"));
        },
    };
    let timeout = match parse_u64(a[2].as_slice()) {
        Some(n) => n,
        None => {
            return Err(CommandError::NotValidType("wait"));
        },
    };
    Ok(Command::Wait(Wait { numreplicas, timeout }))
}

fn parse_xadd(a: &Vec<Vec<u8>>) -> (r: Result<Command, CommandError>)
    requires
        a@.len() > 0,
    ensures
        xadd_parsed(byte_seqs(a@), r),
{
    if a.len() < 5 || (a.len() - 3) % 2 != 0 {
        return Err(CommandError::WrongNumberOfArguments("xadd"));
    }
    let len: usize = a.len();
    let count: usize = (len - 3) / 2;
    let mut args: Vec<(Vec<u8>, Vec<u8>)> = Vec::new();
    let mut i: usize = 0;
    while i < count
        invariant
            i <= count,
            len == a@.len(),
            count == (a@.len() - 3) / 2,
            a@.len() >= 5,
            (a@.len() - 3) % 2 == 0,
            args@.len() == i,
            forall|j: int|
                0 <= j < i ==> args@[j].0@ == a@[3 + 2 * j]@ && args@[j].1@ == a@[4 + 2 * j]@,
        decreases count - i,
    {
        let field = copy_bytes(a[3 + 2 * i].as_slice());
        let value = copy_bytes(a[4 + 2 * i].as_slice());
        args.push((field, value));
        i += 1;
    }
    let ghost b = byte_seqs(a@);
    assert(pair_seqs(args@) =~= Seq::new(
        ((b.len() - 3) / 2) as nat,
        |i: int| (b[3 + 2 * i], b[4 + 2 * i]),
    ));
    Ok(Command::Xadd(Xadd { key: arg(a, 1), entry_id: arg(a, 2), args }))
}

fn parse_xrange(a: &Vec<Vec<u8>>) -> (r: Result<Command, CommandError>)
    requires
        a@.len() > 0,
    ensures
        xrange_parsed(byte_seqs(a@), r),
{
    if a.len() != 4 {
        return Err(CommandError::WrongNumberOfArguments("xrange"));
    }
    Ok(Command::Xrange(Xrange { key: arg(a, 1), start: arg(a, 2), end: arg(a, 3) }))
}

fn parse_streams(a: &Vec<Vec<u8>>, at: usize, block: Option<u64>) -> (r: Result<
    Command,
    CommandError,
>)
    requires
        a@.len() > 0,
        at <= 3,
    ensures
        streams_parsed(byte_seqs(a@), at as int, block, r),
{
    if a.len() <= at {
        return Err(CommandError::WrongNumberOfArguments("XREAD"));
    }
    assert(byte_seqs(a@)[at as int] == a@[at as int]@);
    if !is_word(a[at].as_slice(), "streams".as_bytes()) {
        return Err(CommandError::SyntaxError("XREAD"));
    }
    if a.len() == at + 1 || (a.len() - at - 1) % 2 != 0 {
        return Err(CommandError::WrongNumberOfArguments("XREAD"));
    }
    let n: usize = (a.len() - at - 1) / 2;
    let keys = args_range(a, at + 1, at + 1 + n);
    let entry_ids = args_range(a, at + 1 + n, a.len());
    Ok(Command::Xread(Xread { block, keys, entry_ids }))
}

fn parse_xread(a: &Vec<Vec<u8>>) -> (r: Result<Command, CommandError>)
    requires
        a@.len() > 0,
    ensures
        xread_parsed(byte_seqs(a@), r),
{
    if a.len() < 2 {
        return Err(CommandError::WrongNumberOfArguments("XREAD"));
    }
    assert(byte_seqs(a@)[1] == a@[1]@);
    if is_word(a[1].as_slice(), "block".as_bytes()) {
        if a.len() < 3 {
            return Err(CommandError::NotValidType("XREAD"));
        }
        assert(byte_seqs(a@)[2] == a@[2]@);
        match parse_u64(a[2].as_slice()) {
            Some(n) => parse_streams(a, 3, Some(n)),
            None => Err(CommandError::NotValidType("XREAD")),
        }
    } else {
        parse_streams(a, 1, None)
    }
}

fn parse_texts(a: &Vec<Vec<u8>>) -> (r: Result<Command, CommandError>)
    requires
        a@.len() > 0,
    ensures
        texts_parsed(byte_seqs(a@), r),
{
    assert(byte_seqs(a@)[0] == a@[0]@);
    let name = a[0].as_slice();
    if is_word(name, "set".as_bytes()) {
        parse_set(a)
    } else if is_word(name, "get".as_bytes()) {
        parse_key(a, "get")
    } else if is_word(name, "incr".as_bytes()) {
        parse_key(a, "INCR")
    } else if is_word(name, "ping".as_bytes()) {
        parse_ping(a)
    } else if is_word(name, "echo".as_bytes()) {
        parse_echo(a)
    } else if is_word(name, "exec".as_bytes()) {
        parse_bare(a, "exec")
    } else if is_word(name, "multi".as_bytes()) {
        parse_bare(a, "multi")
    } else if is_word(name, "discard".as_bytes()) {
        parse_bare(a, "discard")
    } else if is_word(name, "config".as_bytes()) {
        parse_config(a)
    } else if is_word(name, "keys".as_bytes()) {
        parse_key(a, "keys")
    } else if is_word(name, "info".as_bytes()) {
        parse_info(a)
    } else if is_word(name, "save".as_bytes()) {
        parse_bare(a, "save")
    } else if is_word(name, "replconf".as_bytes()) {
        parse_replconf(a)
    } else if is_word(name, "psync".as_bytes()) {
        parse_psync(a)
    } else if is_word(name, "type".as_bytes()) {
        parse_key(a, "type")
    } else if is_word(name, "wait".as_bytes()) {
        parse_wait(a)
    } else if is_word(name, "xadd".as_bytes()) {
        parse_xadd(a)
    } else if is_word(name, "xrange".as_bytes()) {
        parse_xrange(a)
    } else {
        parse_xread(a)
    }
}

/// Parses the items of an array into a command.
pub fn parse_command(v: Vec<RespData>) -> (r: Result<Command, CommandError>)
    ensures
        command_parsed(views(v@), r),
{
    let ghost items = views(v@);
    if v.len() == 0 {
        return Err(CommandError::NotSupported);
    }
    assert(items[0] == v@[0]@);
    let name = match item_text(&v[0]) {
        Some(t) => to_ascii_lowercase(t.as_slice()),
        None => {
            return Err(CommandError::NotSupported);
        },
    };
    if !is_known(name.as_slice()) {
        return Err(CommandError::NotSupported);
    }
    let mut a: Vec<Vec<u8>> = Vec::new();
    let mut i: usize = 0;
    while i < v.len()
        invariant
            i <= v.len(),
            items == views(v@),
            items.len() > 0,
            text_of(items[0]) is Some,
            name@ == lower_seq(text_of(items[0]).unwrap()),
            known(name@),
            a@.len() == i,
            forall|j: int| 0 <= j < i ==> text_of(#[trigger] items[j]) == Some(a@[j]@),
        decreases v.len() - i,
    {
        assert(items[i as int] == v@[i as int]@);
        match item_text(&v[i]) {
            Some(t) => {
                a.push(t);
            },
            None => {
                assert(text_of(items[i as int]) is None);
                assert(!all_text(items));
                return Err(CommandError::NotValidType(kind_name_of(name.as_slice())));
            },
        }
        i += 1;
    }
    assert(all_text(items));
    assert(byte_seqs(a@) =~= texts_of(items));
    parse_texts(&a)
}

} // verus!
