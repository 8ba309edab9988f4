//! A reader of commands that goes by lines: the name is on the third line,
//! the arguments on every second line behind it.

use crate::commands::{Command, EchoCommand, GetCommand, InfoCommand, Section, SetCommand};
use crate::text::{
    byte_seqs, bytes_eq, copy_range, find_crlf, find_line_end, i64_value, lemma_find_crlf_bounds,
    parse_i64, to_ascii_uppercase, upper_seq,
};
use vstd::prelude::*;
use vstd::string::StringSliceAdditionalSpecFns;

verus! {

/// The pieces of `s` from `pos` on that CR LF pairs part.
pub open spec fn pieces(s: Seq<u8>, pos: int) -> Seq<Seq<u8>>
    decreases s.len() - pos,
{
    if pos < 0 || pos > s.len() {
        Seq::<Seq<u8>>::empty()
    } else {
        let end = find_crlf(s, pos);
        if end < pos || end + 2 > s.len() {
            seq![s.subrange(pos, s.len() as int)]
        } else {
            seq![s.subrange(pos, end)] + pieces(s, end + 2)
        }
    }
}

/// Parts `s` at its CR LF pairs.
pub fn split_lines(s: &[u8]) -> (r: Vec<Vec<u8>>)
    ensures
        byte_seqs(r@) == pieces(s@, 0),
{
    let mut r: Vec<Vec<u8>> = Vec::new();
    let mut pos: usize = 0;
    assert(byte_seqs(r@) =~= Seq::<Seq<u8>>::empty());
    assert(byte_seqs(r@) + pieces(s@, 0) =~= pieces(s@, 0));
    loop
        invariant
            pos <= s@.len(),
            byte_seqs(r@) + pieces(s@, pos as int) == pieces(s@, 0),
        decreases s@.len() - pos,
    {
        let ghost before = byte_seqs(r@);
        let _ = s.len();
        proof {
            lemma_find_crlf_bounds(s@, pos as int);
        }
        match find_line_end(s, pos) {
            Some(end) => {
                let piece = copy_range(s, pos, end);
                r.push(piece);
                assert(byte_seqs(r@) =~= before.push(piece@));
                assert(byte_seqs(r@) + pieces(s@, end + 2) =~= before + (seq![piece@] + pieces(
                    s@,
                    end + 2,
                )));
                pos = end + 2;
            },
            None => {
                let piece = copy_range(s, pos, s.len());
                r.push(piece);
                assert(byte_seqs(r@) =~= before.push(piece@));
                assert(byte_seqs(r@) =~= before + seq![piece@]);
                return r;
            },
        }
    }
}

/// Whether `r` is the refusal `why`.
pub open spec fn refused(r: Result<Command, &'static str>, why: &'static str) -> bool {
    r == Err::<Command, &'static str>(why)
}

/// The time to live of `SET`: what follows `PX`, where `PX` stands on the
/// ninth line.
pub open spec fn px_of(lines: Seq<Seq<u8>>) -> Result<Option<i64>, &'static str> {
    if lines.len() > 8 && upper_seq(lines[8]) == "PX".spec_bytes() {
        if lines.len() > 10 && i64_value(lines[10]) is Some {
            Ok(i64_value(lines[10]))
        } else {
            Err("Could not get PX value")
        }
    } else {
        Ok(None)
    }
}

/// What the lines of a request parse to. The name, in whatever case, is on
/// the third line; the arguments are on the fifth, the seventh, and so on.
pub open spec fn protocol_parsed(lines: Seq<Seq<u8>>, r: Result<Command, &'static str>) -> bool {
    if lines.len() <= 2 {
        refused(r, "No command was found in protocol input.")
    } else {
        let name = upper_seq(lines[2]);
        if name == "PING".spec_bytes() {
            r matches Ok(Command::Ping)
        } else if name == "ECHO".spec_bytes() {
            if lines.len() > 4 {
                r matches Ok(Command::ECHO(e)) && e.message@ == lines[4]
            } else {
                refused(r, "Could not get ECHO message")
            }
        } else if name == "INFO".spec_bytes() {
            if lines.len() > 4 {
                r matches Ok(Command::INFO(i)) && i.section matches Section::Custom(s) && s@
                    == lines[4]
            } else {
                r matches Ok(Command::INFO(i)) && i.section is All
            }
        } else if name == "SET".spec_bytes() {
            if lines.len() <= 4 {
                refused(r, "Could not get set key")
            } else if lines.len() <= 6 {
                refused(r, "Could not get set value")
            } else {
                match px_of(lines) {
                    Err(why) => refused(r, why),
                    Ok(px) => r matches Ok(Command::SET(s)) && s.key@ == lines[4] && s.value@
                        == lines[6] && s.px == px,
                }
            }
        } else if name == "GET".spec_bytes() {
            if lines.len() > 4 {
                r matches Ok(Command::GET(g)) && g.key@ == lines[4]
            } else {
                refused(r, "Could not get GET key")
            }
        } else {
            refused(r, "Command not recognized")
        }
    }
}

fn read_px(lines: &Vec<Vec<u8>>) -> (r: Result<Option<i64>, &'static str>)
    ensures
        r == px_of(byte_seqs(lines@)),
{
    let ghost l = byte_seqs(lines@);
    if lines.len() > 8 {
        assert(l[8] == lines@[8]@);
        let word = to_ascii_uppercase(lines[8].as_slice());
        if bytes_eq(word.as_slice(), "PX".as_bytes()) {
            if lines.len() > 10 {
                assert(l[10] == lines@[10]@);
                match parse_i64(lines[10].as_slice()) {
                    Some(n) => {
                        return Ok(Some(n));
                    },
                    None => {},
                }
            }
            return Err("Could not get PX value");
        }
    }
    Ok(None)
}

/// Reads a request; see `protocol_parsed`.
pub fn parse_protocol(protocol_str: &[u8]) -> (r: Result<Command, &'static str>)
    ensures
        protocol_parsed(pieces(protocol_str@, 0), r),
{
    let lines = split_lines(protocol_str);
    let ghost l = byte_seqs(lines@);
    if lines.len() <= 2 {
        return Err("No command was found in protocol input.");
    }
    assert(l[2] == lines@[2]@);
    let name = to_ascii_uppercase(lines[2].as_slice());
    if bytes_eq(name.as_slice(), "PING".as_bytes()) {
        Ok(Command::Ping)
    } else if bytes_eq(name.as_slice(), "ECHO".as_bytes()) {
        if lines.len() > 4 {
            assert(l[4] == lines@[4]@);
            Ok(Command::ECHO(EchoCommand::new(lines[4].as_slice())))
        } else {
            Err("Could not get ECHO message")
        }
    } else if bytes_eq(name.as_slice(), "INFO".as_bytes()) {
        if lines.len() > 4 {
            assert(l[4] == lines@[4]@);
            Ok(
                Command::INFO(
                    InfoCommand::new(Section::Custom(crate::text::copy_bytes(lines[4].as_slice()))),
                ),
            )
        } else {
            Ok(Command::INFO(InfoCommand::new(Section::All)))
        }
    } else if bytes_eq(name.as_slice(), "SET".as_bytes()) {
        if lines.len() <= 4 {
            return Err("Could not get set key");
        }
        if lines.len() <= 6 {
            return Err("Could not get set value");
        }
        assert(l[4] == lines@[4]@);
        assert(l[6] == lines@[6]@);
        match read_px(&lines) {
            Err(why) => Err(why),
            Ok(px) => Ok(
                Command::SET(SetCommand::new(lines[4].as_slice(), lines[6].as_slice(), px)),
            ),
        }
    } else if bytes_eq(name.as_slice(), "GET".as_bytes()) {
        if lines.len() > 4 {
            assert(l[4] == lines@[4]@);
            Ok(Command::GET(GetCommand::new(lines[4].as_slice())))
        } else {
            Err("Could not get GET key")
        }
    } else {
        Err("Command not recognized")
    }
}

} // verus!
