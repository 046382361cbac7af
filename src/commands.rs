//! Commands: how a request frame becomes a command, and what a command does
//! to the shared store and answers.
use crate::buffer::{shared_bytes, shared_from_vec, shared_slice};
use crate::protocol::{Frame, RespType};
use crate::storage::Store;
use crate::text::{ascii_upper, same_ignoring_case, upper_case, utf8_to_string};
use bytes::Bytes;
use vstd::prelude::*;
use vstd::slice::slice_to_vec;
use vstd::string::StringExecFns;
use vstd::utf8::{decode_utf8, encode_utf8, valid_utf8};

verus! {

/// A request of a client.
pub enum Command {
    Ping(Option<String>),
    Get(String),
    SetKey(String, Bytes),
    Del(String),
    Unknown(String),
}

/// The mathematical model of a command.
pub enum CommandModel {
    Ping(Option<Seq<char>>),
    Get(Seq<char>),
    SetKey(Seq<char>, Seq<u8>),
    Del(Seq<char>),
    Unknown(Seq<char>),
}

impl Command {
    /// The command with its texts and bytes as sequences.
    pub open spec fn view(&self) -> CommandModel {
        match self {
            Command::Ping(msg) => CommandModel::Ping(
                match msg {
                    Some(s) => Some(s@),
                    None => None,
                },
            ),
            Command::Get(key) => CommandModel::Get(key@),
            Command::SetKey(key, value) => CommandModel::SetKey(key@, shared_bytes(*value)),
            Command::Del(key) => CommandModel::Del(key@),
            Command::Unknown(name) => CommandModel::Unknown(name@),
        }
    }
}

/// The text an argument carries, or the message that refuses it: it must be
/// a bulk string, and its bytes valid UTF-8.
pub open spec fn text_arg(f: Frame, not_bulk: Seq<char>, not_text: Seq<char>) -> Result<
    Seq<char>,
    Seq<char>,
> {
    match f {
        Frame::Bulk(b) => if valid_utf8(b) {
            Ok(decode_utf8(b))
        } else {
            Err(not_text)
        },
        _ => Err(not_bulk),
    }
}

/// The command that a request frame asks for, or the message that refuses it.
pub open spec fn command_of(f: Frame) -> Result<CommandModel, Seq<char>> {
    match f {
        Frame::Array(items) => command_of_items(items),
        _ => Err("Command must be an Array"@),
    }
}

/// The command that the items of a request array ask for: a name, upper-cased,
/// then the arguments that the name takes.
pub open spec fn command_of_items(items: Seq<Frame>) -> Result<CommandModel, Seq<char>> {
    if items.len() == 0 {
        Err("Empty command"@)
    } else {
        match items[0] {
            Frame::Bulk(raw) => {
                let name = ascii_upper(raw);
                if name == encode_utf8("PING"@) {
                    if items.len() > 2 {
                        Err("PING accepts at most 1 argument"@)
                    } else if items.len() == 1 {
                        Ok(CommandModel::Ping(None))
                    } else {
                        match text_arg(
                            items[1],
                            "PING arguments must be a bulkString"@,
                            "PING argument must be valid UTF-8"@,
                        ) {
                            Ok(msg) => Ok(CommandModel::Ping(Some(msg))),
                            Err(m) => Err(m),
                        }
                    }
                } else if name == encode_utf8("GET"@) {
                    if items.len() != 2 {
                        Err("GET requires exactly 1 argument"@)
                    } else {
                        match text_arg(
                            items[1],
                            "GET key must be a BulkString"@,
                            "GET key must be valid UTF-8"@,
                        ) {
                            Ok(key) => Ok(CommandModel::Get(key)),
                            Err(m) => Err(m),
                        }
                    }
                } else if name == encode_utf8("SET"@) {
                    if items.len() != 3 {
                        Err("SET requires exactly 2 arguments"@)
                    } else {
                        match text_arg(
                            items[1],
                            "SET key must be a BulkString"@,
                            "SET key must be valid UTF-8"@,
                        ) {
                            Ok(key) => match items[2] {
                                Frame::Bulk(value) => Ok(CommandModel::SetKey(key, value)),
                                _ => Err("SET value must be a BulkString"@),
                            },
                            Err(m) => Err(m),
                        }
                    }
                } else if name == encode_utf8("DEL"@) {
                    if items.len() != 2 {
                        Err("DEL requires exactly 1 argument"@)
                    } else {
                        match text_arg(
                            items[1],
                            "DEL key must be a BulkString"@,
                            "DEL key must be valid UTF-8"@,
                        ) {
                            Ok(key) => Ok(CommandModel::Del(key)),
                            Err(m) => Err(m),
                        }
                    }
                } else if valid_utf8(name) {
                    Ok(CommandModel::Unknown(decode_utf8(name)))
                } else {
                    Err("Command name must be valid UTF-8"@)
                }
            },
            _ => Err("Command name must be a BulkString"@),
        }
    }
}

/// The bytes of what a lookup found.
pub open spec fn found_bytes(found: Option<Bytes>) -> Option<Seq<u8>> {
    match found {
        Some(v) => Some(shared_bytes(v)),
        None => None,
    }
}

/// The reply to a lookup: the value found as a bulk string, or null.
pub open spec fn found_reply(found: Option<Seq<u8>>) -> Frame {
    match found {
        Some(v) => Frame::Bulk(v),
        None => Frame::Null,
    }
}

/// The reply to a command, given what the lookup of its key found, for the
/// one command that looks a key up. `DEL` answers 1 whether or not the key
/// had a value: the reply does not tell the two apart.
pub open spec fn reply(cmd: CommandModel, found: Option<Seq<u8>>) -> Frame {
    match cmd {
        CommandModel::Ping(None) => Frame::Simple("PONG"@),
        CommandModel::Ping(Some(msg)) => Frame::Bulk(encode_utf8(msg)),
        CommandModel::Get(_) => found_reply(found),
        CommandModel::SetKey(_, _) => Frame::Simple("OK"@),
        CommandModel::Del(_) => Frame::Integer(1),
        CommandModel::Unknown(name) => Frame::Error("unknown command '"@ + name + "'"@),
    }
}

/// The letter case of a command name does not matter: two requests whose
/// names differ only in the case of ASCII letters, and whose arguments are the
/// same, ask for the same command or are refused with the same message.
pub proof fn lemma_name_case_insensitive(first: Seq<Frame>, second: Seq<Frame>)
    requires
        first.len() == second.len(),
        first.len() > 0,
        first[0] matches Frame::Bulk(a) && second[0] matches Frame::Bulk(b) && same_ignoring_case(
            a,
            b,
        ),
        forall|i: int| 1 <= i < first.len() ==> first[i] == second[i],
    ensures
        command_of(Frame::Array(first)) == command_of(Frame::Array(second)),
{
    let a = first[0]->Bulk_0;
    let b = second[0]->Bulk_0;
    assert(ascii_upper(a) =~= ascii_upper(b));
    if first.len() > 1 {
        assert(first[1] == second[1]);
    }
    if first.len() > 2 {
        assert(first[2] == second[2]);
    }
}

/// What a command's lookup finds in a map: the key's value for `GET`, and
/// nothing for the commands that look nothing up.
pub open spec fn lookup_in(cmd: CommandModel, m: Map<Seq<char>, Seq<u8>>) -> Option<Seq<u8>> {
    match cmd {
        CommandModel::Get(k) => if m.contains_key(k) {
            Some(m[k])
        } else {
            None
        },
        _ => None,
    }
}

/// The map after a command: `SET` inserts or replaces, `DEL` removes, the
/// others leave it as it was.
pub open spec fn effect(cmd: CommandModel, m: Map<Seq<char>, Seq<u8>>) -> Map<Seq<char>, Seq<u8>> {
    match cmd {
        CommandModel::SetKey(k, v) => m.insert(k, v),
        CommandModel::Del(k) => m.remove(k),
        _ => m,
    }
}

/// Whether two byte strings are equal.
fn same_bytes(a: &[u8], b: &[u8]) -> (r: bool)
    ensures
        r == (a@ == b@),
{
    if a.len() != b.len() {
        return false;
    }
    let mut i: usize = 0;
    while i < a.len()
        invariant
            a@.len() == b@.len(),
            i <= a@.len(),
            forall|j: int| 0 <= j < i ==> a@[j] == b@[j],
        decreases a.len() - i,
    {
        if a[i] != b[i] {
            return false;
        }
        i = i + 1;
    }
    assert(a@ =~= b@);
    true
}

/// The text of an argument, or the message that refuses it.
fn read_text_arg(item: &RespType, not_bulk: &str, not_text: &str) -> (r: Result<String, String>)
    ensures
        match text_arg(item@, not_bulk@, not_text@) {
            Ok(t) => r matches Ok(s) && s@ == t,
            Err(m) => r matches Err(s) && s@ == m,
        },
{
    match item {
        RespType::BulkString(bytes) => match utf8_to_string(slice_to_vec(bytes.as_slice())) {
            Some(s) => Ok(s),
            None => Err(not_text.to_owned()),
        },
        _ => Err(not_bulk.to_owned()),
    }
}

impl Command {
    /// The command that a request frame asks for. A request is an array whose
    /// first item names the command, in any letter case, and whose other items
    /// are its arguments; a name that is none of the four gives `Unknown`.
    pub fn from_resp(resp: RespType) -> (r: Result<Command, String>)
        ensures
            match command_of(resp@) {
                Ok(c) => r matches Ok(cmd) && cmd@ == c,
                Err(m) => r matches Err(s) && s@ == m,
            },
    {
        let items = match resp {
            RespType::Array(items) => items,
            _ => return Err("Command must be an Array".to_owned()),
        };
        let ghost frames = RespType::Array(items)@->Array_0;
        assert(frames.len() == items@.len());
        if items.len() == 0 {
            return Err("Empty command".to_owned());
        }
        assert(frames[0] == items@[0]@);
        let name = match &items[0] {
            RespType::BulkString(raw) => upper_case(raw.as_slice()),
            _ => return Err("Command name must be a BulkString".to_owned()),
        };
        if same_bytes(name.as_slice(), "PING".as_bytes()) {
            if items.len() > 2 {
                return Err("PING accepts at most 1 argument".to_owned());
            }
            if items.len() == 1 {
                return Ok(Command::Ping(None));
            }
            assert(frames[1] == items@[1]@);
            match read_text_arg(
                &items[1],
                "PING arguments must be a bulkString",
                "PING argument must be valid UTF-8",
            ) {
                Ok(msg) => Ok(Command::Ping(Some(msg))),
                Err(m) => Err(m),
            }
        } else if same_bytes(name.as_slice(), "GET".as_bytes()) {
            if items.len() != 2 {
                return Err("GET requires exactly 1 argument".to_owned());
            }
            assert(frames[1] == items@[1]@);
            match read_text_arg(&items[1], "GET key must be a BulkString", "GET key must be valid UTF-8") {
                Ok(key) => Ok(Command::Get(key)),
                Err(m) => Err(m),
            }
        } else if same_bytes(name.as_slice(), "SET".as_bytes()) {
            if items.len() != 3 {
                return Err("SET requires exactly 2 arguments".to_owned());
            }
            assert(frames[1] == items@[1]@);
            assert(frames[2] == items@[2]@);
            let key = match read_text_arg(
                &items[1],
                "SET key must be a BulkString",
                "SET key must be valid UTF-8",
            ) {
                Ok(key) => key,
                Err(m) => return Err(m),
            };
            match &items[2] {
                RespType::BulkString(value) => Ok(
                    Command::SetKey(key, shared_from_vec(slice_to_vec(value.as_slice()))),
                ),
                _ => Err("SET value must be a BulkString".to_owned()),
            }
        } else if same_bytes(name.as_slice(), "DEL".as_bytes()) {
            if items.len() != 2 {
                return Err("DEL requires exactly 1 argument".to_owned());
            }
            assert(frames[1] == items@[1]@);
            match read_text_arg(&items[1], "DEL key must be a BulkString", "DEL key must be valid UTF-8") {
                Ok(key) => Ok(Command::Del(key)),
                Err(m) => Err(m),
            }
        } else {
            match utf8_to_string(name) {
                Some(s) => Ok(Command::Unknown(s)),
                None => Err("Command name must be valid UTF-8".to_owned()),
            }
        }
    }

    /// Runs the command against a store and gives the reply. `GET` answers
    /// the key's value or null and leaves the store as it was; `SET` puts the
    /// value under the key, replacing any value it had; `DEL` removes the key
    /// and answers 1 whether or not it was there; `PING` and an unknown name
    /// leave the store as it was.
    pub fn execute(self, store: &mut Store) -> (r: RespType)
        requires
            old(store).wf(),
        ensures
            final(store).wf(),
            r@ == reply(self@, lookup_in(self@, old(store)@)),
            final(store)@ == effect(self@, old(store)@),
    {
        match self {
            Command::Ping(msg) => match msg {
                Some(s) => RespType::BulkString(slice_to_vec(s.as_str().as_bytes())),
                None => RespType::SimpleString("PONG".to_owned()),
            },
            Command::Get(key) => lookup_reply(store.get(key.as_str())),
            Command::SetKey(key, value) => {
                store.set(key, value);
                RespType::SimpleString("OK".to_owned())
            },
            Command::Del(key) => {
                store.del(key.as_str());
                RespType::Integer(1)
            },
            Command::Unknown(name) => {
                let mut msg = "unknown command '".to_owned();
                msg.append(name.as_str());
                msg.append("'");
                RespType::Error(msg)
            },
        }
    }
}

/// The reply to a lookup: the value found as a bulk string, or null.
pub fn lookup_reply(found: Option<Bytes>) -> (r: RespType)
    ensures
        r@ == found_reply(found_bytes(found)),
{
    match found {
        Some(v) => RespType::BulkString(slice_to_vec(shared_slice(&v))),
        None => RespType::Null,
    }
}

} // verus!
