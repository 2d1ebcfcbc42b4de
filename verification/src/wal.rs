//! The write-ahead-log record format and its replay.
//!
//! A log is a plain concatenation of wire-encoded command arrays, exactly
//! the bytes a client would send: `set` as a three-element array with the
//! value as a bulk string, `remove` as a two-element array.  Appending and
//! reading the log file belongs to the caller; this module computes record
//! bytes, reads records back, and proves that replaying a log rebuilds the
//! store state that produced it.

use vstd::prelude::*;

verus! {

use vstd::utf8::{encode_utf8, decode_utf8, valid_utf8};
use vstd::string::StringExecFns;
use crate::object::{
    Object,
    ObjectV,
    objects_wf,
    ParseOut,
    chars_wf,
    char_bytes,
    crlf,
    encoding,
    encoding_seq,
    nat_decimal,
    parse,
    push_crlf,
    push_u64_decimal,
    spec_parse,
    wf,
};
use crate::command::{
    Command,
    CommandV,
    arg_string,
    command_of,
    spec_possibly_dirty,
};
use crate::db::{Database, HashMapDatabase, apply_map, cmd_value_fits};

/// The wire object a mutating command is journalled as.
pub open spec fn wal_object(c: CommandV) -> Option<ObjectV> {
    match c {
        CommandV::Get(_) => None,
        CommandV::Put(k, v) => Some(
            ObjectV::Array(
                seq![
                    ObjectV::SimpleString("set"@),
                    ObjectV::SimpleString(k),
                    ObjectV::BulkString(Some(encode_utf8(v))),
                ],
            ),
        ),
        CommandV::Remove(k) => Some(
            ObjectV::Array(
                seq![ObjectV::SimpleString("remove"@), ObjectV::SimpleString(k)],
            ),
        ),
    }
}

/// The exact bytes appended to the log for a command: nothing for a `get`,
/// the wire array otherwise, with the key spelled as a simple string and
/// the value as a length-prefixed bulk string.
pub open spec fn wal_record(c: CommandV) -> Option<Seq<u8>> {
    match c {
        CommandV::Get(_) => None,
        CommandV::Put(k, v) => Some(
            seq![0x2au8, 0x33u8] + crlf() + seq![0x2bu8, 0x73u8, 0x65u8, 0x74u8] + crlf()
                + seq![0x2bu8] + encode_utf8(k) + crlf() + seq![0x24u8] + nat_decimal(
                encode_utf8(v).len() as int,
            ) + crlf() + encode_utf8(v) + crlf(),
        ),
        CommandV::Remove(k) => Some(
            seq![0x2au8, 0x32u8] + crlf() + seq![
                0x2bu8,
                0x72u8,
                0x65u8,
                0x6du8,
                0x6fu8,
                0x76u8,
                0x65u8,
            ] + crlf() + seq![0x2bu8] + encode_utf8(k) + crlf(),
        ),
    }
}

/// A command the log can carry faithfully: its key is printable ASCII (a
/// key with a control byte would break the record framing) and its value
/// fits a length prefix.
pub open spec fn command_writable(c: CommandV) -> bool {
    match c {
        CommandV::Get(_) => true,
        CommandV::Put(k, v) => chars_wf(k) && encode_utf8(v).len() <= i64::MAX,
        CommandV::Remove(k) => chars_wf(k),
    }
}

/// The bytes appended to the log for a command, or nothing for a `get`.
pub fn encode_wal_record(cmd: &Command) -> (r: Option<Vec<u8>>)
    ensures
        match r {
            Some(bytes) => wal_record(cmd@) == Some(bytes@),
            None => wal_record(cmd@) is None,
        },
{
    match cmd {
        Command::Get(_) => None,
        Command::Put(key, value) => {
            let mut out: Vec<u8> = Vec::new();
            out.push(0x2a);
            out.push(0x33);
            push_crlf(&mut out);
            out.push(0x2b);
            out.push(0x73);
            out.push(0x65);
            out.push(0x74);
            push_crlf(&mut out);
            out.push(0x2b);
            out.extend_from_slice(key.as_str().as_bytes());
            push_crlf(&mut out);
            out.push(0x24);
            let vb = value.as_str().as_bytes();
            push_u64_decimal(vb.len() as u64, &mut out);
            push_crlf(&mut out);
            out.extend_from_slice(vb);
            push_crlf(&mut out);
            proof {
                assert(out@ =~= wal_record(cmd@).unwrap());
            }
            Some(out)
        },
        Command::Remove(key) => {
            let mut out: Vec<u8> = Vec::new();
            out.push(0x2a);
            out.push(0x32);
            push_crlf(&mut out);
            out.push(0x2b);
            out.push(0x72);
            out.push(0x65);
            out.push(0x6d);
            out.push(0x6f);
            out.push(0x76);
            out.push(0x65);
            push_crlf(&mut out);
            out.push(0x2b);
            out.extend_from_slice(key.as_str().as_bytes());
            push_crlf(&mut out);
            proof {
                assert(out@ =~= wal_record(cmd@).unwrap());
            }
            Some(out)
        },
    }
}

/// For a writable mutating command, the log record is exactly the canonical
/// encoding of its wire object, and that object is well formed.
pub proof fn lemma_wal_record_canonical(c: CommandV)
    requires
        command_writable(c),
        spec_possibly_dirty(c),
    ensures
        wal_object(c) is Some,
        wf(wal_object(c).unwrap()),
        wal_record(c) == Some(encoding(wal_object(c).unwrap())),
{
    match c {
        CommandV::Get(_) => {
        },
        CommandV::Put(k, v) => {
            lemma_wal_record_canonical_put(k, v);
        },
        CommandV::Remove(k) => {
            lemma_wal_record_canonical_remove(k);
        },
    }
}

/// The `set` case of [`lemma_wal_record_canonical`].
#[verifier::rlimit(100)]
proof fn lemma_wal_record_canonical_put(k: Seq<char>, v: Seq<char>)
    requires
        chars_wf(k),
        encode_utf8(v).len() <= i64::MAX,
    ensures
        wf(wal_object(CommandV::Put(k, v)).unwrap()),
        wal_record(CommandV::Put(k, v)) == Some(
            encoding(wal_object(CommandV::Put(k, v)).unwrap()),
        ),
{
    reveal_strlit("set");
    let c = CommandV::Put(k, v);
    let o = wal_object(c).unwrap();
    let objs = seq![
        ObjectV::SimpleString("set"@),
        ObjectV::SimpleString(k),
        ObjectV::BulkString(Some(encode_utf8(v))),
    ];
    assert(chars_wf("set"@)) by {
        assert forall|i: int| 0 <= i < "set"@.len() implies crate::object::simple_char_ok(
            #[trigger] "set"@[i],
        ) by {
            assert("set"@[0] == 's' && "set"@[1] == 'e' && "set"@[2] == 't');
        }
    }
    assert(wf(objs[0]) && wf(objs[1]) && wf(objs[2]));
    assert(objs.drop_first() =~= seq![objs[1], objs[2]]);
    assert(seq![objs[1], objs[2]].drop_first() =~= seq![objs[2]]);
    assert(seq![objs[2]].drop_first() =~= Seq::<ObjectV>::empty());
    assert(objects_wf(Seq::<ObjectV>::empty()));
    assert(objects_wf(seq![objs[2]]));
    assert(objects_wf(seq![objs[1], objs[2]]));
    assert(objects_wf(objs));
    assert(wf(o));
    assert(char_bytes("set"@) =~= seq![0x73u8, 0x65u8, 0x74u8]);
    assert(char_bytes(k) =~= encode_utf8(k)) by {
        vstd::utf8::is_ascii_chars_encode_utf8(k);
    }
    assert(nat_decimal(3) =~= seq![0x33u8]);
    assert(encoding_seq(Seq::<ObjectV>::empty()) == Seq::<u8>::empty());
    assert(encoding_seq(seq![objs[2]]) == encoding(objs[2]) + Seq::<u8>::empty());
    assert(encoding_seq(seq![objs[1], objs[2]]) == encoding(objs[1]) + (encoding(objs[2])
        + Seq::<u8>::empty()));
    assert(encoding_seq(objs) == encoding(objs[0]) + (encoding(objs[1]) + (encoding(objs[2])
        + Seq::<u8>::empty())));
    assert(wal_record(c).unwrap() =~= encoding(o));
}

/// The `remove` case of [`lemma_wal_record_canonical`].
#[verifier::rlimit(100)]
proof fn lemma_wal_record_canonical_remove(k: Seq<char>)
    requires
        chars_wf(k),
    ensures
        wf(wal_object(CommandV::Remove(k)).unwrap()),
        wal_record(CommandV::Remove(k)) == Some(
            encoding(wal_object(CommandV::Remove(k)).unwrap()),
        ),
{
    reveal_strlit("remove");
    let c = CommandV::Remove(k);
    let o = wal_object(c).unwrap();
    let objs = seq![ObjectV::SimpleString("remove"@), ObjectV::SimpleString(k)];
    assert(chars_wf("remove"@)) by {
        assert forall|i: int| 0 <= i < "remove"@.len() implies crate::object::simple_char_ok(
            #[trigger] "remove"@[i],
        ) by {
            assert("remove"@[0] == 'r' && "remove"@[1] == 'e' && "remove"@[2] == 'm'
                && "remove"@[3] == 'o' && "remove"@[4] == 'v' && "remove"@[5] == 'e');
        }
    }
    assert(wf(objs[0]) && wf(objs[1]));
    assert(objs.drop_first() =~= seq![objs[1]]);
    assert(seq![objs[1]].drop_first() =~= Seq::<ObjectV>::empty());
    assert(objects_wf(Seq::<ObjectV>::empty()));
    assert(objects_wf(seq![objs[1]]));
    assert(objects_wf(objs));
    assert(wf(o));
    assert(char_bytes("remove"@) =~= seq![0x72u8, 0x65u8, 0x6du8, 0x6fu8, 0x76u8, 0x65u8]);
    assert(char_bytes(k) =~= encode_utf8(k)) by {
        vstd::utf8::is_ascii_chars_encode_utf8(k);
    }
    assert(nat_decimal(2) =~= seq![0x32u8]);
    assert(encoding_seq(Seq::<ObjectV>::empty()) == Seq::<u8>::empty());
    assert(encoding_seq(seq![objs[1]]) == encoding(objs[1]) + Seq::<u8>::empty());
    assert(encoding_seq(objs) == encoding(objs[0]) + (encoding(objs[1]) + Seq::<u8>::empty()));
    assert(wal_record(c).unwrap() =~= encoding(o));
}

/// The wire object of a mutating command names that command back.
pub proof fn lemma_wal_object_command(c: CommandV)
    requires
        command_writable(c),
        spec_possibly_dirty(c),
    ensures
        wal_object(c) is Some,
        command_of(wal_object(c).unwrap()) == Some(c),
        cmd_value_fits(c),
{
    reveal_strlit("get");
    reveal_strlit("set");
    reveal_strlit("remove");
    match c {
        CommandV::Get(_) => {
        },
        CommandV::Put(k, v) => {
            let objs = seq![
                ObjectV::SimpleString("set"@),
                ObjectV::SimpleString(k),
                ObjectV::BulkString(Some(encode_utf8(v))),
            ];
            assert(arg_string(objs[1]) == Some(k));
            vstd::utf8::encode_utf8_valid_utf8(v);
            vstd::utf8::encode_utf8_decode_utf8(v);
            assert(arg_string(objs[2]) == Some(v));
            assert(objs[0] != ObjectV::SimpleString("get"@)) by {
                assert("set"@.len() == 3 && "get"@.len() == 3);
                assert("set"@[0] == 's' && "get"@[0] == 'g');
            }
        },
        CommandV::Remove(k) => {
            let objs = seq![ObjectV::SimpleString("remove"@), ObjectV::SimpleString(k)];
            assert(arg_string(objs[1]) == Some(k));
            assert(objs[0] != ObjectV::SimpleString("get"@)) by {
                assert("remove"@.len() == 6 && "get"@.len() == 3);
            }
        },
    }
}

/// Reads the next replayable command from the front of `buf`.
///
/// Returns the command, if `buf` begins with a record naming one, and the
/// position the read stopped at, so a caller holding a file can rewind to
/// the end of the consumed record.
pub fn read_record(buf: &[u8]) -> (r: (Option<Command>, usize))
    ensures
        ({
            let out = spec_parse(buf@);
            match r.0 {
                Some(cmd) => out matches ParseOut::Parsed(v, c) && command_of(v) == Some(cmd@)
                    && r.1 == c && r.1 <= buf@.len(),
                None => r.1 <= buf@.len() && match out {
                    ParseOut::Parsed(v, c) => command_of(v) is None && r.1 == c,
                    ParseOut::Incomplete => r.1 == 0,
                    ParseOut::Invalid => r.1 == 1,
                },
            }
        }),
{
    let mut pos: usize = 0;
    proof {
        assert(buf@.skip(0) =~= buf@);
    }
    match parse(buf, &mut pos) {
        Ok(obj) => match Command::try_from(obj) {
            Ok(cmd) => (Some(cmd), pos),
            Err(_) => (None, pos),
        },
        Err(_) => (None, pos),
    }
}

/// The store state after replaying the log bytes from a given state:
/// records are executed in order until the bytes run out or a record fails
/// to parse as a command.
pub open spec fn replay_map(bytes: Seq<u8>, m: Map<Seq<char>, ObjectV>) -> Map<
    Seq<char>,
    ObjectV,
>
    decreases bytes.len(),
{
    match spec_parse(bytes) {
        ParseOut::Parsed(v, c) => match command_of(v) {
            Some(cmd) => if 0 < c <= bytes.len() && cmd_value_fits(cmd) {
                replay_map(bytes.skip(c as int), apply_map(m, cmd))
            } else {
                m
            },
            None => m,
        },
        _ => m,
    }
}

/// The store state after a run of commands.
pub open spec fn apply_all(m: Map<Seq<char>, ObjectV>, cmds: Seq<CommandV>) -> Map<
    Seq<char>,
    ObjectV,
>
    decreases cmds.len(),
{
    if cmds.len() == 0 {
        m
    } else {
        apply_all(apply_map(m, cmds[0]), cmds.drop_first())
    }
}

/// The whole log written for a run of commands: the concatenation of the
/// records of its mutating commands, in order.
pub open spec fn wal_stream(cmds: Seq<CommandV>) -> Seq<u8>
    decreases cmds.len(),
{
    if cmds.len() == 0 {
        Seq::empty()
    } else {
        let head: Seq<u8> = match wal_record(cmds[0]) {
            Some(rec) => rec,
            None => Seq::empty(),
        };
        head + wal_stream(cmds.drop_first())
    }
}

/// Law: replaying the log written for a run of writable commands rebuilds
/// exactly the store state those commands left behind, from any starting
/// state.
pub proof fn lemma_replay_fidelity(m: Map<Seq<char>, ObjectV>, cmds: Seq<CommandV>)
    requires
        forall|i: int| 0 <= i < cmds.len() ==> command_writable(#[trigger] cmds[i]),
    ensures
        replay_map(wal_stream(cmds), m) == apply_all(m, cmds),
    decreases cmds.len(),
{
    if cmds.len() > 0 {
        let c0 = cmds[0];
        let rest_cmds = cmds.drop_first();
        assert(forall|i: int|
            0 <= i < rest_cmds.len() ==> command_writable(#[trigger] rest_cmds[i])) by {
            assert(forall|i: int|
                0 <= i < rest_cmds.len() ==> rest_cmds[i] == cmds[i + 1]);
        }
        if spec_possibly_dirty(c0) {
            lemma_wal_record_canonical(c0);
            lemma_wal_object_command(c0);
            let o = wal_object(c0).unwrap();
            let rec = encoding(o);
            crate::object::lemma_parse_encoding_prefix(o, wal_stream(rest_cmds));
            assert(wal_stream(cmds) == rec + wal_stream(rest_cmds));
            assert(spec_parse(wal_stream(cmds)) == ParseOut::Parsed(o, rec.len() as nat));
            assert(rec.len() > 0) by {
                assert(rec == seq![0x2au8] + nat_decimal(
                    (match o {
                        ObjectV::Array(elems) => elems.len() as int,
                        _ => 0,
                    }),
                ) + crlf() + encoding_seq(
                    (match o {
                        ObjectV::Array(elems) => elems,
                        _ => Seq::empty(),
                    }),
                ));
            }
            assert(wal_stream(cmds).skip(rec.len() as int) =~= wal_stream(rest_cmds));
            lemma_replay_fidelity(apply_map(m, c0), rest_cmds);
        } else {
            assert(wal_record(c0) is None);
            assert(wal_stream(cmds) =~= wal_stream(rest_cmds));
            assert(apply_map(m, c0) == m);
            lemma_replay_fidelity(m, rest_cmds);
        }
    }
}

/// Whether a command's value fits the machine bound the store asks for.
pub fn value_fits(cmd: &Command) -> (r: bool)
    ensures
        r == cmd_value_fits(cmd@),
{
    match cmd {
        Command::Put(_, v) => (v.as_str().as_bytes().len() as u64) <= (i64::MAX as u64),
        _ => true,
    }
}

/// Replays one record from the front of `buf` into the store.
///
/// Returns whether replay goes on (a command was read and executed) and
/// the position the read stopped at.  Mirrors [`replay_map`] one step at a
/// time.
pub fn replay_record(db: &mut HashMapDatabase, buf: &[u8]) -> (r: (bool, usize))
    requires
        old(db).inv(),
    ensures
        final(db).inv(),
        r.1 <= buf@.len(),
        r.0 ==> r.1 > 0 && replay_map(buf@, old(db).db_view()) == replay_map(
            buf@.skip(r.1 as int),
            final(db).db_view(),
        ),
        !r.0 ==> final(db).db_view() == old(db).db_view() && replay_map(
            buf@,
            old(db).db_view(),
        ) == old(db).db_view(),
{
    let (cmd_opt, pos) = read_record(buf);
    match cmd_opt {
        Some(cmd) => {
            if value_fits(&cmd) {
                let _ = db.execute(cmd);
                (true, pos)
            } else {
                (false, pos)
            }
        },
        None => (false, pos),
    }
}

} // verus!
