use passage::command::{Command, NetCommand, NetCommandError};
use passage::connection::{Action, ConnectionState};
use passage::db::{Database, HashMapDatabase};
use passage::object::Object;
use passage::server::ServerEvent;
use passage::wal::{encode_wal_record, read_record, replay_record};

fn reply_bytes(acts: &[Action]) -> Vec<Vec<u8>> {
    let mut out = Vec::new();
    for a in acts {
        if let Action::Reply(b) = a {
            out.push(b.clone());
        }
    }
    out
}

fn wal_bytes(acts: &[Action]) -> Vec<Vec<u8>> {
    let mut out = Vec::new();
    for a in acts {
        if let Action::WalAppend(b) = a {
            out.push(b.clone());
        }
    }
    out
}

fn relay_bytes(acts: &[Action]) -> Vec<Vec<u8>> {
    let mut out = Vec::new();
    for a in acts {
        if let Action::Relay(b) = a {
            out.push(b.clone());
        }
    }
    out
}

#[test]
fn store_set_then_get() {
    let mut db = HashMapDatabase::new();
    let resp = db
        .execute(Command::Put("drink".to_string(), "water".to_string()))
        .unwrap();
    assert!(matches!(resp.object, Object::BulkString(None)));
    assert!(resp.is_dirty);

    let resp = db.execute(Command::Get("drink".to_string())).unwrap();
    assert!(matches!(resp.object, Object::BulkString(Some(v)) if v == b"water".to_vec()));
    assert!(!resp.is_dirty);
}

#[test]
fn store_overwrite_returns_previous() {
    let mut db = HashMapDatabase::new();
    db.execute(Command::Put("drink".to_string(), "water".to_string()))
        .unwrap();
    let resp = db
        .execute(Command::Put("drink".to_string(), "milk".to_string()))
        .unwrap();
    assert!(matches!(resp.object, Object::BulkString(Some(v)) if v == b"water".to_vec()));
    let resp = db.execute(Command::Get("drink".to_string())).unwrap();
    assert!(matches!(resp.object, Object::BulkString(Some(v)) if v == b"milk".to_vec()));
}

#[test]
fn store_remove_then_get() {
    let mut db = HashMapDatabase::new();
    db.execute(Command::Put("k".to_string(), "v".to_string()))
        .unwrap();
    let resp = db.execute(Command::Remove("k".to_string())).unwrap();
    assert!(matches!(resp.object, Object::BulkString(Some(v)) if v == b"v".to_vec()));
    assert!(resp.is_dirty);
    let resp = db.execute(Command::Get("k".to_string())).unwrap();
    assert!(matches!(resp.object, Object::BulkString(None)));
}

#[test]
fn store_remove_absent_not_dirty() {
    let mut db = HashMapDatabase::new();
    let resp = db.execute(Command::Remove("ghost".to_string())).unwrap();
    assert!(matches!(resp.object, Object::BulkString(None)));
    assert!(!resp.is_dirty);
}

#[test]
fn scenario_basic_set_get() {
    let mut db = HashMapDatabase::new();
    let mut conn = ConnectionState::new(false, "pw".to_string());

    let acts = conn.handle_incoming_command(b"*3\r\n+set\r\n+drink\r\n+water\r\n", &mut db);
    assert_eq!(reply_bytes(&acts), vec![b"$-1\r\n".to_vec()]);

    let acts = conn.handle_incoming_command(b"*2\r\n+get\r\n+drink\r\n", &mut db);
    assert_eq!(reply_bytes(&acts), vec![b"$5\r\nwater\r\n".to_vec()]);
    assert!(!conn.is_closed());
}

#[test]
fn scenario_overwrite_returns_previous() {
    let mut db = HashMapDatabase::new();
    let mut conn = ConnectionState::new(false, "pw".to_string());
    conn.handle_incoming_command(b"*3\r\n+set\r\n+drink\r\n+water\r\n", &mut db);
    let acts = conn.handle_incoming_command(b"*3\r\n+set\r\n+drink\r\n+milk\r\n", &mut db);
    assert_eq!(reply_bytes(&acts), vec![b"$5\r\nwater\r\n".to_vec()]);
}

#[test]
fn scenario_remove_absent() {
    let mut db = HashMapDatabase::new();
    let mut conn = ConnectionState::new(false, "pw".to_string());
    let acts = conn.handle_incoming_command(b"*2\r\n+remove\r\n+ghost\r\n", &mut db);
    assert_eq!(reply_bytes(&acts), vec![b"$-1\r\n".to_vec()]);
    // the remove is journalled but, having removed nothing, not relayed
    assert_eq!(wal_bytes(&acts).len(), 1);
    assert_eq!(relay_bytes(&acts).len(), 0);
}

#[test]
fn scenario_pipelined_requests() {
    let mut db = HashMapDatabase::new();
    let mut conn = ConnectionState::new(false, "pw".to_string());
    let acts = conn.handle_incoming_command(
        b"*2\r\n+get\r\n+a\r\n*3\r\n+set\r\n+a\r\n+1\r\n*2\r\n+get\r\n+a\r\n",
        &mut db,
    );
    assert_eq!(
        reply_bytes(&acts),
        vec![
            b"$-1\r\n".to_vec(),
            b"$-1\r\n".to_vec(),
            b"$1\r\n1\r\n".to_vec()
        ]
    );
}

#[test]
fn scenario_partial_read_reassembly() {
    let mut db = HashMapDatabase::new();
    let mut conn = ConnectionState::new(false, "pw".to_string());

    let acts = conn.handle_incoming_command(b"*3\r\n+set\r\n+k\r\n+", &mut db);
    assert!(acts.is_empty());
    assert!(!conn.is_closed());
    assert_eq!(conn.offset(), 15);

    let acts = conn.handle_incoming_command(b"v\r\n", &mut db);
    assert_eq!(reply_bytes(&acts), vec![b"$-1\r\n".to_vec()]);
    assert!(!conn.is_closed());
    assert_eq!(conn.offset(), 0);
}

#[test]
fn scenario_read_only_rejection() {
    let mut db = HashMapDatabase::new();
    let mut conn = ConnectionState::new(true, "pw".to_string());
    assert!(!conn.write_allowed());

    let acts = conn.handle_incoming_command(b"*3\r\n+set\r\n+x\r\n+y\r\n", &mut db);
    assert_eq!(
        reply_bytes(&acts),
        vec![b"-Read-only mode: Illegal command\r\n".to_vec()]
    );
    assert_eq!(wal_bytes(&acts).len(), 0);
    assert_eq!(relay_bytes(&acts).len(), 0);
    assert!(!conn.is_closed());

    let acts = conn.handle_incoming_command(b"*2\r\n+get\r\n+x\r\n", &mut db);
    assert_eq!(reply_bytes(&acts), vec![b"$-1\r\n".to_vec()]);
}

#[test]
fn scenario_leader_handshake_upgrades() {
    let mut db = HashMapDatabase::new();
    let mut conn = ConnectionState::new(true, "hunter2".to_string());

    let acts = conn.handle_incoming_command(b"*2\r\n+leader\r\n+hunter2\r\n", &mut db);
    assert!(acts.is_empty());
    assert!(!conn.is_closed());
    assert!(conn.write_allowed());

    let acts = conn.handle_incoming_command(b"*3\r\n+set\r\n+x\r\n+y\r\n", &mut db);
    assert_eq!(reply_bytes(&acts), vec![b"$-1\r\n".to_vec()]);
}

#[test]
fn scenario_leader_bad_password_closes() {
    let mut db = HashMapDatabase::new();
    let mut conn = ConnectionState::new(true, "hunter2".to_string());
    let acts = conn.handle_incoming_command(b"*2\r\n+leader\r\n+wrong\r\n", &mut db);
    assert!(acts.is_empty());
    assert!(conn.is_closed());
}

#[test]
fn scenario_oversized_record_closes() {
    let mut db = HashMapDatabase::new();
    let mut conn = ConnectionState::new(false, "pw".to_string());
    // a simple string that never ends fills the whole buffer
    let mut data = vec![b'+'];
    data.extend(std::iter::repeat(b'a').take(511));
    let acts = conn.handle_incoming_command(&data, &mut db);
    assert!(acts.is_empty());
    assert!(conn.is_closed());
}

#[test]
fn scenario_malformed_record_skipped() {
    let mut db = HashMapDatabase::new();
    let mut conn = ConnectionState::new(false, "pw".to_string());
    // a well-formed object that is no command, then a real command
    let acts = conn.handle_incoming_command(b"+hello\r\n*2\r\n+get\r\n+a\r\n", &mut db);
    assert_eq!(reply_bytes(&acts), vec![b"$-1\r\n".to_vec()]);
}

#[test]
fn wal_record_bytes_exact() {
    let rec = encode_wal_record(&Command::Put("foo".to_string(), "bar".to_string())).unwrap();
    assert_eq!(rec, b"*3\r\n+set\r\n+foo\r\n$3\r\nbar\r\n".to_vec());

    let rec = encode_wal_record(&Command::Remove("foo".to_string())).unwrap();
    assert_eq!(rec, b"*2\r\n+remove\r\n+foo\r\n".to_vec());

    assert!(encode_wal_record(&Command::Get("foo".to_string())).is_none());
}

#[test]
fn wal_read_record_round_trip() {
    let rec = encode_wal_record(&Command::Put("foo".to_string(), "bar".to_string())).unwrap();
    let (cmd, used) = read_record(&rec);
    assert_eq!(used, rec.len());
    assert!(matches!(cmd, Some(Command::Put(k, v)) if k == "foo" && v == "bar"));
}

#[test]
fn wal_replay_rebuilds_state() {
    // journal three mutations, then replay them into a fresh store
    let mut log: Vec<u8> = Vec::new();
    for cmd in [
        Command::Put("foo".to_string(), "bar".to_string()),
        Command::Put("baz".to_string(), "qux".to_string()),
        Command::Remove("baz".to_string()),
    ] {
        log.extend(encode_wal_record(&cmd).unwrap());
    }

    let mut db = HashMapDatabase::new();
    let mut at: usize = 0;
    loop {
        let (go, used) = replay_record(&mut db, &log[at..]);
        if !go {
            break;
        }
        at += used;
    }
    assert_eq!(at, log.len());

    let resp = db.execute(Command::Get("foo".to_string())).unwrap();
    assert!(matches!(resp.object, Object::BulkString(Some(v)) if v == b"bar".to_vec()));
    let resp = db.execute(Command::Get("baz".to_string())).unwrap();
    assert!(matches!(resp.object, Object::BulkString(None)));
}

#[test]
fn wal_replay_stops_at_garbage() {
    let mut log: Vec<u8> = Vec::new();
    log.extend(encode_wal_record(&Command::Put("a".to_string(), "1".to_string())).unwrap());
    log.extend(b"????");
    let mut db = HashMapDatabase::new();
    let (go, used) = replay_record(&mut db, &log);
    assert!(go);
    let (go, _) = replay_record(&mut db, &log[used..]);
    assert!(!go);
    let resp = db.execute(Command::Get("a".to_string())).unwrap();
    assert!(matches!(resp.object, Object::BulkString(Some(v)) if v == b"1".to_vec()));
}

#[test]
fn relay_preserves_write_order() {
    let mut db = HashMapDatabase::new();
    let mut conn = ConnectionState::new(false, "pw".to_string());
    let rec_a = b"*3\r\n+set\r\n+k\r\n+1\r\n".to_vec();
    let rec_b = b"*3\r\n+set\r\n+k\r\n+2\r\n".to_vec();
    let mut both = rec_a.clone();
    both.extend(&rec_b);
    let acts = conn.handle_incoming_command(&both, &mut db);
    assert_eq!(relay_bytes(&acts), vec![rec_a, rec_b]);
}

#[test]
fn follower_journals_relayed_writes_in_order() {
    // a follower connection upgraded by the leader handshake journals
    // relayed writes in arrival order
    let mut db = HashMapDatabase::new();
    let mut conn = ConnectionState::new(true, "pw".to_string());
    conn.handle_incoming_command(b"*2\r\n+leader\r\n+pw\r\n", &mut db);
    let acts =
        conn.handle_incoming_command(b"*3\r\n+set\r\n+k\r\n+1\r\n*2\r\n+remove\r\n+k\r\n", &mut db);
    assert_eq!(
        wal_bytes(&acts),
        vec![
            b"*3\r\n+set\r\n+k\r\n$1\r\n1\r\n".to_vec(),
            b"*2\r\n+remove\r\n+k\r\n".to_vec()
        ]
    );
}

#[test]
fn bulk_argument_keys_accepted() {
    let mut db = HashMapDatabase::new();
    let mut conn = ConnectionState::new(false, "pw".to_string());
    let acts = conn.handle_incoming_command(b"*3\r\n+set\r\n$5\r\ndrink\r\n$4\r\ncafe\r\n", &mut db);
    assert_eq!(reply_bytes(&acts), vec![b"$-1\r\n".to_vec()]);
    let acts = conn.handle_incoming_command(b"*2\r\n+get\r\n+drink\r\n", &mut db);
    assert_eq!(reply_bytes(&acts), vec![b"$4\r\ncafe\r\n".to_vec()]);
}

#[test]
fn invalid_utf8_argument_rejected() {
    let mut objs = Vec::new();
    objs.push(Object::SimpleString("get".to_string()));
    objs.push(Object::BulkString(Some(vec![0xff, 0xfe])));
    let res = Command::try_from(Object::Array(objs));
    assert!(res.is_err());

    let mut objs = Vec::new();
    objs.push(Object::SimpleString("get".to_string()));
    objs.push(Object::BulkString(Some("café".to_string().into_bytes())));
    let res = Command::try_from(Object::Array(objs));
    assert!(matches!(res, Ok(Command::Get(k)) if k == "café"));
}

#[test]
fn client_request_bytes() {
    let get = passage::client::get_request(&"drink".to_string());
    assert_eq!(get, b"*2\r\n+get\r\n+drink\r\n".to_vec());
    let set = passage::client::set_request(&"drink".to_string(), &"water".to_string());
    assert_eq!(set, b"*3\r\n+set\r\n+drink\r\n+water\r\n".to_vec());
    let remove = passage::client::remove_request(&"drink".to_string());
    assert_eq!(remove, b"*2\r\n+remove\r\n+drink\r\n".to_vec());
}

#[test]
fn server_event_classification() {
    assert!(matches!(
        ServerEvent::check(0, true, false),
        Some(ServerEvent::IncomingConnection)
    ));
    assert!(matches!(
        ServerEvent::check(0, true, true),
        Some(ServerEvent::IncomingConnection)
    ));
    assert!(matches!(
        ServerEvent::check(3, false, true),
        Some(ServerEvent::CloseConnection)
    ));
    assert!(matches!(
        ServerEvent::check(3, true, true),
        Some(ServerEvent::CloseConnection)
    ));
    assert!(matches!(
        ServerEvent::check(3, true, false),
        Some(ServerEvent::IncomingCommand)
    ));
    assert!(ServerEvent::check(3, false, false).is_none());
}

#[test]
fn possibly_dirty_classification() {
    assert!(!Command::Get("k".to_string()).possibly_dirty());
    assert!(Command::Put("k".to_string(), "v".to_string()).possibly_dirty());
    assert!(Command::Remove("k".to_string()).possibly_dirty());
}

#[test]
fn net_command_classification() {
    let mut objs = Vec::new();
    objs.push(Object::SimpleString("leader".to_string()));
    objs.push(Object::SimpleString("hunter2".to_string()));
    let ok = NetCommand::try_from(&Object::Array(objs));
    assert!(matches!(ok, Ok(NetCommand::Leader(p)) if p == "hunter2"));

    // a leader array whose password is not a simple string is malformed
    let mut objs = Vec::new();
    objs.push(Object::SimpleString("leader".to_string()));
    objs.push(Object::BulkString(Some(b"hunter2".to_vec())));
    let bad = NetCommand::try_from(&Object::Array(objs));
    assert!(matches!(bad, Err(NetCommandError::Invalid)));

    // anything else is simply not a net-command
    let mut objs = Vec::new();
    objs.push(Object::SimpleString("get".to_string()));
    objs.push(Object::SimpleString("k".to_string()));
    let not = NetCommand::try_from(&Object::Array(objs));
    assert!(matches!(not, Err(NetCommandError::NotANetCommand)));

    let bytes = NetCommand::Leader("pw".to_string()).into_object().into_bytes();
    assert_eq!(bytes, b"*2\r\n+leader\r\n+pw\r\n".to_vec());
}
