//! The per-connection drain loop.
//!
//! A connection owns the unparsed tail of its byte stream and an
//! authorization mode.  When new bytes arrive, [`ConnectionState::handle_incoming_command`]
//! drains every complete record from the front of the buffer: net-commands
//! switch the mode or close the connection, user commands are journalled,
//! executed against the store and answered, and mutating commands have their
//! raw bytes relayed.  The function returns the resulting actions in order;
//! the caller performs the writes they name.  [`spec_drain`] is the
//! functional specification of the whole loop.

use vstd::prelude::*;

verus! {

use vstd::slice::{slice_subrange, slice_to_vec};
use vstd::string::StringExecFns;
use crate::object::{
    Error,
    Object,
    ObjectV,
    ParseOut,
    chars_wf,
    encoding,
    parse,
    spec_parse,
    wf,
};
use crate::command::{
    Command,
    CommandV,
    NetCommand,
    NetOut,
    command_of,
    net_command_of,
    spec_possibly_dirty,
};
use crate::db::{Database, DatabaseResponse, apply_dirty, apply_map, apply_reply, cmd_value_fits};
use crate::wal::{encode_wal_record, value_fits, wal_record};
use crate::MESSAGE_MAX_SIZE;

/// The authorization mode of a connection.
///
/// A client connection starts in `ReadWrite` on a primary and `Read` on a
/// follower; a `Read` connection that presents the cluster password becomes
/// `Leader` and may write.
#[derive(Debug, Clone, Copy, PartialEq, Eq, Structural)]
pub enum ConnectionMode {
    Leader,
    Read,
    ReadWrite,
}

/// Whether a connection in this mode may run mutating commands.
pub open spec fn spec_write_allowed(mode: ConnectionMode) -> bool {
    mode is Leader || mode is ReadWrite
}

/// One write the caller must perform, in order: append a record to the
/// write-ahead log, relay raw request bytes to the followers, or send a
/// reply to the client.
#[derive(Debug)]
pub enum Action {
    WalAppend(Vec<u8>),
    Relay(Vec<u8>),
    Reply(Vec<u8>),
}

/// The mathematical shape of an action.
pub ghost enum ActionV {
    WalAppend(Seq<u8>),
    Relay(Seq<u8>),
    Reply(Seq<u8>),
}

impl View for Action {
    type V = ActionV;

    open spec fn view(&self) -> ActionV {
        match self {
            Action::WalAppend(b) => ActionV::WalAppend(b@),
            Action::Relay(b) => ActionV::Relay(b@),
            Action::Reply(b) => ActionV::Reply(b@),
        }
    }
}

/// The views of a sequence of actions, element by element.
pub open spec fn view_actions(s: Seq<Action>) -> Seq<ActionV>
    decreases s,
{
    if s.len() == 0 {
        Seq::empty()
    } else {
        view_actions(s.drop_last()).push(s.last()@)
    }
}

/// The element views of a sequence of actions, pointwise.
pub proof fn lemma_view_actions(s: Seq<Action>)
    ensures
        view_actions(s).len() == s.len(),
        forall|i: int| 0 <= i < s.len() ==> #[trigger] view_actions(s)[i] == s[i]@,
    decreases s.len(),
{
    if s.len() > 0 {
        lemma_view_actions(s.drop_last());
        assert(view_actions(s) == view_actions(s.drop_last()).push(s.last()@));
        assert forall|i: int| 0 <= i < s.len() implies #[trigger] view_actions(s)[i]
            == s[i]@ by {
            if i < s.len() - 1 {
                assert(view_actions(s)[i] == view_actions(s.drop_last())[i]);
                assert(s.drop_last()[i] == s[i]);
            } else {
                assert(s.last() == s[i]);
            }
        }
    }
}

/// The reply sent when a mutating command reaches a read-only connection.
pub open spec fn error_reply() -> Seq<u8> {
    encoding(ObjectV::Error("Read-only mode: Illegal command"@))
}

/// What a whole drain did: the actions in order, the store state, the
/// connection mode and closedness it left, and the bytes it consumed.
#[verifier::ext_equal]
pub ghost struct DrainResult {
    pub actions: Seq<ActionV>,
    pub map: Map<Seq<char>, ObjectV>,
    pub mode: ConnectionMode,
    pub closed: bool,
    pub consumed: nat,
}

/// A finished drain: nothing more to do.
pub open spec fn drain_done(m: Map<Seq<char>, ObjectV>, mode: ConnectionMode) -> DrainResult {
    DrainResult { actions: Seq::empty(), map: m, mode, closed: false, consumed: 0 }
}

/// A drain step: `a` actions and `c` bytes, then the rest.
pub open spec fn drain_prepend(a: Seq<ActionV>, c: nat, dr: DrainResult) -> DrainResult {
    DrainResult {
        actions: a + dr.actions,
        map: dr.map,
        mode: dr.mode,
        closed: dr.closed,
        consumed: (c + dr.consumed) as nat,
    }
}

/// The actions one admitted command produces: its log record if it has one,
/// its raw request bytes to relay if it dirtied the store, and its reply.
pub open spec fn command_actions(
    raw: Seq<u8>,
    cmd: CommandV,
    m: Map<Seq<char>, ObjectV>,
) -> Seq<ActionV> {
    let wal_acts: Seq<ActionV> = match wal_record(cmd) {
        Some(rec) => seq![ActionV::WalAppend(rec)],
        None => Seq::empty(),
    };
    let relay_acts: Seq<ActionV> = if apply_dirty(m, cmd) {
        seq![ActionV::Relay(raw)]
    } else {
        Seq::empty()
    };
    wal_acts + relay_acts + seq![ActionV::Reply(encoding(apply_reply(m, cmd)))]
}

/// Draining every complete record from the front of `bytes`.
///
/// Records are taken one at a time.  A `leader` net-command with the right
/// password switches the mode; with the wrong one it closes the connection
/// and stops.  A malformed record or byte is skipped.  A mutating command
/// on a connection that may not write is answered with an error and touches
/// nothing; an admitted command is journalled, executed and answered, and
/// relayed when it dirtied the store.  Draining stops at the first
/// incomplete record.
pub open spec fn spec_drain(
    bytes: Seq<u8>,
    mode: ConnectionMode,
    pw: Seq<char>,
    m: Map<Seq<char>, ObjectV>,
) -> DrainResult
    decreases bytes.len(),
{
    if bytes.len() == 0 {
        drain_done(m, mode)
    } else {
        match spec_parse(bytes) {
            ParseOut::Incomplete => drain_done(m, mode),
            ParseOut::Invalid => drain_prepend(
                Seq::empty(),
                1,
                spec_drain(bytes.skip(1), mode, pw, m),
            ),
            ParseOut::Parsed(v, c) => {
                let cc: int = if 1 <= c <= bytes.len() {
                    c as int
                } else {
                    bytes.len() as int
                };
                let raw = bytes.take(cc);
                let rest = bytes.skip(cc);
                match net_command_of(v) {
                    NetOut::Leader(p) => if p == pw {
                        drain_prepend(
                            Seq::empty(),
                            cc as nat,
                            spec_drain(rest, ConnectionMode::Leader, pw, m),
                        )
                    } else {
                        DrainResult {
                            actions: Seq::empty(),
                            map: m,
                            mode,
                            closed: true,
                            consumed: cc as nat,
                        }
                    },
                    _ => match command_of(v) {
                        None => drain_prepend(
                            Seq::empty(),
                            cc as nat,
                            spec_drain(rest, mode, pw, m),
                        ),
                        Some(cmd) => if spec_possibly_dirty(cmd) && !spec_write_allowed(mode) {
                            drain_prepend(
                                seq![ActionV::Reply(error_reply())],
                                cc as nat,
                                spec_drain(rest, mode, pw, m),
                            )
                        } else if !cmd_value_fits(cmd) {
                            drain_prepend(
                                Seq::empty(),
                                cc as nat,
                                spec_drain(rest, mode, pw, m),
                            )
                        } else {
                            drain_prepend(
                                command_actions(raw, cmd, m),
                                cc as nat,
                                spec_drain(rest, mode, pw, apply_map(m, cmd)),
                            )
                        },
                    },
                }
            },
        }
    }
}

/// The per-connection state the request engine keeps between reads: the
/// unparsed tail of the stream, the authorization mode, and whether the
/// connection is marked for closing.
pub struct ConnectionState {
    buf: Vec<u8>,
    closed: bool,
    mode: ConnectionMode,
    password: String,
}

/// The mathematical shape of a connection's state.
pub ghost struct ConnectionV {
    pub pending: Seq<u8>,
    pub closed: bool,
    pub mode: ConnectionMode,
    pub password: Seq<char>,
}

impl View for ConnectionState {
    type V = ConnectionV;

    closed spec fn view(&self) -> ConnectionV {
        ConnectionV {
            pending: self.buf@,
            closed: self.closed,
            mode: self.mode,
            password: self.password@,
        }
    }
}

impl ConnectionState {
    /// A fresh connection: read-only on a follower, read-write on a
    /// primary, with an empty buffer.
    pub fn new(read_only: bool, password: String) -> (r: Self)
        ensures
            r@.pending == Seq::<u8>::empty(),
            !r@.closed,
            r@.mode == (if read_only {
                ConnectionMode::Read
            } else {
                ConnectionMode::ReadWrite
            }),
            r@.password == password@,
    {
        ConnectionState {
            buf: Vec::new(),
            closed: false,
            mode: if read_only {
                ConnectionMode::Read
            } else {
                ConnectionMode::ReadWrite
            },
            password,
        }
    }

    /// How many bytes of a partial record are waiting in the buffer.
    pub fn offset(&self) -> (r: usize)
        ensures
            r == self@.pending.len(),
    {
        self.buf.len()
    }

    /// Whether the connection is marked for closing.
    pub fn is_closed(&self) -> (r: bool)
        ensures
            r == self@.closed,
    {
        self.closed
    }

    /// Marks the connection for closing.
    pub fn mark_closed(&mut self)
        ensures
            final(self)@ == (ConnectionV { closed: true, ..old(self)@ }),
    {
        self.closed = true;
    }

    /// Whether this connection may run mutating commands.
    pub fn write_allowed(&self) -> (r: bool)
        ensures
            r == spec_write_allowed(self@.mode),
    {
        match self.mode {
            ConnectionMode::Leader => true,
            ConnectionMode::Read => false,
            ConnectionMode::ReadWrite => true,
        }
    }
}

/// The text of the read-only rejection, character by character.
pub open spec fn error_text() -> Seq<char> {
    seq![
        'R', 'e', 'a', 'd', '-', 'o', 'n', 'l', 'y', ' ', 'm', 'o', 'd', 'e', ':', ' ', 'I',
        'l', 'l', 'e', 'g', 'a', 'l', ' ', 'c', 'o', 'm', 'm', 'a', 'n', 'd',
    ]
}

/// The wire bytes of the read-only rejection reply.
fn error_reply_bytes() -> (r: Vec<u8>)
    ensures
        r@ == error_reply(),
{
    let text = String::from_str("Read-only mode: Illegal command");
    proof {
        reveal_strlit("Read-only mode: Illegal command");
        assert(text@ =~= error_text());
        assert(chars_wf(error_text()));
        assert(wf(ObjectV::Error(text@)));
    }
    Object::Error(text).into_bytes()
}

/// An empty or incomplete buffer drains to nothing.
proof fn lemma_drain_incomplete(
    bytes: Seq<u8>,
    mode: ConnectionMode,
    pw: Seq<char>,
    m: Map<Seq<char>, ObjectV>,
)
    requires
        bytes.len() == 0 || spec_parse(bytes) is Incomplete,
    ensures
        spec_drain(bytes, mode, pw, m) == drain_done(m, mode),
{
}

/// An invalid leading byte is skipped.
proof fn lemma_drain_invalid(
    bytes: Seq<u8>,
    mode: ConnectionMode,
    pw: Seq<char>,
    m: Map<Seq<char>, ObjectV>,
)
    requires
        bytes.len() > 0,
        spec_parse(bytes) is Invalid,
    ensures
        spec_drain(bytes, mode, pw, m) == drain_prepend(
            Seq::empty(),
            1nat,
            spec_drain(bytes.skip(1), mode, pw, m),
        ),
{
}

/// A `leader` record with the right password switches the mode.
proof fn lemma_drain_leader_ok(
    bytes: Seq<u8>,
    v: ObjectV,
    c: nat,
    mode: ConnectionMode,
    pw: Seq<char>,
    m: Map<Seq<char>, ObjectV>,
)
    requires
        spec_parse(bytes) == ParseOut::Parsed(v, c),
        1 <= c <= bytes.len(),
        net_command_of(v) == NetOut::Leader(pw),
    ensures
        spec_drain(bytes, mode, pw, m) == drain_prepend(
            Seq::empty(),
            c,
            spec_drain(bytes.skip(c as int), ConnectionMode::Leader, pw, m),
        ),
{
}

/// A `leader` record with the wrong password closes the connection.
proof fn lemma_drain_leader_mismatch(
    bytes: Seq<u8>,
    v: ObjectV,
    c: nat,
    p: Seq<char>,
    mode: ConnectionMode,
    pw: Seq<char>,
    m: Map<Seq<char>, ObjectV>,
)
    requires
        spec_parse(bytes) == ParseOut::Parsed(v, c),
        1 <= c <= bytes.len(),
        net_command_of(v) == NetOut::Leader(p),
        p != pw,
    ensures
        spec_drain(bytes, mode, pw, m) == (DrainResult {
            actions: Seq::empty(),
            map: m,
            mode,
            closed: true,
            consumed: c,
        }),
{
}

/// A record that names no admissible command is skipped.
proof fn lemma_drain_skip_record(
    bytes: Seq<u8>,
    v: ObjectV,
    c: nat,
    mode: ConnectionMode,
    pw: Seq<char>,
    m: Map<Seq<char>, ObjectV>,
)
    requires
        spec_parse(bytes) == ParseOut::Parsed(v, c),
        1 <= c <= bytes.len(),
        !(net_command_of(v) is Leader),
        match command_of(v) {
            None => true,
            Some(cmd) => !(spec_possibly_dirty(cmd) && !spec_write_allowed(mode))
                && !cmd_value_fits(cmd),
        },
    ensures
        spec_drain(bytes, mode, pw, m) == drain_prepend(
            Seq::empty(),
            c,
            spec_drain(bytes.skip(c as int), mode, pw, m),
        ),
{
}

/// A mutating command on a read-only connection is answered with an error
/// and touches nothing.
proof fn lemma_drain_deny(
    bytes: Seq<u8>,
    v: ObjectV,
    c: nat,
    cmd: CommandV,
    mode: ConnectionMode,
    pw: Seq<char>,
    m: Map<Seq<char>, ObjectV>,
)
    requires
        spec_parse(bytes) == ParseOut::Parsed(v, c),
        1 <= c <= bytes.len(),
        !(net_command_of(v) is Leader),
        command_of(v) == Some(cmd),
        spec_possibly_dirty(cmd),
        !spec_write_allowed(mode),
    ensures
        spec_drain(bytes, mode, pw, m) == drain_prepend(
            seq![ActionV::Reply(error_reply())],
            c,
            spec_drain(bytes.skip(c as int), mode, pw, m),
        ),
{
}

/// An admitted command is journalled, executed, relayed and answered.
proof fn lemma_drain_run(
    bytes: Seq<u8>,
    v: ObjectV,
    c: nat,
    cmd: CommandV,
    mode: ConnectionMode,
    pw: Seq<char>,
    m: Map<Seq<char>, ObjectV>,
)
    requires
        spec_parse(bytes) == ParseOut::Parsed(v, c),
        1 <= c <= bytes.len(),
        !(net_command_of(v) is Leader),
        command_of(v) == Some(cmd),
        !(spec_possibly_dirty(cmd) && !spec_write_allowed(mode)),
        cmd_value_fits(cmd),
    ensures
        spec_drain(bytes, mode, pw, m) == drain_prepend(
            command_actions(bytes.take(c as int), cmd, m),
            c,
            spec_drain(bytes.skip(c as int), mode, pw, apply_map(m, cmd)),
        ),
{
}

/// Two drain steps in a row are one drain step.
proof fn lemma_drain_compose(a1: Seq<ActionV>, c1: nat, a2: Seq<ActionV>, c2: nat, dr: DrainResult)
    ensures
        drain_prepend(a1, c1, drain_prepend(a2, c2, dr)) == drain_prepend(
            a1 + a2,
            (c1 + c2) as nat,
            dr,
        ),
{
    assert((a1 + a2) + dr.actions =~= a1 + (a2 + dr.actions));
    assert(drain_prepend(a1, c1, drain_prepend(a2, c2, dr)) =~= drain_prepend(
        a1 + a2,
        (c1 + c2) as nat,
        dr,
    ));
}

impl ConnectionState {
    /// Drains and answers every complete record in the buffer once `data`
    /// has arrived.
    ///
    /// Returns the writes to perform, in order.  What happened to the
    /// store, the mode and the connection is exactly what [`spec_drain`]
    /// names for the buffered bytes; afterwards the buffer holds the
    /// unparsed tail, and the connection is marked closed when the drain
    /// says so, or when nothing was consumed although the buffer is full
    /// (the peer exceeded the record ceiling).
    #[verifier::rlimit(100)]
    pub fn handle_incoming_command<D: Database>(&mut self, data: &[u8], db: &mut D) -> (acts:
        Vec<Action>)
        requires
            old(self)@.pending.len() + data@.len() <= MESSAGE_MAX_SIZE,
            !old(self)@.closed,
            old(db).inv(),
        ensures
            ({
                let total = old(self)@.pending + data@;
                let dr = spec_drain(
                    total,
                    old(self)@.mode,
                    old(self)@.password,
                    old(db).db_view(),
                );
                &&& view_actions(acts@) == dr.actions
                &&& final(db).inv()
                &&& final(db).db_view() == dr.map
                &&& final(self)@.mode == dr.mode
                &&& final(self)@.password == old(self)@.password
                &&& dr.consumed <= total.len()
                &&& final(self)@.pending == total.skip(dr.consumed as int)
                &&& final(self)@.closed == (dr.closed || (dr.consumed == 0 && total.len()
                    == MESSAGE_MAX_SIZE))
            }),
    {
        let ghost old_map = db.db_view();
        let ghost pw = self.password@;
        let ghost old_mode = self.mode;
        let mut work: Vec<u8> = Vec::new();
        work.append(&mut self.buf);
        work.extend_from_slice(data);
        let ghost total = work@;
        let total_len: usize = work.len();
        let mut pos: usize = 0;
        let mut acts: Vec<Action> = Vec::new();
        let mut cur_mode: ConnectionMode = self.mode;
        proof {
            assert(total == old(self)@.pending + data@);
            lemma_view_actions(acts@);
            assert(view_actions(acts@) =~= Seq::<ActionV>::empty());
            assert(total.skip(0) =~= total);
            let dr0 = spec_drain(total, old_mode, pw, old_map);
            assert(dr0 == drain_prepend(
                view_actions(acts@),
                0nat,
                spec_drain(total.skip(0), cur_mode, pw, db.db_view()),
            )) by {
                assert(Seq::<ActionV>::empty() + dr0.actions =~= dr0.actions);
                assert(drain_prepend(view_actions(acts@), 0nat, dr0) =~= dr0);
            }
        }
        while pos < total_len
            invariant
                total == old(self)@.pending + data@,
                total.len() <= MESSAGE_MAX_SIZE,
                pw == old(self)@.password,
                old_mode == old(self)@.mode,
                old_map == old(db).db_view(),
                self@.password == old(self)@.password,
                pos <= total.len(),
                total == work@,
                total_len == total.len(),
                db.inv(),
                spec_drain(total, old_mode, pw, old_map) == drain_prepend(
                    view_actions(acts@),
                    pos as nat,
                    spec_drain(total.skip(pos as int), cur_mode, pw, db.db_view()),
                ),
            decreases total.len() - pos,
        {
            let start: usize = pos;
            let ghost m_before = db.db_view();
            let ghost acts_before = view_actions(acts@);
            let ghost rest_bytes = total.skip(start as int);
            match parse(work.as_slice(), &mut pos) {
                Err(Error::Incomplete) => {
                    proof {
                        lemma_drain_incomplete(rest_bytes, cur_mode, pw, m_before);
                        assert(view_actions(acts@) + Seq::<ActionV>::empty() =~= view_actions(
                            acts@,
                        ));
                    }
                    let tail = slice_to_vec(slice_subrange(work.as_slice(), start, total_len));
                    proof {
                        assert(tail@ =~= total.skip(start as int));
                    }
                    self.buf = tail;
                    self.mode = cur_mode;
                    self.closed = start == 0 && total_len == MESSAGE_MAX_SIZE;
                    return acts;
                },
                Err(_) => {
                    proof {
                        assert(rest_bytes.len() > 0);
                        assert(rest_bytes.skip(1) =~= total.skip(start + 1));
                        lemma_drain_invalid(rest_bytes, cur_mode, pw, m_before);
                        lemma_drain_compose(
                            view_actions(acts@),
                            start as nat,
                            Seq::empty(),
                            1nat,
                            spec_drain(total.skip(start + 1), cur_mode, pw, m_before),
                        );
                        assert(view_actions(acts@) + Seq::<ActionV>::empty() =~= view_actions(
                            acts@,
                        ));
                    }
                },
                Ok(obj) => {
                    let ghost v = obj@;
                    let ghost cc = pos - start;
                    proof {
                        assert(spec_parse(rest_bytes) == ParseOut::Parsed(v, cc as nat));
                        assert(1 <= cc <= rest_bytes.len());
                        assert(rest_bytes.skip(cc as int) =~= total.skip(pos as int));
                    }
                    let ghost raw_spec = rest_bytes.take(cc as int);
                    match NetCommand::try_from(&obj) {
                        Ok(NetCommand::Leader(p)) => {
                            if p.eq(&self.password) {
                                let ghost prev_mode = cur_mode;
                                cur_mode = ConnectionMode::Leader;
                                proof {
                                    lemma_drain_leader_ok(
                                        rest_bytes,
                                        v,
                                        cc as nat,
                                        prev_mode,
                                        pw,
                                        m_before,
                                    );
                                    lemma_drain_compose(
                                        acts_before,
                                        start as nat,
                                        Seq::empty(),
                                        cc as nat,
                                        spec_drain(
                                            total.skip(pos as int),
                                            ConnectionMode::Leader,
                                            pw,
                                            m_before,
                                        ),
                                    );
                                    assert(acts_before + Seq::<ActionV>::empty()
                                        =~= acts_before);
                                }
                            } else {
                                proof {
                                    lemma_drain_leader_mismatch(
                                        rest_bytes,
                                        v,
                                        cc as nat,
                                        p@,
                                        cur_mode,
                                        pw,
                                        m_before,
                                    );
                                    assert(view_actions(acts@) + Seq::<ActionV>::empty()
                                        =~= view_actions(acts@));
                                }
                                let tail = slice_to_vec(
                                    slice_subrange(work.as_slice(), pos, total_len),
                                );
                                proof {
                                    assert(tail@ =~= total.skip(pos as int));
                                }
                                self.buf = tail;
                                self.mode = cur_mode;
                                self.closed = true;
                                return acts;
                            }
                        },
                        Err(_) => {
                            match Command::try_from(obj) {
                                Err(_) => {
                                    proof {
                                        lemma_drain_skip_record(
                                            rest_bytes,
                                            v,
                                            cc as nat,
                                            cur_mode,
                                            pw,
                                            m_before,
                                        );
                                        lemma_drain_compose(
                                            acts_before,
                                            start as nat,
                                            Seq::empty(),
                                            cc as nat,
                                            spec_drain(
                                                total.skip(pos as int),
                                                cur_mode,
                                                pw,
                                                m_before,
                                            ),
                                        );
                                        assert(acts_before + Seq::<ActionV>::empty()
                                            =~= acts_before);
                                    }
                                },
                                Ok(cmd) => {
                                    let ghost cmdv = cmd@;
                                    let is_dirty_cmd = cmd.possibly_dirty();
                                    let allowed = match cur_mode {
                                        ConnectionMode::Leader => true,
                                        ConnectionMode::Read => false,
                                        ConnectionMode::ReadWrite => true,
                                    };
                                    proof {
                                        assert(allowed == spec_write_allowed(cur_mode));
                                    }
                                    if is_dirty_cmd && !allowed {
                                        let err = error_reply_bytes();
                                        proof {
                                            lemma_view_actions_push(
                                                acts@,
                                                ActionV::Reply(err@),
                                            );
                                        }
                                        acts.push(Action::Reply(err));
                                        proof {
                                            lemma_drain_deny(
                                                rest_bytes,
                                                v,
                                                cc as nat,
                                                cmdv,
                                                cur_mode,
                                                pw,
                                                m_before,
                                            );
                                            lemma_drain_compose(
                                                acts_before,
                                                start as nat,
                                                seq![ActionV::Reply(error_reply())],
                                                cc as nat,
                                                spec_drain(
                                                    total.skip(pos as int),
                                                    cur_mode,
                                                    pw,
                                                    m_before,
                                                ),
                                            );
                                            assert(view_actions(acts@) =~= acts_before + seq![
                                                ActionV::Reply(error_reply()),
                                            ]);
                                        }
                                    } else if !value_fits(&cmd) {
                                        proof {
                                            lemma_drain_skip_record(
                                                rest_bytes,
                                                v,
                                                cc as nat,
                                                cur_mode,
                                                pw,
                                                m_before,
                                            );
                                            lemma_drain_compose(
                                                acts_before,
                                                start as nat,
                                                Seq::empty(),
                                                cc as nat,
                                                spec_drain(
                                                    total.skip(pos as int),
                                                    cur_mode,
                                                    pw,
                                                    m_before,
                                                ),
                                            );
                                            assert(acts_before + Seq::<ActionV>::empty()
                                                =~= acts_before);
                                        }
                                    } else {
                                        let raw = slice_to_vec(
                                            slice_subrange(work.as_slice(), start, pos),
                                        );
                                        proof {
                                            assert(raw@ =~= raw_spec);
                                        }
                                        run_command(db, cmd, raw, &mut acts);
                                        proof {
                                            lemma_drain_run(
                                                rest_bytes,
                                                v,
                                                cc as nat,
                                                cmdv,
                                                cur_mode,
                                                pw,
                                                m_before,
                                            );
                                            lemma_drain_compose(
                                                acts_before,
                                                start as nat,
                                                command_actions(raw_spec, cmdv, m_before),
                                                cc as nat,
                                                spec_drain(
                                                    total.skip(pos as int),
                                                    cur_mode,
                                                    pw,
                                                    apply_map(m_before, cmdv),
                                                ),
                                            );
                                        }
                                    }
                                },
                            }
                        },
                    }
                },
            }
        }
        proof {
            assert(total.skip(pos as int) =~= Seq::<u8>::empty());
            lemma_drain_incomplete(total.skip(pos as int), cur_mode, pw, db.db_view());
            assert(view_actions(acts@) + Seq::<ActionV>::empty() =~= view_actions(acts@));
        }
        let tail = slice_to_vec(slice_subrange(work.as_slice(), pos, total_len));
        proof {
            assert(tail@ =~= total.skip(pos as int));
        }
        self.buf = tail;
        self.mode = cur_mode;
        self.closed = pos == 0 && total_len == MESSAGE_MAX_SIZE;
        acts
    }
}

/// Journals, executes, relays and answers one admitted command, pushing
/// the actions it produces.
fn run_command<D: Database>(db: &mut D, cmd: Command, raw: Vec<u8>, acts: &mut Vec<Action>)
    requires
        old(db).inv(),
        cmd_value_fits(cmd@),
    ensures
        final(db).inv(),
        final(db).db_view() == apply_map(old(db).db_view(), cmd@),
        view_actions(final(acts)@) == view_actions(old(acts)@) + command_actions(
            raw@,
            cmd@,
            old(db).db_view(),
        ),
{
    let ghost cmdv = cmd@;
    let ghost m_before = db.db_view();
    let ghost acts_before = view_actions(acts@);
    let ghost wal_acts: Seq<ActionV> = match wal_record(cmdv) {
        Some(rec) => seq![ActionV::WalAppend(rec)],
        None => Seq::empty(),
    };
    match encode_wal_record(&cmd) {
        Some(rec) => {
            proof {
                lemma_view_actions_push(acts@, ActionV::WalAppend(rec@));
            }
            acts.push(Action::WalAppend(rec));
        },
        None => {
        },
    }
    proof {
        assert(view_actions(acts@) =~= acts_before + wal_acts);
    }
    let resp: DatabaseResponse = match db.execute(cmd) {
        Ok(r) => r,
        Err(_) => {
            proof {
                assert(false);
            }
            DatabaseResponse { object: Object::BulkString(None), is_dirty: false }
        },
    };
    let ghost relay_acts: Seq<ActionV> = if apply_dirty(m_before, cmdv) {
        seq![ActionV::Relay(raw@)]
    } else {
        Seq::empty()
    };
    if resp.is_dirty {
        proof {
            lemma_view_actions_push(acts@, ActionV::Relay(raw@));
        }
        acts.push(Action::Relay(raw));
    }
    proof {
        assert(view_actions(acts@) =~= acts_before + wal_acts + relay_acts);
    }
    let reply = resp.object.into_bytes();
    proof {
        lemma_view_actions_push(acts@, ActionV::Reply(reply@));
    }
    acts.push(Action::Reply(reply));
    proof {
        assert(view_actions(acts@) =~= acts_before + (wal_acts + relay_acts + seq![
            ActionV::Reply(encoding(apply_reply(m_before, cmdv))),
        ]));
        assert(command_actions(raw@, cmdv, m_before) == wal_acts + relay_acts + seq![
            ActionV::Reply(encoding(apply_reply(m_before, cmdv))),
        ]);
    }
}

/// A record that names a user command never names a net-command.
proof fn lemma_command_not_leader(v: ObjectV)
    requires
        command_of(v) is Some,
    ensures
        !(net_command_of(v) is Leader),
{
    reveal_strlit("get");
    reveal_strlit("set");
    reveal_strlit("remove");
    reveal_strlit("leader");
    assert("get"@.len() == 3 && "set"@.len() == 3 && "remove"@.len() == 6 && "leader"@.len()
        == 6);
    assert("remove"@[0] == 'r' && "leader"@[0] == 'l');
}

/// Law: on a connection in `Read` mode, a buffer holding one record that
/// names a mutating command drains to exactly one action, the read-only
/// error reply; the store is unchanged, nothing is journalled or relayed,
/// and the connection stays open in `Read` mode.
pub proof fn lemma_read_only_admission(
    bytes: Seq<u8>,
    v: ObjectV,
    c: nat,
    cmd: CommandV,
    pw: Seq<char>,
    m: Map<Seq<char>, ObjectV>,
)
    requires
        spec_parse(bytes) == ParseOut::Parsed(v, c),
        1 <= c,
        c == bytes.len(),
        command_of(v) == Some(cmd),
        spec_possibly_dirty(cmd),
    ensures
        ({
            let dr = spec_drain(bytes, ConnectionMode::Read, pw, m);
            &&& dr.actions == seq![ActionV::Reply(error_reply())]
            &&& dr.map == m
            &&& dr.mode == ConnectionMode::Read
            &&& !dr.closed
            &&& dr.consumed == c
        }),
{
    lemma_command_not_leader(v);
    lemma_drain_deny(bytes, v, c, cmd, ConnectionMode::Read, pw, m);
    assert(bytes.skip(c as int) =~= Seq::<u8>::empty());
    lemma_drain_incomplete(bytes.skip(c as int), ConnectionMode::Read, pw, m);
    assert(seq![ActionV::Reply(error_reply())] + Seq::<ActionV>::empty() =~= seq![
        ActionV::Reply(error_reply()),
    ]);
}

/// Law: two mutating writes accepted in order on a writable connection
/// produce their journal, relay and reply writes in that order: every
/// action of the first record stands before every action of the second.
/// Applied with `Leader` mode, this is the follower's side as well: a
/// follower journals the first relayed write before the second.
pub proof fn lemma_replication_order(
    a: CommandV,
    b: CommandV,
    mode: ConnectionMode,
    pw: Seq<char>,
    m: Map<Seq<char>, ObjectV>,
)
    requires
        spec_possibly_dirty(a),
        spec_possibly_dirty(b),
        crate::wal::command_writable(a),
        crate::wal::command_writable(b),
        spec_write_allowed(mode),
    ensures
        ({
            let ra = wal_record(a).unwrap();
            let rb = wal_record(b).unwrap();
            let dr = spec_drain(ra + rb, mode, pw, m);
            &&& dr.actions == command_actions(ra, a, m) + command_actions(
                rb,
                b,
                apply_map(m, a),
            )
            &&& dr.map == apply_map(apply_map(m, a), b)
            &&& dr.mode == mode
            &&& !dr.closed
            &&& dr.consumed == ra.len() + rb.len()
        }),
{
    crate::wal::lemma_wal_record_canonical(a);
    crate::wal::lemma_wal_object_command(a);
    crate::wal::lemma_wal_record_canonical(b);
    crate::wal::lemma_wal_object_command(b);
    let oa = crate::wal::wal_object(a).unwrap();
    let ob = crate::wal::wal_object(b).unwrap();
    let ra = wal_record(a).unwrap();
    let rb = wal_record(b).unwrap();
    crate::object::lemma_parse_encoding_prefix(oa, rb);
    assert(spec_parse(ra + rb) == ParseOut::Parsed(oa, ra.len() as nat));
    assert(ra.len() >= 1) by {
        crate::object::lemma_parse_encoding(oa);
        assert(spec_parse(Seq::<u8>::empty()) is Incomplete);
        if ra.len() == 0 {
            assert(ra =~= Seq::<u8>::empty());
        }
    }
    lemma_command_not_leader(oa);
    lemma_drain_run(ra + rb, oa, ra.len() as nat, a, mode, pw, m);
    assert((ra + rb).skip(ra.len() as int) =~= rb);
    assert((ra + rb).take(ra.len() as int) =~= ra);
    crate::object::lemma_parse_encoding(ob);
    assert(rb.len() >= 1) by {
        assert(spec_parse(Seq::<u8>::empty()) is Incomplete);
        if rb.len() == 0 {
            assert(rb =~= Seq::<u8>::empty());
        }
    }
    lemma_command_not_leader(ob);
    assert(rb.take(rb.len() as int) =~= rb);
    lemma_drain_run(rb, ob, rb.len() as nat, b, mode, pw, apply_map(m, a));
    assert(rb.skip(rb.len() as int) =~= Seq::<u8>::empty());
    lemma_drain_incomplete(
        rb.skip(rb.len() as int),
        mode,
        pw,
        apply_map(apply_map(m, a), b),
    );
    assert(command_actions(rb, b, apply_map(m, a)) + Seq::<ActionV>::empty() =~= command_actions(
        rb,
        b,
        apply_map(m, a),
    ));
}

/// Pushing one action extends the action views by its view.
proof fn lemma_view_actions_push(s: Seq<Action>, av: ActionV)
    ensures
        forall|a: Action| a@ == av ==> view_actions(s.push(a)) == view_actions(s).push(av),
{
    assert forall|a: Action| a@ == av implies view_actions(s.push(a)) == view_actions(s).push(
        av,
    ) by {
        assert(s.push(a).drop_last() =~= s);
        assert(s.push(a).last() == a);
        assert(view_actions(s.push(a)) == view_actions(s.push(a).drop_last()).push(
            s.push(a).last()@,
        ));
    }
}

} // verus!
