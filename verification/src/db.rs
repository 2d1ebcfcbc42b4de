//! The in-memory store: a mapping from keys to wire objects, driven by
//! commands.
//!
//! The abstract state of a store is a map from key text to stored objects.
//! [`apply_map`], [`apply_reply`] and [`apply_dirty`] say, for each command,
//! what the next state, the reply and the dirtiness are; any engine behind
//! the [`Database`] trait is held to them.  The default engine keeps its
//! entries in a vector where the rightmost binding of a key wins.

use vstd::prelude::*;

verus! {

use vstd::utf8::encode_utf8;
use crate::command::{Command, CommandV};
use crate::object::{Object, ObjectV, wf};

/// The reply to one executed command, and whether it changed the store.
pub struct DatabaseResponse {
    pub object: Object,
    pub is_dirty: bool,
}

/// The error surface of a store engine.  The default engine is total and
/// never reports one; the kinds stand for an engine whose shared state can
/// be poisoned by a failed writer.
#[derive(Debug)]
pub enum DbError {
    ReadLock,
    WriteLock,
    Utf8,
}

/// How a `set` command stores a text value: as a non-nil bulk string of its
/// UTF-8 bytes.
pub open spec fn stored_value(v: Seq<char>) -> ObjectV {
    ObjectV::BulkString(Some(encode_utf8(v)))
}

/// A machine bound on values: the stored bytes of a `set` value must fit a
/// length prefix.
pub open spec fn cmd_value_fits(c: CommandV) -> bool {
    match c {
        CommandV::Put(_, v) => encode_utf8(v).len() <= i64::MAX,
        _ => true,
    }
}

/// The store state after a command.
pub open spec fn apply_map(m: Map<Seq<char>, ObjectV>, c: CommandV) -> Map<Seq<char>, ObjectV> {
    match c {
        CommandV::Get(_) => m,
        CommandV::Put(k, v) => m.insert(k, stored_value(v)),
        CommandV::Remove(k) => m.remove(k),
    }
}

/// The reply to a command: the value the key held before the command ran,
/// or the nil bulk string if it held none.
pub open spec fn apply_reply(m: Map<Seq<char>, ObjectV>, c: CommandV) -> ObjectV {
    let k = match c {
        CommandV::Get(k) => k,
        CommandV::Put(k, _) => k,
        CommandV::Remove(k) => k,
    };
    if m.contains_key(k) {
        m[k]
    } else {
        ObjectV::BulkString(None)
    }
}

/// Whether a command dirtied the store: a `set` always, a `remove` exactly
/// when it removed something, a `get` never.
pub open spec fn apply_dirty(m: Map<Seq<char>, ObjectV>, c: CommandV) -> bool {
    match c {
        CommandV::Get(_) => false,
        CommandV::Put(_, _) => true,
        CommandV::Remove(k) => m.contains_key(k),
    }
}

/// A store engine: the contract every engine must meet, stated over the
/// abstract map.
pub trait Database: Sized {
    /// The engine's internal invariant.
    spec fn inv(&self) -> bool;

    /// The abstract state: the mapping from key text to stored objects.
    spec fn db_view(&self) -> Map<Seq<char>, ObjectV>;

    /// Runs one command against the store.
    fn execute(&mut self, cmd: Command) -> (r: Result<DatabaseResponse, DbError>)
        requires
            old(self).inv(),
            cmd_value_fits(cmd@),
        ensures
            final(self).inv(),
            final(self).db_view() == apply_map(old(self).db_view(), cmd@),
            r matches Ok(resp) && resp.object@ == apply_reply(old(self).db_view(), cmd@) && wf(
                resp.object@,
            ) && resp.is_dirty == apply_dirty(old(self).db_view(), cmd@),
    ;
}

/// Law: once a `set` of `(k, v)` has run, a `get` of `k` replies with the
/// non-nil bulk string holding the bytes of `v`, on any starting state.
pub proof fn lemma_set_then_get(m: Map<Seq<char>, ObjectV>, k: Seq<char>, v: Seq<char>)
    ensures
        apply_reply(apply_map(m, CommandV::Put(k, v)), CommandV::Get(k)) == ObjectV::BulkString(
            Some(encode_utf8(v)),
        ),
        apply_map(apply_map(m, CommandV::Put(k, v)), CommandV::Get(k)) == apply_map(
            m,
            CommandV::Put(k, v),
        ),
{
}

/// Law: once a `remove` of `k` has run, a `get` of `k` replies with the nil
/// bulk string, on any starting state.
pub proof fn lemma_remove_then_get(m: Map<Seq<char>, ObjectV>, k: Seq<char>)
    ensures
        apply_reply(apply_map(m, CommandV::Remove(k)), CommandV::Get(k)) == ObjectV::BulkString(
            None,
        ),
{
}

/// The abstract map named by a sequence of entries: the rightmost binding
/// of each key wins.
pub open spec fn as_map(s: Seq<(String, Object)>) -> Map<Seq<char>, ObjectV>
    decreases s.len(),
{
    if s.len() == 0 {
        Map::empty()
    } else {
        as_map(s.drop_last()).insert(s.last().0@, s.last().1@)
    }
}

/// The rightmost value bound to a key, if any.
pub open spec fn lookup(s: Seq<(String, Object)>, k: Seq<char>) -> Option<ObjectV>
    decreases s.len(),
{
    if s.len() == 0 {
        None
    } else if s.last().0@ == k {
        Some(s.last().1@)
    } else {
        lookup(s.drop_last(), k)
    }
}

/// `lookup` reads the abstract map.
proof fn lemma_lookup_as_map(s: Seq<(String, Object)>, k: Seq<char>)
    ensures
        match lookup(s, k) {
            Some(v) => as_map(s).contains_key(k) && as_map(s)[k] == v,
            None => !as_map(s).contains_key(k),
        },
    decreases s.len(),
{
    if s.len() > 0 && s.last().0@ != k {
        lemma_lookup_as_map(s.drop_last(), k);
    }
}

/// Every stored object is well formed.
pub open spec fn entries_wf(s: Seq<(String, Object)>) -> bool {
    forall|i: int| 0 <= i < s.len() ==> wf(#[trigger] s[i].1@)
}

/// The default store engine.
pub struct HashMapDatabase {
    entries: Vec<(String, Object)>,
}

impl HashMapDatabase {
    /// An empty store.
    pub fn new() -> (r: Self)
        ensures
            r.inv(),
            r.db_view() == Map::<Seq<char>, ObjectV>::empty(),
    {
        HashMapDatabase { entries: Vec::new() }
    }

    /// The index of the rightmost entry whose key is `key`, if any.
    fn find(&self, key: &String) -> (r: Option<usize>)
        ensures
            match r {
                Some(i) => i < self.entries@.len() && self.entries@[i as int].0@ == key@
                    && lookup(self.entries@, key@) == Some(self.entries@[i as int].1@),
                None => lookup(self.entries@, key@) is None,
            },
    {
        let mut i: usize = self.entries.len();
        proof {
            assert(self.entries@.take(i as int) =~= self.entries@);
        }
        while i > 0
            invariant
                i <= self.entries@.len(),
                lookup(self.entries@, key@) == lookup(self.entries@.take(i as int), key@),
            decreases i,
        {
            i = i - 1;
            proof {
                assert(self.entries@.take(i + 1).last() == self.entries@[i as int]);
                assert(self.entries@.take(i + 1).drop_last() =~= self.entries@.take(i as int));
            }
            if self.entries[i].0.eq(key) {
                return Some(i);
            }
        }
        proof {
            assert(self.entries@.take(0) =~= Seq::<(String, Object)>::empty());
        }
        None
    }

    /// The value bound to `key`, or nil; never dirties the store.
    fn get(&self, key: &String) -> (r: Result<DatabaseResponse, DbError>)
        requires
            self.inv(),
        ensures
            r matches Ok(resp) && resp.object@ == apply_reply(
                self.db_view(),
                CommandV::Get(key@),
            ) && wf(resp.object@) && !resp.is_dirty,
    {
        proof {
            lemma_lookup_as_map(self.entries@, key@);
        }
        let object = match self.find(key) {
            Some(i) => self.entries[i].1.duplicate(),
            None => Object::BulkString(None),
        };
        Ok(DatabaseResponse { object, is_dirty: false })
    }

    /// Binds `key` to `value`, replying with the previous value or nil.
    fn set(&mut self, key: String, value: Object) -> (r: Result<DatabaseResponse, DbError>)
        requires
            old(self).inv(),
            wf(value@),
        ensures
            final(self).inv(),
            final(self).db_view() == old(self).db_view().insert(key@, value@),
            r matches Ok(resp) && resp.object@ == apply_reply(
                old(self).db_view(),
                CommandV::Get(key@),
            ) && wf(resp.object@) && resp.is_dirty,
    {
        proof {
            lemma_lookup_as_map(self.entries@, key@);
        }
        let object = match self.find(&key) {
            Some(i) => self.entries[i].1.duplicate(),
            None => Object::BulkString(None),
        };
        let ghost before = self.entries@;
        self.entries.push((key, value));
        proof {
            assert(self.entries@.drop_last() =~= before);
            assert forall|i: int| 0 <= i < self.entries@.len() implies wf(
                #[trigger] self.entries@[i].1@,
            ) by {
                if i < before.len() {
                    assert(self.entries@[i] == before[i]);
                }
            }
        }
        Ok(DatabaseResponse { object, is_dirty: true })
    }

    /// Unbinds `key`, replying with the value it held or nil.
    #[verifier::loop_isolation(false)]
    fn remove(&mut self, key: &String) -> (r: Result<DatabaseResponse, DbError>)
        requires
            old(self).inv(),
        ensures
            final(self).inv(),
            final(self).db_view() == old(self).db_view().remove(key@),
            r matches Ok(resp) && resp.object@ == apply_reply(
                old(self).db_view(),
                CommandV::Get(key@),
            ) && wf(resp.object@) && resp.is_dirty == old(self).db_view().contains_key(key@),
    {
        proof {
            lemma_lookup_as_map(self.entries@, key@);
        }
        let (object, is_dirty) = match self.find(key) {
            Some(i) => (self.entries[i].1.duplicate(), true),
            None => (Object::BulkString(None), false),
        };
        let ghost before = self.entries@;
        let mut out: Vec<(String, Object)> = Vec::new();
        let mut i: usize = 0;
        while i < self.entries.len()
            invariant
                i <= before.len(),
                self.entries@ == before,
                entries_wf(out@),
                as_map(out@) =~= as_map(before.take(i as int)).remove(key@),
            decreases before.len() - i,
        {
            proof {
                assert(before.take(i + 1).last() == before[i as int]);
                assert(before.take(i + 1).drop_last() =~= before.take(i as int));
            }
            if !self.entries[i].0.eq(key) {
                let ghost out_before = out@;
                let k2 = self.entries[i].0.clone();
                let v2 = self.entries[i].1.duplicate();
                out.push((k2, v2));
                proof {
                    assert(out@.drop_last() =~= out_before);
                    assert(as_map(out@) =~= as_map(before.take(i + 1)).remove(key@));
                    assert forall|j: int| 0 <= j < out@.len() implies wf(
                        #[trigger] out@[j].1@,
                    ) by {
                        if j < out_before.len() {
                            assert(out@[j] == out_before[j]);
                        }
                    }
                }
            } else {
                proof {
                    assert(as_map(out@) =~= as_map(before.take(i + 1)).remove(key@));
                }
            }
            i = i + 1;
        }
        proof {
            assert(before.take(before.len() as int) =~= before);
        }
        self.entries = out;
        Ok(DatabaseResponse { object, is_dirty })
    }
}

impl Database for HashMapDatabase {
    closed spec fn inv(&self) -> bool {
        entries_wf(self.entries@)
    }

    closed spec fn db_view(&self) -> Map<Seq<char>, ObjectV> {
        as_map(self.entries@)
    }

    fn execute(&mut self, cmd: Command) -> (r: Result<DatabaseResponse, DbError>) {
        match cmd {
            Command::Get(key) => self.get(&key),
            Command::Put(key, value) => {
                let bytes = value.as_str().as_bytes_vec();
                let obj = Object::BulkString(Some(bytes));
                self.set(key, obj)
            },
            Command::Remove(key) => self.remove(&key),
        }
    }
}

} // verus!
