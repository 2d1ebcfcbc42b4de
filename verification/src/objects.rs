//! The earlier wire-object set: the same framing as [`crate::object`], but
//! without bulk strings.
//!
//! This smaller object set survives for callers of the first protocol
//! revision.  Its decoder rides on the full one: it refuses a buffer that
//! opens a bulk string, and refuses any decoded object with a bulk string
//! anywhere inside.

use vstd::prelude::*;

verus! {

use crate::object;
use crate::object::{ObjectV, ParseOut, spec_parse};

/// Outcome of a failed decode, as in the full object set.
#[derive(Debug)]
pub enum Error {
    Incomplete,
    InvalidInput,
    Io,
    Utf8,
}

/// A wire object of the earlier set: no bulk strings.
#[derive(Debug)]
pub enum Object {
    Array(Vec<Object>),
    SimpleString(String),
    Error(String),
    Integer(i64),
}

/// The mathematical shape of an earlier-set object.
pub ghost enum OldObjectV {
    Array(Seq<OldObjectV>),
    SimpleString(Seq<char>),
    Error(Seq<char>),
    Integer(int),
}

impl View for Object {
    type V = OldObjectV;

    open spec fn view(&self) -> OldObjectV
        decreases self, 0nat,
    {
        match self {
            Object::Array(elems) => OldObjectV::Array(view_old_objects(elems@)),
            Object::SimpleString(s) => OldObjectV::SimpleString(s@),
            Object::Error(s) => OldObjectV::Error(s@),
            Object::Integer(n) => OldObjectV::Integer(*n as int),
        }
    }
}

/// The views of a sequence of earlier-set objects, element by element.
pub open spec fn view_old_objects(s: Seq<Object>) -> Seq<OldObjectV>
    decreases s, 1nat,
{
    if s.len() == 0 {
        Seq::empty()
    } else {
        view_old_objects(s.drop_last()).push(s.last()@)
    }
}

/// The earlier-set shape of a full object, if it holds no bulk string.
pub open spec fn old_of(v: ObjectV) -> Option<OldObjectV>
    decreases v, 1nat,
{
    match v {
        ObjectV::Array(elems) => match old_of_seq(elems) {
            Some(ws) => Some(OldObjectV::Array(ws)),
            None => None,
        },
        ObjectV::SimpleString(s) => Some(OldObjectV::SimpleString(s)),
        ObjectV::Error(s) => Some(OldObjectV::Error(s)),
        ObjectV::Integer(n) => Some(OldObjectV::Integer(n)),
        ObjectV::BulkString(_) => None,
    }
}

/// The earlier-set shapes of a run of full objects, if none holds a bulk
/// string.
pub open spec fn old_of_seq(vs: Seq<ObjectV>) -> Option<Seq<OldObjectV>>
    decreases vs, 2nat,
{
    if vs.len() == 0 {
        Some(Seq::empty())
    } else {
        match old_of(vs[0]) {
            Some(w) => match old_of_seq(vs.drop_first()) {
                Some(ws) => Some(seq![w] + ws),
                None => None,
            },
            None => None,
        }
    }
}

/// Decoding one earlier-set object from the front of `bytes`: a buffer
/// that opens a bulk string is invalid, and so is a decoded object with a
/// bulk string anywhere inside.
pub open spec fn spec_parse_old(bytes: Seq<u8>) -> ParseOut {
    if bytes.len() > 0 && bytes[0] == 0x24u8 {
        ParseOut::Invalid
    } else {
        match spec_parse(bytes) {
            ParseOut::Parsed(v, c) => match old_of(v) {
                Some(_) => ParseOut::Parsed(v, c),
                None => ParseOut::Invalid,
            },
            out => out,
        }
    }
}

/// The earlier-set object a full object converts to, if it holds no bulk
/// string.
#[verifier::loop_isolation(false)]
#[verifier::rlimit(60)]
fn convert(o: &object::Object) -> (r: Option<Object>)
    ensures
        match r {
            Some(w) => old_of(o@) == Some(w@),
            None => old_of(o@) is None,
        },
    decreases o,
{
    match o {
        object::Object::SimpleString(s) => Some(Object::SimpleString(s.clone())),
        object::Object::Error(s) => Some(Object::Error(s.clone())),
        object::Object::Integer(n) => Some(Object::Integer(*n)),
        object::Object::BulkString(_) => None,
        object::Object::Array(elems) => {
            proof {
                object::lemma_view_objects(elems@);
            }
            let ghost vs = object::view_objects(elems@);
            proof {
                assert(o@ == ObjectV::Array(vs));
            }
            let mut out: Vec<Object> = Vec::new();
            let mut i: usize = 0;
            let n = elems.len();
            proof {
                assert(vs.skip(0) =~= vs);
                assert(view_old_objects(out@) =~= Seq::<OldObjectV>::empty());
                if let Some(ws) = old_of_seq(vs) {
                    assert(view_old_objects(out@) + ws =~= ws);
                }
            }
            while i < n
                invariant
                    i <= n,
                    n == elems@.len(),
                    vs == object::view_objects(elems@),
                    vs.len() == elems@.len(),
                    forall|j: int| 0 <= j < elems@.len() ==> #[trigger] vs[j] == elems@[j]@,
                    out@.len() == i,
                    old_of_seq(vs) == (match old_of_seq(vs.skip(i as int)) {
                        Some(ws) => Some(view_old_objects(out@) + ws),
                        None => None,
                    }),
                decreases n - i,
            {
                let ghost rest = vs.skip(i as int);
                proof {
                    assert(rest[0] == vs[i as int]);
                    assert(rest.drop_first() =~= vs.skip(i + 1));
                }
                match convert(&elems[i]) {
                    Some(w) => {
                        proof {
                            lemma_view_old_objects_push(out@, w);
                            if let Some(ws2) = old_of_seq(vs.skip(i + 1)) {
                                assert(view_old_objects(out@.push(w)) + ws2 =~= view_old_objects(
                                    out@,
                                ) + (seq![w@] + ws2));
                            }
                        }
                        out.push(w);
                    },
                    None => {
                        proof {
                            assert(old_of(rest[0]) is None);
                            assert(old_of_seq(rest) is None);
                            assert(old_of_seq(vs) is None);
                            assert(old_of(o@) is None);
                        }
                        return None;
                    },
                }
                i = i + 1;
            }
            proof {
                assert(vs.skip(n as int) =~= Seq::<ObjectV>::empty());
                assert(old_of_seq(vs.skip(n as int)) == Some(Seq::<OldObjectV>::empty()));
                if let Some(ws) = old_of_seq(vs) {
                    assert(view_old_objects(out@) + Seq::<OldObjectV>::empty() =~= view_old_objects(
                        out@,
                    ));
                }
                assert(old_of(o@) == Some(OldObjectV::Array(view_old_objects(out@))));
            }
            Some(Object::Array(out))
        },
    }
}

/// Pushing one earlier-set object extends the views by its view.
proof fn lemma_view_old_objects_push(s: Seq<Object>, w: Object)
    ensures
        view_old_objects(s.push(w)) == view_old_objects(s).push(w@),
{
    assert(s.push(w).drop_last() =~= s);
    assert(s.push(w).last() == w);
}

/// Decodes one earlier-set object from `input` starting at `*pos`, moving
/// `*pos` past the object, exactly as [`spec_parse_old`] names: unchanged
/// on `Incomplete`, one byte on from the start on `InvalidInput`.
pub fn parse(input: &[u8], pos: &mut usize) -> (r: Result<Object, Error>)
    requires
        *old(pos) <= input@.len(),
    ensures
        ({
            let out = spec_parse_old(input@.skip(*old(pos) as int));
            match r {
                Ok(o) => out matches ParseOut::Parsed(v, c) && old_of(v) == Some(o@) && c == (
                *final(pos) - *old(pos)) as nat && *old(pos) < *final(pos) <= input@.len(),
                Err(Error::Incomplete) => out is Incomplete && *final(pos) == *old(pos),
                Err(Error::InvalidInput) => out is Invalid && *final(pos) == *old(pos) + 1
                    && *final(pos) <= input@.len(),
                _ => false,
            }
        }),
{
    let start: usize = *pos;
    if start < input.len() && input[start] == 0x24 {
        proof {
            assert(input@.skip(start as int)[0] == input@[start as int]);
        }
        *pos = start + 1;
        return Err(Error::InvalidInput);
    }
    match object::parse(input, pos) {
        Ok(o) => match convert(&o) {
            Some(w) => Ok(w),
            None => {
                *pos = start + 1;
                Err(Error::InvalidInput)
            },
        },
        Err(object::Error::Incomplete) => Err(Error::Incomplete),
        Err(_) => Err(Error::InvalidInput),
    }
}

} // verus!
