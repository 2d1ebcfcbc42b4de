//! The wire-object codec.
//!
//! A wire `Object` is a tagged value in a Redis-style framing: a leading type
//! byte, CRLF terminators, and length prefixes for bulk strings and arrays.
//! `parse` decodes one object from a byte buffer, resumably: on a truncated
//! buffer it reports `Error::Incomplete` and leaves the position untouched so
//! the caller can retry once more bytes have arrived.  `Object::into_bytes`
//! encodes an object; `lemma_parse_encoding` shows the two are inverses.

use vstd::prelude::*;

verus! {

use vstd::slice::{slice_subrange, slice_to_vec};
use vstd::utf8::{
    valid_utf8,
    decode_utf8,
    encode_utf8,
    is_ascii_chars,
    is_ascii_chars_encode_utf8,
    encode_utf8_valid_utf8,
    encode_utf8_decode_utf8,
};

/// Outcome of a failed decode.
///
/// `Incomplete` means the buffer does not yet hold a full object; the caller
/// should keep the unread bytes and retry later.  `InvalidInput` means a
/// framing byte or length was malformed; the decoder skips one byte so a
/// caller may attempt to resynchronise.  `Io` and `Utf8` complete the error
/// surface of the codec boundary for callers that wrap it around readers;
/// the decoder itself reports only the first two.
#[derive(Debug)]
pub enum Error {
    Incomplete,
    InvalidInput,
    Io,
    Utf8,
}

/// A wire object: the value space of the protocol.
///
/// Invariants, captured by [`wf`] on the view: `SimpleString` and `Error`
/// payloads hold only printable ASCII (bytes 0x20 through 0x7E); a
/// `BulkString` payload is raw bytes, with `None` standing for nil.
#[derive(Debug)]
pub enum Object {
    Array(Vec<Object>),
    SimpleString(String),
    Error(String),
    Integer(i64),
    BulkString(Option<Vec<u8>>),
}

/// The mathematical shape of a wire object.
pub ghost enum ObjectV {
    Array(Seq<ObjectV>),
    SimpleString(Seq<char>),
    Error(Seq<char>),
    Integer(int),
    BulkString(Option<Seq<u8>>),
}

impl View for Object {
    type V = ObjectV;

    open spec fn view(&self) -> ObjectV
        decreases self, 0nat,
    {
        match self {
            Object::Array(elems) => ObjectV::Array(view_objects(elems@)),
            Object::SimpleString(s) => ObjectV::SimpleString(s@),
            Object::Error(s) => ObjectV::Error(s@),
            Object::Integer(n) => ObjectV::Integer(*n as int),
            Object::BulkString(Some(b)) => ObjectV::BulkString(Some(b@)),
            Object::BulkString(None) => ObjectV::BulkString(None),
        }
    }
}

/// The views of a sequence of objects, element by element.
pub open spec fn view_objects(s: Seq<Object>) -> Seq<ObjectV>
    decreases s, 1nat,
{
    if s.len() == 0 {
        Seq::empty()
    } else {
        view_objects(s.drop_last()).push(s.last()@)
    }
}

/// A payload character a simple string or error may carry: printable ASCII.
pub open spec fn simple_char_ok(c: char) -> bool {
    ' ' <= c <= '~'
}

/// A byte the decoder accepts inside a simple string or error payload.
pub open spec fn simple_byte_ok(b: u8) -> bool {
    0x20 <= b <= 0x7e
}

/// An ASCII decimal digit byte.
pub open spec fn digit_ok(b: u8) -> bool {
    0x30 <= b <= 0x39
}

/// All characters of a simple-string or error payload are printable ASCII.
pub open spec fn chars_wf(s: Seq<char>) -> bool {
    forall|i: int| 0 <= i < s.len() ==> simple_char_ok(#[trigger] s[i])
}

/// Well-formedness of an object: the payload invariants of the data model.
pub open spec fn wf(v: ObjectV) -> bool
    decreases v, 0nat,
{
    match v {
        ObjectV::Array(elems) => elems.len() <= i64::MAX && objects_wf(elems),
        ObjectV::SimpleString(s) => chars_wf(s),
        ObjectV::Error(s) => chars_wf(s),
        ObjectV::Integer(n) => i64::MIN <= n <= i64::MAX,
        ObjectV::BulkString(Some(b)) => b.len() <= i64::MAX,
        ObjectV::BulkString(None) => true,
    }
}

/// Well-formedness of every object in a sequence.
pub open spec fn objects_wf(elems: Seq<ObjectV>) -> bool
    decreases elems, 1nat,
{
    elems.len() == 0 || (wf(elems[0]) && objects_wf(elems.drop_first()))
}

/// `objects_wf` says exactly that each element is well formed.
pub proof fn lemma_objects_wf(elems: Seq<ObjectV>)
    ensures
        objects_wf(elems) <==> (forall|i: int| 0 <= i < elems.len() ==> wf(#[trigger] elems[i])),
    decreases elems.len(),
{
    if elems.len() > 0 {
        lemma_objects_wf(elems.drop_first());
        if objects_wf(elems) {
            assert forall|i: int| 0 <= i < elems.len() implies wf(#[trigger] elems[i]) by {
                if i > 0 {
                    assert(wf(elems.drop_first()[i - 1]));
                }
            }
        }
        if forall|i: int| 0 <= i < elems.len() ==> wf(#[trigger] elems[i]) {
            assert forall|i: int|
                0 <= i < elems.drop_first().len() implies wf(
                #[trigger] elems.drop_first()[i],
            ) by {
                assert(elems.drop_first()[i] == elems[i + 1]);
            }
        }
    }
}

/// The byte a decimal digit is rendered as.
pub open spec fn digit_byte(d: int) -> u8 {
    (0x30 + d) as u8
}

/// Decimal rendering of a non-negative integer, most significant digit first.
pub open spec fn nat_decimal(n: int) -> Seq<u8>
    recommends
        n >= 0,
    decreases n,
{
    if n <= 9 {
        seq![digit_byte(n)]
    } else {
        nat_decimal(n / 10).push(digit_byte(n % 10))
    }
}

/// Decimal rendering of an integer, with a leading minus sign if negative.
pub open spec fn int_decimal(n: int) -> Seq<u8> {
    if n < 0 {
        seq![0x2du8] + nat_decimal(-n)
    } else {
        nat_decimal(n)
    }
}

/// The record terminator: carriage return, line feed.
pub open spec fn crlf() -> Seq<u8> {
    seq![0x0du8, 0x0au8]
}

/// ASCII characters rendered as their single bytes.
pub open spec fn char_bytes(s: Seq<char>) -> Seq<u8> {
    s.map_values(|c: char| c as u8)
}

/// The wire encoding of an object, per the protocol grammar.
pub open spec fn encoding(v: ObjectV) -> Seq<u8>
    decreases v, 0nat,
{
    match v {
        ObjectV::SimpleString(s) => seq![0x2bu8] + char_bytes(s) + crlf(),
        ObjectV::Error(s) => seq![0x2du8] + char_bytes(s) + crlf(),
        ObjectV::Integer(n) => seq![0x3au8] + int_decimal(n) + crlf(),
        ObjectV::BulkString(None) => seq![0x24u8, 0x2du8, 0x31u8] + crlf(),
        ObjectV::BulkString(Some(b)) => seq![0x24u8] + nat_decimal(b.len() as int) + crlf() + b
            + crlf(),
        ObjectV::Array(elems) => seq![0x2au8] + nat_decimal(elems.len() as int) + crlf()
            + encoding_seq(elems),
    }
}

/// The concatenated encodings of a sequence of objects.
pub open spec fn encoding_seq(elems: Seq<ObjectV>) -> Seq<u8>
    decreases elems, 1nat,
{
    if elems.len() == 0 {
        Seq::empty()
    } else {
        encoding(elems[0]) + encoding_seq(elems.drop_first())
    }
}

/// Outcome of decoding one object from the front of a byte sequence.
///
/// `Parsed` carries the object and the number of bytes it occupied.  The
/// decoder that fails with `Invalid` consumes exactly one byte, so a caller
/// that scans onward resumes at the next byte.
pub ghost enum ParseOut {
    Incomplete,
    Invalid,
    Parsed(ObjectV, nat),
}

/// Outcome of reading a decimal integer (optional sign, then digits).
pub ghost enum IntOut {
    Incomplete,
    Invalid,
    IntParsed(int, nat),
}

/// Outcome of checking for a CRLF terminator.
pub ghost enum CrlfOut {
    Incomplete,
    Invalid,
    CrlfOk,
}

/// Length of the longest prefix made of simple-string bytes.
pub open spec fn simple_len(bytes: Seq<u8>) -> nat
    decreases bytes.len(),
{
    if bytes.len() == 0 || !simple_byte_ok(bytes[0]) {
        0
    } else {
        (1 + simple_len(bytes.drop_first())) as nat
    }
}

/// Length of the longest prefix made of decimal digit bytes.
pub open spec fn digits_len(bytes: Seq<u8>) -> nat
    decreases bytes.len(),
{
    if bytes.len() == 0 || !digit_ok(bytes[0]) {
        0
    } else {
        (1 + digits_len(bytes.drop_first())) as nat
    }
}

/// Value of a digit string, most significant digit first.
pub open spec fn digits_val(bytes: Seq<u8>) -> int
    decreases bytes.len(),
{
    if bytes.len() == 0 {
        0
    } else {
        digits_val(bytes.drop_last()) * 10 + (bytes.last() - 0x30)
    }
}

/// Reading a decimal integer from the front of `bytes`.
///
/// Mirrors the decoder: an optional minus sign, then at least one digit.  If
/// the digits run to the end of the buffer the number may continue in a later
/// packet, so the read is `Incomplete`.  A value outside the machine integer
/// range is `Invalid`.
pub open spec fn spec_read_integer(bytes: Seq<u8>) -> IntOut {
    if bytes.len() == 0 {
        IntOut::Incomplete
    } else {
        let neg = bytes[0] == 0x2du8;
        let rest = if neg { bytes.drop_first() } else { bytes };
        let off: nat = if neg { 1 } else { 0 };
        let d = digits_len(rest);
        if d == rest.len() {
            IntOut::Incomplete
        } else if d == 0 {
            IntOut::Invalid
        } else {
            let val = digits_val(rest.take(d as int));
            let sval = if neg { -val } else { val };
            if i64::MIN <= sval <= i64::MAX {
                IntOut::IntParsed(sval, (off + d) as nat)
            } else {
                IntOut::Invalid
            }
        }
    }
}

/// Checking for a CRLF at the front of `bytes`.
pub open spec fn spec_read_crlf(bytes: Seq<u8>) -> CrlfOut {
    if bytes.len() < 2 {
        CrlfOut::Incomplete
    } else if bytes[0] == 0x0du8 && bytes[1] == 0x0au8 {
        CrlfOut::CrlfOk
    } else {
        CrlfOut::Invalid
    }
}

/// Clamped drop of the first `n` bytes, total on any count.
pub open spec fn skip_up_to(bytes: Seq<u8>, n: int) -> Seq<u8> {
    if n <= 0 {
        bytes
    } else if n >= bytes.len() {
        Seq::empty()
    } else {
        bytes.skip(n)
    }
}

/// Decoding one object from the front of `bytes`.
///
/// This is the functional specification the executable decoder is proved
/// against, and the ground truth for the round-trip and progress laws.
pub open spec fn spec_parse(bytes: Seq<u8>) -> ParseOut
    decreases bytes.len(), 0nat,
{
    if bytes.len() == 0 {
        ParseOut::Incomplete
    } else {
        let rest = bytes.drop_first();
        if bytes[0] == 0x2bu8 {
            spec_parse_simple_payload(rest, false)
        } else if bytes[0] == 0x2du8 {
            spec_parse_simple_payload(rest, true)
        } else if bytes[0] == 0x3au8 {
            spec_parse_integer_payload(rest)
        } else if bytes[0] == 0x2au8 {
            spec_parse_array_payload(rest)
        } else if bytes[0] == 0x24u8 {
            spec_parse_bulk_payload(rest)
        } else {
            ParseOut::Invalid
        }
    }
}

/// Decoding the payload of a simple string (or error) after its type byte.
pub open spec fn spec_parse_simple_payload(rest: Seq<u8>, is_error: bool) -> ParseOut {
    let k = simple_len(rest);
    match spec_read_crlf(rest.skip(k as int)) {
        CrlfOut::Incomplete => ParseOut::Incomplete,
        CrlfOut::Invalid => ParseOut::Invalid,
        CrlfOut::CrlfOk => {
            let s = rest.take(k as int).map_values(|b: u8| b as char);
            ParseOut::Parsed(
                if is_error {
                    ObjectV::Error(s)
                } else {
                    ObjectV::SimpleString(s)
                },
                (1 + k + 2) as nat,
            )
        },
    }
}

/// Decoding the payload of an integer object after its type byte.
pub open spec fn spec_parse_integer_payload(rest: Seq<u8>) -> ParseOut {
    match spec_read_integer(rest) {
        IntOut::Incomplete => ParseOut::Incomplete,
        IntOut::Invalid => ParseOut::Invalid,
        IntOut::IntParsed(n, c) => match spec_read_crlf(skip_up_to(rest, c as int)) {
            CrlfOut::Incomplete => ParseOut::Incomplete,
            CrlfOut::Invalid => ParseOut::Invalid,
            CrlfOut::CrlfOk => ParseOut::Parsed(ObjectV::Integer(n), (1 + c + 2) as nat),
        },
    }
}

/// Decoding the payload of an array (length header, then that many objects)
/// after its type byte.
pub open spec fn spec_parse_array_payload(rest: Seq<u8>) -> ParseOut
    decreases rest.len(), 0nat,
{
    match spec_read_integer(rest) {
        IntOut::Incomplete => ParseOut::Incomplete,
        IntOut::Invalid => ParseOut::Invalid,
        IntOut::IntParsed(n, c) => match spec_read_crlf(skip_up_to(rest, c as int)) {
            CrlfOut::Incomplete => ParseOut::Incomplete,
            CrlfOut::Invalid => ParseOut::Invalid,
            CrlfOut::CrlfOk => if n < 0 {
                ParseOut::Invalid
            } else {
                match spec_parse_elems(skip_up_to(rest, c + 2int), n) {
                    ElemsOut::Incomplete => ParseOut::Incomplete,
                    ElemsOut::Invalid => ParseOut::Invalid,
                    ElemsOut::ElemsParsed(vs, c2) => ParseOut::Parsed(
                        ObjectV::Array(vs),
                        (1 + c + 2 + c2) as nat,
                    ),
                }
            },
        },
    }
}

/// Decoding the payload of a bulk string after its type byte.
pub open spec fn spec_parse_bulk_payload(rest: Seq<u8>) -> ParseOut {
    match spec_read_integer(rest) {
        IntOut::Incomplete => ParseOut::Incomplete,
        IntOut::Invalid => ParseOut::Invalid,
        IntOut::IntParsed(n, c) => match spec_read_crlf(skip_up_to(rest, c as int)) {
            CrlfOut::Incomplete => ParseOut::Incomplete,
            CrlfOut::Invalid => ParseOut::Invalid,
            CrlfOut::CrlfOk => if n == -1 {
                ParseOut::Parsed(ObjectV::BulkString(None), (1 + c + 2) as nat)
            } else if n < 0 {
                ParseOut::Invalid
            } else {
                let body = skip_up_to(rest, c + 2int);
                if body.len() < n {
                    ParseOut::Incomplete
                } else {
                    match spec_read_crlf(body.skip(n)) {
                        CrlfOut::Incomplete => ParseOut::Incomplete,
                        CrlfOut::Invalid => ParseOut::Invalid,
                        CrlfOut::CrlfOk => ParseOut::Parsed(
                            ObjectV::BulkString(Some(body.take(n))),
                            (1 + c + 2 + n + 2) as nat,
                        ),
                    }
                }
            },
        },
    }
}

/// Outcome of decoding a run of `n` consecutive objects.
pub ghost enum ElemsOut {
    Incomplete,
    Invalid,
    ElemsParsed(Seq<ObjectV>, nat),
}

/// Decoding `n` consecutive objects from the front of `bytes`.
pub open spec fn spec_parse_elems(bytes: Seq<u8>, n: int) -> ElemsOut
    decreases bytes.len(), n,
{
    if n <= 0 {
        ElemsOut::ElemsParsed(Seq::empty(), 0)
    } else {
        match spec_parse(bytes) {
            ParseOut::Incomplete => ElemsOut::Incomplete,
            ParseOut::Invalid => ElemsOut::Invalid,
            ParseOut::Parsed(v, c) => {
                let c_cl: int = if c as int <= bytes.len() { c as int } else { bytes.len() as int };
                match spec_parse_elems(bytes.skip(c_cl), n - 1) {
                    ElemsOut::Incomplete => ElemsOut::Incomplete,
                    ElemsOut::Invalid => ElemsOut::Invalid,
                    ElemsOut::ElemsParsed(vs, c2) => ElemsOut::ElemsParsed(
                        seq![v] + vs,
                        (c + c2) as nat,
                    ),
                }
            },
        }
    }
}

/// The element views of a sequence of objects, pointwise.
pub proof fn lemma_view_objects(s: Seq<Object>)
    ensures
        view_objects(s).len() == s.len(),
        forall|i: int| 0 <= i < s.len() ==> #[trigger] view_objects(s)[i] == s[i]@,
    decreases s.len(),
{
    if s.len() > 0 {
        lemma_view_objects(s.drop_last());
        assert(view_objects(s) == view_objects(s.drop_last()).push(s.last()@));
        assert forall|i: int| 0 <= i < s.len() implies view_objects(s)[i] == #[trigger] s[i]@ by {
            if i < s.len() - 1 {
                assert(view_objects(s)[i] == view_objects(s.drop_last())[i]);
                assert(s.drop_last()[i] == s[i]);
            } else {
                assert(s.last() == s[i]);
            }
        }
    }
}

/// `digits_len` is the position of the first non-digit byte.
proof fn lemma_digits_len_from(s: Seq<u8>, j: int)
    requires
        0 <= j <= s.len(),
        forall|i: int| 0 <= i < j ==> digit_ok(#[trigger] s[i]),
        j == s.len() || !digit_ok(s[j]),
    ensures
        digits_len(s) == j,
    decreases j,
{
    if j == 0 {
    } else {
        assert(digit_ok(s[0]));
        lemma_digits_len_from(s.drop_first(), j - 1);
    }
}

/// `simple_len` is the position of the first byte outside the payload range.
proof fn lemma_simple_len_from(s: Seq<u8>, j: int)
    requires
        0 <= j <= s.len(),
        forall|i: int| 0 <= i < j ==> simple_byte_ok(#[trigger] s[i]),
        j == s.len() || !simple_byte_ok(s[j]),
    ensures
        simple_len(s) == j,
    decreases j,
{
    if j == 0 {
    } else {
        assert(simple_byte_ok(s[0]));
        lemma_simple_len_from(s.drop_first(), j - 1);
    }
}

/// All-ASCII bytes are valid UTF-8 and decode to themselves as characters.
pub(crate) proof fn lemma_ascii_bytes(bytes: Seq<u8>)
    requires
        forall|i: int| 0 <= i < bytes.len() ==> bytes[i] < 0x80,
    ensures
        valid_utf8(bytes),
        decode_utf8(bytes) == bytes.map_values(|b: u8| b as char),
{
    let chars = bytes.map_values(|b: u8| b as char);
    assert(is_ascii_chars(chars)) by {
        assert forall|i: int| 0 <= i < chars.len() implies '\0' <= #[trigger] chars[i]
            <= '\u{7f}' by {
            assert(chars[i] == bytes[i] as char);
        }
    }
    is_ascii_chars_encode_utf8(chars);
    assert(encode_utf8(chars) =~= bytes);
    encode_utf8_valid_utf8(chars);
    encode_utf8_decode_utf8(chars);
}

/// Relies on `String::from_utf8`: it succeeds exactly on valid UTF-8 input,
/// and the string it returns spells the given bytes.
#[verifier::external_body]
pub(crate) fn string_from_utf8(v: Vec<u8>) -> (r: Option<String>)
    ensures
        r is Some <==> valid_utf8(v@),
        r matches Some(s) ==> s@ == decode_utf8(v@),
{
    String::from_utf8(v).ok()
}

/// One byte of the buffer, with the position just past it.
fn get_u8(input: &[u8], pos: usize) -> (r: Option<(u8, usize)>)
    requires
        pos <= input@.len(),
    ensures
        pos < input@.len() ==> r == Some::<(u8, usize)>((input@[pos as int], (pos + 1) as usize)),
        pos >= input@.len() ==> r is None,
{
    if pos < input.len() {
        Some((input[pos], pos + 1))
    } else {
        None
    }
}

/// The byte at the current position, if any, without consuming it.
fn peek(input: &[u8], pos: usize) -> (r: Option<u8>)
    requires
        pos <= input@.len(),
    ensures
        pos < input@.len() ==> r == Some::<u8>(input@[pos as int]),
        pos >= input@.len() ==> r is None,
{
    if pos < input.len() {
        Some(input[pos])
    } else {
        None
    }
}

/// The position one byte further on.
fn advance(pos: usize) -> (r: usize)
    requires
        pos < usize::MAX,
    ensures
        r == pos + 1,
{
    pos + 1
}

/// The position `amount` bytes further on.
fn advance_by(amount: usize, pos: usize) -> (r: usize)
    requires
        pos + amount <= usize::MAX,
    ensures
        r == pos + amount,
{
    pos + amount
}

/// How many bytes remain from `pos` to the end of the buffer.
fn remaining(input: &[u8], pos: usize) -> (r: usize)
    requires
        pos <= input@.len(),
    ensures
        r == input@.len() - pos,
{
    input.len() - pos
}

/// Whether any byte remains at `pos`.
fn has_remaining(input: &[u8], pos: usize) -> (r: bool)
    requires
        pos <= input@.len(),
    ensures
        r == (pos < input@.len()),
{
    remaining(input, pos) > 0
}

/// Whether `input` may stand in a simple string or error payload.
fn is_simple_string_char(input: u8) -> (r: bool)
    ensures
        r == simple_byte_ok(input),
{
    0x20 <= input && input < 0x7f
}

/// Whether `input` is an ASCII decimal digit.
fn is_digit(input: u8) -> (r: bool)
    ensures
        r == digit_ok(input),
{
    0x30 <= input && input < 0x3a
}

/// Reads the CRLF terminator at `pos`.  On failure the position is unmoved.
fn read_crlf(input: &[u8], pos: usize) -> (r: (Result<(), Error>, usize))
    requires
        pos <= input@.len(),
    ensures
        ({
            let out = spec_read_crlf(input@.skip(pos as int));
            match r.0 {
                Ok(()) => out is CrlfOk && r.1 == pos + 2 && r.1 <= input@.len(),
                Err(Error::Incomplete) => out is Incomplete && r.1 == pos,
                Err(Error::InvalidInput) => out is Invalid && r.1 == pos,
                _ => false,
            }
        }),
{
    if remaining(input, pos) < 2 {
        (Err(Error::Incomplete), pos)
    } else {
        assert(input@.skip(pos as int)[0] == input@[pos as int]);
        assert(input@.skip(pos as int)[1] == input@[pos as int + 1]);
        if input[pos] == 0x0d && input[pos + 1] == 0x0a {
            (Ok(()), pos + 2)
        } else {
            (Err(Error::InvalidInput), pos)
        }
    }
}

/// Reads a decimal integer at `pos`.  On failure the position is unmoved.
fn read_integer(input: &[u8], pos: usize) -> (r: (Result<i64, Error>, usize))
    requires
        pos <= input@.len(),
    ensures
        ({
            let out = spec_read_integer(input@.skip(pos as int));
            match r.0 {
                Ok(v) => out == IntOut::IntParsed(v as int, (r.1 - pos) as nat) && pos < r.1
                    <= input@.len(),
                Err(Error::Incomplete) => out is Incomplete && r.1 == pos,
                Err(Error::InvalidInput) => out is Invalid && r.1 == pos,
                _ => false,
            }
        }),
{
    let ghost bytes = input@.skip(pos as int);
    let total: usize = input.len();
    let pk = peek(input, pos);
    if pk.is_none() {
        return (Err(Error::Incomplete), pos);
    }
    assert(pos < total);
    let neg: bool = pk.unwrap() == 0x2d;
    let start: usize = if neg { advance(pos) } else { pos };
    let ghost rest = input@.skip(start as int);
    proof {
        assert(rest =~= if neg { bytes.drop_first() } else { bytes });
    }

    let mut cur: usize = start;
    let mut val: u64 = 0;
    let mut ok: bool = true;
    while cur < input.len() && is_digit(input[cur])
        invariant
            pos <= start <= cur <= input@.len(),
            rest == input@.skip(start as int),
            forall|i: int| 0 <= i < cur - start ==> digit_ok(#[trigger] rest[i]),
            ok ==> val == digits_val(rest.take(cur - start)),
            !ok ==> digits_val(rest.take(cur - start)) > u64::MAX,
            digits_val(rest.take(cur - start)) >= 0,
        decreases input@.len() - cur,
    {
        let d: u8 = input[cur] - 0x30;
        proof {
            assert(rest[cur - start] == input@[cur as int]);
            assert(rest.take(cur - start + 1).drop_last() =~= rest.take(cur - start));
            assert(rest.take(cur - start + 1).last() == rest[cur - start]);
        }
        if ok {
            match val.checked_mul(10) {
                Some(v10) => match v10.checked_add(d as u64) {
                    Some(v) => {
                        val = v;
                    },
                    None => {
                        ok = false;
                    },
                },
                None => {
                    ok = false;
                },
            }
        }
        cur = advance(cur);
    }
    let j: usize = cur - start;
    proof {
        lemma_digits_len_from(rest, j as int);
    }
    if cur == input.len() {
        return (Err(Error::Incomplete), pos);
    }
    if j == 0 {
        return (Err(Error::InvalidInput), pos);
    }
    if !ok {
        return (Err(Error::InvalidInput), pos);
    }
    if neg {
        if val > 9223372036854775808u64 {
            (Err(Error::InvalidInput), pos)
        } else if val == 9223372036854775808u64 {
            (Ok(i64::MIN), cur)
        } else {
            (Ok(-(val as i64)), cur)
        }
    } else {
        if val > i64::MAX as u64 {
            (Err(Error::InvalidInput), pos)
        } else {
            (Ok(val as i64), cur)
        }
    }
}

/// Reads a simple-string payload and its CRLF at `pos` (just after the type
/// byte).  On failure the position is unmoved.
fn read_simple(input: &[u8], pos: usize) -> (r: (Result<String, Error>, usize))
    requires
        pos <= input@.len(),
    ensures
        ({
            let rest = input@.skip(pos as int);
            let k = simple_len(rest);
            match r.0 {
                Ok(s) => spec_read_crlf(rest.skip(k as int)) is CrlfOk && s@ == rest.take(
                    k as int,
                ).map_values(|b: u8| b as char) && r.1 == pos + k + 2 && r.1 <= input@.len(),
                Err(Error::Incomplete) => spec_read_crlf(rest.skip(k as int)) is Incomplete && r.1
                    == pos,
                Err(Error::InvalidInput) => spec_read_crlf(rest.skip(k as int)) is Invalid && r.1
                    == pos,
                _ => false,
            }
        }),
{
    let ghost rest = input@.skip(pos as int);
    let mut cur: usize = pos;
    while has_remaining(input, cur) && is_simple_string_char(input[cur])
        invariant
            pos <= cur <= input@.len(),
            rest == input@.skip(pos as int),
            forall|i: int| 0 <= i < cur - pos ==> simple_byte_ok(#[trigger] rest[i]),
        decreases input@.len() - cur,
    {
        proof {
            assert(rest[cur - pos] == input@[cur as int]);
        }
        cur = advance(cur);
    }
    proof {
        lemma_simple_len_from(rest, cur - pos);
        assert(rest.skip(cur - pos) =~= input@.skip(cur as int));
    }
    let (c, after) = read_crlf(input, cur);
    match c {
        Ok(()) => {
            let payload = slice_to_vec(slice_subrange(input, pos, cur));
            proof {
                assert(payload@ =~= rest.take(cur - pos));
                assert(forall|i: int|
                    0 <= i < payload@.len() ==> payload@[i] == rest[i] && simple_byte_ok(
                        #[trigger] payload@[i],
                    ));
                lemma_ascii_bytes(payload@);
            }
            match string_from_utf8(payload) {
                Some(s) => (Ok(s), after),
                None => (Err(Error::Utf8), pos),  // unreachable: the payload is ASCII
            }
        },
        Err(e) => (Err(e), pos),
    }
}

/// Reads a bulk-string payload (length, bytes, CRLF) at `pos` (just after the
/// type byte).  On failure the position is unmoved.
fn read_bulk(input: &[u8], pos: usize) -> (r: (Result<Option<Vec<u8>>, Error>, usize))
    requires
        pos <= input@.len(),
    ensures
        ({
            let out = spec_parse_bulk_payload(input@.skip(pos as int));
            match r.0 {
                Ok(b) => ({
                    let bv = match b {
                        Some(v) => ObjectV::BulkString(Some(v@)),
                        None => ObjectV::BulkString(None),
                    };
                    out == ParseOut::Parsed(bv, (1 + r.1 - pos) as nat) && pos < r.1
                        <= input@.len()
                }),
                Err(Error::Incomplete) => out is Incomplete && r.1 == pos,
                Err(Error::InvalidInput) => out is Invalid && r.1 == pos,
                _ => false,
            }
        }),
{
    let ghost rest = input@.skip(pos as int);
    let (szr, p1) = read_integer(input, pos);
    let size: i64 = match szr {
        Ok(v) => v,
        Err(e) => {
            return (Err(e), pos);
        },
    };
    let (c1, p2) = read_crlf(input, p1);
    proof {
        assert(input@.skip(p1 as int) =~= skip_up_to(rest, p1 - pos));
    }
    if let Err(e) = c1 {
        return (Err(e), pos);
    }
    proof {
        assert(input@.skip(p2 as int) =~= skip_up_to(rest, p2 - pos));
    }
    if size == -1 {
        return (Ok(None), p2);
    }
    if size < 0 {
        return (Err(Error::InvalidInput), pos);
    }
    let len: usize = remaining(input, p2);
    if (len as u64) < (size as u64) {
        return (Err(Error::Incomplete), pos);
    }
    assert(size as int <= len as int) by {
        assert(size as u64 <= len as u64);
    }
    let size_us: usize = size as usize;
    assert(size_us == size as int);
    let total: usize = input.len();
    assert(p2 + size_us <= total);
    let p3: usize = advance_by(size_us, p2);
    let (c2, p4) = read_crlf(input, p3);
    proof {
        assert(input@.skip(p3 as int) =~= skip_up_to(rest, p2 - pos).skip(size as int));
    }
    match c2 {
        Ok(()) => {
            let payload = slice_to_vec(slice_subrange(input, p2, p3));
            proof {
                assert(payload@ =~= skip_up_to(rest, p2 - pos).take(size as int));
            }
            (Ok(Some(payload)), p4)
        },
        Err(e) => (Err(e), pos),
    }
}

/// Reads an array payload (length header, then that many objects) at `pos`
/// (just after the type byte).  On failure the position is unmoved.
#[verifier::loop_isolation(false)]
#[verifier::rlimit(60)]
fn read_array(input: &[u8], pos: usize) -> (r: (Result<Vec<Object>, Error>, usize))
    requires
        pos <= input@.len(),
    ensures
        ({
            let out = spec_parse_array_payload(input@.skip(pos as int));
            match r.0 {
                Ok(elems) => out == ParseOut::Parsed(
                    ObjectV::Array(view_objects(elems@)),
                    (1 + r.1 - pos) as nat,
                ) && pos <= r.1 <= input@.len() && wf(ObjectV::Array(view_objects(elems@))),
                Err(Error::Incomplete) => out is Incomplete && r.1 == pos,
                Err(Error::InvalidInput) => out is Invalid && r.1 == pos,
                _ => false,
            }
        }),
    decreases input@.len() - pos, 1nat,
{
    let ghost rest = input@.skip(pos as int);
    let (szr, p1) = read_integer(input, pos);
    let size: i64 = match szr {
        Ok(v) => v,
        Err(e) => {
            return (Err(e), pos);
        },
    };
    let (c1, p2) = read_crlf(input, p1);
    proof {
        assert(input@.skip(p1 as int) =~= skip_up_to(rest, p1 - pos));
    }
    if let Err(e) = c1 {
        return (Err(e), pos);
    }
    if size < 0 {
        return (Err(Error::InvalidInput), pos);
    }
    let ghost body = input@.skip(p2 as int);
    proof {
        assert(body =~= skip_up_to(rest, p2 - pos));
    }
    let n: u64 = size as u64;
    let mut elems: Vec<Object> = Vec::new();
    let mut i: u64 = 0;
    let mut cur: usize = p2;
    proof {
        lemma_view_objects(elems@);
        if let ElemsOut::ElemsParsed(vs2, c2) = spec_parse_elems(body, n as int) {
            assert(view_objects(elems@) + vs2 =~= vs2);
        }
    }
    while i < n
        invariant
            pos <= p2 <= cur <= input@.len(),
            0 <= i <= n,
            i == elems@.len(),
            body == input@.skip(p2 as int),
            forall|j: int| 0 <= j < elems@.len() ==> wf(#[trigger] view_objects(elems@)[j]),
            view_objects(elems@).len() == elems@.len(),
            ({
                match spec_parse_elems(input@.skip(cur as int), n - i) {
                    ElemsOut::Incomplete => spec_parse_elems(body, n as int)
                        is Incomplete,
                    ElemsOut::Invalid => spec_parse_elems(body, n as int) is Invalid,
                    ElemsOut::ElemsParsed(vs2, c2) => spec_parse_elems(body, n as int)
                        == ElemsOut::ElemsParsed(
                        view_objects(elems@) + vs2,
                        ((cur - p2) + c2) as nat,
                    ),
                }
            }),
        decreases n - i,
    {
        let (ro, np) = read_object(input, cur);
        match ro {
            Ok(o) => {
                proof {
                    let tail = input@.skip(cur as int);
                    assert(tail.skip((np - cur) as int) =~= input@.skip(np as int));
                    lemma_view_objects(elems@);
                    lemma_view_objects(elems@.push(o));
                    assert(elems@.push(o).drop_last() =~= elems@);
                    assert(elems@.push(o).last() == o);
                    assert(view_objects(elems@.push(o)) == view_objects(
                        elems@.push(o).drop_last(),
                    ).push(elems@.push(o).last()@));
                    assert(view_objects(elems@.push(o)) =~= view_objects(elems@).push(o@));
                    if let ElemsOut::ElemsParsed(vs2, c2) = spec_parse_elems(
                        input@.skip(np as int),
                        n - i - 1,
                    ) {
                        assert(view_objects(elems@) + (seq![o@] + vs2) =~= view_objects(
                            elems@,
                        ).push(o@) + vs2);
                    }
                }
                elems.push(o);
                cur = np;
                i = i + 1;
            },
            Err(Error::Incomplete) => {
                proof {
                    assert(spec_parse_elems(input@.skip(cur as int), n - i) is Incomplete);
                    assert(spec_parse_elems(body, n as int) is Incomplete);
                }
                return (Err(Error::Incomplete), pos);
            },
            Err(_) => {
                proof {
                    assert(spec_parse_elems(input@.skip(cur as int), n - i) is Invalid);
                    assert(spec_parse_elems(body, n as int) is Invalid);
                }
                return (Err(Error::InvalidInput), pos);
            },
        }
    }
    proof {
        assert(spec_parse_elems(input@.skip(cur as int), 0) == ElemsOut::ElemsParsed(
            Seq::<ObjectV>::empty(),
            0nat,
        ));
        assert(view_objects(elems@) + Seq::<ObjectV>::empty() =~= view_objects(elems@));
        lemma_view_objects(elems@);
        lemma_objects_wf(view_objects(elems@));
    }
    (Ok(elems), cur)
}

/// Decodes one object starting at `pos`: the outcome, and the new position:
/// past the object on success, unmoved on `Incomplete`, one byte on from
/// `pos` on `InvalidInput`.
#[verifier::rlimit(60)]
fn read_object(input: &[u8], pos: usize) -> (r: (Result<Object, Error>, usize))
    requires
        pos <= input@.len(),
    ensures
        ({
            let out = spec_parse(input@.skip(pos as int));
            match r.0 {
                Ok(o) => out == ParseOut::Parsed(o@, (r.1 - pos) as nat) && pos < r.1
                    <= input@.len() && wf(o@),
                Err(Error::Incomplete) => out is Incomplete && r.1 == pos,
                Err(Error::InvalidInput) => out is Invalid && r.1 == pos + 1 && r.1
                    <= input@.len(),
                _ => false,
            }
        }),
    decreases input@.len() - pos, 0nat,
{
    let ghost bytes = input@.skip(pos as int);
    let total: usize = input.len();
    let tb = get_u8(input, pos);
    if tb.is_none() {
        return (Err(Error::Incomplete), pos);
    }
    let (b, p1) = tb.unwrap();
    proof {
        assert(pos < total);
        assert(p1 == pos + 1);
        assert(bytes[0] == input@[pos as int]);
        assert(input@.skip(p1 as int) =~= bytes.drop_first());
    }
    if b == 0x2b {
        let (rs, p2) = read_simple(input, p1);
        match rs {
            Ok(s) => {
                proof {
                    lemma_simple_chars(input@.skip(p1 as int), s@);
                }
                (Ok(Object::SimpleString(s)), p2)
            },
            Err(Error::Incomplete) => (Err(Error::Incomplete), pos),
            Err(_) => (Err(Error::InvalidInput), p1),
        }
    } else if b == 0x2d {
        let (rs, p2) = read_simple(input, p1);
        match rs {
            Ok(s) => {
                proof {
                    lemma_simple_chars(input@.skip(p1 as int), s@);
                }
                (Ok(Object::Error(s)), p2)
            },
            Err(Error::Incomplete) => (Err(Error::Incomplete), pos),
            Err(_) => (Err(Error::InvalidInput), p1),
        }
    } else if b == 0x3a {
        let (ri, pi) = read_integer(input, p1);
        match ri {
            Ok(v) => {
                let (c, pc) = read_crlf(input, pi);
                proof {
                    assert(input@.skip(pi as int) =~= skip_up_to(bytes.drop_first(), pi - p1));
                }
                match c {
                    Ok(()) => (Ok(Object::Integer(v)), pc),
                    Err(Error::Incomplete) => (Err(Error::Incomplete), pos),
                    Err(_) => (Err(Error::InvalidInput), p1),
                }
            },
            Err(Error::Incomplete) => (Err(Error::Incomplete), pos),
            Err(_) => (Err(Error::InvalidInput), p1),
        }
    } else if b == 0x2a {
        let (ra, pa) = read_array(input, p1);
        match ra {
            Ok(elems) => (Ok(Object::Array(elems)), pa),
            Err(Error::Incomplete) => (Err(Error::Incomplete), pos),
            Err(_) => (Err(Error::InvalidInput), p1),
        }
    } else if b == 0x24 {
        let (rb, pb) = read_bulk(input, p1);
        match rb {
            Ok(payload) => (Ok(Object::BulkString(payload)), pb),
            Err(Error::Incomplete) => (Err(Error::Incomplete), pos),
            Err(_) => (Err(Error::InvalidInput), p1),
        }
    } else {
        (Err(Error::InvalidInput), p1)
    }
}

/// Simple-string payload characters are printable ASCII whenever the bytes
/// they were read from are.
proof fn lemma_simple_chars(rest: Seq<u8>, s: Seq<char>)
    requires
        s == rest.take(simple_len(rest) as int).map_values(|b: u8| b as char),
    ensures
        forall|i: int| 0 <= i < s.len() ==> simple_char_ok(#[trigger] s[i]),
{
    lemma_simple_len_le(rest);
    let taken = rest.take(simple_len(rest) as int);
    assert forall|i: int| 0 <= i < s.len() implies simple_char_ok(#[trigger] s[i]) by {
        lemma_simple_len_bytes(rest, i);
        assert(s[i] == taken[i] as char);
    }
}

/// `simple_len` never exceeds the buffer length.
proof fn lemma_simple_len_le(s: Seq<u8>)
    ensures
        simple_len(s) <= s.len(),
    decreases s.len(),
{
    if s.len() > 0 && simple_byte_ok(s[0]) {
        lemma_simple_len_le(s.drop_first());
    }
}

/// Bytes inside the scanned prefix satisfy the payload predicate.
proof fn lemma_simple_len_bytes(s: Seq<u8>, i: int)
    requires
        0 <= i < simple_len(s),
        simple_len(s) <= s.len(),
    ensures
        simple_byte_ok(s[i]),
    decreases i,
{
    if i > 0 {
        lemma_simple_len_le(s.drop_first());
        lemma_simple_len_bytes(s.drop_first(), i - 1);
    }
}

/// Appending one encoding to another sequence of encodings.
pub proof fn lemma_encoding_seq_snoc(vs: Seq<ObjectV>, v: ObjectV)
    ensures
        encoding_seq(vs.push(v)) == encoding_seq(vs) + encoding(v),
    decreases vs.len(),
{
    if vs.len() == 0 {
        assert(vs.push(v)[0] == v);
        assert(vs.push(v).drop_first() =~= Seq::<ObjectV>::empty());
        assert(encoding_seq(vs.push(v)) == encoding(vs.push(v)[0]) + encoding_seq(
            vs.push(v).drop_first(),
        ));
        assert(encoding_seq(Seq::<ObjectV>::empty()) == Seq::<u8>::empty());
        assert(encoding(v) + Seq::<u8>::empty() =~= encoding(v));
        assert(encoding_seq(vs) + encoding(v) =~= encoding(v));
    } else {
        assert(vs.push(v).drop_first() =~= vs.drop_first().push(v));
        assert(vs.push(v)[0] == vs[0]);
        lemma_encoding_seq_snoc(vs.drop_first(), v);
        assert(encoding_seq(vs.push(v)) == encoding(vs[0]) + (encoding_seq(vs.drop_first())
            + encoding(v)));
        assert(encoding(vs[0]) + (encoding_seq(vs.drop_first()) + encoding(v)) =~= (encoding(
            vs[0],
        ) + encoding_seq(vs.drop_first())) + encoding(v));
    }
}

/// Writes the decimal rendering of `n` onto `out`.
pub(crate) fn push_u64_decimal(n: u64, out: &mut Vec<u8>)
    ensures
        final(out)@ == old(out)@ + nat_decimal(n as int),
{
    let mut tmp: Vec<u8> = Vec::new();
    let mut cur: u64 = n;
    while cur > 9
        invariant
            nat_decimal(n as int) =~= nat_decimal(cur as int) + tmp@.reverse(),
        decreases cur,
    {
        let d: u8 = (cur % 10) as u8 + 0x30;
        proof {
            assert(tmp@.push(d).reverse() =~= seq![d] + tmp@.reverse());
            assert(nat_decimal(cur as int) == nat_decimal(cur as int / 10).push(digit_byte(
                cur as int % 10,
            )));
            assert(nat_decimal(cur as int / 10).push(digit_byte(cur as int % 10)) =~= nat_decimal(
                cur as int / 10,
            ) + seq![digit_byte(cur as int % 10)]);
            assert((nat_decimal(cur as int / 10) + seq![d]) + tmp@.reverse() =~= nat_decimal(
                cur as int / 10,
            ) + (seq![d] + tmp@.reverse()));
        }
        tmp.push(d);
        cur = cur / 10;
    }
    let d: u8 = cur as u8 + 0x30;
    proof {
        assert(tmp@.push(d).reverse() =~= seq![d] + tmp@.reverse());
        assert(nat_decimal(cur as int) =~= seq![digit_byte(cur as int)]);
    }
    tmp.push(d);
    let ghost base = out@;
    let mut i: usize = tmp.len();
    while i > 0
        invariant
            i <= tmp@.len(),
            out@ =~= base + tmp@.reverse().take(tmp@.len() - i),
        decreases i,
    {
        i = i - 1;
        let b = tmp[i];
        proof {
            let k = tmp@.len() - i - 1;
            assert(tmp@.reverse()[k] == tmp@[i as int]);
            assert(tmp@.reverse().take(k + 1) =~= tmp@.reverse().take(k).push(tmp@.reverse()[k]));
            assert(base + tmp@.reverse().take(k + 1) =~= (base + tmp@.reverse().take(k)).push(
                tmp@[i as int],
            ));
        }
        out.push(b);
    }
    proof {
        assert(tmp@.reverse().take(tmp@.len() as int) =~= tmp@.reverse());
    }
}

/// Writes the signed decimal rendering of `n` onto `out`.
fn push_i64_decimal(n: i64, out: &mut Vec<u8>)
    ensures
        final(out)@ == old(out)@ + int_decimal(n as int),
{
    if n < 0 {
        out.push(0x2d);
        let mag: u64 = if n == i64::MIN {
            9223372036854775808u64
        } else {
            (-n) as u64
        };
        let ghost mid = out@;
        push_u64_decimal(mag, out);
        proof {
            assert(out@ =~= old(out)@ + (seq![0x2du8] + nat_decimal(mag as int)));
        }
    } else {
        push_u64_decimal(n as u64, out);
    }
}

/// Writes the CRLF terminator onto `out`.
pub(crate) fn push_crlf(out: &mut Vec<u8>)
    ensures
        final(out)@ == old(out)@ + crlf(),
{
    out.push(0x0d);
    out.push(0x0a);
    proof {
        assert(out@ =~= old(out)@ + crlf());
    }
}

/// Writes the encoding of one object onto `out`.
#[verifier::loop_isolation(false)]
#[verifier::rlimit(60)]
fn encode_into(o: &Object, out: &mut Vec<u8>)
    requires
        wf(o@),
    ensures
        final(out)@ == old(out)@ + encoding(o@),
    decreases o,
{
    match o {
        Object::SimpleString(s) => {
            out.push(0x2b);
            proof {
                assert(o@ == ObjectV::SimpleString(s@));
            }
            push_ascii_payload(s, out);
            push_crlf(out);
            proof {
                assert(out@ =~= old(out)@ + (seq![0x2bu8] + char_bytes(s@) + crlf()));
            }
        },
        Object::Error(s) => {
            out.push(0x2d);
            proof {
                assert(o@ == ObjectV::Error(s@));
                assert(wf(ObjectV::Error(s@)));
                assert(forall|i: int| 0 <= i < s@.len() ==> simple_char_ok(#[trigger] s@[i]));
            }
            push_ascii_payload(s, out);
            push_crlf(out);
            proof {
                assert(out@ =~= old(out)@ + (seq![0x2du8] + char_bytes(s@) + crlf()));
            }
        },
        Object::Integer(n) => {
            out.push(0x3a);
            push_i64_decimal(*n, out);
            push_crlf(out);
            proof {
                assert(out@ =~= old(out)@ + (seq![0x3au8] + int_decimal(*n as int) + crlf()));
            }
        },
        Object::BulkString(None) => {
            out.push(0x24);
            out.push(0x2d);
            out.push(0x31);
            push_crlf(out);
            proof {
                assert(out@ =~= old(out)@ + (seq![0x24u8, 0x2du8, 0x31u8] + crlf()));
            }
        },
        Object::BulkString(Some(b)) => {
            out.push(0x24);
            push_u64_decimal(b.len() as u64, out);
            push_crlf(out);
            out.extend_from_slice(b.as_slice());
            push_crlf(out);
            proof {
                assert(out@ =~= old(out)@ + (seq![0x24u8] + nat_decimal(b@.len() as int) + crlf()
                    + b@ + crlf()));
            }
        },
        Object::Array(elems) => {
            out.push(0x2a);
            push_u64_decimal(elems.len() as u64, out);
            push_crlf(out);
            let ghost head = out@;
            proof {
                lemma_view_objects(elems@);
                assert(o@ == ObjectV::Array(view_objects(elems@)));
                assert(objects_wf(view_objects(elems@)));
                lemma_objects_wf(view_objects(elems@));
            }
            let mut i: usize = 0;
            while i < elems.len()
                invariant
                    i <= elems@.len(),
                    out@ =~= head + encoding_seq(view_objects(elems@).take(i as int)),
                decreases elems@.len() - i,
            {
                proof {
                    assert(wf(view_objects(elems@)[i as int]));
                    assert(elems@[i as int]@ == view_objects(elems@)[i as int]);
                }
                let ghost before = out@;
                encode_into(&elems[i], out);
                proof {
                    let vs = view_objects(elems@);
                    assert(vs.take(i + 1) =~= vs.take(i as int).push(vs[i as int]));
                    lemma_encoding_seq_snoc(vs.take(i as int), vs[i as int]);
                    assert(out@ =~= head + encoding_seq(vs.take(i + 1)));
                }
                i = i + 1;
            }
            proof {
                let vs = view_objects(elems@);
                assert(vs.take(vs.len() as int) =~= vs);
                assert(out@ =~= old(out)@ + (seq![0x2au8] + nat_decimal(elems@.len() as int)
                    + crlf() + encoding_seq(vs)));
            }
        },
    }
}

/// Writes the bytes of an all-printable-ASCII string onto `out`.
fn push_ascii_payload(s: &String, out: &mut Vec<u8>)
    requires
        forall|i: int| 0 <= i < s@.len() ==> simple_char_ok(#[trigger] s@[i]),
    ensures
        final(out)@ == old(out)@ + char_bytes(s@),
{
    proof {
        assert(is_ascii_chars(s@)) by {
            assert forall|i: int| 0 <= i < s@.len() implies '\0' <= #[trigger] s@[i]
                <= '\u{7f}' by {
                assert(simple_char_ok(s@[i]));
            }
        }
        is_ascii_chars_encode_utf8(s@);
        assert(encode_utf8(s@) =~= char_bytes(s@));
    }
    out.extend_from_slice(s.as_str().as_bytes());
    proof {
        assert(out@ =~= old(out)@ + char_bytes(s@));
    }
}

/// A copy of a byte vector.
pub fn copy_bytes(b: &Vec<u8>) -> (r: Vec<u8>)
    ensures
        r@ == b@,
{
    let mut out: Vec<u8> = Vec::new();
    let mut i: usize = 0;
    while i < b.len()
        invariant
            i <= b@.len(),
            out@ =~= b@.take(i as int),
        decreases b@.len() - i,
    {
        proof {
            assert(b@.take(i + 1) =~= b@.take(i as int).push(b@[i as int]));
        }
        out.push(b[i]);
        i = i + 1;
    }
    proof {
        assert(b@.take(b@.len() as int) =~= b@);
    }
    out
}

impl Object {
    /// A deep copy of this object, equal to it in every payload.
    #[verifier::loop_isolation(false)]
    pub fn duplicate(&self) -> (r: Object)
        ensures
            r@ == self@,
        decreases self,
    {
        match self {
            Object::SimpleString(s) => Object::SimpleString(s.clone()),
            Object::Error(s) => Object::Error(s.clone()),
            Object::Integer(n) => Object::Integer(*n),
            Object::BulkString(None) => Object::BulkString(None),
            Object::BulkString(Some(b)) => Object::BulkString(Some(copy_bytes(b))),
            Object::Array(elems) => {
                proof {
                    lemma_view_objects(elems@);
                }
                let mut out: Vec<Object> = Vec::new();
                let mut i: usize = 0;
                while i < elems.len()
                    invariant
                        i <= elems@.len(),
                        view_objects(out@) =~= view_objects(elems@).take(i as int),
                        out@.len() == i,
                    decreases elems@.len() - i,
                {
                    let copy = elems[i].duplicate();
                    proof {
                        lemma_view_objects(out@);
                        lemma_view_objects(out@.push(copy));
                        assert(view_objects(out@.push(copy)) =~= view_objects(out@).push(
                            copy@,
                        ));
                        assert(view_objects(elems@).take(i + 1) =~= view_objects(
                            elems@,
                        ).take(i as int).push(view_objects(elems@)[i as int]));
                    }
                    out.push(copy);
                    i = i + 1;
                }
                proof {
                    assert(view_objects(elems@).take(elems@.len() as int) =~= view_objects(
                        elems@,
                    ));
                }
                Object::Array(out)
            },
        }
    }

    /// The wire bytes of this object.
    pub fn into_bytes(self) -> (r: Vec<u8>)
        requires
            wf(self@),
        ensures
            r@ == encoding(self@),
    {
        let mut out: Vec<u8> = Vec::new();
        encode_into(&self, &mut out);
        proof {
            assert(Seq::<u8>::empty() + encoding(self@) =~= encoding(self@));
        }
        out
    }
}

/// Decimal renderings consist of digit bytes and are never empty.
proof fn lemma_nat_decimal_digits(n: int)
    requires
        n >= 0,
    ensures
        nat_decimal(n).len() >= 1,
        forall|i: int| 0 <= i < nat_decimal(n).len() ==> digit_ok(#[trigger] nat_decimal(n)[i]),
    decreases n,
{
    if n > 9 {
        lemma_nat_decimal_digits(n / 10);
    }
}

/// The value a decimal rendering reads back as.
proof fn lemma_digits_val_nat_decimal(n: int)
    requires
        n >= 0,
    ensures
        digits_val(nat_decimal(n)) == n,
    decreases n,
{
    if n <= 9 {
        assert(nat_decimal(n) == seq![digit_byte(n)]);
        assert(digits_val(seq![digit_byte(n)]) == digits_val(
            seq![digit_byte(n)].drop_last(),
        ) * 10 + (digit_byte(n) - 0x30));
        assert(seq![digit_byte(n)].drop_last() =~= Seq::<u8>::empty());
    } else {
        lemma_digits_val_nat_decimal(n / 10);
        let s = nat_decimal(n / 10).push(digit_byte(n % 10));
        assert(s.drop_last() =~= nat_decimal(n / 10));
        assert(s.last() == digit_byte(n % 10));
        assert(digits_val(s) == (n / 10) * 10 + (n % 10));
        assert((n / 10) * 10 + (n % 10) == n) by (nonlinear_arith);
    }
}

/// Reading back a rendered integer, with trailing bytes that do not begin
/// with a digit.
proof fn lemma_read_int_decimal(n: int, rest: Seq<u8>)
    requires
        i64::MIN <= n <= i64::MAX,
        rest.len() > 0,
        !digit_ok(rest[0]),
    ensures
        spec_read_integer(int_decimal(n) + rest) == IntOut::IntParsed(n, int_decimal(n).len()),
{
    let mag: int = if n < 0 {
        -n
    } else {
        n
    };
    let digits = nat_decimal(mag);
    lemma_nat_decimal_digits(mag);
    lemma_digits_val_nat_decimal(mag);
    let bytes = int_decimal(n) + rest;
    let tail = digits + rest;
    assert forall|i: int| 0 <= i < digits.len() implies digit_ok(#[trigger] tail[i]) by {
        assert(tail[i] == digits[i]);
    }
    assert(digits.len() == tail.len() || !digit_ok(tail[digits.len() as int]));
    lemma_digits_len_from(tail, digits.len() as int);
    assert(tail.take(digits.len() as int) =~= digits);
    if n < 0 {
        assert(bytes =~= seq![0x2du8] + tail);
        assert(bytes[0] == 0x2du8);
        assert(bytes.drop_first() =~= tail);
        assert(digits.len() < tail.len());
        assert(spec_read_integer(bytes) == IntOut::IntParsed(n, (1 + digits.len()) as nat));
        assert(int_decimal(n).len() == 1 + digits.len());
    } else {
        assert(bytes =~= tail);
        assert(digit_ok(digits[0]));
        assert(bytes[0] == digits[0]);
        assert(bytes[0] != 0x2du8);
        assert(spec_read_integer(bytes) == IntOut::IntParsed(n, digits.len() as nat));
    }
}

/// Decoding finds exactly the encoded object at the front of a stream: the
/// round-trip law, stated with an arbitrary continuation so that records can
/// be read back from concatenated streams.
pub proof fn lemma_parse_encoding_prefix(v: ObjectV, rest: Seq<u8>)
    requires
        wf(v),
    ensures
        spec_parse(encoding(v) + rest) == ParseOut::Parsed(v, encoding(v).len() as nat),
    decreases v, 0nat,
{
    match v {
        ObjectV::SimpleString(s) => {
            lemma_parse_simple_encoding(s, rest, false);
        },
        ObjectV::Error(s) => {
            lemma_parse_simple_encoding(s, rest, true);
        },
        ObjectV::Integer(n) => {
            lemma_parse_integer_encoding(n, rest);
        },
        ObjectV::BulkString(None) => {
            lemma_parse_bulk_none_encoding(rest);
        },
        ObjectV::BulkString(Some(b)) => {
            lemma_parse_bulk_some_encoding(b, rest);
        },
        ObjectV::Array(elems) => {
            lemma_parse_array_encoding(elems, rest);
        },
    }
}

/// Reading back an encoded integer object.
proof fn lemma_parse_integer_encoding(n: int, rest: Seq<u8>)
    requires
        i64::MIN <= n <= i64::MAX,
    ensures
        spec_parse(encoding(ObjectV::Integer(n)) + rest) == ParseOut::Parsed(
            ObjectV::Integer(n),
            encoding(ObjectV::Integer(n)).len() as nat,
        ),
{
    let v = ObjectV::Integer(n);
    let bytes = encoding(v) + rest;
    {
            let r2 = int_decimal(n) + (crlf() + rest);
            assert(bytes =~= seq![0x3au8] + r2);
            assert(bytes[0] == 0x3au8);
            assert(bytes.drop_first() =~= r2);
            lemma_read_int_decimal(n, crlf() + rest);
            let c = int_decimal(n).len() as int;
            assert(skip_up_to(r2, c) =~= crlf() + rest);
            assert(spec_read_crlf(crlf() + rest) is CrlfOk);
            assert(spec_parse_integer_payload(r2) == ParseOut::Parsed(
                ObjectV::Integer(n),
                (1 + c + 2) as nat,
            ));
            assert(encoding(v).len() == 1 + c + 2);
    }
}

/// Reading back an encoded nil bulk string.
proof fn lemma_parse_bulk_none_encoding(rest: Seq<u8>)
    ensures
        spec_parse(encoding(ObjectV::BulkString(None)) + rest) == ParseOut::Parsed(
            ObjectV::BulkString(None),
            encoding(ObjectV::BulkString(None)).len() as nat,
        ),
{
    let v = ObjectV::BulkString(None);
    let bytes = encoding(v) + rest;
    {
            let r2 = seq![0x2du8, 0x31u8] + (crlf() + rest);
            assert(bytes =~= seq![0x24u8] + r2);
            assert(bytes[0] == 0x24u8);
            assert(bytes.drop_first() =~= r2);
            let tail = r2.drop_first();
            assert(tail =~= seq![0x31u8] + (crlf() + rest));
            assert(tail[0] == 0x31u8 && digit_ok(tail[0]));
            assert(tail[1] == 0x0du8 && !digit_ok(tail[1]));
            lemma_digits_len_from(tail, 1);
            assert(tail.take(1) =~= seq![0x31u8]);
            assert(digits_val(seq![0x31u8]) == digits_val(seq![0x31u8].drop_last()) * 10 + (
            0x31u8 - 0x30));
            assert(seq![0x31u8].drop_last() =~= Seq::<u8>::empty());
            assert(digits_val(seq![0x31u8]) == 1);
            assert(spec_read_integer(r2) == IntOut::IntParsed(-1, 2));
            assert(skip_up_to(r2, 2) =~= crlf() + rest);
            assert(spec_parse_bulk_payload(r2) == ParseOut::Parsed(
                ObjectV::BulkString(None),
                5nat,
            ));
            assert(encoding(v).len() == 5);
    }
}

/// Reading back an encoded bulk string with a payload.
#[verifier::rlimit(100)]
proof fn lemma_parse_bulk_some_encoding(b: Seq<u8>, rest: Seq<u8>)
    requires
        b.len() <= i64::MAX,
    ensures
        spec_parse(encoding(ObjectV::BulkString(Some(b))) + rest) == ParseOut::Parsed(
            ObjectV::BulkString(Some(b)),
            encoding(ObjectV::BulkString(Some(b))).len() as nat,
        ),
{
    let v = ObjectV::BulkString(Some(b));
    let bytes = encoding(v) + rest;
    {
            let after = crlf() + (b + (crlf() + rest));
            let r2 = nat_decimal(b.len() as int) + after;
            assert(bytes =~= seq![0x24u8] + r2);
            assert(bytes[0] == 0x24u8);
            assert(bytes.drop_first() =~= r2);
            assert(after[0] == 0x0du8 && !digit_ok(after[0]));
            assert(int_decimal(b.len() as int) == nat_decimal(b.len() as int));
            lemma_read_int_decimal(b.len() as int, after);
            let c = nat_decimal(b.len() as int).len() as int;
            assert(skip_up_to(r2, c) =~= after);
            assert(spec_read_crlf(after) is CrlfOk);
            let body = b + (crlf() + rest);
            assert(skip_up_to(r2, c + 2) =~= body);
            assert(body.len() >= b.len());
            assert(body.skip(b.len() as int) =~= crlf() + rest);
            assert(spec_read_crlf(crlf() + rest) is CrlfOk);
            assert(body.take(b.len() as int) =~= b);
            assert(spec_parse_bulk_payload(r2) == ParseOut::Parsed(
                ObjectV::BulkString(Some(b)),
                (1 + c + 2 + b.len() + 2) as nat,
            ));
            assert(encoding(v).len() == 1 + c + 2 + b.len() + 2);
    }
}

/// Reading back an encoded array.
proof fn lemma_parse_array_encoding(elems: Seq<ObjectV>, rest: Seq<u8>)
    requires
        elems.len() <= i64::MAX,
        objects_wf(elems),
    ensures
        spec_parse(encoding(ObjectV::Array(elems)) + rest) == ParseOut::Parsed(
            ObjectV::Array(elems),
            encoding(ObjectV::Array(elems)).len() as nat,
        ),
    decreases elems, 2nat,
{
    let v = ObjectV::Array(elems);
    let bytes = encoding(v) + rest;
    {
            let after = crlf() + (encoding_seq(elems) + rest);
            let r2 = nat_decimal(elems.len() as int) + after;
            assert(bytes =~= seq![0x2au8] + r2);
            assert(bytes[0] == 0x2au8);
            assert(bytes.drop_first() =~= r2);
            assert(after[0] == 0x0du8 && !digit_ok(after[0]));
            assert(int_decimal(elems.len() as int) == nat_decimal(elems.len() as int));
            lemma_read_int_decimal(elems.len() as int, after);
            let c = nat_decimal(elems.len() as int).len() as int;
            assert(skip_up_to(r2, c) =~= after);
            assert(spec_read_crlf(after) is CrlfOk);
            assert(skip_up_to(r2, c + 2) =~= encoding_seq(elems) + rest);
            lemma_parse_elems_encoding(elems, rest);
            assert(spec_parse_array_payload(r2) == ParseOut::Parsed(
                ObjectV::Array(elems),
                (1 + c + 2 + encoding_seq(elems).len()) as nat,
            ));
            assert(encoding(v).len() == 1 + c + 2 + encoding_seq(elems).len());
    }
}

/// Reading back an encoded simple string or error.
proof fn lemma_parse_simple_encoding(s: Seq<char>, rest: Seq<u8>, is_error: bool)
    requires
        chars_wf(s),
    ensures
        ({
            let v = if is_error {
                ObjectV::Error(s)
            } else {
                ObjectV::SimpleString(s)
            };
            spec_parse(encoding(v) + rest) == ParseOut::Parsed(v, encoding(v).len() as nat)
        }),
{
    let v = if is_error {
        ObjectV::Error(s)
    } else {
        ObjectV::SimpleString(s)
    };
    let t: u8 = if is_error {
        0x2d
    } else {
        0x2b
    };
    let pay = char_bytes(s);
    let bytes = encoding(v) + rest;
    let r2 = pay + (crlf() + rest);
    assert(bytes =~= seq![t] + r2);
    assert(bytes[0] == t);
    assert(bytes.drop_first() =~= r2);
    assert forall|i: int| 0 <= i < pay.len() implies simple_byte_ok(#[trigger] r2[i]) by {
        assert(r2[i] == pay[i]);
        assert(pay[i] == s[i] as u8);
        assert(simple_char_ok(s[i]));
    }
    assert(!simple_byte_ok(r2[pay.len() as int]));
    lemma_simple_len_from(r2, pay.len() as int);
    assert(r2.skip(pay.len() as int) =~= crlf() + rest);
    assert(spec_read_crlf(crlf() + rest) is CrlfOk);
    assert(r2.take(pay.len() as int) =~= pay);
    let back = pay.map_values(|b: u8| b as char);
    assert(back =~= s) by {
        assert forall|i: int| 0 <= i < s.len() implies back[i] == s[i] by {
            assert(back[i] == (s[i] as u8) as char);
            assert(simple_char_ok(s[i]));
        }
    }
    assert(spec_parse_simple_payload(r2, is_error) == ParseOut::Parsed(
        v,
        (1 + pay.len() + 2) as nat,
    ));
    assert(encoding(v).len() == 1 + pay.len() + 2);
}

/// Reading back a run of encoded objects, with an arbitrary continuation.
pub proof fn lemma_parse_elems_encoding(vs: Seq<ObjectV>, rest: Seq<u8>)
    requires
        objects_wf(vs),
    ensures
        spec_parse_elems(encoding_seq(vs) + rest, vs.len() as int) == ElemsOut::ElemsParsed(
            vs,
            encoding_seq(vs).len() as nat,
        ),
    decreases vs, 1nat,
{
    if vs.len() == 0 {
        assert(encoding_seq(vs) + rest =~= rest);
        assert(vs =~= Seq::<ObjectV>::empty());
    } else {
        let e0 = encoding(vs[0]);
        let tail_enc = encoding_seq(vs.drop_first());
        let bytes = encoding_seq(vs) + rest;
        assert(encoding_seq(vs) == e0 + tail_enc);
        assert(bytes =~= e0 + (tail_enc + rest));
        assert(wf(vs[0]));
        lemma_parse_encoding_prefix(vs[0], tail_enc + rest);
        assert(spec_parse(bytes) == ParseOut::Parsed(vs[0], e0.len() as nat));
        assert(e0.len() <= bytes.len());
        assert(bytes.skip(e0.len() as int) =~= tail_enc + rest);
        lemma_parse_elems_encoding(vs.drop_first(), rest);
        assert(seq![vs[0]] + vs.drop_first() =~= vs);
        assert(spec_parse_elems(bytes, vs.len() as int) == ElemsOut::ElemsParsed(
            vs,
            (e0.len() + tail_enc.len()) as nat,
        ));
        assert(encoding_seq(vs).len() == e0.len() + tail_enc.len());
    }
}

/// Encodings are never empty: every object writes at least its type byte.
proof fn lemma_encoding_len_pos(v: ObjectV)
    ensures
        encoding(v).len() >= 1,
{
    match v {
        ObjectV::SimpleString(_) => {
        },
        ObjectV::Error(_) => {
        },
        ObjectV::Integer(_) => {
        },
        ObjectV::BulkString(_) => {
        },
        ObjectV::Array(_) => {
        },
    }
}

/// A strict prefix of a rendered integer with its terminator reads as
/// incomplete; with exactly the first terminator byte present, the number
/// is read but its terminator is not.
proof fn lemma_int_header_prefix(i: int, after: Seq<u8>, j: int)
    requires
        i64::MIN <= i <= i64::MAX,
        0 <= j <= int_decimal(i).len() + 1,
    ensures
        j <= int_decimal(i).len() ==> spec_read_integer(
            (int_decimal(i) + crlf() + after).take(j),
        ) is Incomplete,
        j == int_decimal(i).len() + 1 ==> ({
            let p = (int_decimal(i) + crlf() + after).take(j);
            &&& spec_read_integer(p) == IntOut::IntParsed(i, int_decimal(i).len() as nat)
            &&& spec_read_crlf(skip_up_to(p, int_decimal(i).len() as int)) is Incomplete
        }),
{
    let d = int_decimal(i);
    let ld = d.len() as int;
    let full = d + crlf() + after;
    let p = full.take(j);
    let mag: int = if i < 0 {
        -i
    } else {
        i
    };
    lemma_nat_decimal_digits(mag);
    if j == 0 {
        assert(p =~= Seq::<u8>::empty());
    } else if j <= ld {
        assert(p =~= d.take(j));
        if i < 0 {
            assert(p[0] == 0x2du8);
            let rest1 = p.drop_first();
            assert(rest1 =~= nat_decimal(mag).take(j - 1));
            assert forall|x: int| 0 <= x < rest1.len() implies digit_ok(#[trigger] rest1[x]) by {
                assert(rest1[x] == nat_decimal(mag)[x]);
            }
            lemma_digits_len_from(rest1, rest1.len() as int);
        } else {
            assert(p[0] == nat_decimal(mag)[0]);
            assert(digit_ok(p[0]));
            assert(p[0] != 0x2du8);
            assert forall|x: int| 0 <= x < p.len() implies digit_ok(#[trigger] p[x]) by {
                assert(p[x] == nat_decimal(mag)[x]);
            }
            lemma_digits_len_from(p, p.len() as int);
        }
    } else {
        assert(p =~= d + seq![0x0du8]);
        lemma_read_int_decimal(i, seq![0x0du8]);
        assert(skip_up_to(p, ld) =~= seq![0x0du8]);
    }
}

/// The progress law, first half: a strict prefix of a valid object's
/// encoding reads as incomplete, so a caller that keeps the bytes and
/// waits loses nothing.
#[verifier::rlimit(100)]
pub proof fn lemma_parse_prefix_incomplete(v: ObjectV, n: int)
    requires
        wf(v),
        0 <= n < encoding(v).len(),
    ensures
        spec_parse(encoding(v).take(n)) is Incomplete,
    decreases v, 0nat,
{
    let enc = encoding(v);
    let p = enc.take(n);
    if n == 0 {
        assert(p =~= Seq::<u8>::empty());
    } else {
        match v {
            ObjectV::SimpleString(s) => {
                lemma_simple_prefix_incomplete(s, n, false);
            },
            ObjectV::Error(s) => {
                lemma_simple_prefix_incomplete(s, n, true);
            },
            ObjectV::Integer(i) => {
                assert(p[0] == 0x3au8);
                let rest = p.drop_first();
                assert(rest =~= (int_decimal(i) + crlf() + Seq::<u8>::empty()).take(n - 1));
                lemma_int_header_prefix(i, Seq::empty(), n - 1);
                if n - 1 == int_decimal(i).len() + 1 {
                    assert(spec_parse_integer_payload(rest) is Incomplete);
                } else {
                    assert(spec_parse_integer_payload(rest) is Incomplete);
                }
            },
            ObjectV::BulkString(None) => {
                assert(p[0] == 0x24u8);
                let rest = p.drop_first();
                assert(int_decimal(-1) =~= seq![0x2du8, 0x31u8]) by {
                    assert(nat_decimal(1) =~= seq![0x31u8]);
                }
                assert(rest =~= (int_decimal(-1) + crlf() + Seq::<u8>::empty()).take(n - 1));
                lemma_int_header_prefix(-1, Seq::empty(), n - 1);
                assert(spec_parse_bulk_payload(rest) is Incomplete);
            },
            ObjectV::BulkString(Some(b)) => {
                lemma_bulk_prefix_incomplete(b, n);
            },
            ObjectV::Array(elems) => {
                assert(p[0] == 0x2au8);
                let m = elems.len() as int;
                let d = nat_decimal(m);
                let ld = d.len() as int;
                let es = encoding_seq(elems);
                let rest = p.drop_first();
                assert(int_decimal(m) == d);
                assert(rest =~= (d + crlf() + es).take(n - 1));
                if n - 1 <= ld + 1 {
                    lemma_int_header_prefix(m, es, n - 1);
                    assert(spec_parse_array_payload(rest) is Incomplete);
                } else {
                    let j2 = n - 1 - (ld + 2);
                    assert(0 <= j2 < es.len());
                    assert(rest =~= d + (crlf() + es.take(j2)));
                    assert((crlf() + es.take(j2))[0] == 0x0du8);
                    lemma_read_int_decimal(m, crlf() + es.take(j2));
                    assert(spec_read_integer(rest) == IntOut::IntParsed(m, ld as nat));
                    assert(skip_up_to(rest, ld) =~= crlf() + es.take(j2));
                    assert(spec_read_crlf(crlf() + es.take(j2)) is CrlfOk);
                    assert(skip_up_to(rest, ld + 2) =~= es.take(j2));
                    lemma_parse_elems_prefix_incomplete(elems, j2);
                    assert(spec_parse_array_payload(rest) is Incomplete);
                }
            },
        }
    }
}

/// The simple-string and error cases of the progress law.
proof fn lemma_simple_prefix_incomplete(s: Seq<char>, n: int, is_error: bool)
    requires
        chars_wf(s),
        1 <= n < 1 + s.len() + 2,
    ensures
        ({
            let v = if is_error {
                ObjectV::Error(s)
            } else {
                ObjectV::SimpleString(s)
            };
            spec_parse(encoding(v).take(n)) is Incomplete
        }),
{
    let v = if is_error {
        ObjectV::Error(s)
    } else {
        ObjectV::SimpleString(s)
    };
    let t: u8 = if is_error {
        0x2d
    } else {
        0x2b
    };
    let pay = char_bytes(s);
    let p = encoding(v).take(n);
    assert(p[0] == t);
    let rest = p.drop_first();
    assert(rest =~= (pay + crlf()).take(n - 1));
    let k = if n - 1 <= pay.len() {
        n - 1
    } else {
        pay.len() as int
    };
    assert forall|x: int| 0 <= x < k implies simple_byte_ok(#[trigger] rest[x]) by {
        assert(rest[x] == pay[x]);
        assert(pay[x] == s[x] as u8);
        assert(simple_char_ok(s[x]));
    }
    if k < rest.len() {
        assert(rest[k] == 0x0du8);
    }
    lemma_simple_len_from(rest, k);
    assert(rest.skip(k).len() < 2);
}

/// The non-nil bulk-string case of the progress law.
#[verifier::rlimit(100)]
proof fn lemma_bulk_prefix_incomplete(b: Seq<u8>, n: int)
    requires
        b.len() <= i64::MAX,
        1 <= n < encoding(ObjectV::BulkString(Some(b))).len(),
    ensures
        spec_parse(encoding(ObjectV::BulkString(Some(b))).take(n)) is Incomplete,
{
    let v = ObjectV::BulkString(Some(b));
    let lb = b.len() as int;
    let d = nat_decimal(lb);
    let ld = d.len() as int;
    let tail = b + crlf();
    let p = encoding(v).take(n);
    assert(p[0] == 0x24u8);
    let rest = p.drop_first();
    assert(int_decimal(lb) == d);
    assert(rest =~= (d + crlf() + tail).take(n - 1));
    if n - 1 <= ld + 1 {
        lemma_int_header_prefix(lb, tail, n - 1);
        assert(spec_parse_bulk_payload(rest) is Incomplete);
    } else {
        let j2 = n - 1 - (ld + 2);
        assert(0 <= j2 < lb + 2);
        assert(rest =~= d + (crlf() + tail.take(j2)));
        assert((crlf() + tail.take(j2))[0] == 0x0du8);
        lemma_read_int_decimal(lb, crlf() + tail.take(j2));
        assert(spec_read_integer(rest) == IntOut::IntParsed(lb, ld as nat));
        assert(skip_up_to(rest, ld) =~= crlf() + tail.take(j2));
        assert(spec_read_crlf(crlf() + tail.take(j2)) is CrlfOk);
        let body = skip_up_to(rest, ld + 2);
        assert(body =~= tail.take(j2));
        if j2 < lb {
            assert(body.len() < lb);
        } else if j2 == lb {
            assert(body.skip(lb) =~= Seq::<u8>::empty());
        } else {
            assert(body.skip(lb) =~= seq![0x0du8]);
        }
        assert(spec_parse_bulk_payload(rest) is Incomplete);
    }
}

/// The element-sequence case of the progress law: a strict prefix of the
/// concatenated element encodings never completes the element run.
proof fn lemma_parse_elems_prefix_incomplete(vs: Seq<ObjectV>, k: int)
    requires
        objects_wf(vs),
        0 <= k < encoding_seq(vs).len(),
    ensures
        spec_parse_elems(encoding_seq(vs).take(k), vs.len() as int) is Incomplete,
    decreases vs, 1nat,
{
    assert(vs.len() > 0);
    let e0 = encoding(vs[0]);
    let rest_enc = encoding_seq(vs.drop_first());
    let es = encoding_seq(vs);
    assert(es == e0 + rest_enc);
    lemma_encoding_len_pos(vs[0]);
    let prefix = es.take(k);
    assert(wf(vs[0]));
    if k < e0.len() {
        assert(prefix =~= e0.take(k));
        lemma_parse_prefix_incomplete(vs[0], k);
        assert(spec_parse(prefix) is Incomplete);
    } else {
        let k2 = k - e0.len();
        assert(0 <= k2 < rest_enc.len());
        assert(prefix =~= e0 + rest_enc.take(k2));
        lemma_parse_encoding_prefix(vs[0], rest_enc.take(k2));
        assert(spec_parse(prefix) == ParseOut::Parsed(vs[0], e0.len() as nat));
        assert(prefix.skip(e0.len() as int) =~= rest_enc.take(k2));
        lemma_parse_elems_prefix_incomplete(vs.drop_first(), k2);
    }
}

/// The round-trip law: decoding an encoded object gives it back exactly,
/// consuming the whole encoding.
pub proof fn lemma_parse_encoding(v: ObjectV)
    requires
        wf(v),
    ensures
        spec_parse(encoding(v)) == ParseOut::Parsed(v, encoding(v).len() as nat),
{
    lemma_parse_encoding_prefix(v, Seq::empty());
    assert(encoding(v) + Seq::<u8>::empty() =~= encoding(v));
}

/// Decodes one object from `input` starting at `*pos`, moving `*pos` past
/// the object.
///
/// On success the decoded object is exactly what [`spec_parse`] names for
/// the bytes from the old position, the position advances by the object's
/// full length, and the object is well formed.  On `Incomplete` the position
/// is unchanged so the caller can retry with more bytes; on `InvalidInput`
/// the position moves one byte on.  No other error is ever returned.
pub fn parse(input: &[u8], pos: &mut usize) -> (r: Result<Object, Error>)
    requires
        *old(pos) <= input@.len(),
    ensures
        ({
            let out = spec_parse(input@.skip(*old(pos) as int));
            match r {
                Ok(o) => out == ParseOut::Parsed(o@, (*final(pos) - *old(pos)) as nat) && *old(
                    pos,
                ) < *final(pos) <= input@.len() && wf(o@),
                Err(Error::Incomplete) => out is Incomplete && *final(pos) == *old(pos),
                Err(Error::InvalidInput) => out is Invalid && *final(pos) == *old(pos) + 1
                    && *final(pos) <= input@.len(),
                _ => false,
            }
        }),
{
    let (r, np) = read_object(input, *pos);
    *pos = np;
    r
}

} // verus!

