//! The inline command parser: a tokenizer over a line of text and a parser
//! that turns `get key`, `set key value` or `remove key` into a command.
//!
//! A token is a run of spaces, a CRLF, or a word of ASCII letters; anything
//! else stops the tokenizer with an error at that position.  The parser
//! takes the first word as the command name and every later word as an
//! argument.

use vstd::prelude::*;

verus! {

use crate::command::{Command, CommandV};

/// Why a line failed to parse.
#[derive(Debug)]
pub enum ParseError {
    UnknownToken(usize),
    UnknownCommand,
    Other,
}

/// One token: its kind and the byte range it covers.
pub struct Token {
    pub kind: TokenKind,
    pub start_pos: usize,
    pub end_pos: usize,
}

/// The kinds of token the inline protocol knows.
#[derive(Debug, PartialEq, Eq, Structural, Clone, Copy)]
pub enum TokenKind {
    WS,
    CRLF,
    Word,
}

/// An ASCII capital letter.
pub open spec fn word_byte_upper(b: u8) -> bool {
    65 <= b <= 90
}

/// An ASCII small letter.
pub open spec fn word_byte_lower(b: u8) -> bool {
    97 <= b <= 122
}

/// A byte a word may contain.
pub open spec fn word_byte(b: u8) -> bool {
    word_byte_upper(b) || word_byte_lower(b)
}

/// Length of the longest prefix of spaces.
pub open spec fn ws_len(s: Seq<u8>) -> nat
    decreases s.len(),
{
    if s.len() == 0 || s[0] != 0x20 {
        0
    } else {
        (1 + ws_len(s.drop_first())) as nat
    }
}

/// Length of the longest prefix of word bytes.
pub open spec fn word_len(s: Seq<u8>) -> nat
    decreases s.len(),
{
    if s.len() == 0 || !word_byte(s[0]) {
        0
    } else {
        (1 + word_len(s.drop_first())) as nat
    }
}

/// Whether `s` begins with a CRLF.
pub open spec fn starts_crlf(s: Seq<u8>) -> bool {
    s.len() >= 2 && s[0] == 0x0d && s[1] == 0x0a
}

/// The next token of the remaining input: its kind and length, `None` at
/// the end of the input, or an error position on a foreign byte.
pub ghost enum NextToken {
    Done,
    Tok(TokenKind, nat),
    Unknown,
}

/// What the tokenizer yields on the remaining bytes `s`: whitespace first,
/// then CRLF, then a word.
pub open spec fn spec_next(s: Seq<u8>) -> NextToken {
    if s.len() == 0 {
        NextToken::Done
    } else if ws_len(s) > 0 {
        NextToken::Tok(TokenKind::WS, ws_len(s))
    } else if starts_crlf(s) {
        NextToken::Tok(TokenKind::CRLF, 2)
    } else if word_len(s) > 0 {
        NextToken::Tok(TokenKind::Word, word_len(s))
    } else {
        NextToken::Unknown
    }
}

/// A cursor over one line of input, yielding tokens front to back.
pub struct Tokenizer<'a> {
    data: &'a [u8],
    pos: usize,
}

impl<'a> View for Tokenizer<'a> {
    type V = (Seq<u8>, int);

    closed spec fn view(&self) -> (Seq<u8>, int) {
        (self.data@, self.pos as int)
    }
}

/// `ws_len` is the position of the first non-space byte.
proof fn lemma_ws_len_from(s: Seq<u8>, j: int)
    requires
        0 <= j <= s.len(),
        forall|i: int| 0 <= i < j ==> s[i] == 0x20,
        j == s.len() || s[j] != 0x20,
    ensures
        ws_len(s) == j,
    decreases j,
{
    if j > 0 {
        lemma_ws_len_from(s.drop_first(), j - 1);
    }
}

/// `word_len` is the position of the first non-word byte.
proof fn lemma_word_len_from(s: Seq<u8>, j: int)
    requires
        0 <= j <= s.len(),
        forall|i: int| 0 <= i < j ==> word_byte(#[trigger] s[i]),
        j == s.len() || !word_byte(s[j]),
    ensures
        word_len(s) == j,
    decreases j,
{
    if j > 0 {
        assert(word_byte(s[0]));
        lemma_word_len_from(s.drop_first(), j - 1);
    }
}

impl<'a> Tokenizer<'a> {
    /// A tokenizer at the start of `input`.
    pub fn new(input: &'a [u8]) -> (r: Self)
        ensures
            r@ == (input@, 0int),
    {
        Tokenizer { data: input, pos: 0 }
    }

    /// The byte position the tokenizer has reached.
    pub fn position(&self) -> (r: usize)
        ensures
            r == self@.1,
    {
        self.pos
    }

    /// The next token, `None` at the end of the input, or the position of a
    /// byte no token may contain.
    pub fn next(&mut self) -> (r: Option<Result<Token, ParseError>>)
        requires
            old(self)@.1 <= old(self)@.0.len(),
        ensures
            final(self)@.0 == old(self)@.0,
            ({
                let s = old(self)@.0.skip(old(self)@.1);
                match r {
                    None => spec_next(s) is Done && final(self)@.1 == old(self)@.1,
                    Some(Ok(t)) => spec_next(s) == NextToken::Tok(t.kind, (t.end_pos
                        - t.start_pos) as nat) && t.start_pos == old(self)@.1 && t.end_pos
                        == final(self)@.1 && final(self)@.1 <= old(self)@.0.len()
                        && t.start_pos < t.end_pos,
                    Some(Err(ParseError::UnknownToken(p))) => spec_next(s) is Unknown && p
                        == old(self)@.1 && final(self)@.1 == old(self)@.1,
                    Some(Err(_)) => false,
                }
            }),
    {
        let n: usize = self.data.len();
        let start: usize = self.pos;
        let input = vstd::slice::slice_subrange(self.data, start, n);
        proof {
            assert(input@ =~= self.data@.skip(start as int));
        }
        if input.len() == 0 {
            return None;
        }
        if let Some(len) = whitespace(input) {
            let token = Token { kind: TokenKind::WS, start_pos: start, end_pos: start + len };
            self.pos = start + len;
            return Some(Ok(token));
        }
        if let Some(len) = crlf(input) {
            let token = Token { kind: TokenKind::CRLF, start_pos: start, end_pos: start + len };
            self.pos = start + len;
            return Some(Ok(token));
        }
        if let Some(len) = word(input) {
            let token = Token { kind: TokenKind::Word, start_pos: start, end_pos: start + len };
            self.pos = start + len;
            return Some(Ok(token));
        }
        Some(Err(ParseError::UnknownToken(start)))
    }
}

/// The length of the run of spaces at the front of `input`, if there is one.
fn whitespace(input: &[u8]) -> (r: Option<usize>)
    ensures
        match r {
            Some(l) => l == ws_len(input@) && 0 < l <= input@.len(),
            None => ws_len(input@) == 0,
        },
{
    let n: usize = input.len();
    let mut i: usize = 0;
    while i < n && input[i] == 0x20
        invariant
            i <= n,
            n == input@.len(),
            forall|j: int| 0 <= j < i ==> input@[j] == 0x20,
        decreases n - i,
    {
        i = i + 1;
    }
    proof {
        lemma_ws_len_from(input@, i as int);
    }
    if i > 0 {
        Some(i)
    } else {
        None
    }
}

/// The length of the CRLF at the front of `input`, if there is one.
fn crlf(input: &[u8]) -> (r: Option<usize>)
    ensures
        match r {
            Some(l) => l == 2 && starts_crlf(input@) && 2 <= input@.len(),
            None => !starts_crlf(input@),
        },
{
    if input.len() >= 2 && input[0] == 0x0d && input[1] == 0x0a {
        Some(2)
    } else {
        None
    }
}

/// The length of the word at the front of `input`, if there is one.
fn word(input: &[u8]) -> (r: Option<usize>)
    ensures
        match r {
            Some(l) => l == word_len(input@) && 0 < l <= input@.len(),
            None => word_len(input@) == 0,
        },
{
    let n: usize = input.len();
    let mut i: usize = 0;
    while i < n && (is_word_char_upper(input[i]) || is_word_char_lower(input[i]))
        invariant
            i <= n,
            n == input@.len(),
            forall|j: int| 0 <= j < i ==> word_byte(#[trigger] input@[j]),
        decreases n - i,
    {
        i = i + 1;
    }
    proof {
        lemma_word_len_from(input@, i as int);
    }
    if i > 0 {
        Some(i)
    } else {
        None
    }
}

/// Whether `byte` may stand in a word: a capital letter./// Whether `byte` may stand in a word: a capital letter.
pub fn is_word_char_upper(byte: u8) -> (r: bool)
    ensures
        r == word_byte_upper(byte),
{
    65 <= byte && byte <= 90
}

/// Whether `byte` may stand in a word: a small letter.
pub fn is_word_char_lower(byte: u8) -> (r: bool)
    ensures
        r == word_byte_lower(byte),
{
    97 <= byte && byte <= 122
}

/// The words of the input from `pos` on, up to its end or the first byte no
/// token may contain: the byte ranges of the word tokens, in order.
pub open spec fn spec_words(s: Seq<u8>) -> Seq<Seq<u8>>
    decreases s.len(),
{
    match spec_next(s) {
        NextToken::Done => Seq::empty(),
        NextToken::Unknown => Seq::empty(),
        NextToken::Tok(kind, l) => {
            let lc: int = if 1 <= l <= s.len() {
                l as int
            } else {
                s.len() as int
            };
            if kind is Word {
                seq![s.take(lc)] + spec_words(s.skip(lc))
            } else {
                spec_words(s.skip(lc))
            }
        },
    }
}

/// Bytes inside the scanned word prefix are word bytes.
proof fn lemma_word_len_bytes(s: Seq<u8>, i: int)
    requires
        0 <= i < word_len(s),
        word_len(s) <= s.len(),
    ensures
        word_byte(s[i]),
    decreases i,
{
    if i > 0 {
        lemma_word_len_le(s.drop_first());
        lemma_word_len_bytes(s.drop_first(), i - 1);
    }
}

/// `word_len` never exceeds the input length.
proof fn lemma_word_len_le(s: Seq<u8>)
    ensures
        word_len(s) <= s.len(),
    decreases s.len(),
{
    if s.len() > 0 && word_byte(s[0]) {
        lemma_word_len_le(s.drop_first());
    }
}

/// The inline command a line names: the first word is the operation, the
/// later words are its arguments, spelled as ASCII text.
pub open spec fn spec_parse_line(s: Seq<u8>) -> Option<CommandV> {
    let words = spec_words(s);
    if words.len() == 0 || ws_len(s) > 0 || starts_crlf(s) {
        None
    } else {
        let name = words[0];
        let chars_of = |w: Seq<u8>| w.map_values(|b: u8| b as char);
        if name == "get"@.map_values(|c: char| c as u8) && words.len() >= 2 {
            Some(CommandV::Get(chars_of(words[1])))
        } else if name == "set"@.map_values(|c: char| c as u8) && words.len() >= 3 {
            Some(CommandV::Put(chars_of(words[1]), chars_of(words[2])))
        } else if name == "remove"@.map_values(|c: char| c as u8) && words.len() >= 2 {
            Some(CommandV::Remove(chars_of(words[1])))
        } else {
            None
        }
    }
}

/// The byte ranges `(start, end)` over `data`, as the byte runs they cover.
pub open spec fn ranges_bytes(data: Seq<u8>, rs: Seq<(usize, usize)>) -> Seq<Seq<u8>>
    decreases rs.len(),
{
    if rs.len() == 0 {
        Seq::empty()
    } else {
        ranges_bytes(data, rs.drop_last()).push(
            data.subrange(rs.last().0 as int, rs.last().1 as int),
        )
    }
}

/// Appending a range appends its bytes.
proof fn lemma_ranges_bytes_push(data: Seq<u8>, rs: Seq<(usize, usize)>, r: (usize, usize))
    ensures
        ranges_bytes(data, rs.push(r)) == ranges_bytes(data, rs).push(
            data.subrange(r.0 as int, r.1 as int),
        ),
{
    assert(rs.push(r).drop_last() =~= rs);
    assert(rs.push(r).last() == r);
}

/// The text a word's bytes spell.
fn word_string(input: &[u8], start: usize, end: usize) -> (r: String)
    requires
        start <= end <= input@.len(),
        forall|i: int| start <= i < end ==> word_byte(#[trigger] input@[i]),
    ensures
        r@ == input@.subrange(start as int, end as int).map_values(|b: u8| b as char),
{
    let w = vstd::slice::slice_to_vec(vstd::slice::slice_subrange(input, start, end));
    proof {
        assert(w@ =~= input@.subrange(start as int, end as int));
        assert forall|i: int| 0 <= i < w@.len() implies w@[i] < 0x80 by {
            assert(w@[i] == input@[start + i]);
            assert(word_byte(input@[start + i]));
        }
        crate::object::lemma_ascii_bytes(w@);
    }
    match crate::object::string_from_utf8(w) {
        Some(s) => s,
        None => {
            proof {
                assert(false);
            }
            String::new()
        },
    }
}

/// Parses one inline line into a command.
///
/// The first token must be a word naming the operation; the words after it,
/// up to the end of the line's tokens, are the arguments.  A line that
/// starts with anything else, names no known operation or is short of
/// arguments is refused with the position-free errors; a byte no token may
/// contain is refused with its position.
#[verifier::rlimit(60)]
pub fn parse(input: &[u8]) -> (r: Result<Command, ParseError>)
    ensures
        ({
            match r {
                Ok(c) => spec_parse_line(input@) == Some(c@),
                Err(ParseError::UnknownCommand) => input@.len() == 0,
                Err(ParseError::UnknownToken(p)) => spec_next(input@) is Unknown && p == 0,
                Err(ParseError::Other) => spec_parse_line(input@) is None && input@.len() > 0
                    && !(spec_next(input@) is Unknown),
            }
        }),
{
    let mut tokenizer = Tokenizer::new(input);
    let total: usize = input.len();
    let first = match tokenizer.next() {
        None => {
            return Err(ParseError::UnknownCommand);
        },
        Some(Err(e)) => {
            return Err(e);
        },
        Some(Ok(t)) => t,
    };
    let name_range: (usize, usize) = match first.kind {
        TokenKind::Word => (first.start_pos, first.end_pos),
        _ => {
            return Err(ParseError::Other);
        },
    };
    let mut words: Vec<(usize, usize)> = Vec::new();
    words.push(name_range);
    proof {
        assert(input@.skip(0) =~= input@);
        assert(input@.skip(0).take(name_range.1 as int) =~= input@.subrange(
            0,
            name_range.1 as int,
        ));
        assert(ranges_bytes(input@, words@) =~= seq![
            input@.subrange(name_range.0 as int, name_range.1 as int),
        ]) by {
            assert(words@.drop_last() =~= Seq::<(usize, usize)>::empty());
            assert(ranges_bytes(input@, Seq::<(usize, usize)>::empty()) == Seq::<
                Seq<u8>,
            >::empty());
        }
        assert(word_len(input@) == name_range.1 - name_range.0);
        lemma_word_len_le(input@);
        assert forall|i: int| name_range.0 <= i < name_range.1 implies word_byte(
            #[trigger] input@[i],
        ) by {
            lemma_word_len_bytes(input@, i);
        }
        assert(seq![input@.subrange(0, name_range.1 as int)] + spec_words(
            input@.skip(name_range.1 as int),
        ) == spec_words(input@));
    }
    loop
        invariant
            tokenizer@.0 == input@,
            0 <= tokenizer@.1 <= input@.len(),
            spec_words(input@) == ranges_bytes(input@, words@) + spec_words(
                input@.skip(tokenizer@.1),
            ),
            words@.len() >= 1,
            words@[0] == name_range,
            forall|k: int| 0 <= k < words@.len() ==> ((#[trigger] words@[k]).0
                <= words@[k].1 <= input@.len() && (forall|i: int|
                words@[k].0 <= i < words@[k].1 ==> word_byte(#[trigger] input@[i]))),
        ensures
            spec_words(input@) == ranges_bytes(input@, words@),
            words@.len() >= 1,
            words@[0] == name_range,
            forall|k: int| 0 <= k < words@.len() ==> ((#[trigger] words@[k]).0
                <= words@[k].1 <= input@.len() && (forall|i: int|
                words@[k].0 <= i < words@[k].1 ==> word_byte(#[trigger] input@[i]))),
        decreases input@.len() - tokenizer@.1 + 1,
    {
        let ghost pos_before = tokenizer@.1;
        let ghost s = input@.skip(pos_before);
        match tokenizer.next() {
            None => {
                proof {
                    assert(spec_words(s) =~= Seq::<Seq<u8>>::empty());
                    assert(ranges_bytes(input@, words@) + Seq::<Seq<u8>>::empty()
                        =~= ranges_bytes(input@, words@));
                }
                break ;
            },
            Some(Err(_)) => {
                proof {
                    assert(spec_words(s) =~= Seq::<Seq<u8>>::empty());
                    assert(ranges_bytes(input@, words@) + Seq::<Seq<u8>>::empty()
                        =~= ranges_bytes(input@, words@));
                }
                break ;
            },
            Some(Ok(t)) => {
                let ghost l = (t.end_pos - t.start_pos) as int;
                proof {
                    assert(s.skip(l) =~= input@.skip(t.end_pos as int));
                    assert(1 <= l <= s.len());
                }
                match t.kind {
                    TokenKind::Word => {
                        let ghost words_before = words@;
                        proof {
                            assert(s.take(l) =~= input@.subrange(
                                t.start_pos as int,
                                t.end_pos as int,
                            ));
                            lemma_ranges_bytes_push(
                                input@,
                                words@,
                                (t.start_pos, t.end_pos),
                            );
                            assert(ranges_bytes(input@, words@).push(s.take(l)) + spec_words(
                                input@.skip(t.end_pos as int),
                            ) =~= ranges_bytes(input@, words@) + (seq![s.take(l)]
                                + spec_words(input@.skip(t.end_pos as int))));
                            lemma_word_len_le(s);
                            assert(word_len(s) == l);
                            assert forall|i: int|
                                t.start_pos <= i < t.end_pos implies word_byte(
                                #[trigger] input@[i],
                            ) by {
                                lemma_word_len_bytes(s, i - t.start_pos);
                                assert(s[i - t.start_pos] == input@[i]);
                            }
                        }
                        words.push((t.start_pos, t.end_pos));
                        proof {
                            assert forall|k: int| 0 <= k < words@.len() implies ((
                            #[trigger] words@[k]).0 <= words@[k].1 <= input@.len() && (
                            forall|i: int|
                                words@[k].0 <= i < words@[k].1 ==> word_byte(
                                    #[trigger] input@[i],
                                ))) by {
                                if k < words@.len() - 1 {
                                    assert(words@[k] == words_before[k]);
                                }
                            }
                        }
                    },
                    _ => {
                        proof {
                            assert(spec_words(s) == spec_words(s.skip(l)));
                        }
                    },
                }
            },
        }
    }
    proof {
        lemma_ranges_bytes_len(input@, words@);
    }
    let name_len: usize = name_range.1 - name_range.0;
    proof {
        reveal_strlit("get");
        reveal_strlit("set");
        reveal_strlit("remove");
        assert(spec_words(input@)[0] == input@.subrange(
            name_range.0 as int,
            name_range.1 as int,
        ));
    }
    let is_get = name_len == 3 && input[name_range.0] == 0x67 && input[name_range.0 + 1] == 0x65
        && input[name_range.0 + 2] == 0x74;
    let is_set = name_len == 3 && input[name_range.0] == 0x73 && input[name_range.0 + 1] == 0x65
        && input[name_range.0 + 2] == 0x74;
    let is_remove = name_len == 6 && input[name_range.0] == 0x72 && input[name_range.0 + 1]
        == 0x65 && input[name_range.0 + 2] == 0x6d && input[name_range.0 + 3] == 0x6f
        && input[name_range.0 + 4] == 0x76 && input[name_range.0 + 5] == 0x65;
    proof {
        let name = spec_words(input@)[0];
        assert(is_get == (name == "get"@.map_values(|c: char| c as u8))) by {
            if is_get {
                assert(name =~= "get"@.map_values(|c: char| c as u8));
            } else if name == "get"@.map_values(|c: char| c as u8) {
                assert(name.len() == 3);
                assert(name[0] == 0x67 && name[1] == 0x65 && name[2] == 0x74);
            }
        }
        assert(is_set == (name == "set"@.map_values(|c: char| c as u8))) by {
            if is_set {
                assert(name =~= "set"@.map_values(|c: char| c as u8));
            } else if name == "set"@.map_values(|c: char| c as u8) {
                assert(name.len() == 3);
                assert(name[0] == 0x73 && name[1] == 0x65 && name[2] == 0x74);
            }
        }
        assert(is_remove == (name == "remove"@.map_values(|c: char| c as u8))) by {
            if is_remove {
                assert(name =~= "remove"@.map_values(|c: char| c as u8));
            } else if name == "remove"@.map_values(|c: char| c as u8) {
                assert(name.len() == 6);
                assert(name[0] == 0x72 && name[1] == 0x65 && name[2] == 0x6d && name[3] == 0x6f
                    && name[4] == 0x76 && name[5] == 0x65);
            }
        }
    }
    if is_get && words.len() >= 2 {
        let (a0, a1) = (words[1].0, words[1].1);
        Ok(Command::Get(word_string(input, a0, a1)))
    } else if is_set && words.len() >= 3 {
        let (a0, a1) = (words[1].0, words[1].1);
        let (b0, b1) = (words[2].0, words[2].1);
        Ok(Command::Put(word_string(input, a0, a1), word_string(input, b0, b1)))
    } else if is_remove && words.len() >= 2 {
        let (a0, a1) = (words[1].0, words[1].1);
        Ok(Command::Remove(word_string(input, a0, a1)))
    } else {
        Err(ParseError::Other)
    }
}

/// The byte runs of ranges are as many as the ranges, pointwise.
proof fn lemma_ranges_bytes_len(data: Seq<u8>, rs: Seq<(usize, usize)>)
    ensures
        ranges_bytes(data, rs).len() == rs.len(),
        forall|i: int| 0 <= i < rs.len() ==> #[trigger] ranges_bytes(data, rs)[i]
            == data.subrange(rs[i].0 as int, rs[i].1 as int),
    decreases rs.len(),
{
    if rs.len() > 0 {
        lemma_ranges_bytes_len(data, rs.drop_last());
        assert(ranges_bytes(data, rs) == ranges_bytes(data, rs.drop_last()).push(
            data.subrange(rs.last().0 as int, rs.last().1 as int),
        ));
        assert forall|i: int| 0 <= i < rs.len() implies #[trigger] ranges_bytes(data, rs)[i]
            == data.subrange(rs[i].0 as int, rs[i].1 as int) by {
            if i < rs.len() - 1 {
                assert(ranges_bytes(data, rs)[i] == ranges_bytes(data, rs.drop_last())[i]);
                assert(rs.drop_last()[i] == rs[i]);
            } else {
                assert(rs.last() == rs[i]);
            }
        }
    }
}

} // verus!
