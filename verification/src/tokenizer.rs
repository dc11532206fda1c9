use vstd::prelude::*;

use crate::bytes::{
    all_digits, digits_value, is_digit, is_line_ending, lemma_digits_value_nonneg,
    literal_to_u64_checked, utf8_check, utf8_well_formed,
};
use crate::error::{Error, ErrorKind};
use crate::objects::{PDFNumber, SpecNumber};
use crate::sequence::Sequence;

verus! {

/// How many bytes the tokenizer pulls from the byte source at a time.  A
/// token need not fit in one chunk: the buffer refills mid-token.
pub const CHUNK_SIZE: usize = 1024;

/// Whitespace between tokens: space and the line-ending bytes.
pub open spec fn is_whitespace(b: u8) -> bool {
    b == 32 || is_line_ending(b)
}

/// The fixed end-character set: a byte that terminates a number or
/// identifier scan (without being part of it): `< > ( ) [ ] /`, backslash,
/// and the line endings.
pub open spec fn is_end_char(b: u8) -> bool {
    b == 60 || b == 62 || b == 40 || b == 41 || b == 91 || b == 93 || b == 47 || b == 92
        || is_line_ending(b)
}

/// A byte on which a number or identifier scan stops.
pub open spec fn ends_token(b: u8) -> bool {
    is_end_char(b) || is_whitespace(b)
}

/// The index of the first byte at or after `i` that is not whitespace, or
/// `input.len()`.
pub open spec fn skip_ws(input: Seq<u8>, i: int) -> int
    decreases input.len() - i,
{
    if i < 0 || i >= input.len() {
        input.len() as int
    } else if is_whitespace(input[i]) {
        skip_ws(input, i + 1)
    } else {
        i
    }
}

/// The index of the first byte at or after `i` on which a scan stops, or
/// `input.len()`.
pub open spec fn token_end(input: Seq<u8>, i: int) -> int
    decreases input.len() - i,
{
    if i < 0 || i >= input.len() {
        input.len() as int
    } else if ends_token(input[i]) {
        i
    } else {
        token_end(input, i + 1)
    }
}

/// A delimiter token.  `<` opens and `>` closes a hex string; `(` and `)`
/// bound a literal string; `/` starts a name.
#[derive(Clone, Copy, PartialEq, Eq, Structural, Debug)]
pub enum Delim {
    DictOpen,
    DictClose,
    HexOpen,
    HexClose,
    LiteralOpen,
    LiteralClose,
    ArrayOpen,
    ArrayClose,
    NameStart,
}

/// One lexical unit of a PDF stream.
#[derive(Clone, PartialEq, Eq, Debug)]
pub enum Token {
    Delimiter(Delim),
    Number(PDFNumber),
    Id(Vec<u8>),
}

/// The mathematical image of a [`Token`].
pub enum SpecToken {
    Delimiter(Delim),
    Number(SpecNumber),
    Id(Seq<u8>),
}

impl View for Token {
    type V = SpecToken;

    open spec fn view(&self) -> SpecToken {
        match self {
            Token::Delimiter(d) => SpecToken::Delimiter(*d),
            Token::Number(n) => SpecToken::Number(n@),
            Token::Id(bytes) => SpecToken::Id(bytes@),
        }
    }
}

/// The length of the sign at the front of a number text: one for a leading
/// `+` or `-`, zero otherwise.
pub open spec fn sign_len(t: Seq<u8>) -> int {
    if t.len() > 0 && (t[0] == 43 || t[0] == 45) {
        1
    } else {
        0
    }
}

/// How many `.` bytes `s` holds.
pub open spec fn count_dots(s: Seq<u8>) -> int
    decreases s.len(),
{
    if s.len() == 0 {
        0
    } else {
        count_dots(s.drop_last()) + if s.last() == 46 {
            1int
        } else {
            0int
        }
    }
}

/// Whether `s` holds at least one decimal digit.
pub open spec fn has_digit(s: Seq<u8>) -> bool {
    exists|i: int| 0 <= i < s.len() && is_digit(#[trigger] s[i])
}

/// Whether every byte of `s` is a decimal digit or a `.`.
pub open spec fn all_number_chars(s: Seq<u8>) -> bool {
    forall|i: int| 0 <= i < s.len() ==> is_digit(#[trigger] s[i]) || s[i] == 46
}

/// Whether `t` has the shape of a numeric literal: an optional sign, then
/// digits with at most one `.` among them and at least one digit.
pub open spec fn valid_number_text(t: Seq<u8>) -> bool {
    let body = t.skip(sign_len(t));
    &&& body.len() > 0
    &&& all_number_chars(body)
    &&& count_dots(body) <= 1
    &&& has_digit(body)
}

/// The numeric value of the token text `t`: a real keeps its lexical form;
/// an integer with a leading `-` is signed, any other is unsigned.  `None`
/// where the shape is wrong or an integer exceeds its machine range.
pub open spec fn spec_number_token(t: Seq<u8>) -> Option<SpecNumber> {
    if !valid_number_text(t) {
        None
    } else if count_dots(t.skip(sign_len(t))) == 1 {
        Some(SpecNumber::Real(t))
    } else if t.len() > 0 && t[0] == 45 {
        let m = digits_value(t.skip(1));
        if m <= 0x8000_0000_0000_0000 {
            Some(SpecNumber::Signed((-m) as i64))
        } else {
            None
        }
    } else {
        let m = digits_value(t.skip(sign_len(t)));
        if m <= u64::MAX {
            Some(SpecNumber::Unsigned(m as u64))
        } else {
            None
        }
    }
}

/// What the next token of `input` is.
pub enum SpecNext {
    /// A token, and the count of bytes it consumed (leading whitespace
    /// included).
    Tok(SpecToken, int),
    /// Only whitespace remained.
    Eof,
    /// No token could be formed: `LexicalError` or `InvalidText`.
    Fail(ErrorKind),
}

impl SpecNext {
    /// The bytes a [`SpecNext::Tok`] consumed.
    pub open spec fn consumed(self) -> int {
        match self {
            SpecNext::Tok(_, n) => n,
            _ => 0,
        }
    }
}

/// The tokenization of the front of `input`: whitespace is skipped, one
/// byte of lookahead tells `<<` from `<` and `>>` from `>`, a digit or a
/// sign starts a number scan, and any other non-delimiter byte starts an
/// identifier scan whose bytes must be well-formed UTF-8.
pub open spec fn spec_next(input: Seq<u8>) -> SpecNext {
    let i = skip_ws(input, 0);
    if i >= input.len() {
        SpecNext::Eof
    } else {
        let b = input[i];
        if b == 47 {
            SpecNext::Tok(SpecToken::Delimiter(Delim::NameStart), i + 1)
        } else if b == 40 {
            SpecNext::Tok(SpecToken::Delimiter(Delim::LiteralOpen), i + 1)
        } else if b == 41 {
            SpecNext::Tok(SpecToken::Delimiter(Delim::LiteralClose), i + 1)
        } else if b == 91 {
            SpecNext::Tok(SpecToken::Delimiter(Delim::ArrayOpen), i + 1)
        } else if b == 93 {
            SpecNext::Tok(SpecToken::Delimiter(Delim::ArrayClose), i + 1)
        } else if b == 60 {
            if i + 1 < input.len() && input[i + 1] == 60 {
                SpecNext::Tok(SpecToken::Delimiter(Delim::DictOpen), i + 2)
            } else {
                SpecNext::Tok(SpecToken::Delimiter(Delim::HexOpen), i + 1)
            }
        } else if b == 62 {
            if i + 1 < input.len() && input[i + 1] == 62 {
                SpecNext::Tok(SpecToken::Delimiter(Delim::DictClose), i + 2)
            } else {
                SpecNext::Tok(SpecToken::Delimiter(Delim::HexClose), i + 1)
            }
        } else if is_digit(b) || b == 43 || b == 45 {
            let j = token_end(input, i + 1);
            match spec_number_token(input.subrange(i, j)) {
                Some(n) => SpecNext::Tok(SpecToken::Number(n), j),
                None => SpecNext::Fail(ErrorKind::LexicalError),
            }
        } else {
            let j = token_end(input, i + 1);
            if utf8_well_formed(input.subrange(i, j)) {
                SpecNext::Tok(SpecToken::Id(input.subrange(i, j)), j)
            } else {
                SpecNext::Fail(ErrorKind::InvalidText)
            }
        }
    }
}

/// `skip_ws` lands between `i` and the length, on a non-whitespace byte
/// where it is within bounds, and every byte it skipped is whitespace.
pub proof fn lemma_skip_ws(input: Seq<u8>, i: int)
    requires
        0 <= i <= input.len(),
    ensures
        i <= skip_ws(input, i) <= input.len(),
        skip_ws(input, i) < input.len() ==> !is_whitespace(input[skip_ws(input, i)]),
        forall|j: int| i <= j < skip_ws(input, i) ==> is_whitespace(#[trigger] input[j]),
    decreases input.len() - i,
{
    if i < input.len() && is_whitespace(input[i]) {
        lemma_skip_ws(input, i + 1);
    }
}

/// `token_end` lands between `i` and the length, on an ending byte where it
/// is within bounds, and every byte it passed continues the token.
pub proof fn lemma_token_end(input: Seq<u8>, i: int)
    requires
        0 <= i <= input.len(),
    ensures
        i <= token_end(input, i) <= input.len(),
        token_end(input, i) < input.len() ==> ends_token(input[token_end(input, i)]),
        forall|j: int| i <= j < token_end(input, i) ==> !ends_token(#[trigger] input[j]),
    decreases input.len() - i,
{
    if i < input.len() && !ends_token(input[i]) {
        lemma_token_end(input, i + 1);
    }
}

/// An input whose first two bytes after the leading whitespace are `<<`
/// tokenizes to one two-character dictionary-open delimiter spanning both
/// of them — never to two single `<` tokens.
pub proof fn lemma_double_open_dict(input: Seq<u8>)
    requires
        ({
            let i = skip_ws(input, 0);
            i + 1 < input.len() && input[i] == 60 && input[i + 1] == 60
        }),
    ensures
        spec_next(input) == SpecNext::Tok(
            SpecToken::Delimiter(Delim::DictOpen),
            skip_ws(input, 0) + 2,
        ),
{
    lemma_skip_ws(input, 0);
}

/// A token consumes at least one byte and at most the whole input.
pub proof fn lemma_spec_next_consumes(input: Seq<u8>)
    ensures
        spec_next(input) matches SpecNext::Tok(t, n) ==> 1 <= n <= input.len(),
{
    lemma_skip_ws(input, 0);
    let i = skip_ws(input, 0);
    if i < input.len() {
        lemma_token_end(input, i + 1);
    }
}

/// Turns a number token's text into its value, exactly as
/// [`spec_number_token`] describes.
pub fn number_from_text(text: &Vec<u8>) -> (r: Result<PDFNumber, Error>)
    ensures
        match r {
            Ok(n) => spec_number_token(text@) == Some(n@),
            Err(e) => e.kind == ErrorKind::LexicalError && spec_number_token(text@) is None,
        },
{
    let len = text.len();
    let sl: usize = if len > 0 && (text[0] == 43 || text[0] == 45) {
        1
    } else {
        0
    };
    let ghost body = text@.skip(sign_len(text@));
    assert(sl == sign_len(text@));
    if len == sl {
        assert(body.len() == 0);
        return Err(Error::new(ErrorKind::LexicalError));
    }
    let mut dots: u64 = 0;
    let mut digits: u64 = 0;
    let mut i: usize = sl;
    while i < len
        invariant
            sl <= i <= len,
            len == text@.len(),
            sl == sign_len(text@),
            body == text@.skip(sl as int),
            dots <= i,
            dots == count_dots(body.take(i - sl)),
            all_number_chars(body.take(i - sl)),
            digits <= i,
            digits > 0 <==> has_digit(body.take(i - sl)),
        decreases len - i,
    {
        let b = text[i];
        proof {
            assert(body.take(i - sl + 1).drop_last() =~= body.take(i - sl));
            assert(body.take(i - sl + 1).last() == text@[i as int]);
        }
        if b == 46 {
            dots = dots + 1;
        } else if 48 <= b && b <= 57 {
            digits = digits + 1;
        } else {
            assert(!all_number_chars(body)) by {
                assert(body[i - sl] == text@[i as int]);
            }
            return Err(Error::new(ErrorKind::LexicalError));
        }
        proof {
            if digits > 0 && !has_digit(body.take(i - sl + 1)) {
                assert(has_digit(body.take(i - sl)));
                let w = choose|w: int|
                    0 <= w < body.take(i - sl).len() && is_digit(#[trigger] body.take(i - sl)[w]);
                assert(is_digit(body.take(i - sl + 1)[w]));
            }
        }
        i = i + 1;
    }
    proof {
        assert(body.take(len - sl) =~= body);
    }
    if dots > 1 {
        return Err(Error::new(ErrorKind::LexicalError));
    }
    if digits == 0 {
        return Err(Error::new(ErrorKind::LexicalError));
    }
    assert(valid_number_text(text@));
    if dots == 1 {
        return Ok(PDFNumber::Real(text.clone()));
    }
    assert(all_digits(body)) by {
        assert(forall|j: int|
            0 <= j < body.len() ==> (is_digit(#[trigger] body[j]) || body[j] == 46));
        if exists|j: int| 0 <= j < body.len() && #[trigger] body[j] == 46 {
            let j = choose|j: int| 0 <= j < body.len() && #[trigger] body[j] == 46;
            assert(count_dots(body) >= 1) by {
                lemma_count_dots_positive(body, j);
            }
        }
    }
    let digit_slice = slice_range(text, sl, len);
    assert(digit_slice@ =~= body);
    let m = match literal_to_u64_checked(digit_slice) {
        Some(m) => m,
        None => {
            return Err(Error::new(ErrorKind::LexicalError));
        },
    };
    if len > 0 && text[0] == 45 {
        assert(text@.skip(1) =~= body);
        if m <= 0x8000_0000_0000_0000 {
            let v: i64 = if m == 0x8000_0000_0000_0000 {
                i64::MIN
            } else {
                -(m as i64)
            };
            Ok(PDFNumber::Signed(v))
        } else {
            proof {
                lemma_digits_value_nonneg(body);
            }
            Err(Error::new(ErrorKind::LexicalError))
        }
    } else {
        Ok(PDFNumber::Unsigned(m))
    }
}

/// A `.` at index `j` makes `count_dots` positive.
proof fn lemma_count_dots_positive(s: Seq<u8>, j: int)
    requires
        0 <= j < s.len(),
        s[j] == 46,
    ensures
        count_dots(s) >= 1,
    decreases s.len(),
{
    lemma_count_dots_nonneg(s.drop_last());
    if j < s.len() - 1 {
        lemma_count_dots_positive(s.drop_last(), j);
        lemma_count_dots_nonneg(s.drop_last().drop_last());
    }
}

/// `count_dots` is never negative.
proof fn lemma_count_dots_nonneg(s: Seq<u8>)
    ensures
        count_dots(s) >= 0,
    decreases s.len(),
{
    if s.len() > 0 {
        lemma_count_dots_nonneg(s.drop_last());
    }
}

/// The subslice of `v` from `from` to `to`.
fn slice_range(v: &Vec<u8>, from: usize, to: usize) -> (r: &[u8])
    requires
        from <= to <= v@.len(),
    ensures
        r@ == v@.subrange(from as int, to as int),
{
    &v[from..to]
}

/// The index of the byte that closes a string whose opener is already
/// consumed, or `input.len()` where none does.  A backslash sets an escape
/// flag that suppresses close recognition on the following byte.
pub open spec fn scan_string_end(input: Seq<u8>, end: u8, i: int, esc: bool) -> int
    decreases input.len() - i,
{
    if i < 0 || i >= input.len() {
        input.len() as int
    } else if esc {
        scan_string_end(input, end, i + 1, false)
    } else if input[i] == 92 {
        scan_string_end(input, end, i + 1, true)
    } else if input[i] == end {
        i
    } else {
        scan_string_end(input, end, i + 1, false)
    }
}

/// What scanning a string body out of `input` yields: the raw content up
/// to the first unescaped `end` byte (backslashes kept, the closer
/// consumed but not included), and the count of bytes consumed.  `None`
/// where the string is unterminated.
pub open spec fn spec_scan_string(input: Seq<u8>, end: u8) -> Option<(Seq<u8>, int)> {
    let k = scan_string_end(input, end, 0, false);
    if k >= input.len() {
        None
    } else {
        Some((input.take(k), k + 1))
    }
}

/// `scan_string_end` lands between `i` and the length.
pub proof fn lemma_scan_string_end(input: Seq<u8>, end: u8, i: int, esc: bool)
    requires
        0 <= i <= input.len(),
    ensures
        i <= scan_string_end(input, end, i, esc) <= input.len(),
    decreases input.len() - i,
{
    if i < input.len() && !(!esc && input[i] != 92 && input[i] == end) {
        lemma_scan_string_end(input, end, i + 1, !esc && input[i] == 92);
    }
}

/// A scanned string consumes at least its closer and at most everything.
pub proof fn lemma_scan_string_bounds(input: Seq<u8>, end: u8)
    ensures
        spec_scan_string(input, end) matches Some(p) ==> 1 <= p.1 <= input.len(),
{
    lemma_scan_string_end(input, end, 0, false);
}

/// The bytes of `s` that are still unread.
pub open spec fn seq_rest<S: Sequence>(s: &S) -> Seq<u8> {
    s.data().skip(s.cursor())
}

/// The stateful lexer: a look-ahead byte buffer over a byte source.
/// `buf[pos..]` holds bytes pulled from the source and not yet consumed.
pub struct Tokenizer {
    pub buf: Vec<u8>,
    pub pos: usize,
}

/// The input still in front of the tokenizer: its buffered bytes, then the
/// source's unread ones.
pub open spec fn rem<S: Sequence>(t: &Tokenizer, s: &S) -> Seq<u8> {
    t.buffered() + seq_rest(s)
}

impl Tokenizer {
    /// The consumed prefix of the buffer never passes its end.
    pub open spec fn wf(&self) -> bool {
        self.pos <= self.buf@.len()
    }

    /// The buffered bytes not yet consumed.
    pub open spec fn buffered(&self) -> Seq<u8> {
        self.buf@.skip(self.pos as int)
    }

    /// A fresh tokenizer with an empty buffer.
    pub fn new() -> (t: Tokenizer)
        ensures
            t.wf(),
            t.buffered() == Seq::<u8>::empty(),
    {
        Tokenizer { buf: Vec::new(), pos: 0 }
    }

    /// Pulls bytes from `seq` until the buffer has an index `k`, or the
    /// source is exhausted.  The input in front of the tokenizer does not
    /// change; the buffer only grows at its end.
    fn ensure_index<S: Sequence>(&mut self, seq: &mut S, k: usize) -> (r: Result<bool, Error>)
        requires
            old(self).wf(),
            old(seq).inv(),
            old(self).pos <= k,
        ensures
            final(self).wf(),
            final(seq).inv(),
            final(seq).data() == old(seq).data(),
            final(self).pos == old(self).pos,
            final(self).buf@.len() >= old(self).buf@.len(),
            final(self).buf@.take(old(self).buf@.len() as int) == old(self).buf@,
            match r {
                Ok(true) => k < final(self).buf@.len() && rem(final(self), final(seq)) == rem(
                    old(self),
                    old(seq),
                ),
                Ok(false) => k >= final(self).buf@.len() && seq_rest(final(seq)).len() == 0
                    && rem(final(self), final(seq)) == rem(old(self), old(seq)),
                Err(e) => e.kind == ErrorKind::Io,
            },
    {
        while self.buf.len() <= k
            invariant
                self.wf(),
                seq.inv(),
                seq.data() == old(seq).data(),
                self.pos == old(self).pos,
                self.buf@.len() >= old(self).buf@.len(),
                self.buf@.take(old(self).buf@.len() as int) == old(self).buf@,
                rem(self, seq) == rem(old(self), old(seq)),
            decreases seq.data().len() - seq.cursor(),
        {
            proof {
                seq.lemma_inv_bounds();
            }
            let mut chunk = match seq.read(CHUNK_SIZE) {
                Ok(c) => c,
                Err(e) => {
                    return Err(e);
                },
            };
            if chunk.len() == 0 {
                proof {
                    assert(seq_rest(seq).len() == 0);
                }
                return Ok(false);
            }
            let ghost pre = self.buf@;
            let ghost got = chunk@;
            self.buf.append(&mut chunk);
            proof {
                assert(self.buf@.take(old(self).buf@.len() as int) =~= old(self).buf@);
                assert(self.buf@.skip(self.pos as int) =~= pre.skip(self.pos as int) + got);
                assert(rem(self, seq) =~= rem(old(self), old(seq)));
            }
        }
        Ok(true)
    }
}

impl Tokenizer {
    /// Scans the next token without consuming it.  Returns the token, the
    /// buffer position just past it — hand that to [`Self::commit`] to
    /// consume the token — and the count of input bytes it spans.
    pub fn peek_token<S: Sequence>(&mut self, seq: &mut S) -> (r: Result<
        (Token, usize, Ghost<int>),
        Error,
    >)
        requires
            old(self).wf(),
            old(seq).inv(),
        ensures
            final(self).wf(),
            final(seq).inv(),
            final(seq).data() == old(seq).data(),
            final(self).pos == old(self).pos,
            final(self).buf@.len() >= old(self).buf@.len(),
            final(self).buf@.take(old(self).buf@.len() as int) == old(self).buf@,
            match r {
                Ok((tok, p, n)) => {
                    &&& rem(final(self), final(seq)) == rem(old(self), old(seq))
                    &&& spec_next(rem(old(self), old(seq))) == SpecNext::Tok(tok@, n@)
                    &&& final(self).pos <= p <= final(self).buf@.len()
                    &&& final(self).buf@.skip(p as int) + seq_rest(final(seq)) == rem(
                        old(self),
                        old(seq),
                    ).skip(n@)
                },
                Err(e) => {
                    ||| e.kind == ErrorKind::Io
                    ||| (rem(final(self), final(seq)) == rem(old(self), old(seq)) && (
                    (e.kind == ErrorKind::EndOfInput && spec_next(rem(old(self), old(seq))) is Eof)
                        || ((e.kind == ErrorKind::LexicalError || e.kind == ErrorKind::InvalidText)
                        && spec_next(rem(old(self), old(seq))) == SpecNext::Fail(e.kind))))
                },
            },
    {
        let ghost r0 = rem(self, seq);
        let pos0 = self.pos;
        let mut k = self.pos;
        loop
            invariant_except_break
                self.wf(),
                seq.inv(),
                seq.data() == old(seq).data(),
                pos0 == old(self).pos,
                r0 == rem(old(self), old(seq)),
                self.pos == pos0,
                self.buf@.len() >= old(self).buf@.len(),
                self.buf@.take(old(self).buf@.len() as int) == old(self).buf@,
                pos0 <= k,
                k - pos0 <= r0.len(),
                rem(self, seq) == r0,
                skip_ws(r0, 0) == skip_ws(r0, k - pos0),
            ensures
                self.wf(),
                seq.inv(),
                seq.data() == old(seq).data(),
                self.pos == pos0,
                self.buf@.len() >= old(self).buf@.len(),
                self.buf@.take(old(self).buf@.len() as int) == old(self).buf@,
                pos0 <= k < self.buf@.len(),
                rem(self, seq) == r0,
                k - pos0 == skip_ws(r0, 0) < r0.len(),
                self.buf@[k as int] == r0[k - pos0],
                !is_whitespace(r0[k - pos0]),
            decreases r0.len() - (k - pos0),
        {
            let have = match self.ensure_index(seq, k) {
                Ok(h) => h,
                Err(e) => {
                    return Err(e);
                },
            };
            if !have {
                proof {
                    assert(k - pos0 >= r0.len());
                    assert(skip_ws(r0, r0.len() as int) == r0.len());
                }
                return Err(Error::new(ErrorKind::EndOfInput));
            }
            let b = self.buf[k];
            proof {
                assert(self.buf.len() == self.buf@.len());
                assert(r0[k - pos0] == self.buffered()[k - pos0]);
            }
            if !whitespace_byte(b) {
                break;
            }
            k = k + 1;
            proof {
                assert(skip_ws(r0, k - pos0 - 1) == skip_ws(r0, k - pos0));
            }
        }
        let ghost i: int = k - pos0;
        proof {
            assert(self.buf.len() == self.buf@.len());
        }
        let b = self.buf[k];
        if b == 47 || b == 40 || b == 41 || b == 91 || b == 93 {
            let d = if b == 47 {
                Delim::NameStart
            } else if b == 40 {
                Delim::LiteralOpen
            } else if b == 41 {
                Delim::LiteralClose
            } else if b == 91 {
                Delim::ArrayOpen
            } else {
                Delim::ArrayClose
            };
            proof {
                assert(self.buf@.skip((k + 1) as int) + seq_rest(seq) =~= r0.skip(i + 1));
            }
            return Ok((Token::Delimiter(d), k + 1, Ghost(i + 1)));
        }
        if b == 60 || b == 62 {
            let have = match self.ensure_index(seq, k + 1) {
                Ok(h) => h,
                Err(e) => {
                    return Err(e);
                },
            };
            proof {
                assert(self.buf.len() == self.buf@.len());
                assert(self.buf@[k as int] == r0[i]);
            }
            if have {
                let b2 = self.buf[k + 1];
                proof {
                    assert(r0[i + 1] == self.buffered()[i + 1]);
                }
                if b2 == b {
                    let d = if b == 60 {
                        Delim::DictOpen
                    } else {
                        Delim::DictClose
                    };
                    proof {
                        assert(self.buf@.skip((k + 2) as int) + seq_rest(seq) =~= r0.skip(i + 2));
                    }
                    return Ok((Token::Delimiter(d), k + 2, Ghost(i + 2)));
                }
            } else {
                proof {
                    assert(i + 1 >= r0.len());
                }
            }
            let d = if b == 60 {
                Delim::HexOpen
            } else {
                Delim::HexClose
            };
            proof {
                assert(self.buf@.skip((k + 1) as int) + seq_rest(seq) =~= r0.skip(i + 1));
            }
            return Ok((Token::Delimiter(d), k + 1, Ghost(i + 1)));
        }
        let mut j = k + 1;
        loop
            invariant_except_break
                self.wf(),
                seq.inv(),
                seq.data() == old(seq).data(),
                pos0 == old(self).pos,
                r0 == rem(old(self), old(seq)),
                self.pos == pos0,
                self.buf@.len() >= old(self).buf@.len(),
                self.buf@.take(old(self).buf@.len() as int) == old(self).buf@,
                pos0 <= k < self.buf@.len(),
                k + 1 <= j,
                j - pos0 <= r0.len(),
                rem(self, seq) == r0,
                i == k - pos0,
                token_end(r0, i + 1) == token_end(r0, j - pos0),
            ensures
                self.wf(),
                seq.inv(),
                seq.data() == old(seq).data(),
                self.pos == pos0,
                self.buf@.len() >= old(self).buf@.len(),
                self.buf@.take(old(self).buf@.len() as int) == old(self).buf@,
                pos0 <= k < self.buf@.len(),
                k + 1 <= j <= self.buf@.len(),
                rem(self, seq) == r0,
                j - pos0 == token_end(r0, i + 1),
            decreases r0.len() - (j - pos0),
        {
            let have = match self.ensure_index(seq, j) {
                Ok(h) => h,
                Err(e) => {
                    return Err(e);
                },
            };
            if !have {
                proof {
                    assert(j - pos0 >= r0.len());
                    assert(token_end(r0, r0.len() as int) == r0.len());
                }
                break;
            }
            let b2 = self.buf[j];
            proof {
                assert(self.buf.len() == self.buf@.len());
                assert(r0[j - pos0] == self.buffered()[j - pos0]);
            }
            if ends_token_byte(b2) {
                break;
            }
            j = j + 1;
            proof {
                assert(token_end(r0, j - pos0 - 1) == token_end(r0, j - pos0));
            }
        }
        let ghost e: int = j - pos0;
        let text = copy_range(&self.buf, k, j);
        proof {
            assert(text@ =~= r0.subrange(i, e)) by {
                assert(forall|t: int|
                    0 <= t < e - i ==> text@[t] == #[trigger] r0[i + t]);
            }
            assert(self.buf@.skip(j as int) + seq_rest(seq) =~= r0.skip(e));
        }
        let is_num_start = (48 <= b && b <= 57) || b == 43 || b == 45;
        if is_num_start {
            match number_from_text(&text) {
                Ok(n) => Ok((Token::Number(n), j, Ghost(e))),
                Err(err) => Err(err),
            }
        } else {
            if utf8_check(&text) {
                Ok((Token::Id(text), j, Ghost(e)))
            } else {
                Err(Error::new(ErrorKind::InvalidText))
            }
        }
    }

    /// Consumes a peeked token: `p` is the position [`Self::peek_token`]
    /// returned beside it.
    pub fn commit(&mut self, p: usize)
        requires
            old(self).wf(),
            old(self).pos <= p <= old(self).buf@.len(),
        ensures
            final(self).wf(),
            final(self).buf == old(self).buf,
            final(self).pos == p,
    {
        self.pos = p;
    }

    /// Produces the next token of the input, as [`spec_next`] describes,
    /// and consumes it.
    pub fn next_token<S: Sequence>(&mut self, seq: &mut S) -> (r: Result<Token, Error>)
        requires
            old(self).wf(),
            old(seq).inv(),
        ensures
            final(self).wf(),
            final(seq).inv(),
            final(seq).data() == old(seq).data(),
            match r {
                Ok(tok) => {
                    &&& spec_next(rem(old(self), old(seq))) matches SpecNext::Tok(t, n)
                    &&& spec_next(rem(old(self), old(seq))) matches SpecNext::Tok(t, n) ==> t
                        == tok@ && rem(final(self), final(seq)) == rem(old(self), old(seq)).skip(n)
                },
                Err(e) => {
                    ||| e.kind == ErrorKind::Io
                    ||| (rem(final(self), final(seq)) == rem(old(self), old(seq)) && (
                    (e.kind == ErrorKind::EndOfInput && spec_next(rem(old(self), old(seq))) is Eof)
                        || ((e.kind == ErrorKind::LexicalError || e.kind == ErrorKind::InvalidText)
                        && spec_next(rem(old(self), old(seq))) == SpecNext::Fail(e.kind))))
                },
            },
    {
        match self.peek_token(seq) {
            Ok((tok, p, n)) => {
                self.commit(p);
                Ok(tok)
            },
            Err(e) => Err(e),
        }
    }
}

/// The byte that closes a string: `>` for a hex string, `)` for a literal.
pub open spec fn close_byte(hex: bool) -> u8 {
    if hex {
        62
    } else {
        41
    }
}

impl Tokenizer {
    /// Consumes a string body out of the input, as [`spec_scan_string`]
    /// describes: the opening delimiter is already consumed by the caller;
    /// the closing one is consumed here and not part of the content.
    pub fn scan_string<S: Sequence>(&mut self, seq: &mut S, hex: bool) -> (r: Result<
        Vec<u8>,
        Error,
    >)
        requires
            old(self).wf(),
            old(seq).inv(),
        ensures
            final(self).wf(),
            final(seq).inv(),
            final(seq).data() == old(seq).data(),
            match r {
                Ok(content) => {
                    &&& spec_scan_string(rem(old(self), old(seq)), close_byte(hex)) matches Some(p)
                    &&& spec_scan_string(rem(old(self), old(seq)), close_byte(hex)) matches Some(p)
                        ==> content@ == p.0 && rem(final(self), final(seq)) == rem(
                        old(self),
                        old(seq),
                    ).skip(p.1)
                },
                Err(e) => e.kind == ErrorKind::Io || (e.kind == ErrorKind::LexicalError
                    && spec_scan_string(rem(old(self), old(seq)), close_byte(hex)) is None),
            },
    {
        let ghost r0 = rem(self, seq);
        let end: u8 = if hex {
            62
        } else {
            41
        };
        let pos0 = self.pos;
        let mut k = self.pos;
        let mut esc = false;
        let mut content: Vec<u8> = Vec::new();
        proof {
            assert(r0.take(0) =~= content@);
        }
        loop
            invariant
                self.wf(),
                seq.inv(),
                seq.data() == old(seq).data(),
                pos0 == old(self).pos,
                r0 == rem(old(self), old(seq)),
                self.pos == pos0,
                pos0 <= k,
                k - pos0 <= r0.len(),
                rem(self, seq) == r0,
                end == close_byte(hex),
                content@ == r0.take(k - pos0),
                scan_string_end(r0, end, 0, false) == scan_string_end(r0, end, k - pos0, esc),
            decreases r0.len() - (k - pos0),
        {
            let have = match self.ensure_index(seq, k) {
                Ok(h) => h,
                Err(e) => {
                    return Err(e);
                },
            };
            if !have {
                proof {
                    assert(k - pos0 >= r0.len());
                    assert(scan_string_end(r0, end, r0.len() as int, esc) == r0.len());
                }
                return Err(Error::new(ErrorKind::LexicalError));
            }
            let b = self.buf[k];
            proof {
                assert(self.buf.len() == self.buf@.len());
                assert(r0[k - pos0] == self.buffered()[k - pos0]);
            }
            if !esc && b == end {
                self.pos = k + 1;
                proof {
                    assert(scan_string_end(r0, end, k - pos0, esc) == k - pos0);
                    assert(self.buf@.skip((k + 1) as int) + seq_rest(seq) =~= r0.skip(
                        k - pos0 + 1,
                    ));
                }
                return Ok(content);
            }
            let was_esc = esc;
            esc = !was_esc && b == 92;
            content.push(b);
            proof {
                assert(content@ =~= r0.take(k - pos0 + 1));
                assert(scan_string_end(r0, end, k - pos0, was_esc) == scan_string_end(
                    r0,
                    end,
                    k - pos0 + 1,
                    esc,
                ));
            }
            k = k + 1;
        }
    }
}

/// A copy of `v[from..to]` as a fresh vector.
fn copy_range(v: &Vec<u8>, from: usize, to: usize) -> (r: Vec<u8>)
    requires
        from <= to <= v@.len(),
    ensures
        r@ == v@.subrange(from as int, to as int),
{
    let mut out: Vec<u8> = Vec::new();
    let mut t: usize = from;
    while t < to
        invariant
            from <= t <= to <= v@.len(),
            out@ == v@.subrange(from as int, t as int),
        decreases to - t,
    {
        out.push(v[t]);
        proof {
            assert(out@ =~= v@.subrange(from as int, t + 1));
        }
        t = t + 1;
    }
    out
}

/// Whether a number or identifier scan stops on `b`.
fn ends_token_byte(b: u8) -> (r: bool)
    ensures
        r == ends_token(b),
{
    b == 60 || b == 62 || b == 40 || b == 41 || b == 91 || b == 93 || b == 47 || b == 92
        || b == 10 || b == 13 || b == 32
}

/// Whether `b` is whitespace between tokens.
fn whitespace_byte(b: u8) -> (r: bool)
    ensures
        r == is_whitespace(b),
{
    b == 32 || b == 10 || b == 13
}

} // verus!
