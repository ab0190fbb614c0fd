//! Tokens, errors and the tokenizer that turns the bytes it is handed into
//! tokens, proved to answer as the grammar says.

use vstd::prelude::*;
use crate::vecring::{Buffer, Position};
use crate::grammar::{
    taken, Scan, Class, is_whitespace, is_digit, is_hex_digit, is_number_byte, is_escape_letter,
    run, lemma_run_bound, valid_number, literal_text, literal_lexeme, scan_literal, scan_string,
    scan_number, scan_token, step,
};
use crate::grammar::{
    SPACE, TAB, LINE_FEED, CARRIAGE_RETURN, DIGIT_ZERO, DIGIT_NINE, LOWER_A, LOWER_F, UPPER_A,
    UPPER_F, MINUS, PLUS, DOT, LOWER_E, UPPER_E, QUOTE, BACKSLASH, SLASH, LOWER_B, LOWER_N,
    LOWER_R, LOWER_T, LOWER_U, LOWER_L, LOWER_S, OPEN_BRACKET, CLOSE_BRACKET, OPEN_BRACE,
    CLOSE_BRACE, COLON, COMMA,
};

verus! {

/// One of the three keyword tokens.
#[derive(Debug, Clone, Copy, PartialEq, Eq, Structural)]
pub enum Literal {
    True,
    False,
    Null,
}

/// A lexical token. Strings and numbers carry their raw bytes: the bytes
/// between the quotes of a string, escapes left as they stand, and the bytes
/// of a number as written.
#[derive(Debug, Clone, PartialEq, Eq)]
pub enum JsonToken {
    True,
    False,
    Number(Vec<u8>),
    String(Vec<u8>),
    BeginArray,
    EndArray,
    BeginObject,
    EndObject,
    Colon,
    Comma,
    Null,
}

/// Why a stream could not be tokenized. Positions count bytes from the start
/// of the stream.
#[derive(Debug, Clone, Copy, PartialEq, Eq, Structural)]
pub enum Error {
    /// The byte source failed.
    IoFailure,
    /// The stream ended inside a literal.
    UnexpectedEndOfInput,
    /// The stream ended inside the string whose opening quote is at `position`.
    UnterminatedString { position: u64 },
    /// A byte that no token can start with, or a control byte inside a string.
    UnexpectedByte { byte: u8, position: u64 },
    /// A keyword went wrong at `position`, where `found` stands.
    InvalidLiteral { expected: Literal, found: u8, position: u64 },
    /// A backslash was followed by something other than an escape.
    InvalidEscape { byte: u8, position: u64 },
    /// The number starting at `position` does not follow the number grammar.
    MalformedNumber { position: u64 },
}

/// A token as a value: payloads as byte sequences.
pub enum Lexeme {
    True,
    False,
    Number(Seq<u8>),
    String(Seq<u8>),
    BeginArray,
    EndArray,
    BeginObject,
    EndObject,
    Colon,
    Comma,
    Null,
}

impl View for JsonToken {
    type V = Lexeme;

    open spec fn view(&self) -> Lexeme {
        match self {
            JsonToken::True => Lexeme::True,
            JsonToken::False => Lexeme::False,
            JsonToken::Number(v) => Lexeme::Number(v@),
            JsonToken::String(v) => Lexeme::String(v@),
            JsonToken::BeginArray => Lexeme::BeginArray,
            JsonToken::EndArray => Lexeme::EndArray,
            JsonToken::BeginObject => Lexeme::BeginObject,
            JsonToken::EndObject => Lexeme::EndObject,
            JsonToken::Colon => Lexeme::Colon,
            JsonToken::Comma => Lexeme::Comma,
            JsonToken::Null => Lexeme::Null,
        }
    }
}

/// What a read from the byte source came to.
pub enum ReadEvent {
    /// Bytes were read; none at all means that the stream has ended.
    Data(Vec<u8>),
    /// The read was interrupted and is to be tried again.
    Interrupted,
    /// The stream has ended.
    EndOfStream,
    /// The source failed.
    Failed,
}

/// The answer to a request for the next token.
pub enum Step {
    Token(JsonToken),
    Failed(Error),
    /// The stream ended cleanly, between tokens.
    End,
    /// The bytes at hand do not decide: a read is wanted.
    NeedInput,
}

/// `r` is the answer that `sc` describes.
pub open spec fn answers(r: Step, sc: Scan) -> bool {
    match sc {
        Scan::Token(x, _) => match r {
            Step::Token(t) => t@ == x,
            _ => false,
        },
        Scan::Fail(e) => r == Step::Failed(e),
        Scan::End => r is End,
        Scan::NeedInput => r is NeedInput,
    }
}

/// A tokenizer fed by whoever owns the byte source. It holds the bytes it has
/// been given and not yet turned into tokens, whether the source has ended or
/// failed, and how many bytes of the stream it has turned into tokens.
pub struct Tokenizer {
    buffer: Buffer,
    ended: bool,
    failed: bool,
    consumed: u64,
}

fn is_whitespace_byte(b: u8) -> (r: bool)
    ensures
        r == is_whitespace(b),
{
    b == SPACE || b == TAB || b == LINE_FEED || b == CARRIAGE_RETURN
}

fn is_digit_byte(b: u8) -> (r: bool)
    ensures
        r == is_digit(b),
{
    DIGIT_ZERO <= b && b <= DIGIT_NINE
}

fn is_hex_digit_byte(b: u8) -> (r: bool)
    ensures
        r == is_hex_digit(b),
{
    is_digit_byte(b) || (LOWER_A <= b && b <= LOWER_F) || (UPPER_A <= b && b <= UPPER_F)
}

fn is_number_byte_exec(b: u8) -> (r: bool)
    ensures
        r == is_number_byte(b),
{
    is_digit_byte(b) || b == MINUS || b == PLUS || b == DOT || b == LOWER_E || b == UPPER_E
}

fn is_escape_letter_byte(b: u8) -> (r: bool)
    ensures
        r == is_escape_letter(b),
{
    b == QUOTE || b == BACKSLASH || b == SLASH || b == LOWER_B || b == LOWER_F || b == LOWER_N
        || b == LOWER_R || b == LOWER_T
}

fn literal_bytes(l: Literal) -> (r: Vec<u8>)
    ensures
        r@ == literal_text(l),
{
    let r = match l {
        Literal::True => vec![LOWER_T, LOWER_R, LOWER_U, LOWER_E],
        Literal::False => vec![LOWER_F, LOWER_A, LOWER_L, LOWER_S, LOWER_E],
        Literal::Null => vec![LOWER_N, LOWER_U, LOWER_L, LOWER_L],
    };
    assert(r@ =~= literal_text(l));
    r
}

fn literal_token(l: Literal) -> (r: JsonToken)
    ensures
        r@ == literal_lexeme(l),
{
    match l {
        Literal::True => JsonToken::True,
        Literal::False => JsonToken::False,
        Literal::Null => JsonToken::Null,
    }
}

/// How many digits follow one another in `t` from index `i` on.
fn digits_from(t: &Vec<u8>, i: usize) -> (r: usize)
    ensures
        r == run(t@, i as int, Class::Digit),
        i <= t@.len() ==> i + r <= t@.len(),
{
    let mut j = i;
    while j < t.len() && is_digit_byte(t[j])
        invariant
            i <= j,
            i <= t@.len() ==> j <= t@.len(),
            i > t@.len() ==> j == i,
            run(t@, i as int, Class::Digit) == (j - i) + run(t@, j as int, Class::Digit),
        decreases t@.len() - j,
    {
        j = j + 1;
    }
    j - i
}

/// Whether `t` follows the number grammar.
pub fn number_is_valid(t: &Vec<u8>) -> (r: bool)
    ensures
        r == valid_number(t@),
{
    let len = t.len();
    let a: usize = if 0 < len && t[0] == MINUS {
        1
    } else {
        0
    };
    let d = digits_from(t, a);
    let b = a + d;
    let has_frac = b < len && t[b] == DOT;
    let f = if has_frac {
        digits_from(t, b + 1)
    } else {
        0
    };
    let c = if has_frac {
        b + 1 + f
    } else {
        b
    };
    let has_exp = c < len && (t[c] == LOWER_E || t[c] == UPPER_E);
    let sign: usize = if has_exp && c + 1 < len && (t[c + 1] == PLUS || t[c + 1] == MINUS) {
        1
    } else {
        0
    };
    let g = if has_exp {
        digits_from(t, c + 1 + sign)
    } else {
        0
    };
    let e = if has_exp {
        c + 1 + sign + g
    } else {
        c
    };
    d >= 1 && (t[a] != DIGIT_ZERO || d == 1) && (!has_frac || f >= 1) && (!has_exp || g >= 1)
        && e == len
}

impl Tokenizer {
    /// The bytes given and not yet turned into tokens or skipped.
    pub closed spec fn unread(&self) -> Seq<u8> {
        self.buffer@
    }

    /// The source has reported the end of the stream.
    pub closed spec fn ended(&self) -> bool {
        self.ended
    }

    /// The source has failed.
    pub closed spec fn failed(&self) -> bool {
        self.failed
    }

    /// Where the unread bytes start in the stream.
    pub closed spec fn position(&self) -> int {
        self.consumed as int
    }

    pub closed spec fn wf(&self) -> bool {
        &&& self.buffer.wf()
        &&& self.consumed + self.buffer@.len() <= u64::MAX
    }

    /// What the next call of `next` will decide, unless the source failed.
    pub open spec fn scan(&self) -> Scan {
        step(self.unread(), self.ended(), self.position())
    }

    pub fn new() -> (r: Tokenizer)
        ensures
            r.wf(),
            r.unread() == Seq::<u8>::empty(),
            !r.ended(),
            !r.failed(),
            r.position() == 0,
    {
        Tokenizer { buffer: Buffer::default(), ended: false, failed: false, consumed: 0 }
    }

    /// Takes in what a read from the source came to. Once the source has
    /// ended or failed, nothing more is taken in.
    pub fn supply(&mut self, ev: ReadEvent)
        requires
            old(self).wf(),
            ev matches ReadEvent::Data(v) ==> old(self).position() + old(self).unread().len()
                + v@.len() <= u64::MAX,
        ensures
            final(self).wf(),
            final(self).position() == old(self).position(),
            old(self).ended() || old(self).failed() ==> final(self).unread() == old(self).unread()
                && final(self).ended() == old(self).ended() && final(self).failed()
                == old(self).failed(),
            !(old(self).ended() || old(self).failed()) ==> match ev {
                ReadEvent::Data(v) => if v@.len() == 0 {
                    final(self).unread() == old(self).unread() && final(self).ended()
                        && !final(self).failed()
                } else {
                    final(self).unread() == old(self).unread() + v@ && !final(self).ended()
                        && !final(self).failed()
                },
                ReadEvent::Interrupted => final(self).unread() == old(self).unread()
                    && !final(self).ended() && !final(self).failed(),
                ReadEvent::EndOfStream => final(self).unread() == old(self).unread()
                    && final(self).ended() && !final(self).failed(),
                ReadEvent::Failed => final(self).unread() == old(self).unread()
                    && !final(self).ended() && final(self).failed(),
            },
    {
        if self.ended || self.failed {
            return;
        }
        match ev {
            ReadEvent::Data(v) => {
                if v.len() == 0 {
                    self.ended = true;
                } else {
                    self.buffer.write(v.as_slice());
                }
            },
            ReadEvent::Interrupted => {},
            ReadEvent::EndOfStream => {
                self.ended = true;
            },
            ReadEvent::Failed => {
                self.failed = true;
            },
        }
    }

    /// Consumes the whitespace at the front of the unread bytes.
    fn discard_whitespace(&mut self)
        requires
            old(self).wf(),
        ensures
            final(self).wf(),
            final(self).unread() == old(self).unread().skip(
                run(old(self).unread(), 0, Class::Whitespace) as int,
            ),
            final(self).position() == old(self).position() + run(
                old(self).unread(),
                0,
                Class::Whitespace,
            ),
            final(self).ended == old(self).ended,
            final(self).failed == old(self).failed,
    {
        let ghost s = self.unread();
        let mut q = self.buffer.start();
        let mut n: u64 = 0;
        while !self.buffer.at_end(q) && is_whitespace_byte(self.buffer.byte_at(q))
            invariant
                self.wf(),
                self.unread() == s,
                self.buffer.is_cursor(q),
                self.buffer.spot(q) == n,
                run(s, 0, Class::Whitespace) == n + run(s, n as int, Class::Whitespace),
            decreases s.len() - n,
        {
            q = self.buffer.after(q);
            n = n + 1;
        }
        self.consume(q, n);
    }

    /// Consumes the unread bytes before the cursor `p`, `n` of them.
    fn consume(&mut self, p: Position, n: u64)
        requires
            old(self).wf(),
            old(self).buffer.is_cursor(p),
            old(self).buffer.spot(p) == n,
        ensures
            final(self).wf(),
            n <= old(self).unread().len(),
            final(self).unread() == old(self).unread().skip(n as int),
            final(self).position() == old(self).position() + n,
            final(self).ended == old(self).ended,
            final(self).failed == old(self).failed,
    {
        proof {
            self.buffer.lemma_cursor(p);
        }
        self.buffer.consume_to(p);
        self.consumed = self.consumed + n;
    }

    /// Scans the keyword `l`, whose first byte is known to start the unread
    /// bytes: the cursor past it and its length, or what stopped it.
    fn parse_literal(&self, l: Literal) -> (r: Result<(Position, u64), Option<Error>>)
        requires
            self.wf(),
            self.unread().len() > 0,
        ensures
            match r {
                Ok((p, n)) => self.buffer.is_cursor(p) && self.buffer.spot(p) == n && scan_literal(
                    self.unread(),
                    self.ended,
                    self.position(),
                    l,
                    1,
                ) == Scan::Token(literal_lexeme(l), n as nat),
                Err(None) => scan_literal(self.unread(), self.ended, self.position(), l, 1)
                    is NeedInput,
                Err(Some(e)) => scan_literal(self.unread(), self.ended, self.position(), l, 1)
                    == Scan::Fail(e),
            },
    {
        let ghost s = self.unread();
        let text = literal_bytes(l);
        let mut q = self.buffer.after(self.buffer.start());
        let mut k: usize = 1;
        let mut i: u64 = 1;
        while k < text.len()
            invariant
                self.wf(),
                s == self.unread(),
                text@ == literal_text(l),
                self.buffer.is_cursor(q),
                self.buffer.spot(q) == i,
                i == k,
                1 <= k <= text@.len(),
                scan_literal(s, self.ended, self.position(), l, k as int) == scan_literal(
                    s,
                    self.ended,
                    self.position(),
                    l,
                    1,
                ),
            decreases text@.len() - k,
        {
            if self.buffer.at_end(q) {
                if self.ended {
                    return Err(Some(Error::UnexpectedEndOfInput));
                }
                return Err(None);
            }
            let b = self.buffer.byte_at(q);
            if b != text[k] {
                return Err(
                    Some(Error::InvalidLiteral { expected: l, found: b, position: self.consumed + i }),
                );
            }
            q = self.buffer.after(q);
            k = k + 1;
            i = i + 1;
        }
        Ok((q, i))
    }

    /// Scans the string whose opening quote starts the unread bytes: the
    /// cursor at its closing quote and how many bytes come before that, or
    /// what stopped it.
    fn parse_string(&self) -> (r: Result<(Position, u64), Option<Error>>)
        requires
            self.wf(),
            self.unread().len() > 0,
        ensures
            match r {
                Ok((p, n)) => {
                    &&& self.buffer.is_cursor(p)
                    &&& self.buffer.spot(p) == n
                    &&& 1 <= n < self.unread().len()
                    &&& scan_string(self.unread(), self.ended, self.position(), 1) == Scan::Token(
                        Lexeme::String(self.unread().subrange(1, n as int)),
                        (n + 1) as nat,
                    )
                },
                Err(None) => scan_string(self.unread(), self.ended, self.position(), 1) is NeedInput,
                Err(Some(e)) => scan_string(self.unread(), self.ended, self.position(), 1)
                    == Scan::Fail(e),
            },
    {
        let ghost s = self.unread();
        let ghost at = self.position();
        let unterminated = Error::UnterminatedString { position: self.consumed };
        let mut q = self.buffer.after(self.buffer.start());
        let mut i: u64 = 1;
        loop
            invariant
                self.wf(),
                s == self.unread(),
                at == self.position(),
                unterminated == (Error::UnterminatedString { position: at as u64 }),
                self.buffer.is_cursor(q),
                self.buffer.spot(q) == i,
                1 <= i <= s.len(),
                scan_string(s, self.ended, at, i as int) == scan_string(s, self.ended, at, 1),
            decreases s.len() - i,
        {
            if self.buffer.at_end(q) {
                if self.ended {
                    return Err(Some(unterminated));
                }
                return Err(None);
            }
            let b = self.buffer.byte_at(q);
            if b == QUOTE {
                return Ok((q, i));
            } else if b == BACKSLASH {
                let q1 = self.buffer.after(q);
                if self.buffer.at_end(q1) {
                    if self.ended {
                        return Err(Some(unterminated));
                    }
                    return Err(None);
                }
                let b1 = self.buffer.byte_at(q1);
                if is_escape_letter_byte(b1) {
                    q = self.buffer.after(q1);
                    i = i + 2;
                } else if b1 == LOWER_U {
                    let mut h: u64 = 0;
                    let mut r = self.buffer.after(q1);
                    while h < 4
                        invariant
                            self.wf(),
                            s == self.unread(),
                            at == self.position(),
                            unterminated == (Error::UnterminatedString { position: at as u64 }),
                            1 <= i,
                            i + 1 < s.len(),
                            s[i as int] == BACKSLASH,
                            s[i + 1] == LOWER_U,
                            scan_string(s, self.ended, at, i as int) == scan_string(
                                s,
                                self.ended,
                                at,
                                1,
                            ),
                            self.buffer.is_cursor(r),
                            self.buffer.spot(r) == i + 2 + h,
                            h <= 4,
                            i + 2 <= s.len(),
                            run(s, i + 2, Class::HexDigit) == h + run(
                                s,
                                i + 2 + h,
                                Class::HexDigit,
                            ),
                        decreases 4 - h,
                    {
                        if self.buffer.at_end(r) {
                            if self.ended {
                                return Err(Some(unterminated));
                            }
                            return Err(None);
                        }
                        let bh = self.buffer.byte_at(r);
                        if !is_hex_digit_byte(bh) {
                            return Err(
                                Some(
                                    Error::InvalidEscape {
                                        byte: bh,
                                        position: self.consumed + i + 2 + h,
                                    },
                                ),
                            );
                        }
                        r = self.buffer.after(r);
                        h = h + 1;
                    }
                    proof {
                        self.buffer.lemma_cursor(r);
                    }
                    q = r;
                    i = i + 6;
                } else {
                    return Err(Some(Error::InvalidEscape { byte: b1, position: self.consumed + i + 1 }));
                }
            } else if b < 0x20 {
                return Err(Some(Error::UnexpectedByte { byte: b, position: self.consumed + i }));
            } else {
                q = self.buffer.after(q);
                i = i + 1;
            }
        }
    }

    /// Scans the number that starts the unread bytes: its bytes, the cursor
    /// past it and its length, or what stopped it.
    fn parse_number(&self) -> (r: Result<(Vec<u8>, Position, u64), Option<Error>>)
        requires
            self.wf(),
        ensures
            match r {
                Ok((v, p, n)) => {
                    &&& self.buffer.is_cursor(p)
                    &&& self.buffer.spot(p) == n
                    &&& v@ == self.unread().take(n as int)
                    &&& scan_number(self.unread(), self.ended, self.position()) == Scan::Token(
                        Lexeme::Number(v@),
                        n as nat,
                    )
                },
                Err(None) => scan_number(self.unread(), self.ended, self.position()) is NeedInput,
                Err(Some(e)) => scan_number(self.unread(), self.ended, self.position()) == Scan::Fail(
                    e,
                ),
            },
    {
        let ghost s = self.unread();
        let start = self.buffer.start();
        let mut q = start;
        let mut n: u64 = 0;
        while !self.buffer.at_end(q) && is_number_byte_exec(self.buffer.byte_at(q))
            invariant
                self.wf(),
                s == self.unread(),
                self.buffer.is_cursor(q),
                self.buffer.spot(q) == n,
                run(s, 0, Class::NumberByte) == n + run(s, n as int, Class::NumberByte),
            decreases s.len() - n,
        {
            q = self.buffer.after(q);
            n = n + 1;
        }
        if self.buffer.at_end(q) && !self.ended {
            return Err(None);
        }
        let v = self.buffer.copy_span(start, q);
        assert(v@ =~= s.take(n as int));
        if number_is_valid(&v) {
            Ok((v, q, n))
        } else {
            Err(Some(Error::MalformedNumber { position: self.consumed }))
        }
    }

    /// Decides what the unread bytes give: a token, an error, the end of the
    /// stream, or a wait for more input. The whitespace in front is consumed,
    /// and so is the token when there is one. Once the source has failed,
    /// every call answers with that failure.
    pub fn next(&mut self) -> (r: Step)
        requires
            old(self).wf(),
        ensures
            final(self).wf(),
            final(self).ended() == old(self).ended(),
            final(self).failed() == old(self).failed(),
            old(self).failed() ==> r == Step::Failed(Error::IoFailure) && final(self).unread()
                == old(self).unread() && final(self).position() == old(self).position(),
            !old(self).failed() ==> {
                &&& answers(r, old(self).scan())
                &&& final(self).unread() == old(self).unread().skip(
                    taken(old(self).unread(), old(self).scan()) as int,
                )
                &&& final(self).position() == old(self).position() + taken(
                    old(self).unread(),
                    old(self).scan(),
                )
            },
            !old(self).failed() && old(self).scan() is End ==> final(self).scan() is End,
    {
        if self.failed {
            return Step::Failed(Error::IoFailure);
        }
        let ghost s0 = self.unread();
        let ghost sc = self.scan();
        self.discard_whitespace();
        proof {
            lemma_run_bound(s0, 0, Class::Whitespace);
        }
        if !self.buffer.has_unread() {
            assert(s0.skip(run(s0, 0, Class::Whitespace) as int).len() == 0);
            if self.ended {
                return Step::End;
            }
            return Step::NeedInput;
        }
        let ghost s1 = self.unread();
        assert(sc == scan_token(s1, self.ended, self.position()));
        let start = self.buffer.start();
        let c = self.buffer.byte_at(start);
        let one = self.buffer.after(start);
        let r = if c == OPEN_BRACKET {
            self.consume(one, 1);
            Step::Token(JsonToken::BeginArray)
        } else if c == CLOSE_BRACKET {
            self.consume(one, 1);
            Step::Token(JsonToken::EndArray)
        } else if c == OPEN_BRACE {
            self.consume(one, 1);
            Step::Token(JsonToken::BeginObject)
        } else if c == CLOSE_BRACE {
            self.consume(one, 1);
            Step::Token(JsonToken::EndObject)
        } else if c == COLON {
            self.consume(one, 1);
            Step::Token(JsonToken::Colon)
        } else if c == COMMA {
            self.consume(one, 1);
            Step::Token(JsonToken::Comma)
        } else if c == LOWER_T || c == LOWER_F || c == LOWER_N {
            let l = if c == LOWER_T {
                Literal::True
            } else if c == LOWER_F {
                Literal::False
            } else {
                Literal::Null
            };
            match self.parse_literal(l) {
                Ok((p, n)) => {
                    self.consume(p, n);
                    Step::Token(literal_token(l))
                },
                Err(None) => Step::NeedInput,
                Err(Some(e)) => Step::Failed(e),
            }
        } else if c == QUOTE {
            match self.parse_string() {
                Ok((p, n)) => {
                    let v = self.buffer.copy_span(one, p);
                    let end = self.buffer.after(p);
                    self.consume(end, n + 1);
                    Step::Token(JsonToken::String(v))
                },
                Err(None) => Step::NeedInput,
                Err(Some(e)) => Step::Failed(e),
            }
        } else if c == MINUS || is_digit_byte(c) {
            match self.parse_number() {
                Ok((v, p, n)) => {
                    self.consume(p, n);
                    Step::Token(JsonToken::Number(v))
                },
                Err(None) => Step::NeedInput,
                Err(Some(e)) => Step::Failed(e),
            }
        } else {
            Step::Failed(Error::UnexpectedByte { byte: c, position: self.consumed })
        };
        proof {
            let w = run(s0, 0, Class::Whitespace);
            assert(self.unread() =~= s0.skip(taken(s0, sc) as int)) by {
                if sc is Token {
                    assert(taken(s0, sc) - w <= s1.len());
                    assert(self.unread() == s1.skip(taken(s0, sc) - w));
                } else {
                    assert(self.unread() == s1);
                }
            }
        }
        r
    }
}

} // verus!
