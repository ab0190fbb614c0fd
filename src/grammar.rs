//! The byte-level grammar of the tokenizer as specification: what the
//! unread bytes of a stream decide, and the laws that follow from it.

use vstd::prelude::*;
use crate::json::{Error, Lexeme, Literal};

verus! {

pub const SPACE: u8 = 0x20;

pub const TAB: u8 = 0x09;

pub const LINE_FEED: u8 = 0x0a;

pub const CARRIAGE_RETURN: u8 = 0x0d;

pub const DIGIT_ZERO: u8 = 0x30;

pub const DIGIT_NINE: u8 = 0x39;

pub const LOWER_A: u8 = 0x61;

pub const LOWER_F: u8 = 0x66;

pub const UPPER_A: u8 = 0x41;

pub const UPPER_F: u8 = 0x46;

pub const MINUS: u8 = 0x2d;

pub const PLUS: u8 = 0x2b;

pub const DOT: u8 = 0x2e;

pub const LOWER_E: u8 = 0x65;

pub const UPPER_E: u8 = 0x45;

pub const QUOTE: u8 = 0x22;

pub const BACKSLASH: u8 = 0x5c;

pub const SLASH: u8 = 0x2f;

pub const LOWER_B: u8 = 0x62;

pub const LOWER_N: u8 = 0x6e;

pub const LOWER_R: u8 = 0x72;

pub const LOWER_T: u8 = 0x74;

pub const LOWER_U: u8 = 0x75;

pub const LOWER_L: u8 = 0x6c;

pub const LOWER_S: u8 = 0x73;

pub const OPEN_BRACKET: u8 = 0x5b;

pub const CLOSE_BRACKET: u8 = 0x5d;

pub const OPEN_BRACE: u8 = 0x7b;

pub const CLOSE_BRACE: u8 = 0x7d;

pub const COLON: u8 = 0x3a;

pub const COMMA: u8 = 0x2c;

/// What the bytes at the front of a stream decide.
pub enum Scan {
    /// A token that takes the given number of bytes, after the whitespace
    /// before it.
    Token(Lexeme, nat),
    Fail(Error),
    /// Only whitespace is left and the stream has ended.
    End,
    /// The bytes at hand do not decide yet.
    NeedInput,
}

/// Classes of bytes that the grammar scans runs of.
pub enum Class {
    Whitespace,
    Digit,
    HexDigit,
    NumberByte,
}

pub open spec fn is_whitespace(b: u8) -> bool {
    b == SPACE || b == TAB || b == LINE_FEED || b == CARRIAGE_RETURN
}

pub open spec fn is_digit(b: u8) -> bool {
    DIGIT_ZERO <= b <= DIGIT_NINE
}

pub open spec fn is_hex_digit(b: u8) -> bool {
    is_digit(b) || (LOWER_A <= b <= LOWER_F) || (UPPER_A <= b <= UPPER_F)
}

/// The bytes that can occur in a number.
pub open spec fn is_number_byte(b: u8) -> bool {
    is_digit(b) || b == MINUS || b == PLUS || b == DOT || b == LOWER_E || b == UPPER_E
}

/// The letters that may follow a backslash, `u` aside.
pub open spec fn is_escape_letter(b: u8) -> bool {
    b == QUOTE || b == BACKSLASH || b == SLASH || b == LOWER_B || b == LOWER_F || b == LOWER_N || b == LOWER_R
        || b == LOWER_T
}

pub open spec fn in_class(c: Class, b: u8) -> bool {
    match c {
        Class::Whitespace => is_whitespace(b),
        Class::Digit => is_digit(b),
        Class::HexDigit => is_hex_digit(b),
        Class::NumberByte => is_number_byte(b),
    }
}

/// How many bytes of class `c` follow one another in `s` from index `i` on.
pub open spec fn run(s: Seq<u8>, i: int, c: Class) -> nat
    decreases s.len() - i,
{
    if 0 <= i < s.len() && in_class(c, s[i]) {
        1 + run(s, i + 1, c)
    } else {
        0
    }
}

/// A run does not go past the end of the sequence.
pub proof fn lemma_run_bound(s: Seq<u8>, i: int, c: Class)
    requires
        0 <= i <= s.len(),
    ensures
        i + run(s, i, c) <= s.len(),
    decreases s.len() - i,
{
    if i < s.len() {
        lemma_run_bound(s, i + 1, c);
    }
}

/// `t` is a number: `-?(0|[1-9][0-9]*)(\.[0-9]+)?([eE][+-]?[0-9]+)?`.
pub open spec fn valid_number(t: Seq<u8>) -> bool {
    let a: int = if 0 < t.len() && t[0] == MINUS { 1 } else { 0 };
    let d = run(t, a, Class::Digit);
    let b = a + d;
    let has_frac = b < t.len() && t[b] == DOT;
    let f = run(t, b + 1, Class::Digit);
    let c = if has_frac { b + 1 + f } else { b };
    let has_exp = c < t.len() && (t[c] == LOWER_E || t[c] == UPPER_E);
    let sign: int = if has_exp && c + 1 < t.len() && (t[c + 1] == PLUS || t[c + 1] == MINUS) {
        1
    } else {
        0
    };
    let g = run(t, c + 1 + sign, Class::Digit);
    let e = if has_exp { c + 1 + sign + g } else { c };
    &&& d >= 1
    &&& t[a] == DIGIT_ZERO ==> d == 1
    &&& has_frac ==> f >= 1
    &&& has_exp ==> g >= 1
    &&& e == t.len()
}

pub open spec fn literal_text(l: Literal) -> Seq<u8> {
    match l {
        Literal::True => seq![LOWER_T, LOWER_R, LOWER_U, LOWER_E],
        Literal::False => seq![LOWER_F, LOWER_A, LOWER_L, LOWER_S, LOWER_E],
        Literal::Null => seq![LOWER_N, LOWER_U, LOWER_L, LOWER_L],
    }
}

pub open spec fn literal_lexeme(l: Literal) -> Lexeme {
    match l {
        Literal::True => Lexeme::True,
        Literal::False => Lexeme::False,
        Literal::Null => Lexeme::Null,
    }
}

/// What running out of bytes means: an error once the stream has ended,
/// otherwise a wait for more.
pub open spec fn short(eof: bool, e: Error) -> Scan {
    if eof {
        Scan::Fail(e)
    } else {
        Scan::NeedInput
    }
}

/// The keyword `l` at the front of `s`, whose first `i` bytes are known to match.
pub open spec fn scan_literal(s: Seq<u8>, eof: bool, at: int, l: Literal, i: int) -> Scan
    decreases literal_text(l).len() - i,
{
    let text = literal_text(l);
    if i >= text.len() {
        Scan::Token(literal_lexeme(l), text.len())
    } else if i >= s.len() {
        short(eof, Error::UnexpectedEndOfInput)
    } else if s[i] == text[i] {
        scan_literal(s, eof, at, l, i + 1)
    } else {
        Scan::Fail(Error::InvalidLiteral { expected: l, found: s[i], position: (at + i) as u64 })
    }
}

/// The string at the front of `s`, scanned up to index `i`, which is not
/// inside an escape.
pub open spec fn scan_string(s: Seq<u8>, eof: bool, at: int, i: int) -> Scan
    decreases s.len() - i,
{
    let unterminated = Error::UnterminatedString { position: at as u64 };
    if i < 1 || i >= s.len() {
        short(eof, unterminated)
    } else if s[i] == QUOTE {
        Scan::Token(Lexeme::String(s.subrange(1, i)), (i + 1) as nat)
    } else if s[i] == BACKSLASH {
        if i + 1 >= s.len() {
            short(eof, unterminated)
        } else if is_escape_letter(s[i + 1]) {
            scan_string(s, eof, at, i + 2)
        } else if s[i + 1] == LOWER_U {
            let h = run(s, i + 2, Class::HexDigit);
            if h >= 4 && i + 6 <= s.len() {
                scan_string(s, eof, at, i + 6)
            } else if i + 2 + h >= s.len() {
                short(eof, unterminated)
            } else {
                Scan::Fail(
                    Error::InvalidEscape { byte: s[i + 2 + h], position: (at + i + 2 + h) as u64 },
                )
            }
        } else {
            Scan::Fail(Error::InvalidEscape { byte: s[i + 1], position: (at + i + 1) as u64 })
        }
    } else if s[i] < 0x20 {
        Scan::Fail(Error::UnexpectedByte { byte: s[i], position: (at + i) as u64 })
    } else {
        scan_string(s, eof, at, i + 1)
    }
}

/// The number at the front of `s`: the run of bytes that can occur in a
/// number, which must follow the grammar.
pub open spec fn scan_number(s: Seq<u8>, eof: bool, at: int) -> Scan {
    let n = run(s, 0, Class::NumberByte);
    if n == s.len() && !eof {
        Scan::NeedInput
    } else if valid_number(s.take(n as int)) {
        Scan::Token(Lexeme::Number(s.take(n as int)), n)
    } else {
        Scan::Fail(Error::MalformedNumber { position: at as u64 })
    }
}

/// The token at the front of `s`, which starts with a byte that is not
/// whitespace; `at` is where `s` starts in the stream.
pub open spec fn scan_token(s: Seq<u8>, eof: bool, at: int) -> Scan {
    let c = s[0];
    if c == OPEN_BRACKET {
        Scan::Token(Lexeme::BeginArray, 1)
    } else if c == CLOSE_BRACKET {
        Scan::Token(Lexeme::EndArray, 1)
    } else if c == OPEN_BRACE {
        Scan::Token(Lexeme::BeginObject, 1)
    } else if c == CLOSE_BRACE {
        Scan::Token(Lexeme::EndObject, 1)
    } else if c == COLON {
        Scan::Token(Lexeme::Colon, 1)
    } else if c == COMMA {
        Scan::Token(Lexeme::Comma, 1)
    } else if c == LOWER_T {
        scan_literal(s, eof, at, Literal::True, 1)
    } else if c == LOWER_F {
        scan_literal(s, eof, at, Literal::False, 1)
    } else if c == LOWER_N {
        scan_literal(s, eof, at, Literal::Null, 1)
    } else if c == QUOTE {
        scan_string(s, eof, at, 1)
    } else if c == MINUS || is_digit(c) {
        scan_number(s, eof, at)
    } else {
        Scan::Fail(Error::UnexpectedByte { byte: c, position: at as u64 })
    }
}

/// What the unread bytes `s` decide, where `eof` says whether the stream has
/// ended and `at` is where `s` starts in the stream: whitespace is skipped,
/// then a token, an error or the end follows, or more bytes are needed.
pub open spec fn step(s: Seq<u8>, eof: bool, at: int) -> Scan {
    let w = run(s, 0, Class::Whitespace);
    if w == s.len() {
        if eof {
            Scan::End
        } else {
            Scan::NeedInput
        }
    } else {
        scan_token(s.skip(w as int), eof, at + w)
    }
}


/// More bytes after a run either extend it, when it reached the end, or
/// leave it as it was.
proof fn lemma_run_extend(s: Seq<u8>, t: Seq<u8>, i: int, c: Class)
    requires
        0 <= i,
    ensures
        run(s + t, i, c) >= run(s, i, c),
        i + run(s, i, c) < s.len() ==> run(s + t, i, c) == run(s, i, c),
    decreases s.len() - i,
{
    if 0 <= i < s.len() && in_class(c, s[i]) {
        assert((s + t)[i] == s[i]);
        lemma_run_extend(s, t, i + 1, c);
    } else if 0 <= i < s.len() {
        assert((s + t)[i] == s[i]);
    }
}

proof fn lemma_literal_extend(s: Seq<u8>, t: Seq<u8>, eof: bool, at: int, l: Literal, i: int)
    requires
        0 <= i,
        !(scan_literal(s, false, at, l, i) is NeedInput),
    ensures
        scan_literal(s + t, eof, at, l, i) == scan_literal(s, false, at, l, i),
    decreases literal_text(l).len() - i,
{
    if i < literal_text(l).len() && i < s.len() {
        assert((s + t)[i] == s[i]);
        if s[i] == literal_text(l)[i] {
            lemma_literal_extend(s, t, eof, at, l, i + 1);
        }
    }
}

proof fn lemma_literal_at_end(s: Seq<u8>, at: int, l: Literal, i: int)
    ensures
        !(scan_literal(s, true, at, l, i) is NeedInput),
    decreases literal_text(l).len() - i,
{
    if i < literal_text(l).len() && i < s.len() && s[i] == literal_text(l)[i] {
        lemma_literal_at_end(s, at, l, i + 1);
    }
}

proof fn lemma_string_extend(s: Seq<u8>, t: Seq<u8>, eof: bool, at: int, i: int)
    requires
        !(scan_string(s, false, at, i) is NeedInput),
    ensures
        scan_string(s + t, eof, at, i) == scan_string(s, false, at, i),
    decreases s.len() - i,
{
    if 1 <= i < s.len() {
        assert((s + t)[i] == s[i]);
        assert((s + t).subrange(1, i) =~= s.subrange(1, i));
        if s[i] == BACKSLASH {
            if i + 1 < s.len() {
                assert((s + t)[i + 1] == s[i + 1]);
                if is_escape_letter(s[i + 1]) {
                    lemma_string_extend(s, t, eof, at, i + 2);
                } else if s[i + 1] == LOWER_U {
                    let h = run(s, i + 2, Class::HexDigit);
                    lemma_run_extend(s, t, i + 2, Class::HexDigit);
                    if h >= 4 && i + 6 <= s.len() {
                        lemma_string_extend(s, t, eof, at, i + 6);
                    } else if i + 2 + h < s.len() {
                        assert((s + t)[i + 2 + h] == s[i + 2 + h]);
                    }
                }
            }
        } else if s[i] != QUOTE && s[i] >= 0x20 {
            lemma_string_extend(s, t, eof, at, i + 1);
        }
    }
}

proof fn lemma_string_at_end(s: Seq<u8>, at: int, i: int)
    ensures
        !(scan_string(s, true, at, i) is NeedInput),
    decreases s.len() - i,
{
    if 1 <= i < s.len() {
        if s[i] == BACKSLASH {
            if i + 1 < s.len() {
                if is_escape_letter(s[i + 1]) {
                    lemma_string_at_end(s, at, i + 2);
                } else if s[i + 1] == LOWER_U {
                    if run(s, i + 2, Class::HexDigit) >= 4 && i + 6 <= s.len() {
                        lemma_string_at_end(s, at, i + 6);
                    }
                }
            }
        } else if s[i] != QUOTE && s[i] >= 0x20 {
            lemma_string_at_end(s, at, i + 1);
        }
    }
}

proof fn lemma_token_extend(s: Seq<u8>, t: Seq<u8>, eof: bool, at: int)
    requires
        s.len() > 0,
        !(scan_token(s, false, at) is NeedInput),
    ensures
        scan_token(s + t, eof, at) == scan_token(s, false, at),
{
    let c = s[0];
    assert((s + t)[0] == c);
    if c == LOWER_T {
        lemma_literal_extend(s, t, eof, at, Literal::True, 1);
    } else if c == LOWER_F {
        lemma_literal_extend(s, t, eof, at, Literal::False, 1);
    } else if c == LOWER_N {
        lemma_literal_extend(s, t, eof, at, Literal::Null, 1);
    } else if c == QUOTE {
        lemma_string_extend(s, t, eof, at, 1);
    } else if c == MINUS || is_digit(c) {
        let n = run(s, 0, Class::NumberByte);
        lemma_run_bound(s, 0, Class::NumberByte);
        lemma_run_extend(s, t, 0, Class::NumberByte);
        assert((s + t).take(n as int) =~= s.take(n as int));
    }
}

/// Once the bytes at hand decide a step, no bytes that follow them change
/// what was decided: the stream yields the same tokens however its reads
/// split it.
pub proof fn lemma_decided_prefix(s: Seq<u8>, t: Seq<u8>, eof: bool, at: int)
    requires
        !(step(s, false, at) is NeedInput),
    ensures
        step(s + t, eof, at) == step(s, false, at),
{
    let w = run(s, 0, Class::Whitespace);
    lemma_run_bound(s, 0, Class::Whitespace);
    lemma_run_extend(s, t, 0, Class::Whitespace);
    assert((s + t).skip(w as int) =~= s.skip(w as int) + t);
    lemma_token_extend(s.skip(w as int), t, eof, at + w);
}

/// Once the stream has ended, every step is decided.
pub proof fn lemma_end_decides(s: Seq<u8>, at: int)
    ensures
        !(step(s, true, at) is NeedInput),
{
    let w = run(s, 0, Class::Whitespace);
    if w != s.len() {
        let r = s.skip(w as int);
        lemma_literal_at_end(r, at + w, Literal::True, 1);
        lemma_literal_at_end(r, at + w, Literal::False, 1);
        lemma_literal_at_end(r, at + w, Literal::Null, 1);
        lemma_string_at_end(r, at + w, 1);
    }
}

/// A run is the bytes of its class up to the first byte outside it.
proof fn lemma_run_exact(s: Seq<u8>, i: int, n: int, c: Class)
    requires
        0 <= i <= n <= s.len(),
        forall|j: int| i <= j < n ==> in_class(c, #[trigger] s[j]),
        n < s.len() ==> !in_class(c, s[n]),
    ensures
        run(s, i, c) == n - i,
    decreases s.len() - i,
{
    if i < n {
        lemma_run_exact(s, i + 1, n, c);
    }
}

/// Every byte of a run is of its class.
proof fn lemma_run_members(s: Seq<u8>, i: int, c: Class)
    requires
        0 <= i,
    ensures
        forall|j: int| i <= j < i + run(s, i, c) ==> in_class(c, #[trigger] s[j]),
    decreases s.len() - i,
{
    if 0 <= i < s.len() && in_class(c, s[i]) {
        lemma_run_members(s, i + 1, c);
    }
}

/// A number is made of number bytes, and starts with a minus sign or a digit.
proof fn lemma_number_bytes(t: Seq<u8>)
    requires
        valid_number(t),
    ensures
        forall|j: int| 0 <= j < t.len() ==> is_number_byte(#[trigger] t[j]),
        t[0] == MINUS || is_digit(t[0]),
{
    let a: int = if 0 < t.len() && t[0] == MINUS { 1 } else { 0 };
    let d = run(t, a, Class::Digit);
    let b = a + d;
    let has_frac = b < t.len() && t[b] == DOT;
    let f = run(t, b + 1, Class::Digit);
    let c = if has_frac { b + 1 + f } else { b };
    let has_exp = c < t.len() && (t[c] == LOWER_E || t[c] == UPPER_E);
    let sign: int = if has_exp && c + 1 < t.len() && (t[c + 1] == PLUS || t[c + 1] == MINUS) {
        1
    } else {
        0
    };
    lemma_run_members(t, a, Class::Digit);
    lemma_run_members(t, b + 1, Class::Digit);
    lemma_run_members(t, c + 1 + sign, Class::Digit);
    assert forall|j: int| 0 <= j < t.len() implies is_number_byte(#[trigger] t[j]) by {
        if j < a {
        } else if j < b {
            assert(in_class(Class::Digit, t[j]));
        } else if has_frac && j == b {
        } else if has_frac && j < c {
            assert(in_class(Class::Digit, t[j]));
        } else if j == c {
        } else if sign == 1 && j == c + 1 {
        } else {
            assert(in_class(Class::Digit, t[j]));
        }
    }
    assert(in_class(Class::Digit, t[a]));
}

/// A number ends at the first byte that cannot occur in a number, such as a
/// structural byte or whitespace, which is left for the next token.
pub proof fn lemma_number_then_byte(t: Seq<u8>, b: u8, rest: Seq<u8>, eof: bool, at: int)
    requires
        valid_number(t),
        !is_number_byte(b),
    ensures
        step(t + seq![b] + rest, eof, at) == Scan::Token(Lexeme::Number(t), t.len()),
{
    let u = t + seq![b] + rest;
    lemma_number_bytes(t);
    assert(u[0] == t[0]);
    reveal_with_fuel(run, 2);
    assert(u.skip(0) =~= u);
    assert forall|j: int| 0 <= j < t.len() implies in_class(Class::NumberByte, #[trigger] u[j]) by {
        assert(u[j] == t[j]);
    }
    assert(u[t.len() as int] == b);
    lemma_run_exact(u, 0, t.len() as int, Class::NumberByte);
    assert(u.take(t.len() as int) =~= t);
}

/// A stream of whitespace alone, the empty one included, ends cleanly
/// without a token.
pub proof fn lemma_whitespace_only(s: Seq<u8>, at: int)
    requires
        forall|i: int| 0 <= i < s.len() ==> is_whitespace(#[trigger] s[i]),
    ensures
        step(s, true, at) is End,
{
    lemma_run_exact(s, 0, s.len() as int, Class::Whitespace);
}

/// A stream that ends partway through a keyword fails with
/// `UnexpectedEndOfInput`, and yields no token.
pub proof fn lemma_truncated_literal(l: Literal, k: int, at: int)
    requires
        1 <= k < literal_text(l).len(),
    ensures
        step(literal_text(l).take(k), true, at) == Scan::Fail(Error::UnexpectedEndOfInput),
{
    let s = literal_text(l).take(k);
    reveal_with_fuel(run, 2);
    assert(s.skip(0) =~= s);
    lemma_truncated_from(l, s, k, at, 1);
}

proof fn lemma_truncated_from(l: Literal, s: Seq<u8>, k: int, at: int, i: int)
    requires
        1 <= k < literal_text(l).len(),
        s == literal_text(l).take(k),
        1 <= i <= k,
    ensures
        scan_literal(s, true, at, l, i) == Scan::Fail(Error::UnexpectedEndOfInput),
    decreases k - i,
{
    if i < k {
        lemma_truncated_from(l, s, k, at, i + 1);
    }
}

/// How many bytes a step over `s` takes: the whitespace in front, and the
/// token if there is one.
pub open spec fn taken(s: Seq<u8>, sc: Scan) -> nat {
    run(s, 0, Class::Whitespace) + match sc {
        Scan::Token(_, n) => n,
        _ => 0,
    }
}

/// What a whole stream yields when all of it is at hand: its tokens in
/// order, then the end or the error that stops it.
pub open spec fn tokens(s: Seq<u8>, at: int) -> Seq<Scan>
    decreases s.len(),
{
    let sc = step(s, true, at);
    let k = taken(s, sc);
    if sc is Token && 0 < k <= s.len() {
        seq![sc] + tokens(s.skip(k as int), at + k)
    } else {
        seq![sc]
    }
}

proof fn lemma_literal_len(s: Seq<u8>, eof: bool, at: int, l: Literal, i: int)
    requires
        1 <= i <= s.len(),
    ensures
        scan_literal(s, eof, at, l, i) matches Scan::Token(_, n) ==> 1 <= n <= s.len(),
    decreases literal_text(l).len() - i,
{
    if i < literal_text(l).len() && i < s.len() && s[i] == literal_text(l)[i] {
        lemma_literal_len(s, eof, at, l, i + 1);
    }
}

proof fn lemma_string_len(s: Seq<u8>, eof: bool, at: int, i: int)
    ensures
        scan_string(s, eof, at, i) matches Scan::Token(_, n) ==> 1 <= n <= s.len(),
    decreases s.len() - i,
{
    if 1 <= i < s.len() {
        if s[i] == BACKSLASH {
            if i + 1 < s.len() {
                if is_escape_letter(s[i + 1]) {
                    lemma_string_len(s, eof, at, i + 2);
                } else if s[i + 1] == LOWER_U {
                    if run(s, i + 2, Class::HexDigit) >= 4 && i + 6 <= s.len() {
                        lemma_string_len(s, eof, at, i + 6);
                    }
                }
            }
        } else if s[i] != QUOTE && s[i] >= 0x20 {
            lemma_string_len(s, eof, at, i + 1);
        }
    }
}

/// A token takes at least one byte, and no more than there are.
proof fn lemma_token_len(s: Seq<u8>, eof: bool, at: int)
    requires
        s.len() > 0,
    ensures
        scan_token(s, eof, at) matches Scan::Token(_, n) ==> 1 <= n <= s.len(),
{
    lemma_literal_len(s, eof, at, Literal::True, 1);
    lemma_literal_len(s, eof, at, Literal::False, 1);
    lemma_literal_len(s, eof, at, Literal::Null, 1);
    lemma_string_len(s, eof, at, 1);
    lemma_run_bound(s, 0, Class::NumberByte);
}

/// A step that the bytes at hand decide is the first of what the whole
/// stream yields, whatever bytes follow; after a token, the rest of the
/// stream yields the rest. So the tokens of a stream do not depend on how
/// its reads split it.
pub proof fn lemma_tokens_chunked(s: Seq<u8>, t: Seq<u8>, at: int)
    requires
        !(step(s, false, at) is NeedInput),
    ensures
        tokens(s + t, at)[0] == step(s, false, at),
        step(s, false, at) is Token ==> tokens(s + t, at) == seq![step(s, false, at)] + tokens(
            (s + t).skip(taken(s, step(s, false, at)) as int),
            at + taken(s, step(s, false, at)),
        ),
{
    let sc = step(s, false, at);
    lemma_decided_prefix(s, t, true, at);
    let w = run(s, 0, Class::Whitespace);
    lemma_run_bound(s, 0, Class::Whitespace);
    lemma_run_extend(s, t, 0, Class::Whitespace);
    if w < s.len() {
        lemma_token_len(s.skip(w as int), false, at + w);
    }
    assert(taken(s + t, sc) == taken(s, sc));
}

} // verus!
