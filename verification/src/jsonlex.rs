//! The tokenizer: turns a byte stream into JSON tokens, one per request,
//! validating UTF-8 and backslash escapes inside string literals as it goes.

use crate::jsoninputerr::JsonInputErr;
use vstd::prelude::*;
use vstd::string::StringExecFns;

verus! {

/// Relies on `String::push`: appends the given character to the end of the
/// string.
pub assume_specification[ String::push ](s: &mut String, ch: char)
    ensures
        final(s)@ == old(s)@.push(ch),
;

/// Relies on `char::from_u32`: yields the character of a Unicode scalar
/// value, and `None` exactly for surrogates and values above `0x10FFFF`.
pub assume_specification[ char::from_u32 ](v: u32) -> (r: Option<char>)
    ensures
        r is Some <==> vstd::utf8::is_scalar(v),
        r matches Some(c) ==> c as u32 == v,
;

/// One JSON token. String contents are decoded; number literals keep their
/// raw text, which is all inference needs.
#[derive(Debug)]
pub enum JsonToken {
    ObjectStart,
    ObjectEnd,
    ArrayStart,
    ArrayEnd,
    Colon,
    Comma,
    Text(String),
    Number(Vec<u8>),
    True,
    False,
    Null,
}

/// The mathematical reading of a token.
pub enum SpecToken {
    ObjectStart,
    ObjectEnd,
    ArrayStart,
    ArrayEnd,
    Colon,
    Comma,
    Text(Seq<char>),
    Number(Seq<u8>),
    True,
    False,
    Null,
}

/// The mathematical reading of a token, by value.
pub open spec fn token_view(t: JsonToken) -> SpecToken {
    match t {
        JsonToken::ObjectStart => SpecToken::ObjectStart,
        JsonToken::ObjectEnd => SpecToken::ObjectEnd,
        JsonToken::ArrayStart => SpecToken::ArrayStart,
        JsonToken::ArrayEnd => SpecToken::ArrayEnd,
        JsonToken::Colon => SpecToken::Colon,
        JsonToken::Comma => SpecToken::Comma,
        JsonToken::Text(s) => SpecToken::Text(s@),
        JsonToken::Number(n) => SpecToken::Number(n@),
        JsonToken::True => SpecToken::True,
        JsonToken::False => SpecToken::False,
        JsonToken::Null => SpecToken::Null,
    }
}

impl View for JsonToken {
    type V = SpecToken;

    open spec fn view(&self) -> SpecToken {
        token_view(*self)
    }
}

/// What one request for a token yields: the end of the input, a token, or
/// a failure; `Tok` carries the position after the token.
pub enum SpecLexStep {
    End,
    Tok(SpecToken, int),
    Fail(JsonInputErr),
}

/// What scanning the rest of a string literal yields: the decoded
/// characters and the position after the closing quote, or a failure.
pub enum SpecStrStep {
    Done(Seq<char>, int),
    Fail(JsonInputErr),
}

/// Insignificant whitespace between tokens.
pub open spec fn is_ws(b: u8) -> bool {
    b == 32 || b == 9 || b == 10 || b == 13
}

/// An ASCII decimal digit.
pub open spec fn is_digit(b: u8) -> bool {
    48 <= b <= 57
}

/// A byte that can continue a numeric literal's contiguous run: digits,
/// sign characters, a decimal point, and the exponent letters.
pub open spec fn is_number_byte(b: u8) -> bool {
    is_digit(b) || b == 46 || b == 45 || b == 43 || b == 101 || b == 69
}

/// A UTF-8 continuation byte.
pub open spec fn is_cont_byte(b: u8) -> bool {
    128 <= b < 192
}

/// The value of an ASCII hex digit, or -1 for any other byte.
pub open spec fn hex_val(b: u8) -> int {
    if 48 <= b <= 57 {
        b - 48
    } else if 97 <= b <= 102 {
        b - 87
    } else if 65 <= b <= 70 {
        b - 55
    } else {
        -1
    }
}

/// The escape bytes that stand for a single fixed character.
pub open spec fn is_simple_escape(b: u8) -> bool {
    b == 34 || b == 92 || b == 47 || b == 98 || b == 102 || b == 110 || b == 114 || b == 116
}

/// The character a simple escape stands for.
pub open spec fn escape_char(b: u8) -> char {
    if b == 98 {
        '\u{8}'
    } else if b == 102 {
        '\u{c}'
    } else if b == 110 {
        '\n'
    } else if b == 114 {
        '\r'
    } else if b == 116 {
        '\t'
    } else {
        b as char
    }
}

/// The first position at or after `pos` that holds no whitespace.
pub open spec fn spec_skip_ws(s: Seq<u8>, pos: int) -> int
    decreases s.len() - pos,
{
    if pos < 0 || pos >= s.len() {
        pos
    } else if is_ws(s[pos]) {
        spec_skip_ws(s, pos + 1)
    } else {
        pos
    }
}

pub proof fn lemma_skip_ws_bounds(s: Seq<u8>, pos: int)
    requires
        0 <= pos <= s.len(),
    ensures
        pos <= spec_skip_ws(s, pos) <= s.len(),
    decreases s.len() - pos,
{
    if pos < s.len() && is_ws(s[pos]) {
        lemma_skip_ws_bounds(s, pos + 1);
    }
}

/// Prepends one decoded character to the outcome of scanning the rest.
pub open spec fn str_step_prepend(c: char, rest: SpecStrStep) -> SpecStrStep {
    match rest {
        SpecStrStep::Done(cs, p) => SpecStrStep::Done(seq![c] + cs, p),
        SpecStrStep::Fail(e) => SpecStrStep::Fail(e),
    }
}

/// What decoding one element of a string literal body yields: one decoded
/// character, the closing quote, or a failure; positions are those after
/// the consumed bytes.
pub enum SpecScanStep {
    Ch(char, int),
    Close(int),
    Bad(JsonInputErr),
}

/// Decodes one element of a string literal body at `pos`: the closing
/// quote, a backslash escape, or one UTF-8 encoded character.
pub open spec fn spec_scan_step(s: Seq<u8>, pos: int) -> SpecScanStep {
    if pos < 0 || pos >= s.len() {
        SpecScanStep::Bad(JsonInputErr::UnexpectedEndOfInput)
    } else {
        let b = s[pos];
        if b == 34 {
            SpecScanStep::Close(pos + 1)
        } else if b == 92 {
            if pos + 1 >= s.len() {
                SpecScanStep::Bad(JsonInputErr::UnexpectedEndOfInput)
            } else {
                let e = s[pos + 1];
                if is_simple_escape(e) {
                    SpecScanStep::Ch(escape_char(e), pos + 2)
                } else if e == 117 {
                    if pos + 6 > s.len() {
                        SpecScanStep::Bad(JsonInputErr::UnexpectedEndOfInput)
                    } else if hex_val(s[pos + 2]) < 0 {
                        SpecScanStep::Bad(JsonInputErr::InvalidEscape(s[pos + 2]))
                    } else if hex_val(s[pos + 3]) < 0 {
                        SpecScanStep::Bad(JsonInputErr::InvalidEscape(s[pos + 3]))
                    } else if hex_val(s[pos + 4]) < 0 {
                        SpecScanStep::Bad(JsonInputErr::InvalidEscape(s[pos + 4]))
                    } else if hex_val(s[pos + 5]) < 0 {
                        SpecScanStep::Bad(JsonInputErr::InvalidEscape(s[pos + 5]))
                    } else {
                        let cp = hex_val(s[pos + 2]) * 4096 + hex_val(s[pos + 3]) * 256 + hex_val(
                            s[pos + 4],
                        ) * 16 + hex_val(s[pos + 5]);
                        if 0xD800 <= cp <= 0xDFFF {
                            SpecScanStep::Bad(JsonInputErr::InvalidUtf8)
                        } else {
                            SpecScanStep::Ch((cp as u32) as char, pos + 6)
                        }
                    }
                } else {
                    SpecScanStep::Bad(JsonInputErr::InvalidEscape(e))
                }
            }
        } else if b < 128 {
            SpecScanStep::Ch(b as char, pos + 1)
        } else if 194 <= b <= 223 {
            if pos + 2 > s.len() {
                SpecScanStep::Bad(JsonInputErr::UnexpectedEndOfInput)
            } else if !is_cont_byte(s[pos + 1]) {
                SpecScanStep::Bad(JsonInputErr::InvalidUtf8)
            } else {
                let cp = (b - 192) * 64 + (s[pos + 1] - 128);
                SpecScanStep::Ch((cp as u32) as char, pos + 2)
            }
        } else if 224 <= b <= 239 {
            if pos + 3 > s.len() {
                SpecScanStep::Bad(JsonInputErr::UnexpectedEndOfInput)
            } else if !is_cont_byte(s[pos + 1]) || !is_cont_byte(s[pos + 2]) {
                SpecScanStep::Bad(JsonInputErr::InvalidUtf8)
            } else {
                let cp = (b - 224) * 4096 + (s[pos + 1] - 128) * 64 + (s[pos + 2] - 128);
                if cp < 0x800 || (0xD800 <= cp <= 0xDFFF) {
                    SpecScanStep::Bad(JsonInputErr::InvalidUtf8)
                } else {
                    SpecScanStep::Ch((cp as u32) as char, pos + 3)
                }
            }
        } else if 240 <= b <= 244 {
            if pos + 4 > s.len() {
                SpecScanStep::Bad(JsonInputErr::UnexpectedEndOfInput)
            } else if !is_cont_byte(s[pos + 1]) || !is_cont_byte(s[pos + 2]) || !is_cont_byte(
                s[pos + 3],
            ) {
                SpecScanStep::Bad(JsonInputErr::InvalidUtf8)
            } else {
                let cp = (b - 240) * 262144 + (s[pos + 1] - 128) * 4096 + (s[pos + 2] - 128) * 64
                    + (s[pos + 3] - 128);
                if cp < 0x10000 || cp > 0x10FFFF {
                    SpecScanStep::Bad(JsonInputErr::InvalidUtf8)
                } else {
                    SpecScanStep::Ch((cp as u32) as char, pos + 4)
                }
            }
        } else {
            SpecScanStep::Bad(JsonInputErr::InvalidUtf8)
        }
    }
}

pub proof fn lemma_scan_step_advances(s: Seq<u8>, pos: int)
    requires
        0 <= pos <= s.len(),
    ensures
        spec_scan_step(s, pos) matches SpecScanStep::Ch(_, p) ==> pos < p <= s.len(),
        spec_scan_step(s, pos) matches SpecScanStep::Close(p) ==> pos < p <= s.len(),
{
}

/// Scans the body of a string literal beginning at `pos` (just after the
/// opening quote): decodes characters until the closing quote, or fails.
pub open spec fn spec_scan_string(s: Seq<u8>, pos: int) -> SpecStrStep
    decreases s.len() - pos,
{
    match spec_scan_step(s, pos) {
        SpecScanStep::Close(p) => SpecStrStep::Done(Seq::empty(), p),
        SpecScanStep::Bad(e) => SpecStrStep::Fail(e),
        SpecScanStep::Ch(c, p) => if pos < p <= s.len() {
            str_step_prepend(c, spec_scan_string(s, p))
        } else {
            SpecStrStep::Fail(JsonInputErr::UnexpectedEndOfInput)
        },
    }
}

pub proof fn lemma_scan_string_bounds(s: Seq<u8>, pos: int)
    requires
        0 <= pos <= s.len(),
    ensures
        spec_scan_string(s, pos) matches SpecStrStep::Done(_, p) ==> pos < p <= s.len(),
    decreases s.len() - pos,
{
    lemma_scan_step_advances(s, pos);
    match spec_scan_step(s, pos) {
        SpecScanStep::Ch(_, p) => {
            lemma_scan_string_bounds(s, p);
        },
        _ => {},
    }
}

/// The numeric literal's contiguous run starting at `pos`, and the position
/// after it.
pub open spec fn spec_scan_number(s: Seq<u8>, pos: int) -> (Seq<u8>, int)
    decreases s.len() - pos,
{
    if pos < 0 || pos >= s.len() || !is_number_byte(s[pos]) {
        (Seq::empty(), pos)
    } else {
        let (rest, p) = spec_scan_number(s, pos + 1);
        (seq![s[pos]] + rest, p)
    }
}

pub proof fn lemma_scan_number_bounds(s: Seq<u8>, pos: int)
    requires
        0 <= pos <= s.len(),
    ensures
        pos <= spec_scan_number(s, pos).1 <= s.len(),
        pos < s.len() && is_number_byte(s[pos]) ==> pos < spec_scan_number(s, pos).1,
    decreases s.len() - pos,
{
    if pos < s.len() && is_number_byte(s[pos]) {
        lemma_scan_number_bounds(s, pos + 1);
    }
}

/// Whether a numeric run holds at least one digit; a run without one (a
/// lone sign or point) is not a number.
pub open spec fn seq_has_digit(run: Seq<u8>) -> bool {
    exists|i: int| 0 <= i < run.len() && is_digit(run[i])
}

/// Whether a numeric run holds a decimal point, which marks it as a float.
pub open spec fn seq_has_dot(run: Seq<u8>) -> bool {
    exists|i: int| 0 <= i < run.len() && run[i] == 46
}

/// The token beginning at or after `pos`, after leading whitespace: the
/// single token request that the inference engine repeats.
pub open spec fn spec_token_at(s: Seq<u8>, pos: int) -> SpecLexStep {
    let p = spec_skip_ws(s, pos);
    if p >= s.len() {
        SpecLexStep::End
    } else {
        let b = s[p];
        if b == 123 {
            SpecLexStep::Tok(SpecToken::ObjectStart, p + 1)
        } else if b == 125 {
            SpecLexStep::Tok(SpecToken::ObjectEnd, p + 1)
        } else if b == 91 {
            SpecLexStep::Tok(SpecToken::ArrayStart, p + 1)
        } else if b == 93 {
            SpecLexStep::Tok(SpecToken::ArrayEnd, p + 1)
        } else if b == 58 {
            SpecLexStep::Tok(SpecToken::Colon, p + 1)
        } else if b == 44 {
            SpecLexStep::Tok(SpecToken::Comma, p + 1)
        } else if b == 34 {
            match spec_scan_string(s, p + 1) {
                SpecStrStep::Done(cs, p2) => SpecLexStep::Tok(SpecToken::Text(cs), p2),
                SpecStrStep::Fail(e) => SpecLexStep::Fail(e),
            }
        } else if b == 45 || is_digit(b) {
            let (run, p2) = spec_scan_number(s, p);
            if seq_has_digit(run) {
                SpecLexStep::Tok(SpecToken::Number(run), p2)
            } else {
                SpecLexStep::Fail(JsonInputErr::InvalidJson)
            }
        } else if b == 116 {
            if p + 4 > s.len() {
                SpecLexStep::Fail(JsonInputErr::UnexpectedEndOfInput)
            } else if s[p + 1] == 114 && s[p + 2] == 117 && s[p + 3] == 101 {
                SpecLexStep::Tok(SpecToken::True, p + 4)
            } else {
                SpecLexStep::Fail(JsonInputErr::InvalidJson)
            }
        } else if b == 102 {
            if p + 5 > s.len() {
                SpecLexStep::Fail(JsonInputErr::UnexpectedEndOfInput)
            } else if s[p + 1] == 97 && s[p + 2] == 108 && s[p + 3] == 115 && s[p + 4] == 101 {
                SpecLexStep::Tok(SpecToken::False, p + 5)
            } else {
                SpecLexStep::Fail(JsonInputErr::InvalidJson)
            }
        } else if b == 110 {
            if p + 4 > s.len() {
                SpecLexStep::Fail(JsonInputErr::UnexpectedEndOfInput)
            } else if s[p + 1] == 117 && s[p + 2] == 108 && s[p + 3] == 108 {
                SpecLexStep::Tok(SpecToken::Null, p + 4)
            } else {
                SpecLexStep::Fail(JsonInputErr::InvalidJson)
            }
        } else {
            SpecLexStep::Fail(JsonInputErr::InvalidJson)
        }
    }
}

/// Every produced token ends strictly past the position it was requested
/// at, and within the input.
pub proof fn lemma_token_advances(s: Seq<u8>, pos: int)
    requires
        0 <= pos <= s.len(),
    ensures
        spec_token_at(s, pos) matches SpecLexStep::Tok(_, p2) ==> pos < p2 <= s.len(),
{
    lemma_skip_ws_bounds(s, pos);
    let p = spec_skip_ws(s, pos);
    if p < s.len() {
        let b = s[p];
        if b == 34 {
            lemma_scan_string_bounds(s, p + 1);
        } else if b == 45 || is_digit(b) {
            lemma_scan_number_bounds(s, p);
        }
    }
}

/// What one executable token request yields.
pub enum LexStep {
    End,
    Tok(JsonToken),
    Fail(JsonInputErr),
}

/// The first position at or after `pos` holding no whitespace.
#[verifier::loop_isolation(false)]
fn skip_ws(bytes: &[u8], pos: usize) -> (r: usize)
    requires
        pos <= bytes@.len(),
    ensures
        r as int == spec_skip_ws(bytes@, pos as int),
        pos <= r <= bytes@.len(),
{
    let mut cur = pos;
    while cur < bytes.len() && is_ws_byte(bytes[cur])
        invariant
            pos <= cur <= bytes@.len(),
            spec_skip_ws(bytes@, pos as int) == spec_skip_ws(bytes@, cur as int),
        decreases bytes@.len() - cur,
    {
        cur = cur + 1;
    }
    cur
}

/// Whether a byte is insignificant whitespace.
fn is_ws_byte(b: u8) -> (r: bool)
    ensures
        r == is_ws(b),
{
    b == 32 || b == 9 || b == 10 || b == 13
}

/// The value of an ASCII hex digit, if the byte is one.
fn hex_digit(b: u8) -> (r: Option<u8>)
    ensures
        r is Some <==> hex_val(b) >= 0,
        r matches Some(v) ==> v as int == hex_val(b),
{
    if 48 <= b && b <= 57 {
        Some(b - 48)
    } else if 97 <= b && b <= 102 {
        Some(b - 87)
    } else if 65 <= b && b <= 70 {
        Some(b - 55)
    } else {
        None
    }
}

/// What one executable decoding step yields.
enum ScanStep {
    Ch(char, usize),
    Close(usize),
    Bad(JsonInputErr),
}

/// Decodes a backslash escape at `pos` (where the backslash stands).
#[verifier::rlimit(60)]
fn scan_escape(bytes: &[u8], pos: usize) -> (r: ScanStep)
    requires
        pos < bytes@.len(),
        bytes@[pos as int] == 92,
    ensures
        match spec_scan_step(bytes@, pos as int) {
            SpecScanStep::Ch(c, p) => r matches ScanStep::Ch(c2, p2) && c2 == c && p2 as int == p,
            SpecScanStep::Close(p) => r matches ScanStep::Close(p2) && p2 as int == p,
            SpecScanStep::Bad(e) => r matches ScanStep::Bad(e2) && e2 == e,
        },
{
    broadcast use vstd::utf8::char_u32_cast;

    if bytes.len() - pos < 2 {
        return ScanStep::Bad(JsonInputErr::UnexpectedEndOfInput);
    }
    let e = bytes[pos + 1];
    if e == 34 || e == 92 || e == 47 || e == 98 || e == 102 || e == 110 || e == 114 || e == 116 {
        let c: char = if e == 98 {
            '\u{8}'
        } else if e == 102 {
            '\u{c}'
        } else if e == 110 {
            '\n'
        } else if e == 114 {
            '\r'
        } else if e == 116 {
            '\t'
        } else {
            e as char
        };
        ScanStep::Ch(c, pos + 2)
    } else if e == 117 {
        if bytes.len() - pos < 6 {
            return ScanStep::Bad(JsonInputErr::UnexpectedEndOfInput);
        }
        let h1 = match hex_digit(bytes[pos + 2]) {
            Some(v) => v,
            None => {
                return ScanStep::Bad(JsonInputErr::InvalidEscape(bytes[pos + 2]));
            },
        };
        let h2 = match hex_digit(bytes[pos + 3]) {
            Some(v) => v,
            None => {
                return ScanStep::Bad(JsonInputErr::InvalidEscape(bytes[pos + 3]));
            },
        };
        let h3 = match hex_digit(bytes[pos + 4]) {
            Some(v) => v,
            None => {
                return ScanStep::Bad(JsonInputErr::InvalidEscape(bytes[pos + 4]));
            },
        };
        let h4 = match hex_digit(bytes[pos + 5]) {
            Some(v) => v,
            None => {
                return ScanStep::Bad(JsonInputErr::InvalidEscape(bytes[pos + 5]));
            },
        };
        let cp: u32 = (h1 as u32) * 4096 + (h2 as u32) * 256 + (h3 as u32) * 16 + (h4 as u32);
        if 0xD800 <= cp && cp <= 0xDFFF {
            return ScanStep::Bad(JsonInputErr::InvalidUtf8);
        }
        match char::from_u32(cp) {
            Some(c) => {
                proof {
                    vstd::utf8::char_u32_cast(c, cp);
                }
                ScanStep::Ch(c, pos + 6)
            },
            None => vstd::pervasive::unreached(),
        }
    } else {
        ScanStep::Bad(JsonInputErr::InvalidEscape(e))
    }
}

/// Decodes one multi-byte UTF-8 sequence whose leading byte is `128` or
/// above.
#[verifier::rlimit(60)]
fn scan_multibyte(bytes: &[u8], pos: usize) -> (r: ScanStep)
    requires
        pos < bytes@.len(),
        bytes@[pos as int] >= 128,
    ensures
        match spec_scan_step(bytes@, pos as int) {
            SpecScanStep::Ch(c, p) => r matches ScanStep::Ch(c2, p2) && c2 == c && p2 as int == p,
            SpecScanStep::Close(p) => r matches ScanStep::Close(p2) && p2 as int == p,
            SpecScanStep::Bad(e) => r matches ScanStep::Bad(e2) && e2 == e,
        },
{
    broadcast use vstd::utf8::char_u32_cast;

    let b = bytes[pos];
    if 194 <= b && b <= 223 {
        if bytes.len() - pos < 2 {
            return ScanStep::Bad(JsonInputErr::UnexpectedEndOfInput);
        }
        let c1 = bytes[pos + 1];
        if !(128 <= c1 && c1 < 192) {
            return ScanStep::Bad(JsonInputErr::InvalidUtf8);
        }
        let cp: u32 = ((b - 192) as u32) * 64 + ((c1 - 128) as u32);
        match char::from_u32(cp) {
            Some(c) => {
                proof {
                    vstd::utf8::char_u32_cast(c, cp);
                }
                ScanStep::Ch(c, pos + 2)
            },
            None => vstd::pervasive::unreached(),
        }
    } else if 224 <= b && b <= 239 {
        if bytes.len() - pos < 3 {
            return ScanStep::Bad(JsonInputErr::UnexpectedEndOfInput);
        }
        let c1 = bytes[pos + 1];
        let c2 = bytes[pos + 2];
        if !(128 <= c1 && c1 < 192) || !(128 <= c2 && c2 < 192) {
            return ScanStep::Bad(JsonInputErr::InvalidUtf8);
        }
        let cp: u32 = ((b - 224) as u32) * 4096 + ((c1 - 128) as u32) * 64 + ((c2 - 128) as u32);
        if cp < 0x800 || (0xD800 <= cp && cp <= 0xDFFF) {
            return ScanStep::Bad(JsonInputErr::InvalidUtf8);
        }
        match char::from_u32(cp) {
            Some(c) => {
                proof {
                    vstd::utf8::char_u32_cast(c, cp);
                }
                ScanStep::Ch(c, pos + 3)
            },
            None => vstd::pervasive::unreached(),
        }
    } else if 240 <= b && b <= 244 {
        if bytes.len() - pos < 4 {
            return ScanStep::Bad(JsonInputErr::UnexpectedEndOfInput);
        }
        let c1 = bytes[pos + 1];
        let c2 = bytes[pos + 2];
        let c3 = bytes[pos + 3];
        if !(128 <= c1 && c1 < 192) || !(128 <= c2 && c2 < 192) || !(128 <= c3 && c3 < 192) {
            return ScanStep::Bad(JsonInputErr::InvalidUtf8);
        }
        let cp: u32 = ((b - 240) as u32) * 262144 + ((c1 - 128) as u32) * 4096 + ((c2
            - 128) as u32) * 64 + ((c3 - 128) as u32);
        if cp < 0x10000 || cp > 0x10FFFF {
            return ScanStep::Bad(JsonInputErr::InvalidUtf8);
        }
        match char::from_u32(cp) {
            Some(c) => {
                proof {
                    vstd::utf8::char_u32_cast(c, cp);
                }
                ScanStep::Ch(c, pos + 4)
            },
            None => vstd::pervasive::unreached(),
        }
    } else {
        ScanStep::Bad(JsonInputErr::InvalidUtf8)
    }
}

/// Decodes one element of a string literal body: the closing quote, an
/// escape, or one UTF-8 encoded character.
fn scan_step(bytes: &[u8], pos: usize) -> (r: ScanStep)
    requires
        pos <= bytes@.len(),
    ensures
        match spec_scan_step(bytes@, pos as int) {
            SpecScanStep::Ch(c, p) => r matches ScanStep::Ch(c2, p2) && c2 == c && p2 as int == p,
            SpecScanStep::Close(p) => r matches ScanStep::Close(p2) && p2 as int == p,
            SpecScanStep::Bad(e) => r matches ScanStep::Bad(e2) && e2 == e,
        },
{
    if pos >= bytes.len() {
        return ScanStep::Bad(JsonInputErr::UnexpectedEndOfInput);
    }
    let b = bytes[pos];
    if b == 34 {
        ScanStep::Close(pos + 1)
    } else if b == 92 {
        scan_escape(bytes, pos)
    } else if b < 128 {
        ScanStep::Ch(b as char, pos + 1)
    } else {
        scan_multibyte(bytes, pos)
    }
}

/// Scans the body of a string literal (after the opening quote), decoding
/// UTF-8 and escapes up to the closing quote.
#[verifier::loop_isolation(false)]
fn scan_string(bytes: &[u8], pos: usize) -> (r: Result<(String, usize), JsonInputErr>)
    requires
        pos <= bytes@.len(),
    ensures
        match spec_scan_string(bytes@, pos as int) {
            SpecStrStep::Done(cs, p) => r matches Ok(pair) && pair.0@ == cs && pair.1 as int == p
                && pos < pair.1 <= bytes@.len(),
            SpecStrStep::Fail(e) => r matches Err(e2) && e2 == e,
        },
{
    let mut cur = pos;
    let mut out = String::new();
    proof {
        assert(out@ =~= Seq::<char>::empty());
    }
    loop
        invariant
            pos <= cur <= bytes@.len(),
            match spec_scan_string(bytes@, cur as int) {
                SpecStrStep::Done(cs, p) => spec_scan_string(bytes@, pos as int)
                    == SpecStrStep::Done(out@ + cs, p),
                SpecStrStep::Fail(e) => spec_scan_string(bytes@, pos as int)
                    == SpecStrStep::Fail(e),
            },
        decreases bytes@.len() - cur,
    {
        proof {
            lemma_scan_step_advances(bytes@, cur as int);
            lemma_scan_string_bounds(bytes@, pos as int);
        }
        match scan_step(bytes, cur) {
            ScanStep::Close(p) => {
                proof {
                    assert(out@ + Seq::<char>::empty() =~= out@);
                }
                return Ok((out, p));
            },
            ScanStep::Bad(e) => {
                return Err(e);
            },
            ScanStep::Ch(c, p) => {
                let ghost out_pre = out@;
                out.push(c);
                proof {
                    match spec_scan_string(bytes@, p as int) {
                        SpecStrStep::Done(cs, p3) => {
                            assert(out_pre + (seq![c] + cs) =~= out@ + cs);
                        },
                        SpecStrStep::Fail(_) => {},
                    }
                }
                cur = p;
            },
        }
    }
}

/// Collects a numeric literal's contiguous run of number bytes.
#[verifier::loop_isolation(false)]
fn scan_number(bytes: &[u8], pos: usize) -> (r: (Vec<u8>, usize))
    requires
        pos <= bytes@.len(),
    ensures
        r.0@ == spec_scan_number(bytes@, pos as int).0,
        r.1 as int == spec_scan_number(bytes@, pos as int).1,
        pos <= r.1 <= bytes@.len(),
{
    let mut cur = pos;
    let mut run: Vec<u8> = Vec::new();
    proof {
        assert(run@ =~= Seq::<u8>::empty());
    }
    while cur < bytes.len() && is_number_byte_exec(bytes[cur])
        invariant
            pos <= cur <= bytes@.len(),
            spec_scan_number(bytes@, pos as int).0 == run@ + spec_scan_number(
                bytes@,
                cur as int,
            ).0,
            spec_scan_number(bytes@, pos as int).1 == spec_scan_number(bytes@, cur as int).1,
        decreases bytes@.len() - cur,
    {
        let ghost run_pre = run@;
        let b = bytes[cur];
        run.push(b);
        proof {
            let rest = spec_scan_number(bytes@, cur + 1).0;
            assert(run_pre + (seq![b] + rest) =~= run@ + rest);
        }
        cur = cur + 1;
    }
    proof {
        assert(run@ + Seq::<u8>::empty() =~= run@);
    }
    (run, cur)
}

/// Whether a byte can continue a numeric literal's run.
fn is_number_byte_exec(b: u8) -> (r: bool)
    ensures
        r == is_number_byte(b),
{
    (48 <= b && b <= 57) || b == 46 || b == 45 || b == 43 || b == 101 || b == 69
}

/// Whether a collected numeric run holds at least one decimal digit.
fn run_has_digit(run: &Vec<u8>) -> (r: bool)
    ensures
        r == seq_has_digit(run@),
{
    let mut i: usize = 0;
    while i < run.len()
        invariant
            i <= run@.len(),
            forall|j: int| 0 <= j < i ==> !is_digit(run@[j]),
        decreases run@.len() - i,
    {
        if 48 <= run[i] && run[i] <= 57 {
            return true;
        }
        i += 1;
    }
    false
}

/// Whether a collected numeric run holds a decimal point.
pub fn run_has_dot(run: &Vec<u8>) -> (r: bool)
    ensures
        r == seq_has_dot(run@),
{
    let mut i: usize = 0;
    while i < run.len()
        invariant
            i <= run@.len(),
            forall|j: int| 0 <= j < i ==> run@[j] != 46,
        decreases run@.len() - i,
    {
        if run[i] == 46 {
            return true;
        }
        i += 1;
    }
    false
}

/// Produces the token that begins at or after `pos`, skipping whitespace,
/// together with the position after it.
pub fn next_token(bytes: &[u8], pos: usize) -> (r: (LexStep, usize))
    requires
        pos <= bytes@.len(),
    ensures
        pos <= r.1 <= bytes@.len(),
        match spec_token_at(bytes@, pos as int) {
            SpecLexStep::End => r.0 is End,
            SpecLexStep::Tok(t, p2) => r.0 matches LexStep::Tok(tok) && tok@ == t && r.1 as int
                == p2,
            SpecLexStep::Fail(e) => r.0 matches LexStep::Fail(e2) && e2 == e,
        },
{
    let cur = skip_ws(bytes, pos);
    if cur >= bytes.len() {
        return (LexStep::End, cur);
    }
    let b = bytes[cur];
    if b == 123 {
        (LexStep::Tok(JsonToken::ObjectStart), cur + 1)
    } else if b == 125 {
        (LexStep::Tok(JsonToken::ObjectEnd), cur + 1)
    } else if b == 91 {
        (LexStep::Tok(JsonToken::ArrayStart), cur + 1)
    } else if b == 93 {
        (LexStep::Tok(JsonToken::ArrayEnd), cur + 1)
    } else if b == 58 {
        (LexStep::Tok(JsonToken::Colon), cur + 1)
    } else if b == 44 {
        (LexStep::Tok(JsonToken::Comma), cur + 1)
    } else if b == 34 {
        match scan_string(bytes, cur + 1) {
            Ok((text, p2)) => (LexStep::Tok(JsonToken::Text(text)), p2),
            Err(e) => (LexStep::Fail(e), cur),
        }
    } else if b == 45 || (48 <= b && b <= 57) {
        let (run, p2) = scan_number(bytes, cur);
        if run_has_digit(&run) {
            (LexStep::Tok(JsonToken::Number(run)), p2)
        } else {
            (LexStep::Fail(JsonInputErr::InvalidJson), cur)
        }
    } else if b == 116 {
        if bytes.len() - cur < 4 {
            (LexStep::Fail(JsonInputErr::UnexpectedEndOfInput), cur)
        } else if bytes[cur + 1] == 114 && bytes[cur + 2] == 117 && bytes[cur + 3] == 101 {
            (LexStep::Tok(JsonToken::True), cur + 4)
        } else {
            (LexStep::Fail(JsonInputErr::InvalidJson), cur)
        }
    } else if b == 102 {
        if bytes.len() - cur < 5 {
            (LexStep::Fail(JsonInputErr::UnexpectedEndOfInput), cur)
        } else if bytes[cur + 1] == 97 && bytes[cur + 2] == 108 && bytes[cur + 3] == 115
            && bytes[cur + 4] == 101 {
            (LexStep::Tok(JsonToken::False), cur + 5)
        } else {
            (LexStep::Fail(JsonInputErr::InvalidJson), cur)
        }
    } else if b == 110 {
        if bytes.len() - cur < 4 {
            (LexStep::Fail(JsonInputErr::UnexpectedEndOfInput), cur)
        } else if bytes[cur + 1] == 117 && bytes[cur + 2] == 108 && bytes[cur + 3] == 108 {
            (LexStep::Tok(JsonToken::Null), cur + 4)
        } else {
            (LexStep::Fail(JsonInputErr::InvalidJson), cur)
        }
    } else {
        (LexStep::Fail(JsonInputErr::InvalidJson), cur)
    }
}

} // verus!
