//! A C-like tokenizer over a byte buffer.
//!
//! The input is a sequence of bytes; the position equal to its length is the
//! end of input, and reading at or beyond it gives a NUL byte.  Positions are
//! indices into the input.  Identifiers and the decoded contents of string
//! literals are written, NUL-terminated, into a string storage of fixed size.
#![allow(non_upper_case_globals)]
#![allow(non_camel_case_types)]
#![allow(non_snake_case)]

use vstd::prelude::*;

verus! {

// ---------------------------------------------------------------------------
// Token ids.  Values below 256 are single characters.
// ---------------------------------------------------------------------------
pub const CLEX_eof: i64 = 256;
pub const CLEX_parse_error: i64 = 257;
pub const CLEX_intlit: i64 = 258;
pub const CLEX_floatlit: i64 = 259;
pub const CLEX_id: i64 = 260;
pub const CLEX_dqstring: i64 = 261;
pub const CLEX_sqstring: i64 = 262;
pub const CLEX_charlit: i64 = 263;
pub const CLEX_eq: i64 = 264;
pub const CLEX_noteq: i64 = 265;
pub const CLEX_lesseq: i64 = 266;
pub const CLEX_greatereq: i64 = 267;
pub const CLEX_andand: i64 = 268;
pub const CLEX_oror: i64 = 269;
pub const CLEX_shl: i64 = 270;
pub const CLEX_shr: i64 = 271;
pub const CLEX_plusplus: i64 = 272;
pub const CLEX_minusminus: i64 = 273;
pub const CLEX_pluseq: i64 = 274;
pub const CLEX_minuseq: i64 = 275;
pub const CLEX_muleq: i64 = 276;
pub const CLEX_diveq: i64 = 277;
pub const CLEX_modeq: i64 = 278;
pub const CLEX_andeq: i64 = 279;
pub const CLEX_oreq: i64 = 280;
pub const CLEX_xoreq: i64 = 281;
pub const CLEX_arrow: i64 = 282;
pub const CLEX_eqarrow: i64 = 283;
pub const CLEX_shleq: i64 = 284;
pub const CLEX_shreq: i64 = 285;
pub const CLEX_first_unused_token: i64 = 286;

// ---------------------------------------------------------------------------
// Byte classes
// ---------------------------------------------------------------------------

/// The byte at `i`, or NUL outside the buffer.
pub open spec fn byte_at(s: Seq<u8>, i: int) -> u8 {
    if 0 <= i < s.len() {
        s[i]
    } else {
        0
    }
}

pub open spec fn is_white_byte(b: u8) -> bool {
    b == 32 || b == 9 || b == 13 || b == 10 || b == 12
}

pub open spec fn is_newline_byte(b: u8) -> bool {
    b == 13 || b == 10
}

pub open spec fn is_digit_byte(b: u8) -> bool {
    48 <= b <= 57
}

pub open spec fn is_octal_byte(b: u8) -> bool {
    48 <= b <= 55
}

pub open spec fn is_hex_byte(b: u8) -> bool {
    (48 <= b <= 57) || (97 <= b <= 102) || (65 <= b <= 70)
}

/// Bytes that may begin an identifier: letters, `_`, `$` and every byte >= 128.
pub open spec fn is_ident_start_byte(b: u8) -> bool {
    (97 <= b <= 122) || (65 <= b <= 90) || b == 95 || b >= 128 || b == 36
}

pub open spec fn is_ident_byte(b: u8) -> bool {
    is_ident_start_byte(b) || is_digit_byte(b)
}

/// Numeric value of a digit in base 8, 10 or 16.
pub open spec fn digit_value(b: u8) -> int {
    if 48 <= b <= 57 {
        b - 48
    } else if 97 <= b <= 102 {
        b - 97 + 10
    } else {
        b - 65 + 10
    }
}

/// The classes of bytes over which the lexer scans runs.
#[derive(Clone, Copy, PartialEq, Eq, Structural)]
pub enum Run {
    Digit,
    Octal,
    Hex,
    Ident,
    NotNewline,
}

pub open spec fn in_run(r: Run, b: u8) -> bool {
    match r {
        Run::Digit => is_digit_byte(b),
        Run::Octal => is_octal_byte(b),
        Run::Hex => is_hex_byte(b),
        Run::Ident => is_ident_byte(b),
        Run::NotNewline => !is_newline_byte(b),
    }
}

/// The first position at or after `i` that is the end of input or holds a
/// byte outside the class.
pub open spec fn run_end(s: Seq<u8>, i: int, r: Run) -> int
    decreases s.len() - i,
{
    if 0 <= i < s.len() && in_run(r, s[i]) {
        run_end(s, i + 1, r)
    } else {
        i
    }
}

/// The first position at or after `i` that starts `*/`, or the end of input.
pub open spec fn comment_close(s: Seq<u8>, i: int) -> int
    decreases s.len() - i,
{
    if 0 <= i < s.len() && !(s[i] == 42 && byte_at(s, i + 1) == 47) {
        comment_close(s, i + 1)
    } else {
        i
    }
}

pub proof fn lemma_run_end_bounds(s: Seq<u8>, i: int, r: Run)
    requires
        0 <= i,
    ensures
        i <= run_end(s, i, r),
        i < s.len() ==> run_end(s, i, r) <= s.len(),
        0 <= i < s.len() && in_run(r, s[i]) ==> i < run_end(s, i, r),
        forall|j: int| i <= j < run_end(s, i, r) ==> 0 <= j < s.len() && #[trigger] in_run(r, s[j]),
        run_end(s, i, r) < s.len() ==> !in_run(r, s[run_end(s, i, r)]),
    decreases s.len() - i,
{
    if 0 <= i < s.len() && in_run(r, s[i]) {
        lemma_run_end_bounds(s, i + 1, r);
    }
}

pub proof fn lemma_comment_close_bounds(s: Seq<u8>, i: int)
    requires
        0 <= i,
    ensures
        i <= comment_close(s, i),
        i <= s.len() ==> comment_close(s, i) <= s.len(),
        comment_close(s, i) < s.len() ==> s[comment_close(s, i)] == 42 && byte_at(
            s,
            comment_close(s, i) + 1,
        ) == 47,
    decreases s.len() - i,
{
    if 0 <= i < s.len() && !(s[i] == 42 && byte_at(s, i + 1) == 47) {
        lemma_comment_close_bounds(s, i + 1);
    }
}

// ---------------------------------------------------------------------------
// Whitespace, comments and `#` lines
// ---------------------------------------------------------------------------

/// Where the next token starts, or the start of a block comment that never closes.
pub enum Skip {
    At(int),
    Unterminated(int),
}

/// Skips blanks, `//` comments, `/* */` comments and lines that start with `#`.
pub open spec fn skip_trivia(s: Seq<u8>, p: int) -> Skip
    decreases s.len() - p,
{
    if p < 0 || p >= s.len() {
        Skip::At(p)
    } else if is_white_byte(s[p]) {
        skip_trivia(s, p + 1)
    } else if s[p] == 47 && byte_at(s, p + 1) == 47 {
        let e = run_end(s, p, Run::NotNewline);
        proof {
            lemma_run_end_bounds(s, p, Run::NotNewline);
        }
        skip_trivia(s, e)
    } else if s[p] == 47 && byte_at(s, p + 1) == 42 {
        let c = comment_close(s, p + 2);
        proof {
            lemma_comment_close_bounds(s, p + 2);
        }
        if c >= s.len() {
            Skip::Unterminated(p)
        } else {
            skip_trivia(s, c + 2)
        }
    } else if s[p] == 35 {
        let e = run_end(s, p, Run::NotNewline);
        proof {
            lemma_run_end_bounds(s, p, Run::NotNewline);
        }
        skip_trivia(s, e)
    } else {
        Skip::At(p)
    }
}

// ---------------------------------------------------------------------------
// Operators
// ---------------------------------------------------------------------------

/// The multi-character operator at `p` (with `p` inside the input): its token
/// id and the position of its last byte.
pub open spec fn punct(s: Seq<u8>, p: int) -> Option<(int, int)> {
    let c = s[p];
    let n1 = byte_at(s, p + 1);
    if !(p + 1 < s.len()) {
        None
    } else if c == 43 {
        if n1 == 43 {
            Some((CLEX_plusplus as int, p + 1))
        } else if n1 == 61 {
            Some((CLEX_pluseq as int, p + 1))
        } else {
            None
        }
    } else if c == 45 {
        if n1 == 45 {
            Some((CLEX_minusminus as int, p + 1))
        } else if n1 == 61 {
            Some((CLEX_minuseq as int, p + 1))
        } else if n1 == 62 {
            Some((CLEX_arrow as int, p + 1))
        } else {
            None
        }
    } else if c == 38 {
        if n1 == 38 {
            Some((CLEX_andand as int, p + 1))
        } else if n1 == 61 {
            Some((CLEX_andeq as int, p + 1))
        } else {
            None
        }
    } else if c == 124 {
        if n1 == 124 {
            Some((CLEX_oror as int, p + 1))
        } else if n1 == 61 {
            Some((CLEX_oreq as int, p + 1))
        } else {
            None
        }
    } else if c == 61 {
        if n1 == 61 {
            Some((CLEX_eq as int, p + 1))
        } else {
            None
        }
    } else if c == 33 {
        if n1 == 61 {
            Some((CLEX_noteq as int, p + 1))
        } else {
            None
        }
    } else if c == 94 {
        if n1 == 61 {
            Some((CLEX_xoreq as int, p + 1))
        } else {
            None
        }
    } else if c == 37 {
        if n1 == 61 {
            Some((CLEX_modeq as int, p + 1))
        } else {
            None
        }
    } else if c == 42 {
        if n1 == 61 {
            Some((CLEX_muleq as int, p + 1))
        } else {
            None
        }
    } else if c == 47 {
        if n1 == 61 {
            Some((CLEX_diveq as int, p + 1))
        } else {
            None
        }
    } else if c == 60 {
        if n1 == 61 {
            Some((CLEX_lesseq as int, p + 1))
        } else if n1 == 60 {
            if p + 2 < s.len() && byte_at(s, p + 2) == 61 {
                Some((CLEX_shleq as int, p + 2))
            } else {
                Some((CLEX_shl as int, p + 1))
            }
        } else {
            None
        }
    } else if c == 62 {
        if n1 == 61 {
            Some((CLEX_greatereq as int, p + 1))
        } else if n1 == 62 {
            if p + 2 < s.len() && byte_at(s, p + 2) == 61 {
                Some((CLEX_shreq as int, p + 2))
            } else {
                Some((CLEX_shr as int, p + 1))
            }
        } else {
            None
        }
    } else {
        None
    }
}

// ---------------------------------------------------------------------------
// Characters and strings
// ---------------------------------------------------------------------------

/// Reads one possibly escaped character at `x`: its value (-1 for the
/// unsupported `\x`, `\X` and `\u` escapes) and the position after it.
pub open spec fn parse_char(s: Seq<u8>, x: int) -> (int, int) {
    if byte_at(s, x) == 92 {
        let e = byte_at(s, x + 1);
        if e == 92 {
            (92, x + 2)
        } else if e == 39 {
            (39, x + 2)
        } else if e == 34 {
            (34, x + 2)
        } else if e == 116 {
            (9, x + 2)
        } else if e == 102 {
            (12, x + 2)
        } else if e == 110 {
            (10, x + 2)
        } else if e == 114 {
            (13, x + 2)
        } else if e == 48 {
            (0, x + 2)
        } else if e == 120 || e == 88 || e == 117 {
            (-1, x + 2)
        } else {
            (92, x + 1)
        }
    } else {
        (byte_at(s, x) as int, x + 1)
    }
}

/// The outcome of reading a quoted string: whether it closed properly, the
/// position where reading stopped, and the bytes decoded so far.
pub struct StrScan {
    pub ok: bool,
    pub end: int,
    pub bytes: Seq<u8>,
}

/// Reads the body of a string from `i` up to the delimiter, decoding escapes
/// into at most `cap - 1` bytes (one byte is kept for the terminating NUL).
pub open spec fn scan_string(s: Seq<u8>, i: int, delim: u8, out: Seq<u8>, cap: int) -> StrScan
    decreases s.len() - i,
{
    if i < 0 || i >= s.len() {
        StrScan { ok: false, end: i, bytes: out }
    } else if s[i] == delim {
        StrScan { ok: out.len() < cap, end: i, bytes: out }
    } else {
        let (n, q) = if s[i] == 92 {
            parse_char(s, i)
        } else {
            (s[i] as int, i + 1)
        };
        if n < 0 {
            StrScan { ok: false, end: q, bytes: out }
        } else if out.len() + 1 > cap {
            StrScan { ok: false, end: q, bytes: out }
        } else {
            scan_string(s, q, delim, out.push(n as u8), cap)
        }
    }
}

// ---------------------------------------------------------------------------
// Numbers
// ---------------------------------------------------------------------------

/// The value of the digits `s[a..b]` in base `base`.
pub open spec fn digits_value(s: Seq<u8>, a: int, b: int, base: int) -> int
    decreases b - a,
{
    if b <= a {
        0
    } else {
        digits_value(s, a, b - 1, base) * base + digit_value(s[b - 1])
    }
}

/// `v` clamped to the largest `i64`, as `strtol` does on overflow.
pub open spec fn saturate(v: int) -> int {
    if v > i64::MAX {
        i64::MAX as int
    } else {
        v
    }
}

/// What `strtol(s + p, &end, base)` gives where `s[p]` is a digit:
/// the end position and the value.  In base 16 a leading `0x`/`0X` is skipped
/// when hexadecimal digits follow it; otherwise only the `0` is read.
pub open spec fn strtol_result(s: Seq<u8>, p: int, base: int) -> (int, int) {
    if base == 16 && byte_at(s, p) == 48 && (byte_at(s, p + 1) == 120 || byte_at(s, p + 1) == 88)
        && is_hex_byte(byte_at(s, p + 2)) {
        let e = run_end(s, p + 2, Run::Hex);
        (e, saturate(digits_value(s, p + 2, e, 16)))
    } else {
        let r = if base == 16 {
            Run::Hex
        } else if base == 8 {
            Run::Octal
        } else {
            Run::Digit
        };
        let e = run_end(s, p, r);
        (e, saturate(digits_value(s, p, e, base)))
    }
}

/// Where `strtod(s + p, &end)` stops, `s[p]` being a decimal digit:
/// digits, an optional `.` and digits, and an exponent only when a digit
/// follows `e`/`E` and its optional sign.
pub open spec fn strtod_end(s: Seq<u8>, p: int) -> int {
    let i1 = run_end(s, p, Run::Digit);
    let i2 = if byte_at(s, i1) == 46 {
        run_end(s, i1 + 1, Run::Digit)
    } else {
        i1
    };
    if byte_at(s, i2) == 101 || byte_at(s, i2) == 69 {
        let j = if byte_at(s, i2 + 1) == 43 || byte_at(s, i2 + 1) == 45 {
            i2 + 2
        } else {
            i2 + 1
        };
        if is_digit_byte(byte_at(s, j)) {
            run_end(s, j, Run::Digit)
        } else {
            i2
        }
    } else {
        i2
    }
}

// ---------------------------------------------------------------------------
// One token
// ---------------------------------------------------------------------------

/// The effect of reading one token that starts inside the input.
pub struct Scan {
    pub token: int,
    pub first: int,
    pub last: int,
    /// The new value of `int_number`, where the token sets it.
    pub int_number: Option<int>,
    /// The string storage afterwards.
    pub storage: Seq<u8>,
    /// Whether the token points the lexer's string at the storage.
    pub sets_string: bool,
    /// The new `string_len`, where the token sets it.
    pub string_len: Option<int>,
}

pub open spec fn plain(token: int, first: int, last: int, storage: Seq<u8>) -> Scan {
    Scan {
        token,
        first,
        last,
        int_number: None,
        storage,
        sets_string: false,
        string_len: None,
    }
}

/// `bytes` written at the front of `storage`.
pub open spec fn overwrite(storage: Seq<u8>, bytes: Seq<u8>) -> Seq<u8> {
    bytes + storage.skip(bytes.len() as int)
}

pub open spec fn scan_ident(s: Seq<u8>, p: int, storage: Seq<u8>) -> Scan {
    let cap = storage.len() as int;
    let n = run_end(s, p, Run::Ident) - p;
    if n >= cap {
        let m = if cap == 0 {
            0
        } else {
            cap - 1
        };
        Scan {
            token: CLEX_parse_error as int,
            first: p,
            last: p + m,
            int_number: None,
            storage: overwrite(storage, s.subrange(p, p + m)),
            sets_string: true,
            string_len: None,
        }
    } else {
        Scan {
            token: CLEX_id as int,
            first: p,
            last: p + n - 1,
            int_number: None,
            storage: overwrite(storage, s.subrange(p, p + n).push(0)),
            sets_string: true,
            string_len: Some(n),
        }
    }
}

pub open spec fn scan_quoted(s: Seq<u8>, p: int, token: int, storage: Seq<u8>) -> Scan {
    let r = scan_string(s, p + 1, s[p], Seq::empty(), storage.len() as int);
    if r.ok {
        Scan {
            token,
            first: p,
            last: r.end,
            int_number: None,
            storage: overwrite(storage, r.bytes.push(0)),
            sets_string: true,
            string_len: Some(r.bytes.len() as int),
        }
    } else {
        plain(CLEX_parse_error as int, p, r.end, overwrite(storage, r.bytes))
    }
}

pub open spec fn scan_charlit(s: Seq<u8>, p: int, storage: Seq<u8>) -> Scan {
    let (n, q) = parse_char(s, p + 1);
    let t = if n < 0 {
        plain(CLEX_parse_error as int, p, p, storage)
    } else if q >= s.len() || byte_at(s, q) != 39 {
        plain(CLEX_parse_error as int, p, q, storage)
    } else {
        plain(CLEX_charlit as int, p, q + 1, storage)
    };
    Scan { int_number: Some(n), ..t }
}

/// An integer literal read by `strtol` in `base`, or a floating literal.
pub open spec fn scan_number(s: Seq<u8>, p: int, storage: Seq<u8>) -> Scan {
    if s[p] == 48 && p + 1 < s.len() && (s[p + 1] == 120 || s[p + 1] == 88) {
        let (e, v) = strtol_result(s, p, 16);
        Scan { int_number: Some(v), ..plain(CLEX_intlit as int, p, e - 1, storage) }
    } else {
        let q = run_end(s, p, Run::Digit);
        if q < s.len() && (s[q] == 46 || s[q] == 101 || s[q] == 69) {
            plain(CLEX_floatlit as int, p, strtod_end(s, p) - 1, storage)
        } else {
            let base = if s[p] == 48 {
                8
            } else {
                10
            };
            let (e, v) = strtol_result(s, p, base);
            Scan { int_number: Some(v), ..plain(CLEX_intlit as int, p, e - 1, storage) }
        }
    }
}

/// The token that starts at `p`, inside the input.
pub open spec fn scan_token(s: Seq<u8>, p: int, storage: Seq<u8>) -> Scan {
    let c = s[p];
    if punct(s, p) is Some {
        let (t, l) = punct(s, p).unwrap();
        plain(t, p, l, storage)
    } else if c == 34 {
        scan_quoted(s, p, CLEX_dqstring as int, storage)
    } else if c == 39 {
        scan_charlit(s, p, storage)
    } else if is_digit_byte(c) {
        scan_number(s, p, storage)
    } else if is_ident_start_byte(c) {
        scan_ident(s, p, storage)
    } else {
        plain(c as int, p, p, storage)
    }
}

// ---------------------------------------------------------------------------
// Lexer state
// ---------------------------------------------------------------------------

/// The abstract state of a lexer.
pub struct LexState {
    pub input: Seq<u8>,
    pub parse_point: int,
    pub storage: Seq<u8>,
    pub where_firstchar: int,
    pub where_lastchar: int,
    pub token: int,
    pub int_number: int,
    pub string_set: bool,
    pub string_len: int,
}

pub open spec fn with_token(st: LexState, token: int, first: int, last: int) -> LexState {
    LexState {
        token,
        where_firstchar: first,
        where_lastchar: last,
        parse_point: last + 1,
        ..st
    }
}

pub open spec fn apply_scan(st: LexState, sc: Scan) -> LexState {
    LexState {
        token: sc.token,
        where_firstchar: sc.first,
        where_lastchar: sc.last,
        parse_point: sc.last + 1,
        storage: sc.storage,
        int_number: match sc.int_number {
            Some(v) => v,
            None => st.int_number,
        },
        string_set: st.string_set || sc.sets_string,
        string_len: match sc.string_len {
            Some(v) => v,
            None => st.string_len,
        },
        ..st
    }
}

/// Reads the next token: `false` at the end of input (the token becomes
/// `CLEX_eof` and nothing else changes), `true` otherwise.
pub open spec fn lex_next(st: LexState) -> (bool, LexState) {
    match skip_trivia(st.input, st.parse_point) {
        Skip::Unterminated(start) => (
            true,
            with_token(st, CLEX_parse_error as int, start, st.input.len() - 1),
        ),
        Skip::At(p) => if p >= st.input.len() {
            (false, LexState { token: CLEX_eof as int, ..st })
        } else {
            (true, apply_scan(st, scan_token(st.input, p, st.storage)))
        },
    }
}

/// Line number (from 1) and column (from 0) of position `w`, counting from `p`.
pub open spec fn location_from(s: Seq<u8>, p: int, w: int, line: int, col: int) -> (int, int)
    decreases s.len() - p,
{
    if 0 <= p < s.len() && s[p] != 0 && p < w {
        if is_newline_byte(s[p]) {
            let step = if s[p] as int + byte_at(s, p + 1) as int == 23 {
                2int
            } else {
                1int
            };
            location_from(s, p + step, w, line + 1, 0)
        } else {
            location_from(s, p + 1, w, line, col + 1)
        }
    } else {
        (line, col)
    }
}

pub open spec fn location(s: Seq<u8>, w: int) -> (int, int) {
    location_from(s, 0, w, 1, 0)
}


pub proof fn lemma_skip_trivia(s: Seq<u8>, p: int)
    requires
        0 <= p,
    ensures
        match skip_trivia(s, p) {
            Skip::At(q) => p <= q && (p <= s.len() ==> q <= s.len()) && (q < s.len() ==> !is_white_byte(s[q])),
            Skip::Unterminated(start) => p <= start && start + 1 < s.len(),
        },
    decreases s.len() - p,
{
    if p < 0 || p >= s.len() {
    } else if is_white_byte(s[p]) {
        lemma_skip_trivia(s, p + 1);
    } else if s[p] == 47 && byte_at(s, p + 1) == 47 {
        lemma_run_end_bounds(s, p, Run::NotNewline);
        lemma_skip_trivia(s, run_end(s, p, Run::NotNewline));
    } else if s[p] == 47 && byte_at(s, p + 1) == 42 {
        lemma_comment_close_bounds(s, p + 2);
        let c = comment_close(s, p + 2);
        if c < s.len() {
            lemma_skip_trivia(s, c + 2);
        }
    } else if s[p] == 35 {
        lemma_run_end_bounds(s, p, Run::NotNewline);
        lemma_skip_trivia(s, run_end(s, p, Run::NotNewline));
    }
}

// ---------------------------------------------------------------------------
// The lexer
// ---------------------------------------------------------------------------

/// A lexer over an input buffer, with a buffer that receives the text of
/// identifiers and the decoded contents of string literals.
pub struct StbLexer {
    /// The input; its length is the end of input.
    pub input_stream: Vec<u8>,
    /// Where reading resumes.
    pub parse_point: usize,
    /// Receives identifiers and string contents, NUL-terminated.
    pub string_storage: Vec<u8>,
    /// First and last position of the current token.
    pub where_firstchar: usize,
    pub where_lastchar: usize,
    /// The current token: a byte value below 256, or one of the `CLEX_` ids.
    pub token: i64,
    /// The value of the last integer or character literal.
    pub int_number: i64,
    /// Whether the lexer has pointed its string at `string_storage` yet.
    pub string: bool,
    /// The length of the last identifier or string literal.
    pub string_len: i32,
}

impl View for StbLexer {
    type V = LexState;

    open spec fn view(&self) -> LexState {
        LexState {
            input: self.input_stream@,
            parse_point: self.parse_point as int,
            storage: self.string_storage@,
            where_firstchar: self.where_firstchar as int,
            where_lastchar: self.where_lastchar as int,
            token: self.token as int,
            int_number: self.int_number as int,
            string_set: self.string,
            string_len: self.string_len as int,
        }
    }
}

/// The abstract state of a lexer that has not read anything yet.
pub open spec fn initial_state(input: Seq<u8>, storage: Seq<u8>) -> LexState {
    LexState {
        input,
        parse_point: 0,
        storage,
        where_firstchar: 0,
        where_lastchar: 0,
        token: 0,
        int_number: 0,
        string_set: false,
        string_len: 0,
    }
}

/// Bounds on positions and lengths, and the range of token ids.
pub open spec fn state_wf(st: LexState) -> bool {
    &&& st.input.len() + 8 <= usize::MAX
    &&& st.storage.len() <= i32::MAX
    &&& 0 <= st.token <= CLEX_first_unused_token
    &&& 0 <= st.string_len <= i32::MAX
}

impl StbLexer {
    pub open spec fn wf(&self) -> bool {
        state_wf(self@)
    }

    /// A lexer at the start of `input_stream`, writing strings into `string_store`.
    pub fn new(input_stream: Vec<u8>, string_store: Vec<u8>) -> (r: Self)
        requires
            input_stream@.len() + 8 <= usize::MAX,
            string_store@.len() <= i32::MAX,
        ensures
            r@ == initial_state(input_stream@, string_store@),
            r.wf(),
    {
        StbLexer {
            input_stream,
            parse_point: 0,
            string_storage: string_store,
            where_firstchar: 0,
            where_lastchar: 0,
            token: 0,
            int_number: 0,
            string: false,
            string_len: 0,
        }
    }
}

/// A position in the input as a line number (from 1) and an offset in that line (from 0).
pub struct stb_lex_location {
    pub line_number: usize,
    pub line_offset: usize,
}

/// The byte at `i`, or NUL outside the buffer.
fn peek(s: &Vec<u8>, i: usize) -> (b: u8)
    ensures
        b == byte_at(s@, i as int),
{
    if i < s.len() {
        s[i]
    } else {
        0
    }
}

/// The line and offset of position `where_0`: lines end at `\n`, `\r`,
/// `\r\n` or `\n\r`, and counting stops at a NUL byte.
pub fn stb_c_lexer_get_location(lexer: &StbLexer, where_0: usize) -> (loc: stb_lex_location)
    requires
        lexer.wf(),
    ensures
        (loc.line_number as int, loc.line_offset as int) == location(lexer@.input, where_0 as int),
        loc.line_number <= lexer@.input.len() + 1,
        loc.line_offset <= lexer@.input.len(),
{
    let s = &lexer.input_stream;
    let mut p: usize = 0;
    let mut line_number: usize = 1;
    let mut char_offset: usize = 0;
    while p < s.len() && s[p] != 0 && p < where_0
        invariant
            p <= s.len(),
            s@.len() + 8 <= usize::MAX,
            line_number <= p + 1,
            char_offset <= p,
            location_from(s@, p as int, where_0 as int, line_number as int, char_offset as int)
                == location(s@, where_0 as int),
        decreases s.len() - p,
    {
        if s[p] == 10 || s[p] == 13 {
            let step: usize = if s[p] as u32 + peek(s, p + 1) as u32 == 23 {
                2
            } else {
                1
            };
            p = p + step;
            line_number += 1;
            char_offset = 0;
        } else {
            p = p + 1;
            char_offset += 1;
        }
    }
    stb_lex_location { line_number, line_offset: char_offset }
}

/// Records a token and moves the parse point past it.
pub fn stb__clex_token(lexer: &mut StbLexer, token: i64, start: usize, end: usize) -> (r: i32)
    requires
        old(lexer).wf(),
        0 <= token <= CLEX_first_unused_token,
        end < usize::MAX,
    ensures
        final(lexer)@ == with_token(old(lexer)@, token as int, start as int, end as int),
        final(lexer).token == token,
        final(lexer).where_firstchar == start,
        final(lexer).where_lastchar == end,
        final(lexer).parse_point == end + 1,
        final(lexer).wf(),
        r == 1,
{
    lexer.token = token;
    lexer.where_firstchar = start;
    lexer.where_lastchar = end;
    lexer.parse_point = end + 1;
    1
}

/// Records the end of input.
fn stb__clex_eof(lexer: &mut StbLexer) -> (r: i32)
    requires
        old(lexer).wf(),
    ensures
        final(lexer)@ == (LexState { token: CLEX_eof as int, ..old(lexer)@ }),
        final(lexer).wf(),
        r == 0,
{
    lexer.token = CLEX_eof;
    0
}

fn stb__clex_iswhite(x: u8) -> (r: bool)
    ensures
        r == is_white_byte(x),
{
    x == 32 || x == 9 || x == 13 || x == 10 || x == 12
}

fn in_run_exec(r: Run, b: u8) -> (res: bool)
    ensures
        res == in_run(r, b),
{
    match r {
        Run::Digit => 48 <= b && b <= 57,
        Run::Octal => 48 <= b && b <= 55,
        Run::Hex => (48 <= b && b <= 57) || (97 <= b && b <= 102) || (65 <= b && b <= 70),
        Run::Ident => (97 <= b && b <= 122) || (65 <= b && b <= 90) || b == 95 || b >= 128 || b
            == 36 || (48 <= b && b <= 57),
        Run::NotNewline => !(b == 13 || b == 10),
    }
}

/// The end of the run of bytes of class `r` that starts at `i`.
fn scan_run(s: &Vec<u8>, i: usize, r: Run) -> (e: usize)
    ensures
        e == run_end(s@, i as int, r),
{
    let mut j = i;
    while j < s.len() && in_run_exec(r, s[j])
        invariant
            i <= j,
            run_end(s@, j as int, r) == run_end(s@, i as int, r),
        decreases s.len() - j,
    {
        j = j + 1;
    }
    j
}

/// Where the `*/` that closes a block comment starts, from `i` on.
fn scan_comment_close(s: &Vec<u8>, i: usize) -> (e: usize)
    requires
        i <= s.len(),
    ensures
        e == comment_close(s@, i as int),
{
    let mut j = i;
    while j < s.len() && !(s[j] == 42 && peek(s, j + 1) == 47)
        invariant
            i <= j <= s.len(),
            comment_close(s@, j as int) == comment_close(s@, i as int),
        decreases s.len() - j,
    {
        j = j + 1;
    }
    j
}

/// Skips blanks and comments from `p`: `Ok` with where the next token starts,
/// or `Err` with the start of a block comment that is never closed.
fn skip_whitespace_and_comments(s: &Vec<u8>, from: usize) -> (r: Result<usize, usize>)
    requires
        s@.len() + 8 <= usize::MAX,
    ensures
        match r {
            Ok(q) => skip_trivia(s@, from as int) == Skip::At(q as int),
            Err(start) => skip_trivia(s@, from as int) == Skip::Unterminated(start as int),
        },
{
    let ghost p0 = from as int;
    let mut p = from;
    loop
        invariant
            s@.len() + 8 <= usize::MAX,
            p0 == from,
            skip_trivia(s@, p as int) == skip_trivia(s@, p0),
        decreases s.len() - p,
    {
        if p >= s.len() {
            return Ok(p);
        }
        let c = s[p];
        if stb__clex_iswhite(c) {
            p = p + 1;
        } else if c == 47 && peek(s, p + 1) == 47 {
            proof {
                lemma_run_end_bounds(s@, p as int, Run::NotNewline);
            }
            p = scan_run(s, p, Run::NotNewline);
        } else if c == 47 && peek(s, p + 1) == 42 {
            let start = p;
            proof {
                lemma_comment_close_bounds(s@, p + 2);
            }
            let q = scan_comment_close(s, p + 2);
            if q >= s.len() {
                return Err(start);
            }
            p = q + 2;
        } else if c == 35 {
            proof {
                lemma_run_end_bounds(s@, p as int, Run::NotNewline);
            }
            p = scan_run(s, p, Run::NotNewline);
        } else {
            return Ok(p);
        }
    }
}


/// The multi-character operator at `p`, if one starts there.
fn scan_punct(s: &Vec<u8>, p: usize) -> (r: Option<(i64, usize)>)
    requires
        p < s@.len(),
        s@.len() + 8 <= usize::MAX,
    ensures
        match r {
            Some((t, l)) => punct(s@, p as int) == Some((t as int, l as int)),
            None => punct(s@, p as int) is None,
        },
        r matches Some((t, l)) ==> CLEX_eq <= t <= CLEX_shreq && l <= p + 2,
{
    if p + 1 >= s.len() {
        return None;
    }
    let c = s[p];
    let n1 = s[p + 1];
    let has2 = p + 2 < s.len() && s[p + 2] == 61;
    if c == 43 {
        if n1 == 43 {
            Some((CLEX_plusplus, p + 1))
        } else if n1 == 61 {
            Some((CLEX_pluseq, p + 1))
        } else {
            None
        }
    } else if c == 45 {
        if n1 == 45 {
            Some((CLEX_minusminus, p + 1))
        } else if n1 == 61 {
            Some((CLEX_minuseq, p + 1))
        } else if n1 == 62 {
            Some((CLEX_arrow, p + 1))
        } else {
            None
        }
    } else if c == 38 {
        if n1 == 38 {
            Some((CLEX_andand, p + 1))
        } else if n1 == 61 {
            Some((CLEX_andeq, p + 1))
        } else {
            None
        }
    } else if c == 124 {
        if n1 == 124 {
            Some((CLEX_oror, p + 1))
        } else if n1 == 61 {
            Some((CLEX_oreq, p + 1))
        } else {
            None
        }
    } else if c == 61 {
        if n1 == 61 {
            Some((CLEX_eq, p + 1))
        } else {
            None
        }
    } else if c == 33 {
        if n1 == 61 {
            Some((CLEX_noteq, p + 1))
        } else {
            None
        }
    } else if c == 94 {
        if n1 == 61 {
            Some((CLEX_xoreq, p + 1))
        } else {
            None
        }
    } else if c == 37 {
        if n1 == 61 {
            Some((CLEX_modeq, p + 1))
        } else {
            None
        }
    } else if c == 42 {
        if n1 == 61 {
            Some((CLEX_muleq, p + 1))
        } else {
            None
        }
    } else if c == 47 {
        if n1 == 61 {
            Some((CLEX_diveq, p + 1))
        } else {
            None
        }
    } else if c == 60 {
        if n1 == 61 {
            Some((CLEX_lesseq, p + 1))
        } else if n1 == 60 {
            if has2 {
                Some((CLEX_shleq, p + 2))
            } else {
                Some((CLEX_shl, p + 1))
            }
        } else {
            None
        }
    } else if c == 62 {
        if n1 == 61 {
            Some((CLEX_greatereq, p + 1))
        } else if n1 == 62 {
            if has2 {
                Some((CLEX_shreq, p + 2))
            } else {
                Some((CLEX_shr, p + 1))
            }
        } else {
            None
        }
    } else {
        None
    }
}

/// Reads one possibly escaped character at `p`: its value, or -1 for an
/// unsupported escape, and the position after it.
fn stb__clex_parse_char(s: &Vec<u8>, p: usize) -> (r: (i32, usize))
    requires
        p <= s@.len() + 2,
        s@.len() + 8 <= usize::MAX,
    ensures
        r.0 as int == parse_char(s@, p as int).0,
        r.1 as int == parse_char(s@, p as int).1,
        p + 1 <= r.1 <= p + 2,
        -1 <= r.0 <= 255,
{
    if peek(s, p) == 92 {
        let e = peek(s, p + 1);
        if e == 92 {
            return (92, p + 2);
        } else if e == 39 {
            return (39, p + 2);
        } else if e == 34 {
            return (34, p + 2);
        } else if e == 116 {
            return (9, p + 2);
        } else if e == 102 {
            return (12, p + 2);
        } else if e == 110 {
            return (10, p + 2);
        } else if e == 114 {
            return (13, p + 2);
        } else if e == 48 {
            return (0, p + 2);
        } else if e == 120 || e == 88 || e == 117 {
            return (-1, p + 2);
        }
    }
    (peek(s, p) as i32, p + 1)
}

/// Reads a string literal whose opening delimiter is at `p`, decoding its
/// contents into the string storage.
fn stb__clex_parse_string(lexer: &mut StbLexer, p: usize, type_0: i64) -> (r: i32)
    requires
        old(lexer).wf(),
        p < old(lexer)@.input.len(),
        0 <= type_0 <= CLEX_first_unused_token,
    ensures
        final(lexer).wf(),
        final(lexer)@ == apply_scan(
            old(lexer)@,
            scan_quoted(old(lexer)@.input, p as int, type_0 as int, old(lexer)@.storage),
        ),
        r == 1,
{
    let ghost s = lexer.input_stream@;
    let ghost st0 = lexer.string_storage@;
    let ghost l0 = lexer@;
    let start = p;
    let delim = lexer.input_stream[p];
    let cap = lexer.string_storage.len();
    let mut i = p + 1;
    let mut out: usize = 0;
    let ghost mut bytes: Seq<u8> = Seq::empty();
    assert(overwrite(st0, bytes) =~= st0);
    loop
        invariant
            lexer.wf(),
            lexer@ == (LexState { storage: overwrite(st0, bytes), ..l0 }),
            l0 == old(lexer)@,
            start == p,
            s == l0.input,
            st0 == l0.storage,
            cap == st0.len(),
            delim == s[p as int],
            p < s.len(),
            p + 1 <= i <= s.len() + 1,
            out == bytes.len(),
            out <= cap,
            scan_string(s, i as int, delim, bytes, cap as int) == scan_string(
                s,
                p + 1,
                delim,
                Seq::empty(),
                cap as int,
            ),
        ensures
            i < s.len(),
            s[i as int] == delim,
        decreases s.len() + 1 - i,
    {
        if i >= lexer.input_stream.len() {
            assert(scan_string(s, i as int, delim, bytes, cap as int) == StrScan {
                ok: false,
                end: i as int,
                bytes,
            });
            return stb__clex_token(lexer, CLEX_parse_error, start, i);
        }
        let c = lexer.input_stream[i];
        if c == delim {
            break;
        }
        let n: i32;
        let q: usize;
        if c == 92 {
            let r = stb__clex_parse_char(&lexer.input_stream, i);
            n = r.0;
            q = r.1;
            if n < 0 {
                assert(scan_string(s, i as int, delim, bytes, cap as int) == StrScan {
                    ok: false,
                    end: q as int,
                    bytes,
                });
                return stb__clex_token(lexer, CLEX_parse_error, start, q);
            }
        } else {
            n = c as i32;
            q = i + 1;
        }
        if out + 1 > cap {
            assert(scan_string(s, i as int, delim, bytes, cap as int) == StrScan {
                ok: false,
                end: q as int,
                bytes,
            });
            return stb__clex_token(lexer, CLEX_parse_error, start, q);
        }
        assert(scan_string(s, i as int, delim, bytes, cap as int) == scan_string(
            s,
            q as int,
            delim,
            bytes.push(n as u8),
            cap as int,
        ));
        lexer.string_storage.set(out, n as u8);
        proof {
            assert(overwrite(st0, bytes).update(out as int, n as u8) =~= overwrite(
                st0,
                bytes.push(n as u8),
            ));
            bytes = bytes.push(n as u8);
        }
        out = out + 1;
        i = q;
    }
    assert(scan_string(s, i as int, delim, bytes, cap as int) == StrScan {
        ok: out < cap,
        end: i as int,
        bytes,
    });
    if out >= cap {
        return stb__clex_token(lexer, CLEX_parse_error, start, i);
    }
    lexer.string_storage.set(out, 0);
    proof {
        assert(overwrite(st0, bytes).update(out as int, 0u8) =~= overwrite(st0, bytes.push(0u8)));
    }
    lexer.string = true;
    lexer.string_len = out as i32;
    stb__clex_token(lexer, type_0, start, i)
}


/// Reads a character literal whose opening quote is at `p`.
fn lex_char_literal(lexer: &mut StbLexer, p: usize) -> (r: i32)
    requires
        old(lexer).wf(),
        p < old(lexer)@.input.len(),
    ensures
        final(lexer).wf(),
        final(lexer)@ == apply_scan(
            old(lexer)@,
            scan_charlit(old(lexer)@.input, p as int, old(lexer)@.storage),
        ),
        r == 1,
{
    let start = p;
    let (n, q) = stb__clex_parse_char(&lexer.input_stream, p + 1);
    lexer.int_number = n as i64;
    if n < 0 {
        return stb__clex_token(lexer, CLEX_parse_error, start, start);
    }
    if q >= lexer.input_stream.len() || lexer.input_stream[q] != 39 {
        return stb__clex_token(lexer, CLEX_parse_error, start, q);
    }
    stb__clex_token(lexer, CLEX_charlit, start, q + 1)
}

/// The digit value of a hexadecimal digit byte.
fn digit_value_exec(b: u8) -> (v: u32)
    requires
        is_hex_byte(b),
    ensures
        v as int == digit_value(b),
        v < 16,
{
    if 48 <= b && b <= 57 {
        (b - 48) as u32
    } else if 97 <= b && b <= 102 {
        (b - 97 + 10) as u32
    } else {
        (b - 65 + 10) as u32
    }
}

proof fn lemma_digits_value_step(s: Seq<u8>, a: int, i: int, base: int)
    requires
        a <= i,
    ensures
        digits_value(s, a, i + 1, base) == digits_value(s, a, i, base) * base + digit_value(s[i]),
{
}

proof fn lemma_digits_value_nonneg(s: Seq<u8>, a: int, b: int, base: int)
    requires
        base >= 1,
        forall|j: int| a <= j < b ==> #[trigger] is_hex_byte(s[j]),
    ensures
        digits_value(s, a, b, base) >= 0,
    decreases b - a,
{
    if b > a {
        lemma_digits_value_nonneg(s, a, b - 1, base);
        assert(is_hex_byte(s[b - 1]));
        let x = digits_value(s, a, b - 1, base);
        assert(x * base >= 0) by (nonlinear_arith)
            requires
                x >= 0,
                base >= 1,
        ;
    }
}

/// The value of the digits `s[a..b]` in `base`, clamped to the largest `i64`.
fn digits_value_saturating(s: &Vec<u8>, a: usize, b: usize, base: u32) -> (v: i64)
    requires
        a <= b <= s@.len(),
        base == 8 || base == 10 || base == 16,
        forall|j: int| a <= j < b ==> #[trigger] is_hex_byte(s@[j]),
    ensures
        v as int == saturate(digits_value(s@, a as int, b as int, base as int)),
{
    let mut v: i64 = 0;
    let mut i = a;
    proof {
        lemma_digits_value_nonneg(s@, a as int, a as int, base as int);
    }
    while i < b
        invariant
            a <= i <= b <= s@.len(),
            base == 8 || base == 10 || base == 16,
            forall|j: int| a <= j < b ==> #[trigger] is_hex_byte(s@[j]),
            v as int == saturate(digits_value(s@, a as int, i as int, base as int)),
            digits_value(s@, a as int, i as int, base as int) >= 0,
            v >= 0,
        decreases b - i,
    {
        let d = digit_value_exec(s[i]);
        assert((v as u128) * (base as u128) <= 0x10_0000_0000_0000_0000u128) by (nonlinear_arith)
            requires
                0 <= v <= i64::MAX,
                base <= 16,
        ;
        let w: u128 = (v as u128) * (base as u128) + (d as u128);
        proof {
            lemma_digits_value_step(s@, a as int, i as int, base as int);
            lemma_digits_value_nonneg(s@, a as int, i as int, base as int);
            let x = digits_value(s@, a as int, i as int, base as int);
            let m = i64::MAX as int;
            let vi = v as int;
            let bi = base as int;
            let di = d as int;
            assert(saturate(x * bi + di) == saturate(vi * bi + di)) by (nonlinear_arith)
                requires
                    x >= 0,
                    bi >= 1,
                    di >= 0,
                    vi == (if x > m { m } else { x }),
                    m == i64::MAX as int,
            {
                if x > m {
                    assert(x * bi >= m * bi);
                    assert(m * bi >= m);
                }
            }
        }
        v = if w > i64::MAX as u128 {
            i64::MAX
        } else {
            w as i64
        };
        i = i + 1;
    }
    v
}

/// `strtol` at a digit: where it stops and the value it reads.
fn strtol(s: &Vec<u8>, p: usize, base: u32) -> (r: (usize, i64))
    requires
        p < s@.len(),
        s@.len() + 8 <= usize::MAX,
        is_digit_byte(s@[p as int]),
        base == 8 || base == 10 || base == 16,
        base == 8 ==> s@[p as int] == 48,
    ensures
        r.0 as int == strtol_result(s@, p as int, base as int).0,
        r.1 as int == strtol_result(s@, p as int, base as int).1,
        p < r.0 <= s@.len(),
        r.1 >= 0,
{
    let mut from = p;
    let r = if base == 16 {
        Run::Hex
    } else if base == 8 {
        Run::Octal
    } else {
        Run::Digit
    };
    if base == 16 && s[p] == 48 && (peek(s, p + 1) == 120 || peek(s, p + 1) == 88) && in_run_exec(
        Run::Hex,
        peek(s, p + 2),
    ) {
        from = p + 2;
    }
    proof {
        lemma_run_end_bounds(s@, from as int, r);
        assert forall|j: int| from <= j < run_end(s@, from as int, r) implies is_hex_byte(
            s@[j],
        ) by {
            assert(in_run(r, s@[j]));
        }
    }
    let e = scan_run(s, from, r);
    let v = digits_value_saturating(s, from, e, base);
    proof {
        lemma_digits_value_nonneg(s@, from as int, e as int, base as int);
    }
    (e, v)
}

/// Where `strtod` stops when it starts at a decimal digit.
fn strtod_end_exec(s: &Vec<u8>, p: usize) -> (e: usize)
    requires
        p < s@.len(),
        s@.len() + 8 <= usize::MAX,
        is_digit_byte(s@[p as int]),
    ensures
        e as int == strtod_end(s@, p as int),
        p < e <= s@.len(),
{
    proof {
        lemma_run_end_bounds(s@, p as int, Run::Digit);
    }
    let i1 = scan_run(s, p, Run::Digit);
    let i2 = if peek(s, i1) == 46 {
        proof {
            lemma_run_end_bounds(s@, i1 + 1, Run::Digit);
        }
        scan_run(s, i1 + 1, Run::Digit)
    } else {
        i1
    };
    let c = peek(s, i2);
    if c == 101 || c == 69 {
        let sign = peek(s, i2 + 1);
        let j = if sign == 43 || sign == 45 {
            i2 + 2
        } else {
            i2 + 1
        };
        if in_run_exec(Run::Digit, peek(s, j)) {
            proof {
                lemma_run_end_bounds(s@, j as int, Run::Digit);
            }
            scan_run(s, j, Run::Digit)
        } else {
            i2
        }
    } else {
        i2
    }
}

/// Finishes a numeric token that ends just before `cur`: the same effect
/// and result as recording the token from `start` to `cur - 1`; no suffix
/// byte is read.
pub fn stb__clex_parse_suffixes(lexer: &mut StbLexer, tokenid: i64, start: usize, cur: usize) -> (r: i32)
    requires
        old(lexer).wf(),
        0 <= tokenid <= CLEX_first_unused_token,
        1 <= cur,
    ensures
        final(lexer)@ == with_token(old(lexer)@, tokenid as int, start as int, cur - 1),
        final(lexer).token == tokenid,
        final(lexer).where_firstchar == start,
        final(lexer).where_lastchar == cur - 1,
        final(lexer).parse_point == cur,
        final(lexer).wf(),
        r == 1,
{
    stb__clex_token(lexer, tokenid, start, cur - 1)
}

/// Reads a number that starts with the digit at `p`.
fn lex_number(lexer: &mut StbLexer, p: usize) -> (r: i32)
    requires
        old(lexer).wf(),
        p < old(lexer)@.input.len(),
        is_digit_byte(old(lexer)@.input[p as int]),
    ensures
        final(lexer).wf(),
        final(lexer)@ == apply_scan(
            old(lexer)@,
            scan_number(old(lexer)@.input, p as int, old(lexer)@.storage),
        ),
        r == 1,
{
    let len = lexer.input_stream.len();
    if lexer.input_stream[p] == 48 && p + 1 < len && (lexer.input_stream[p + 1] == 120
        || lexer.input_stream[p + 1] == 88) {
        let (q, v) = strtol(&lexer.input_stream, p, 16);
        lexer.int_number = v;
        return stb__clex_parse_suffixes(lexer, CLEX_intlit, p, q);
    }
    let q0 = scan_run(&lexer.input_stream, p, Run::Digit);
    if q0 < len {
        let c = lexer.input_stream[q0];
        if c == 46 || c == 101 || c == 69 {
            let q = strtod_end_exec(&lexer.input_stream, p);
            return stb__clex_parse_suffixes(lexer, CLEX_floatlit, p, q);
        }
    }
    let base: u32 = if lexer.input_stream[p] == 48 {
        8
    } else {
        10
    };
    let (q, v) = strtol(&lexer.input_stream, p, base);
    lexer.int_number = v;
    stb__clex_parse_suffixes(lexer, CLEX_intlit, p, q)
}

/// Reads an identifier that starts at `p` into the string storage.
fn lex_identifier(lexer: &mut StbLexer, p: usize) -> (r: i32)
    requires
        old(lexer).wf(),
        p < old(lexer)@.input.len(),
        is_ident_start_byte(old(lexer)@.input[p as int]),
    ensures
        final(lexer).wf(),
        final(lexer)@ == apply_scan(
            old(lexer)@,
            scan_ident(old(lexer)@.input, p as int, old(lexer)@.storage),
        ),
        r == 1,
{
    let ghost s = lexer.input_stream@;
    let ghost st0 = lexer.string_storage@;
    let ghost l0 = lexer@;
    let ghost run = run_end(s, p as int, Run::Ident);
    proof {
        lemma_run_end_bounds(s, p as int, Run::Ident);
        assert(overwrite(st0, s.subrange(p as int, p as int)) =~= st0);
    }
    lexer.string = true;
    let cap = lexer.string_storage.len();
    let mut n: usize = 0;
    loop
        invariant_except_break
            p + n < run,
        invariant
            lexer.wf(),
            lexer@ == (LexState {
                storage: overwrite(st0, s.subrange(p as int, p + n)),
                string_set: true,
                ..l0
            }),
            l0 == old(lexer)@,
            s == l0.input,
            st0 == l0.storage,
            cap == st0.len(),
            run == run_end(s, p as int, Run::Ident),
            p < run <= s.len(),
            forall|j: int| p <= j < run ==> #[trigger] in_run(Run::Ident, s[j]),
            run < s.len() ==> !in_run(Run::Ident, s[run]),
            n == 0 || n < cap,
        ensures
            p + n == run,
            n < cap,
            lexer@ == (LexState {
                storage: overwrite(st0, s.subrange(p as int, p + n)),
                string_set: true,
                ..l0
            }),
        decreases run - (p + n),
    {
        if n + 1 >= cap {
            proof {
                assert(run - p >= cap);
                assert(scan_ident(s, p as int, st0).last == p + n);
            }
            return stb__clex_token(lexer, CLEX_parse_error, p, p + n);
        }
        let b = lexer.input_stream[p + n];
        lexer.string_storage.set(n, b);
        proof {
            assert(overwrite(st0, s.subrange(p as int, p + n)).update(n as int, b) =~= overwrite(
                st0,
                s.subrange(p as int, p + n + 1),
            ));
        }
        n = n + 1;
        if !in_run_exec(Run::Ident, peek(&lexer.input_stream, p + n)) {
            break;
        }
    }
    lexer.string_storage.set(n, 0);
    proof {
        assert(overwrite(st0, s.subrange(p as int, p + n)).update(n as int, 0u8) =~= overwrite(
            st0,
            s.subrange(p as int, p + n).push(0),
        ));
    }
    lexer.string_len = n as i32;
    stb__clex_token(lexer, CLEX_id, p, p + n - 1)
}

/// Whether a token remains: whether reading the next token would give one
/// rather than the end of input.  Reads nothing and changes nothing.
pub fn stb_c_lexer_has_token(lexer: &StbLexer) -> (r: bool)
    requires
        lexer.wf(),
    ensures
        r == lex_next(lexer@).0,
{
    match skip_whitespace_and_comments(&lexer.input_stream, lexer.parse_point) {
        Err(_) => true,
        Ok(p) => p < lexer.input_stream.len(),
    }
}

/// Reads the next token.  Returns 0 at the end of input, 1 otherwise.
pub fn stb_c_lexer_get_token(lexer: &mut StbLexer) -> (r: i32)
    requires
        old(lexer).wf(),
    ensures
        final(lexer).wf(),
        final(lexer)@ == lex_next(old(lexer)@).1,
        r == (if lex_next(old(lexer)@).0 {
            1i32
        } else {
            0i32
        }),
{
    proof {
        lemma_skip_trivia(lexer@.input, lexer@.parse_point);
    }
    let len = lexer.input_stream.len();
    match skip_whitespace_and_comments(&lexer.input_stream, lexer.parse_point) {
        Err(start) => stb__clex_token(lexer, CLEX_parse_error, start, len - 1),
        Ok(p) => {
            if p >= len {
                return stb__clex_eof(lexer);
            }
            let c = lexer.input_stream[p];
            match scan_punct(&lexer.input_stream, p) {
                Some((t, l)) => {
                    return stb__clex_token(lexer, t, p, l);
                },
                None => {},
            }
            if c == 34 {
                stb__clex_parse_string(lexer, p, CLEX_dqstring)
            } else if c == 39 {
                lex_char_literal(lexer, p)
            } else if in_run_exec(Run::Digit, c) {
                lex_number(lexer, p)
            } else if (97 <= c && c <= 122) || (65 <= c && c <= 90) || c == 95 || c >= 128 || c
                == 36 {
                lex_identifier(lexer, p)
            } else {
                stb__clex_token(lexer, c as i64, p, p)
            }
        },
    }
}


// ---------------------------------------------------------------------------
// Progress
// ---------------------------------------------------------------------------

/// How much input is left before the parse point.
pub open spec fn remaining(st: LexState) -> int {
    if st.parse_point < st.input.len() {
        st.input.len() - st.parse_point
    } else {
        0
    }
}

proof fn lemma_scan_string_end(s: Seq<u8>, i: int, delim: u8, out: Seq<u8>, cap: int)
    ensures
        scan_string(s, i, delim, out, cap).end >= i,
    decreases s.len() - i,
{
    if i < 0 || i >= s.len() {
    } else if s[i] == delim {
    } else {
        let (n, q) = if s[i] == 92 {
            parse_char(s, i)
        } else {
            (s[i] as int, i + 1)
        };
        if n >= 0 && out.len() + 1 <= cap {
            lemma_scan_string_end(s, q, delim, out.push(n as u8), cap);
        }
    }
}

proof fn lemma_strtod_end(s: Seq<u8>, p: int)
    requires
        0 <= p < s.len(),
        is_digit_byte(s[p]),
    ensures
        p < strtod_end(s, p) <= s.len(),
{
    lemma_run_end_bounds(s, p, Run::Digit);
    let i1 = run_end(s, p, Run::Digit);
    lemma_run_end_bounds(s, i1 + 1, Run::Digit);
    let i2 = if byte_at(s, i1) == 46 {
        run_end(s, i1 + 1, Run::Digit)
    } else {
        i1
    };
    let j = if byte_at(s, i2 + 1) == 43 || byte_at(s, i2 + 1) == 45 {
        i2 + 2
    } else {
        i2 + 1
    };
    lemma_run_end_bounds(s, j, Run::Digit);
}

proof fn lemma_scan_token_last(s: Seq<u8>, p: int, storage: Seq<u8>)
    requires
        0 <= p < s.len(),
    ensures
        scan_token(s, p, storage).last >= p,
{
    let c = s[p];
    if punct(s, p) is Some {
    } else if c == 34 {
        lemma_scan_string_end(s, p + 1, c, Seq::empty(), storage.len() as int);
    } else if c == 39 {
    } else if is_digit_byte(c) {
        lemma_run_end_bounds(s, p, Run::Digit);
        lemma_run_end_bounds(s, p, Run::Octal);
        lemma_run_end_bounds(s, p, Run::Hex);
        lemma_run_end_bounds(s, p + 2, Run::Hex);
        lemma_strtod_end(s, p);
    } else if is_ident_start_byte(c) {
        lemma_run_end_bounds(s, p, Run::Ident);
    }
}

/// Reading a token never moves the parse point back; reading one that is not
/// the end of input moves it forward, so less input is left, and that token
/// starts inside the input, at or after the old parse point.  The input
/// itself never changes, and at the end of input only the token changes.
pub proof fn lemma_lex_next_progress(st: LexState)
    requires
        0 <= st.parse_point,
    ensures
        lex_next(st).1.input == st.input,
        lex_next(st).1.parse_point >= st.parse_point,
        remaining(lex_next(st).1) <= remaining(st),
        lex_next(st).0 ==> remaining(lex_next(st).1) < remaining(st),
        lex_next(st).0 ==> st.parse_point < st.input.len(),
        lex_next(st).0 ==> st.parse_point <= lex_next(st).1.where_firstchar < st.input.len(),
        !lex_next(st).0 ==> lex_next(st).1 == (LexState { token: CLEX_eof as int, ..st }),
{
    lemma_skip_trivia(st.input, st.parse_point);
    match skip_trivia(st.input, st.parse_point) {
        Skip::Unterminated(start) => {},
        Skip::At(p) => {
            if p < st.input.len() {
                lemma_scan_token_last(st.input, p, st.storage);
            }
        },
    }
}


/// At the end of input the lexer stays there: reading again gives the end of
/// input again and changes nothing.
pub proof fn law_end_of_input_is_stable(st: LexState)
    requires
        0 <= st.parse_point,
        !lex_next(st).0,
    ensures
        lex_next(lex_next(st).1) == lex_next(st),
{
    lemma_lex_next_progress(st);
    assert(lex_next(st).1 == (LexState { token: CLEX_eof as int, ..st }));
}

/// A decimal integer literal (one that starts with a digit from 1 to 9) has
/// the value of its digits in base 10, clamped to the largest `i64`.
pub proof fn law_decimal_literal_value(st: LexState)
    requires
        0 <= st.parse_point,
        lex_next(st).0,
        lex_next(st).1.token == CLEX_intlit,
        49 <= st.input[lex_next(st).1.where_firstchar] <= 57,
    ensures
        lex_next(st).1.int_number == saturate(
            digits_value(
                st.input,
                lex_next(st).1.where_firstchar,
                lex_next(st).1.where_lastchar + 1,
                10,
            ),
        ),
{
    lemma_skip_trivia(st.input, st.parse_point);
}


proof fn lemma_scan_string_bounds(s: Seq<u8>, i: int, delim: u8, out: Seq<u8>, cap: int)
    requires
        0 <= i <= s.len() + 1,
        out.len() <= cap,
    ensures
        scan_string(s, i, delim, out, cap).end <= s.len() + 1,
        scan_string(s, i, delim, out, cap).bytes.len() <= cap,
        scan_string(s, i, delim, out, cap).ok ==> scan_string(s, i, delim, out, cap).bytes.len()
            < cap,
        scan_string(s, i, delim, out, cap).ok ==> scan_string(s, i, delim, out, cap).end < s.len(),
    decreases s.len() - i,
{
    if i < 0 || i >= s.len() {
    } else if s[i] == delim {
    } else {
        let (n, q) = if s[i] == 92 {
            parse_char(s, i)
        } else {
            (s[i] as int, i + 1)
        };
        if n >= 0 && out.len() + 1 <= cap {
            lemma_scan_string_bounds(s, q, delim, out.push(n as u8), cap);
        }
    }
}

proof fn lemma_scan_token_bounds(s: Seq<u8>, p: int, storage: Seq<u8>)
    requires
        0 <= p < s.len(),
    ensures
        scan_token(s, p, storage).first == p,
        p <= scan_token(s, p, storage).last <= s.len() + 2,
        scan_token(s, p, storage).storage.len() == storage.len(),
        scan_token(s, p, storage).last < s.len() || scan_token(s, p, storage).token
            == CLEX_parse_error || scan_token(s, p, storage).token == CLEX_charlit,
{
    lemma_scan_token_last(s, p, storage);
    let c = s[p];
    if punct(s, p) is Some {
    } else if c == 34 {
        lemma_scan_string_bounds(s, p + 1, c, Seq::empty(), storage.len() as int);
    } else if c == 39 {
    } else if is_digit_byte(c) {
        lemma_run_end_bounds(s, p, Run::Digit);
        lemma_run_end_bounds(s, p, Run::Octal);
        lemma_run_end_bounds(s, p, Run::Hex);
        lemma_run_end_bounds(s, p + 2, Run::Hex);
        lemma_strtod_end(s, p);
    } else if is_ident_start_byte(c) {
        lemma_run_end_bounds(s, p, Run::Ident);
    }
}

/// One step of the lexer keeps the input and the size of the string
/// storage.  A step that reads a token leaves the parse point at most three
/// bytes past the end of input, and inside the input (at most at its end)
/// unless the token is a parse error or a character literal; a step that
/// reaches the end of input leaves the parse point where it was.
pub proof fn law_step_keeps_buffers(st: LexState)
    requires
        0 <= st.parse_point,
    ensures
        lex_next(st).1.input == st.input,
        lex_next(st).1.storage.len() == st.storage.len(),
        lex_next(st).0 ==> lex_next(st).1.parse_point <= st.input.len() + 3,
        lex_next(st).0 ==> (lex_next(st).1.parse_point <= st.input.len() || lex_next(st).1.token
            == CLEX_parse_error || lex_next(st).1.token == CLEX_charlit),
        !lex_next(st).0 ==> lex_next(st).1.parse_point == st.parse_point,
{
    lemma_skip_trivia(st.input, st.parse_point);
    match skip_trivia(st.input, st.parse_point) {
        Skip::Unterminated(_) => {},
        Skip::At(p) => {
            if p < st.input.len() {
                lemma_scan_token_bounds(st.input, p, st.storage);
            }
        },
    }
}

/// A token that is read lies in order after the old parse point: the old
/// parse point is at most its first byte, its first byte at most its last,
/// and the new parse point is one past its last byte.
pub proof fn law_token_bounds(st: LexState)
    requires
        0 <= st.parse_point,
        lex_next(st).0,
    ensures
        st.parse_point <= lex_next(st).1.where_firstchar <= lex_next(st).1.where_lastchar,
        lex_next(st).1.parse_point == lex_next(st).1.where_lastchar + 1,
{
    lemma_skip_trivia(st.input, st.parse_point);
    match skip_trivia(st.input, st.parse_point) {
        Skip::Unterminated(_) => {},
        Skip::At(p) => {
            lemma_scan_token_bounds(st.input, p, st.storage);
        },
    }
}

} // verus!
