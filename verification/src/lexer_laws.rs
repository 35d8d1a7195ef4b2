//! What a token is, stated directly over the input bytes: operators, numbers,
//! character and string literals, identifiers.  Each law speaks of the token
//! that `lex_next` reads where the next token starts at position `p`.

use vstd::prelude::*;

use crate::stb_c_lexer::{
    comment_close, digit_value, digits_value, lemma_run_end_bounds, lex_next, run_end, saturate, scan_string,
    skip_trivia, in_run, LexState, Run, Skip, StrScan, CLEX_andand, CLEX_andeq, CLEX_arrow,
    CLEX_charlit, CLEX_diveq, CLEX_dqstring, CLEX_eq, CLEX_floatlit, CLEX_greatereq, CLEX_id, CLEX_intlit,
    CLEX_lesseq, CLEX_minuseq, CLEX_minusminus, CLEX_modeq, CLEX_muleq, CLEX_noteq, CLEX_oreq,
    CLEX_oror, CLEX_parse_error, CLEX_pluseq, CLEX_plusplus, CLEX_shl, CLEX_shleq, CLEX_shr,
    CLEX_shreq, CLEX_xoreq,
};

verus! {

/// The next token of `st` starts at `p`, inside the input.
pub open spec fn token_starts_at(st: LexState, p: int) -> bool {
    &&& 0 <= st.parse_point
    &&& 0 <= p < st.input.len()
    &&& skip_trivia(st.input, st.parse_point) == Skip::At(p)
}

/// Reading from `st` gives the token `id` made of the `n` bytes from `p`.
pub open spec fn reads(st: LexState, id: int, p: int, n: int) -> bool {
    &&& lex_next(st).0
    &&& lex_next(st).1.token == id
    &&& lex_next(st).1.where_firstchar == p
    &&& lex_next(st).1.where_lastchar == p + n - 1
    &&& lex_next(st).1.parse_point == p + n
}

/// Each C operator of two or three characters is read as one token of its own kind.
pub proof fn law_operators(st: LexState, p: int)
    requires
        token_starts_at(st, p),
        p + 1 < st.input.len(),
    ensures
        ({
            let s = st.input;
            let a = s[p];
            let b = s[p + 1];
            let third_is_eq = p + 2 < s.len() && s[p + 2] == 61;
            &&& (a == 43 && b == 43 ==> reads(st, CLEX_plusplus as int, p, 2))
            &&& (a == 43 && b == 61 ==> reads(st, CLEX_pluseq as int, p, 2))
            &&& (a == 45 && b == 45 ==> reads(st, CLEX_minusminus as int, p, 2))
            &&& (a == 45 && b == 61 ==> reads(st, CLEX_minuseq as int, p, 2))
            &&& (a == 45 && b == 62 ==> reads(st, CLEX_arrow as int, p, 2))
            &&& (a == 38 && b == 38 ==> reads(st, CLEX_andand as int, p, 2))
            &&& (a == 38 && b == 61 ==> reads(st, CLEX_andeq as int, p, 2))
            &&& (a == 124 && b == 124 ==> reads(st, CLEX_oror as int, p, 2))
            &&& (a == 124 && b == 61 ==> reads(st, CLEX_oreq as int, p, 2))
            &&& (a == 61 && b == 61 ==> reads(st, CLEX_eq as int, p, 2))
            &&& (a == 33 && b == 61 ==> reads(st, CLEX_noteq as int, p, 2))
            &&& (a == 94 && b == 61 ==> reads(st, CLEX_xoreq as int, p, 2))
            &&& (a == 37 && b == 61 ==> reads(st, CLEX_modeq as int, p, 2))
            &&& (a == 42 && b == 61 ==> reads(st, CLEX_muleq as int, p, 2))
            &&& (a == 47 && b == 61 ==> reads(st, CLEX_diveq as int, p, 2))
            &&& (a == 60 && b == 61 ==> reads(st, CLEX_lesseq as int, p, 2))
            &&& (a == 60 && b == 60 && third_is_eq ==> reads(st, CLEX_shleq as int, p, 3))
            &&& (a == 60 && b == 60 && !third_is_eq ==> reads(st, CLEX_shl as int, p, 2))
            &&& (a == 62 && b == 61 ==> reads(st, CLEX_greatereq as int, p, 2))
            &&& (a == 62 && b == 62 && third_is_eq ==> reads(st, CLEX_shreq as int, p, 3))
            &&& (a == 62 && b == 62 && !third_is_eq ==> reads(st, CLEX_shr as int, p, 2))
        }),
{
}

/// Letters, `_`, `$` and bytes of 128 and above.
pub open spec fn starts_identifier(b: u8) -> bool {
    (97 <= b <= 122) || (65 <= b <= 90) || b == 95 || b == 36 || b >= 128
}

/// The bytes an identifier continues with: those that start one, and digits.
pub open spec fn continues_identifier(b: u8) -> bool {
    starts_identifier(b) || (48 <= b <= 57)
}

/// The `n` bytes from `p` are identifier bytes, and the next byte (if any) is not.
pub open spec fn identifier_run(s: Seq<u8>, p: int, n: int) -> bool {
    &&& 0 <= p
    &&& 1 <= n
    &&& p + n <= s.len()
    &&& forall|j: int| p <= j < p + n ==> #[trigger] continues_identifier(s[j])
    &&& (p + n < s.len() ==> !continues_identifier(s[p + n]))
}

/// A token that starts with a letter, `_`, `$` or a byte of 128 or above is
/// an identifier that spans the longest run of identifier bytes, or, when
/// that run does not fit in the string storage with its terminating NUL, a
/// parse error.
pub proof fn law_identifier(st: LexState, p: int)
    requires
        token_starts_at(st, p),
        starts_identifier(st.input[p]),
    ensures
        ({
            let s = st.input;
            let st2 = lex_next(st).1;
            let n = st2.where_lastchar - p + 1;
            let cap = st.storage.len() as int;
            &&& lex_next(st).0
            &&& st2.where_firstchar == p
            &&& st2.token == CLEX_id ==> identifier_run(s, p, n) && n < cap
                && st2.parse_point == p + n
            &&& st2.token != CLEX_id ==> st2.token == CLEX_parse_error && p + cap <= s.len()
                && forall|j: int| p <= j < p + cap ==> #[trigger] continues_identifier(s[j])
        }),
{
    let s = st.input;
    lemma_run_end_bounds(s, p, Run::Ident);
    assert forall|j: int| p <= j < run_end(s, p, Run::Ident) implies #[trigger] continues_identifier(
        s[j],
    ) by {
        assert(in_run(Run::Ident, s[j]));
    }
}

/// `0` to `9`, `a` to `f` and `A` to `F`.
pub open spec fn is_hex_digit(b: u8) -> bool {
    (48 <= b <= 57) || (97 <= b <= 102) || (65 <= b <= 70)
}

/// The value of a hexadecimal digit.
pub open spec fn hex_digit_value(b: u8) -> int {
    if 48 <= b <= 57 {
        b - 48
    } else if 97 <= b <= 102 {
        b - 87
    } else {
        b - 55
    }
}

/// The number written by the hexadecimal digits `s[a..b]`.
pub open spec fn hex_number(s: Seq<u8>, a: int, b: int) -> int
    decreases b - a,
{
    if b <= a {
        0
    } else {
        16 * hex_number(s, a, b - 1) + hex_digit_value(s[b - 1])
    }
}

proof fn lemma_hex_number(s: Seq<u8>, a: int, b: int)
    requires
        0 <= a <= b <= s.len(),
        forall|j: int| a <= j < b ==> #[trigger] is_hex_digit(s[j]),
    ensures
        digits_value(s, a, b, 16) == hex_number(s, a, b),
    decreases b - a,
{
    if b > a {
        lemma_hex_number(s, a, b - 1);
        assert(is_hex_digit(s[b - 1]));
        assert(digit_value(s[b - 1]) == hex_digit_value(s[b - 1]));
    }
}

/// `0x` or `0X` followed by hexadecimal digits is one integer literal that
/// ends at the last of those digits; its value is the number they write in
/// base 16, clamped to the largest `i64`.
pub proof fn law_hex_literal(st: LexState, p: int)
    requires
        token_starts_at(st, p),
        p + 2 < st.input.len(),
        st.input[p] == 48,
        st.input[p + 1] == 120 || st.input[p + 1] == 88,
        is_hex_digit(st.input[p + 2]),
    ensures
        ({
            let s = st.input;
            let st2 = lex_next(st).1;
            let l = st2.where_lastchar;
            &&& lex_next(st).0
            &&& st2.token == CLEX_intlit
            &&& st2.where_firstchar == p
            &&& p + 2 <= l < s.len()
            &&& st2.parse_point == l + 1
            &&& forall|j: int| p + 2 <= j <= l ==> #[trigger] is_hex_digit(s[j])
            &&& l + 1 < s.len() ==> !is_hex_digit(s[l + 1])
            &&& st2.int_number == (if hex_number(s, p + 2, l + 1) > i64::MAX {
                i64::MAX as int
            } else {
                hex_number(s, p + 2, l + 1)
            })
        }),
{
    let s = st.input;
    lemma_run_end_bounds(s, p + 2, Run::Hex);
    let e = run_end(s, p + 2, Run::Hex);
    assert forall|j: int| p + 2 <= j < e implies #[trigger] is_hex_digit(s[j]) by {
        assert(in_run(Run::Hex, s[j]));
    }
    lemma_hex_number(s, p + 2, e);
}

/// The value of the escape `\c`, for the escapes that are supported.
pub open spec fn escape_value(c: u8) -> Option<int> {
    if c == 92 {
        Some(92)
    } else if c == 39 {
        Some(39)
    } else if c == 34 {
        Some(34)
    } else if c == 116 {
        Some(9)
    } else if c == 102 {
        Some(12)
    } else if c == 110 {
        Some(10)
    } else if c == 114 {
        Some(13)
    } else if c == 48 {
        Some(0)
    } else {
        None
    }
}

/// A character literal `'\c'` with a supported escape has the escape's value;
/// one with a plain character `'c'` has that byte's value.  (The token's last
/// position is one past its closing quote.)
pub proof fn law_character_literal(st: LexState, p: int)
    requires
        token_starts_at(st, p),
        st.input[p] == 39,
    ensures
        ({
            let s = st.input;
            let st2 = lex_next(st).1;
            &&& (p + 3 < s.len() && s[p + 1] == 92 && escape_value(s[p + 2]) is Some && s[p + 3]
                == 39) ==> (reads(st, CLEX_charlit as int, p, 5) && st2.int_number == escape_value(
                s[p + 2],
            ).unwrap())
            &&& (p + 2 < s.len() && s[p + 1] != 92 && s[p + 2] == 39) ==> (reads(
                st,
                CLEX_charlit as int,
                p,
                4,
            ) && st2.int_number == s[p + 1] as int)
            &&& (p + 2 < s.len() && s[p + 1] == 92 && (s[p + 2] == 120 || s[p + 2] == 88 || s[p
                + 2] == 117)) ==> reads(st, CLEX_parse_error as int, p, 1)
        }),
{
}

/// A string literal `"\c"` made of one supported escape is stored as the
/// escape's value followed by a NUL.
pub proof fn law_string_escape(st: LexState, p: int)
    requires
        token_starts_at(st, p),
        p + 3 < st.input.len(),
        st.input[p] == 34,
        st.input[p + 1] == 92,
        escape_value(st.input[p + 2]) is Some,
        st.input[p + 3] == 34,
        st.storage.len() >= 2,
    ensures
        reads(st, CLEX_dqstring as int, p, 4),
        lex_next(st).1.storage[0] as int == escape_value(st.input[p + 2]).unwrap(),
        lex_next(st).1.storage[1] == 0,
        lex_next(st).1.string_len == 1,
        lex_next(st).1.string_set,
{
    let s = st.input;
    let cap = st.storage.len() as int;
    let v = escape_value(s[p + 2]).unwrap();
    assert(scan_string(s, p + 1, 34, Seq::empty(), cap) == scan_string(
        s,
        p + 3,
        34,
        seq![v as u8],
        cap,
    ));
}

/// Reading a run of bytes without quote or backslash copies them unchanged.
proof fn lemma_plain_string_body(s: Seq<u8>, i: int, l: int, out: Seq<u8>, cap: int)
    requires
        0 <= i <= l < s.len(),
        s[l] == 34,
        forall|j: int| i <= j < l ==> s[j] != 34 && s[j] != 92,
        out.len() + (l - i) < cap,
    ensures
        scan_string(s, i, 34, out, cap) == (StrScan {
            ok: true,
            end: l,
            bytes: out + s.subrange(i, l),
        }),
    decreases l - i,
{
    if i == l {
        assert(out + s.subrange(i, l) =~= out);
    } else {
        lemma_plain_string_body(s, i + 1, l, out.push(s[i]), cap);
        assert(out.push(s[i]) + s.subrange(i + 1, l) =~= out + s.subrange(i, l));
    }
}

/// A string literal with no backslash is stored byte for byte, followed by
/// a NUL, when it fits in the storage.
pub proof fn law_plain_string(st: LexState, p: int, l: int)
    requires
        token_starts_at(st, p),
        p < l < st.input.len(),
        st.input[p] == 34,
        st.input[l] == 34,
        forall|j: int| p < j < l ==> st.input[j] != 34 && st.input[j] != 92,
        l - p - 1 < st.storage.len(),
    ensures
        reads(st, CLEX_dqstring as int, p, l - p + 1),
        lex_next(st).1.storage.subrange(0, l - p - 1) == st.input.subrange(p + 1, l),
        lex_next(st).1.storage[l - p - 1] == 0,
        lex_next(st).1.string_len == l - p - 1,
{
    let s = st.input;
    lemma_plain_string_body(s, p + 1, l, Seq::empty(), st.storage.len() as int);
    assert(Seq::<u8>::empty() + s.subrange(p + 1, l) =~= s.subrange(p + 1, l));
    let st2 = lex_next(st).1;
    assert(st2.storage.subrange(0, l - p - 1) =~= s.subrange(p + 1, l));
}


/// `st` with its parse point moved to `q`.
pub open spec fn resume_at(st: LexState, q: int) -> LexState {
    LexState { parse_point: q, ..st }
}

/// Reading from `st` and from `r` comes to the same: both reach the end of
/// input, or both read the same token into the same state.  (At the end of
/// input the parse point is left where it was, so it may differ.)
pub open spec fn reads_alike(st: LexState, r: LexState) -> bool {
    &&& lex_next(st).0 == lex_next(r).0
    &&& lex_next(st).0 ==> lex_next(st).1 == lex_next(r).1
    &&& lex_next(st).1.token == lex_next(r).1.token
}

/// Space, tab, carriage return, line feed and form feed.
pub open spec fn is_blank(b: u8) -> bool {
    b == 32 || b == 9 || b == 13 || b == 10 || b == 12
}

/// A blank before the next token makes no difference: reading from it reads
/// the same as reading from the byte after it.
pub proof fn law_blank_is_skipped(st: LexState)
    requires
        0 <= st.parse_point < st.input.len(),
        is_blank(st.input[st.parse_point]),
    ensures
        reads_alike(st, resume_at(st, st.parse_point + 1)),
{
}

/// `//` comments and lines that start with `#` run to the next carriage
/// return or line feed (or the end of input); reading from one reads the
/// same as reading from where it ends.
pub proof fn law_line_comment_is_skipped(st: LexState, l: int)
    requires
        0 <= st.parse_point < l <= st.input.len(),
        (st.input[st.parse_point] == 47 && st.parse_point + 1 < st.input.len()
            && st.input[st.parse_point + 1] == 47) || st.input[st.parse_point] == 35,
        forall|j: int| st.parse_point <= j < l ==> st.input[j] != 13 && st.input[j] != 10,
        l < st.input.len() ==> (st.input[l] == 13 || st.input[l] == 10),
    ensures
        reads_alike(st, resume_at(st, l)),
{
    let s = st.input;
    let pp = st.parse_point;
    lemma_run_end_bounds(s, pp, Run::NotNewline);
    let e = run_end(s, pp, Run::NotNewline);
    if e < l {
        assert(s[e] != 13 && s[e] != 10);
    }
    if e > l {
        assert(in_run(Run::NotNewline, s[l]));
    }
}

/// `*/` starts at `j`.
pub open spec fn closes_comment(s: Seq<u8>, j: int) -> bool {
    0 <= j && j + 1 < s.len() && s[j] == 42 && s[j + 1] == 47
}

proof fn lemma_comment_close_at(s: Seq<u8>, i: int, c: int)
    requires
        0 <= i <= c,
        closes_comment(s, c),
        forall|j: int| i <= j < c ==> !#[trigger] closes_comment(s, j),
    ensures
        comment_close(s, i) == c,
    decreases c - i,
{
    if i < c {
        assert(!closes_comment(s, i));
        lemma_comment_close_at(s, i + 1, c);
    }
}

/// A block comment runs from `/*` to the first `*/` after it; reading from
/// one reads the same as reading from the byte after its `*/`.
pub proof fn law_block_comment_is_skipped(st: LexState, c: int)
    requires
        0 <= st.parse_point,
        st.parse_point + 2 <= c,
        st.parse_point + 1 < st.input.len(),
        st.input[st.parse_point] == 47,
        st.input[st.parse_point + 1] == 42,
        closes_comment(st.input, c),
        forall|j: int| st.parse_point + 2 <= j < c ==> !#[trigger] closes_comment(st.input, j),
    ensures
        reads_alike(st, resume_at(st, c + 2)),
{
    lemma_comment_close_at(st.input, st.parse_point + 2, c);
}

/// Brackets, `;`, `,`, `.`, `?`, `:` and `~` are tokens of one character
/// whose id is the character's code.
pub proof fn law_single_character_tokens(st: LexState, p: int)
    requires
        token_starts_at(st, p),
        ({
            let c = st.input[p];
            c == 40 || c == 41 || c == 123 || c == 125 || c == 91 || c == 93 || c == 59 || c == 44
                || c == 46 || c == 63 || c == 58 || c == 126
        }),
    ensures
        reads(st, st.input[p] as int, p, 1),
{
}

/// `0` to `9`.
pub open spec fn is_decimal_digit(b: u8) -> bool {
    48 <= b <= 57
}

/// The number written by the decimal digits `s[a..b]`.
pub open spec fn decimal_number(s: Seq<u8>, a: int, b: int) -> int
    decreases b - a,
{
    if b <= a {
        0
    } else {
        10 * decimal_number(s, a, b - 1) + (s[b - 1] - 48)
    }
}

/// The number written by the octal digits `s[a..b]`.
pub open spec fn octal_number(s: Seq<u8>, a: int, b: int) -> int
    decreases b - a,
{
    if b <= a {
        0
    } else {
        8 * octal_number(s, a, b - 1) + (s[b - 1] - 48)
    }
}

/// `v` clamped to the largest `i64`.
pub open spec fn clamp_i64(v: int) -> int {
    if v > i64::MAX {
        i64::MAX as int
    } else {
        v
    }
}

proof fn lemma_decimal_number(s: Seq<u8>, a: int, b: int, base: int)
    requires
        0 <= a <= b <= s.len(),
        base == 8 || base == 10,
        forall|j: int| a <= j < b ==> #[trigger] is_decimal_digit(s[j]),
    ensures
        base == 10 ==> digits_value(s, a, b, base) == decimal_number(s, a, b),
        base == 8 ==> digits_value(s, a, b, base) == octal_number(s, a, b),
    decreases b - a,
{
    if b > a {
        lemma_decimal_number(s, a, b - 1, base);
        assert(is_decimal_digit(s[b - 1]));
    }
}

/// `s[p..q]` is the whole run of bytes satisfying `in_class` that starts at `p`.
proof fn lemma_run_is(s: Seq<u8>, p: int, q: int, r: Run)
    requires
        0 <= p <= q <= s.len(),
        forall|j: int| p <= j < q ==> in_run(r, #[trigger] s[j]),
        q < s.len() ==> !in_run(r, s[q]),
    ensures
        run_end(s, p, r) == q,
{
    lemma_run_end_bounds(s, p, r);
    let e = run_end(s, p, r);
    if e < q {
        assert(in_run(r, s[e]));
    }
    if e > q {
        assert(in_run(r, s[q]));
    }
}

/// A literal of decimal digits that starts with 1 to 9, and is not followed
/// by `.`, `e` or `E`, is one integer token over all its digits; its value
/// is the number they write, clamped to the largest `i64`.
pub proof fn law_decimal_literal(st: LexState, p: int, q: int)
    requires
        token_starts_at(st, p),
        p < q <= st.input.len(),
        49 <= st.input[p] <= 57,
        forall|j: int| p <= j < q ==> #[trigger] is_decimal_digit(st.input[j]),
        q < st.input.len() ==> !is_decimal_digit(st.input[q]) && st.input[q] != 46
            && st.input[q] != 101 && st.input[q] != 69,
    ensures
        reads(st, CLEX_intlit as int, p, q - p),
        lex_next(st).1.int_number == clamp_i64(decimal_number(st.input, p, q)),
{
    let s = st.input;
    assert forall|j: int| p <= j < q implies in_run(Run::Digit, #[trigger] s[j]) by {
        assert(is_decimal_digit(s[j]));
    }
    lemma_run_is(s, p, q, Run::Digit);
    lemma_decimal_number(s, p, q, 10);
}

/// A literal that starts with `0` (not `0x`/`0X`), whose decimal digits are
/// not followed by `.`, `e` or `E`, is read in octal: one integer token over
/// the octal digits from its `0` on, with the number they write in base 8,
/// clamped to the largest `i64`.  A digit 8 or 9 ends it.
pub proof fn law_octal_literal(st: LexState, p: int, q: int, m: int)
    requires
        token_starts_at(st, p),
        p < q <= m <= st.input.len(),
        st.input[p] == 48,
        p + 1 < st.input.len() ==> st.input[p + 1] != 120 && st.input[p + 1] != 88,
        forall|j: int| p <= j < q ==> 48 <= #[trigger] st.input[j] <= 55,
        q < st.input.len() ==> !(48 <= st.input[q] <= 55),
        forall|j: int| p <= j < m ==> #[trigger] is_decimal_digit(st.input[j]),
        m < st.input.len() ==> !is_decimal_digit(st.input[m]) && st.input[m] != 46
            && st.input[m] != 101 && st.input[m] != 69,
    ensures
        reads(st, CLEX_intlit as int, p, q - p),
        lex_next(st).1.int_number == clamp_i64(octal_number(st.input, p, q)),
{
    let s = st.input;
    assert forall|j: int| p <= j < m implies in_run(Run::Digit, #[trigger] s[j]) by {
        assert(is_decimal_digit(s[j]));
    }
    lemma_run_is(s, p, m, Run::Digit);
    assert forall|j: int| p <= j < q implies in_run(Run::Octal, #[trigger] s[j]) by {
        assert(48 <= s[j] <= 55);
    }
    lemma_run_is(s, p, q, Run::Octal);
    assert forall|j: int| p <= j < q implies #[trigger] is_decimal_digit(s[j]) by {
        assert(48 <= s[j] <= 55);
    }
    lemma_decimal_number(s, p, q, 8);
}

/// Decimal digits followed by `.`, `e` or `E` start a floating literal: a
/// token of that kind from the first digit, which leaves the integer value
/// as it was.
pub proof fn law_floating_literal(st: LexState, p: int, q: int)
    requires
        token_starts_at(st, p),
        p < q < st.input.len(),
        forall|j: int| p <= j < q ==> #[trigger] is_decimal_digit(st.input[j]),
        st.input[q] == 46 || st.input[q] == 101 || st.input[q] == 69,
        !(st.input[p] == 48 && (st.input[p + 1] == 120 || st.input[p + 1] == 88)),
    ensures
        lex_next(st).0,
        lex_next(st).1.token == CLEX_floatlit,
        lex_next(st).1.where_firstchar == p,
        lex_next(st).1.int_number == st.int_number,
{
    let s = st.input;
    assert forall|j: int| p <= j < q implies in_run(Run::Digit, #[trigger] s[j]) by {
        assert(is_decimal_digit(s[j]));
    }
    lemma_run_is(s, p, q, Run::Digit);
}

} // verus!
