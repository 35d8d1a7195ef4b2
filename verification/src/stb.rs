//! A convenient lexer over a source text, with the checks a parser needs:
//! tokens as values, expected tokens, identifiers and integer literals, and
//! diagnostics that point at the current token.

use vstd::prelude::*;
use vstd::string::StringSliceAdditionalSpecFns;
use vstd::utf8::{decode_utf8, valid_utf8};

use crate::stb_c_lexer::{
    initial_state, lemma_lex_next_progress, lemma_run_end_bounds, lemma_skip_trivia, lex_next,
    location, overwrite, run_end, skip_trivia, state_wf, stb_c_lexer_get_location,
    stb_c_lexer_get_token, stb_c_lexer_has_token, in_run, LexState, Run, Skip, StbLexer, CLEX_id,
    CLEX_intlit,
};
use crate::text::{decimal, push_char, push_decimal};

verus! {

/// The size of the buffer that receives identifiers and string literals.
pub const STRING_STORE_LEN: usize = 4096;

/// The token kinds above the single characters, in the order of their ids.
#[derive(Debug, Clone, Copy, PartialEq, Eq, Structural)]
pub enum LexTokenInner {
    ClexEof,
    ClexParseError,
    ClexIntlit,
    ClexFloatlit,
    ClexId,
    ClexDqstring,
    ClexSqstring,
    ClexCharlit,
    ClexEq,
    ClexNoteq,
    ClexLesseq,
    ClexGreatereq,
    ClexAndand,
    ClexOror,
    ClexShl,
    ClexShr,
    ClexPlusplus,
    ClexMinusminus,
    ClexPluseq,
    ClexMinuseq,
    ClexMuleq,
    ClexDiveq,
    ClexModeq,
    ClexAndeq,
    ClexOreq,
    ClexXoreq,
    ClexArrow,
    ClexEqarrow,
    ClexShleq,
    ClexShreq,
    ClexFirstUnusedToken,
}

/// A token: a single character, or one of the longer kinds.
#[derive(Debug, Clone, Copy, PartialEq, Eq, Structural)]
pub enum LexToken {
    Char(char),
    Lex(LexTokenInner),
}

/// The kind with token id `t` (for `t` from 256 to 286).
pub open spec fn inner_of(t: int) -> LexTokenInner {
    if t == 256 {
        LexTokenInner::ClexEof
    } else if t == 257 {
        LexTokenInner::ClexParseError
    } else if t == 258 {
        LexTokenInner::ClexIntlit
    } else if t == 259 {
        LexTokenInner::ClexFloatlit
    } else if t == 260 {
        LexTokenInner::ClexId
    } else if t == 261 {
        LexTokenInner::ClexDqstring
    } else if t == 262 {
        LexTokenInner::ClexSqstring
    } else if t == 263 {
        LexTokenInner::ClexCharlit
    } else if t == 264 {
        LexTokenInner::ClexEq
    } else if t == 265 {
        LexTokenInner::ClexNoteq
    } else if t == 266 {
        LexTokenInner::ClexLesseq
    } else if t == 267 {
        LexTokenInner::ClexGreatereq
    } else if t == 268 {
        LexTokenInner::ClexAndand
    } else if t == 269 {
        LexTokenInner::ClexOror
    } else if t == 270 {
        LexTokenInner::ClexShl
    } else if t == 271 {
        LexTokenInner::ClexShr
    } else if t == 272 {
        LexTokenInner::ClexPlusplus
    } else if t == 273 {
        LexTokenInner::ClexMinusminus
    } else if t == 274 {
        LexTokenInner::ClexPluseq
    } else if t == 275 {
        LexTokenInner::ClexMinuseq
    } else if t == 276 {
        LexTokenInner::ClexMuleq
    } else if t == 277 {
        LexTokenInner::ClexDiveq
    } else if t == 278 {
        LexTokenInner::ClexModeq
    } else if t == 279 {
        LexTokenInner::ClexAndeq
    } else if t == 280 {
        LexTokenInner::ClexOreq
    } else if t == 281 {
        LexTokenInner::ClexXoreq
    } else if t == 282 {
        LexTokenInner::ClexArrow
    } else if t == 283 {
        LexTokenInner::ClexEqarrow
    } else if t == 284 {
        LexTokenInner::ClexShleq
    } else if t == 285 {
        LexTokenInner::ClexShreq
    } else {
        LexTokenInner::ClexFirstUnusedToken
    }
}

/// The token a token id stands for: ids below 256 are characters.
pub open spec fn token_of(t: int) -> LexToken {
    if t < 256 {
        LexToken::Char(((t as u8) as char))
    } else {
        LexToken::Lex(inner_of(t))
    }
}

/// The name of a token kind, as it is printed.
pub open spec fn inner_name(k: LexTokenInner) -> Seq<char> {
    match k {
        LexTokenInner::ClexEof => "ClexEof"@,
        LexTokenInner::ClexParseError => "ClexParseError"@,
        LexTokenInner::ClexIntlit => "ClexIntlit"@,
        LexTokenInner::ClexFloatlit => "ClexFloatlit"@,
        LexTokenInner::ClexId => "ClexId"@,
        LexTokenInner::ClexDqstring => "ClexDqstring"@,
        LexTokenInner::ClexSqstring => "ClexSqstring"@,
        LexTokenInner::ClexCharlit => "ClexCharlit"@,
        LexTokenInner::ClexEq => "ClexEq"@,
        LexTokenInner::ClexNoteq => "ClexNoteq"@,
        LexTokenInner::ClexLesseq => "ClexLesseq"@,
        LexTokenInner::ClexGreatereq => "ClexGreatereq"@,
        LexTokenInner::ClexAndand => "ClexAndand"@,
        LexTokenInner::ClexOror => "ClexOror"@,
        LexTokenInner::ClexShl => "ClexShl"@,
        LexTokenInner::ClexShr => "ClexShr"@,
        LexTokenInner::ClexPlusplus => "ClexPlusplus"@,
        LexTokenInner::ClexMinusminus => "ClexMinusminus"@,
        LexTokenInner::ClexPluseq => "ClexPluseq"@,
        LexTokenInner::ClexMinuseq => "ClexMinuseq"@,
        LexTokenInner::ClexMuleq => "ClexMuleq"@,
        LexTokenInner::ClexDiveq => "ClexDiveq"@,
        LexTokenInner::ClexModeq => "ClexModeq"@,
        LexTokenInner::ClexAndeq => "ClexAndeq"@,
        LexTokenInner::ClexOreq => "ClexOreq"@,
        LexTokenInner::ClexXoreq => "ClexXoreq"@,
        LexTokenInner::ClexArrow => "ClexArrow"@,
        LexTokenInner::ClexEqarrow => "ClexEqarrow"@,
        LexTokenInner::ClexShleq => "ClexShleq"@,
        LexTokenInner::ClexShreq => "ClexShreq"@,
        LexTokenInner::ClexFirstUnusedToken => "ClexFirstUnusedToken"@,
    }
}

/// How a token is printed in messages: a character in backquotes, or the kind's name.
pub open spec fn token_text(t: LexToken) -> Seq<char> {
    match t {
        LexToken::Char(c) => seq!['`', c, '`'],
        LexToken::Lex(k) => inner_name(k),
    }
}

impl LexTokenInner {
    /// The kind's name, as it is printed.
    pub fn name(&self) -> (r: &'static str)
        ensures
            r@ == inner_name(*self),
    {
        match self {
            LexTokenInner::ClexEof => "ClexEof",
            LexTokenInner::ClexParseError => "ClexParseError",
            LexTokenInner::ClexIntlit => "ClexIntlit",
            LexTokenInner::ClexFloatlit => "ClexFloatlit",
            LexTokenInner::ClexId => "ClexId",
            LexTokenInner::ClexDqstring => "ClexDqstring",
            LexTokenInner::ClexSqstring => "ClexSqstring",
            LexTokenInner::ClexCharlit => "ClexCharlit",
            LexTokenInner::ClexEq => "ClexEq",
            LexTokenInner::ClexNoteq => "ClexNoteq",
            LexTokenInner::ClexLesseq => "ClexLesseq",
            LexTokenInner::ClexGreatereq => "ClexGreatereq",
            LexTokenInner::ClexAndand => "ClexAndand",
            LexTokenInner::ClexOror => "ClexOror",
            LexTokenInner::ClexShl => "ClexShl",
            LexTokenInner::ClexShr => "ClexShr",
            LexTokenInner::ClexPlusplus => "ClexPlusplus",
            LexTokenInner::ClexMinusminus => "ClexMinusminus",
            LexTokenInner::ClexPluseq => "ClexPluseq",
            LexTokenInner::ClexMinuseq => "ClexMinuseq",
            LexTokenInner::ClexMuleq => "ClexMuleq",
            LexTokenInner::ClexDiveq => "ClexDiveq",
            LexTokenInner::ClexModeq => "ClexModeq",
            LexTokenInner::ClexAndeq => "ClexAndeq",
            LexTokenInner::ClexOreq => "ClexOreq",
            LexTokenInner::ClexXoreq => "ClexXoreq",
            LexTokenInner::ClexArrow => "ClexArrow",
            LexTokenInner::ClexEqarrow => "ClexEqarrow",
            LexTokenInner::ClexShleq => "ClexShleq",
            LexTokenInner::ClexShreq => "ClexShreq",
            LexTokenInner::ClexFirstUnusedToken => "ClexFirstUnusedToken",
        }
    }

    /// The kind with token id `t`, for `t` from 256 to 286.
    fn from_id(t: i64) -> (r: LexTokenInner)
        requires
            256 <= t <= 286,
        ensures
            r == inner_of(t as int),
    {
        match t {
            256 => LexTokenInner::ClexEof,
            257 => LexTokenInner::ClexParseError,
            258 => LexTokenInner::ClexIntlit,
            259 => LexTokenInner::ClexFloatlit,
            260 => LexTokenInner::ClexId,
            261 => LexTokenInner::ClexDqstring,
            262 => LexTokenInner::ClexSqstring,
            263 => LexTokenInner::ClexCharlit,
            264 => LexTokenInner::ClexEq,
            265 => LexTokenInner::ClexNoteq,
            266 => LexTokenInner::ClexLesseq,
            267 => LexTokenInner::ClexGreatereq,
            268 => LexTokenInner::ClexAndand,
            269 => LexTokenInner::ClexOror,
            270 => LexTokenInner::ClexShl,
            271 => LexTokenInner::ClexShr,
            272 => LexTokenInner::ClexPlusplus,
            273 => LexTokenInner::ClexMinusminus,
            274 => LexTokenInner::ClexPluseq,
            275 => LexTokenInner::ClexMinuseq,
            276 => LexTokenInner::ClexMuleq,
            277 => LexTokenInner::ClexDiveq,
            278 => LexTokenInner::ClexModeq,
            279 => LexTokenInner::ClexAndeq,
            280 => LexTokenInner::ClexOreq,
            281 => LexTokenInner::ClexXoreq,
            282 => LexTokenInner::ClexArrow,
            283 => LexTokenInner::ClexEqarrow,
            284 => LexTokenInner::ClexShleq,
            285 => LexTokenInner::ClexShreq,
            _ => LexTokenInner::ClexFirstUnusedToken,
        }
    }
}

impl LexToken {
    /// Whether this is the single character `c`.
    pub fn is_char(&self, c: char) -> (r: bool)
        ensures
            r == (*self == LexToken::Char(c)),
    {
        if let LexToken::Char(ch) = self {
            *ch == c
        } else {
            false
        }
    }

    /// The token as it is printed in messages.
    pub fn to_text(&self) -> (r: String)
        ensures
            r@ == token_text(*self),
    {
        match self {
            LexToken::Char(c) => {
                let mut s = String::new();
                push_char(&mut s, '`');
                push_char(&mut s, *c);
                push_char(&mut s, '`');
                assert(s@ =~= seq!['`', *c, '`']);
                s
            },
            LexToken::Lex(tk) => String::from_str(tk.name()),
        }
    }
}

// ---------------------------------------------------------------------------
// The abstract behaviour of the lexer's operations
// ---------------------------------------------------------------------------

/// Why an operation could not go on.
#[derive(Debug, PartialEq, Eq)]
pub enum LexError {
    /// A value the operation needs is missing (the end of input where a token
    /// must follow, or a string that cannot be read): the program stops with a panic.
    Panic,
    /// A diagnostic line to print before the program exits with status 1.
    Fatal(String),
}

/// The abstract form of [`LexError`].
pub enum Fail {
    Panic,
    Fatal(Seq<char>),
}

impl View for LexError {
    type V = Fail;

    open spec fn view(&self) -> Fail {
        match self {
            LexError::Panic => Fail::Panic,
            LexError::Fatal(m) => Fail::Fatal(m@),
        }
    }
}

/// The abstract form of a result that carries text.
pub open spec fn text_result(r: Result<String, LexError>) -> Result<Seq<char>, Fail> {
    match r {
        Ok(s) => Ok(s@),
        Err(e) => Err(e@),
    }
}

/// The abstract form of a result that carries nothing.
pub open spec fn unit_result(r: Result<(), LexError>) -> Result<(), Fail> {
    match r {
        Ok(()) => Ok(()),
        Err(e) => Err(e@),
    }
}

/// The bytes of `s` before its first NUL byte.
pub open spec fn c_string(s: Seq<u8>) -> Seq<u8>
    decreases s.len(),
{
    if s.len() == 0 || s[0] == 0 {
        Seq::empty()
    } else {
        seq![s[0]] + c_string(s.drop_first())
    }
}

/// The text in the string storage, where there is one and it is valid UTF-8.
pub open spec fn read_string_spec(st: LexState) -> Option<Seq<char>> {
    if !st.string_set {
        None
    } else if valid_utf8(c_string(st.storage)) {
        Some(decode_utf8(c_string(st.storage)))
    } else {
        None
    }
}

/// The current token.
pub open spec fn current_token(st: LexState) -> LexToken {
    token_of(st.token)
}

/// The value of the current token, where it is an integer literal.
pub open spec fn read_int_spec(st: LexState) -> Option<i64> {
    if st.token == CLEX_intlit {
        Some(st.int_number as i64)
    } else {
        None
    }
}

/// `path:line:column: msg`, for the first character of the current token.
pub open spec fn diag_text(st: LexState, path: Seq<char>, msg: Seq<char>) -> Seq<char> {
    let (line, col) = location(st.input, st.where_firstchar);
    path + ":"@ + decimal(line as nat) + ":"@ + decimal((col + 1) as nat) + ": "@ + msg
}

/// Reading the next token: the token (none at the end of input) and the new state.
pub open spec fn next_token(st: LexState) -> (Option<LexToken>, LexState) {
    let (more, st2) = lex_next(st);
    (
        if more {
            Some(current_token(st2))
        } else {
            None
        },
        st2,
    )
}

/// Checking that the current token is `tk`.
pub open spec fn expect_spec(st: LexState, path: Seq<char>, tk: LexToken) -> Result<(), Fail> {
    let got = current_token(st);
    if got != tk {
        Err(
            Fail::Fatal(
                diag_text(
                    st,
                    path,
                    "ERROR: expected "@ + token_text(tk) + ", but got "@ + token_text(got),
                ),
            ),
        )
    } else {
        Ok(())
    }
}

/// Checking that the current token is an identifier, and reading its text.
pub open spec fn expect_ident_spec(st: LexState, path: Seq<char>) -> Result<Seq<char>, Fail> {
    match expect_spec(st, path, LexToken::Lex(LexTokenInner::ClexId)) {
        Err(e) => Err(e),
        Ok(()) => match read_string_spec(st) {
            Some(s) => Ok(s),
            None => Err(Fail::Panic),
        },
    }
}

/// Reading the next token, which must be an identifier, and its text.
pub open spec fn get_ident_spec(st: LexState, path: Seq<char>) -> (Result<Seq<char>, Fail>, LexState) {
    let (t, st2) = next_token(st);
    if t is None {
        (Err(Fail::Panic), st2)
    } else {
        (expect_ident_spec(st2, path), st2)
    }
}

/// Reading the next token and checking that it is `tk`.
pub open spec fn get_and_expect_spec(st: LexState, path: Seq<char>, tk: LexToken) -> (
    Result<(), Fail>,
    LexState,
) {
    let st2 = lex_next(st).1;
    (expect_spec(st2, path, tk), st2)
}

/// The abstract state of a lexer that has just been made for `bytes`.
pub open spec fn fresh_state(bytes: Seq<u8>) -> LexState {
    initial_state(bytes, Seq::new(STRING_STORE_LEN as nat, |i: int| 0u8))
}

// ---------------------------------------------------------------------------
// The lexer
// ---------------------------------------------------------------------------

/// A lexer over one source file.
pub struct Lexer {
    inner: StbLexer,
    input_path: String,
}

impl Lexer {
    /// The abstract state of the underlying lexer.
    pub closed spec fn state(&self) -> LexState {
        self.inner@
    }

    /// The path of the source file, for diagnostics.
    pub closed spec fn path(&self) -> Seq<char> {
        self.input_path@
    }

    /// The underlying lexer is well formed and its input holds no NUL byte.
    pub closed spec fn wf(&self) -> bool {
        &&& self.inner.wf()
        &&& !self.inner@.input.contains(0u8)
    }

    /// What every well-formed lexer satisfies: the bounds of a well-formed
    /// underlying state, an input without NUL bytes, and a parse point at
    /// or after the start.
    pub proof fn lemma_wf(&self)
        requires
            self.wf(),
        ensures
            state_wf(self.state()),
            !self.state().input.contains(0u8),
            self.state().parse_point >= 0,
    {
    }

    /// Whether a token remains: whether `get_token` would give one rather
    /// than the end of input.  Changes nothing.
    pub fn has_token(&self) -> (r: bool)
        requires
            self.wf(),
        ensures
            r == lex_next(self.state()).0,
    {
        stb_c_lexer_has_token(&self.inner)
    }

    /// A lexer at the start of `input`.  The text must not contain a NUL byte.
    pub fn new(input: &str, input_path: &str) -> (r: Self)
        requires
            !input.spec_bytes().contains(0u8),
            input.spec_bytes().len() + 8 <= usize::MAX,
        ensures
            r.wf(),
            r.state() == fresh_state(input.spec_bytes()),
            r.path() == input_path@,
    {
        let bytes = vstd::slice::slice_to_vec(input.as_bytes());
        let mut string_store: Vec<u8> = Vec::new();
        while string_store.len() < STRING_STORE_LEN
            invariant
                string_store.len() <= STRING_STORE_LEN,
                forall|i: int| 0 <= i < string_store.len() ==> string_store@[i] == 0u8,
            decreases STRING_STORE_LEN - string_store.len(),
        {
            string_store.push(0);
        }
        assert(string_store@ =~= Seq::new(STRING_STORE_LEN as nat, |i: int| 0u8));
        let inner = StbLexer::new(bytes, string_store);
        Lexer { inner, input_path: input_path.to_owned() }
    }

    /// The diagnostic line `path:line:column: msg` for the current token.
    pub fn diag(&self, msg: &str) -> (r: String)
        requires
            self.wf(),
        ensures
            r@ == diag_text(self.state(), self.path(), msg@),
    {
        let loc = stb_c_lexer_get_location(&self.inner, self.inner.where_firstchar);
        let mut out = self.input_path.clone();
        out.append(":");
        push_decimal(&mut out, loc.line_number as u64);
        out.append(":");
        push_decimal(&mut out, (loc.line_offset + 1) as u64);
        out.append(": ");
        out.append(msg);
        out
    }

    /// Reads the next token; `None` at the end of input.
    pub fn get_token(&mut self) -> (r: Option<LexToken>)
        requires
            old(self).wf(),
        ensures
            final(self).wf(),
            (r, final(self).state()) == next_token(old(self).state()),
            final(self).path() == old(self).path(),
    {
        proof {
            lemma_lex_next_progress(self.inner@);
        }
        if stb_c_lexer_get_token(&mut self.inner) == 0 {
            return None;
        }
        self.get_token_inner()
    }

    /// The value of the current token, where it is an integer literal.
    pub fn read_int(&self) -> (r: Option<i64>)
        requires
            self.wf(),
        ensures
            r == read_int_spec(self.state()),
    {
        let tk = self.get_token_inner()?;
        if let LexToken::Lex(LexTokenInner::ClexIntlit) = tk {
            Some(self.inner.int_number)
        } else {
            None
        }
    }

    fn get_token_inner(&self) -> (r: Option<LexToken>)
        requires
            self.wf(),
        ensures
            r == Some(current_token(self.state())),
    {
        let token = self.inner.token;
        if token < 256 {
            Some(LexToken::Char((token as u8) as char))
        } else {
            Some(LexToken::Lex(LexTokenInner::from_id(token)))
        }
    }

    fn read_string(&self) -> (r: Option<String>)
        requires
            self.wf(),
        ensures
            match r {
                Some(s) => read_string_spec(self.state()) == Some(s@),
                None => read_string_spec(self.state()) is None,
            },
    {
        if !self.inner.string {
            return None;
        }
        let bytes = c_string_bytes(&self.inner.string_storage);
        let s = utf8_to_string(bytes)?;
        Some(s)
    }

    /// Reads the next token, which must be an identifier, and returns its
    /// text.  A token must remain (see `has_token`).
    pub fn get_ident(&mut self) -> (r: Result<String, LexError>)
        requires
            old(self).wf(),
            lex_next(old(self).state()).0,
        ensures
            final(self).wf(),
            final(self).path() == old(self).path(),
            (text_result(r), final(self).state())
                == get_ident_spec(old(self).state(), old(self).path()),
    {
        let _ = self.get_token();
        self.expect_ident()
    }

    /// Checks that the current token is an identifier and returns its text.
    pub fn expect_ident(&mut self) -> (r: Result<String, LexError>)
        requires
            old(self).wf(),
        ensures
            *final(self) == *old(self),
            text_result(r) == expect_ident_spec(
                old(self).state(),
                old(self).path(),
            ),
    {
        self.expect(LexToken::Lex(LexTokenInner::ClexId))?;
        match self.read_string() {
            Some(s) => Ok(s),
            None => Err(LexError::Panic),
        }
    }

    /// Checks that the current token is `tk`.
    pub fn expect(&mut self, tk: LexToken) -> (r: Result<(), LexError>)
        requires
            old(self).wf(),
        ensures
            *final(self) == *old(self),
            unit_result(r) == expect_spec(old(self).state(), old(self).path(), tk),
    {
        let token = match self.get_token_inner() {
            Some(t) => t,
            None => {
                return Err(
                    LexError::Fatal(self.diag("ERROR: reached end-of-file while reading token")),
                );
            },
        };
        if token != tk {
            let mut msg = String::from_str("ERROR: expected ");
            let tk_text = tk.to_text();
            msg.append(tk_text.as_str());
            msg.append(", but got ");
            let got_text = token.to_text();
            msg.append(got_text.as_str());
            return Err(LexError::Fatal(self.diag(msg.as_str())));
        }
        Ok(())
    }

    /// Reads the next token and checks that it is the character `ch`.
    pub fn get_char(&mut self, ch: char) -> (r: Result<(), LexError>)
        requires
            old(self).wf(),
        ensures
            final(self).wf(),
            final(self).path() == old(self).path(),
            (unit_result(r), final(self).state()) == get_and_expect_spec(
                old(self).state(),
                old(self).path(),
                LexToken::Char(ch),
            ),
    {
        self.get_and_expect(LexToken::Char(ch))
    }

    /// Reads the next token and checks that it is `tk`.
    pub fn get_and_expect(&mut self, tk: LexToken) -> (r: Result<(), LexError>)
        requires
            old(self).wf(),
        ensures
            final(self).wf(),
            final(self).path() == old(self).path(),
            (unit_result(r), final(self).state()) == get_and_expect_spec(
                old(self).state(),
                old(self).path(),
                tk,
            ),
    {
        let _ = self.get_token();
        self.expect(tk)
    }
}

/// The bytes of `s` before its first NUL byte.
fn c_string_bytes(s: &Vec<u8>) -> (r: Vec<u8>)
    ensures
        r@ == c_string(s@),
{
    let mut out: Vec<u8> = Vec::new();
    let mut i: usize = 0;
    assert(s@.skip(0) =~= s@);
    assert(out@ + c_string(s@.skip(0)) =~= c_string(s@));
    while i < s.len() && s[i] != 0
        invariant
            i <= s.len(),
            out@ + c_string(s@.skip(i as int)) == c_string(s@),
        decreases s.len() - i,
    {
        proof {
            assert(s@.skip(i as int).drop_first() =~= s@.skip(i + 1));
            assert(out@.push(s@[i as int]) + c_string(s@.skip(i + 1)) =~= out@ + c_string(
                s@.skip(i as int),
            ));
        }
        out.push(s[i]);
        i = i + 1;
    }
    proof {
        assert(c_string(s@.skip(i as int)) =~= Seq::<u8>::empty());
        assert(out@ =~= c_string(s@));
    }
    out
}

/// Decodes UTF-8 text.  Trusted: the body is `String::from_utf8`, which the
/// standard library documents as failing exactly when the bytes are not valid
/// UTF-8 and otherwise returning the string they encode; the contract claims
/// that, with vstd's definitions of validity and decoding.
#[verifier::external_body]
fn utf8_to_string(bytes: Vec<u8>) -> (r: Option<String>)
    ensures
        r is Some <==> valid_utf8(bytes@),
        r matches Some(s) ==> s@ == decode_utf8(bytes@),
{
    String::from_utf8(bytes).ok()
}


proof fn lemma_c_string_terminated(a: Seq<u8>, b: Seq<u8>)
    requires
        forall|i: int| 0 <= i < a.len() ==> #[trigger] a[i] != 0,
    ensures
        c_string(a.push(0) + b) == a,
    decreases a.len(),
{
    if a.len() == 0 {
        assert((a.push(0) + b)[0] == 0);
    } else {
        let t = a.drop_first();
        assert((a.push(0) + b).drop_first() =~= t.push(0) + b);
        lemma_c_string_terminated(t, b);
        assert(seq![a[0]] + t =~= a);
    }
}

/// After an identifier token, the string the lexer holds is exactly the
/// identifier's text in the input, so reading it gives that text (decoded
/// as UTF-8 where it is valid).
pub proof fn law_identifier_text(st: LexState)
    requires
        0 <= st.parse_point,
        lex_next(st).0,
        lex_next(st).1.token == CLEX_id,
    ensures
        ({
            let st2 = lex_next(st).1;
            let text = st.input.subrange(st2.where_firstchar, st2.where_lastchar + 1);
            &&& st2.string_set
            &&& c_string(st2.storage) == text
            &&& valid_utf8(text) ==> read_string_spec(st2) == Some(decode_utf8(text))
        }),
{
    lemma_skip_trivia(st.input, st.parse_point);
    let s = st.input;
    match skip_trivia(s, st.parse_point) {
        Skip::Unterminated(_) => {},
        Skip::At(p) => {
            lemma_run_end_bounds(s, p, Run::Ident);
            let n = run_end(s, p, Run::Ident) - p;
            let text = s.subrange(p, p + n);
            assert forall|i: int| 0 <= i < text.len() implies #[trigger] text[i] != 0 by {
                assert(in_run(Run::Ident, s[p + i]));
            }
            lemma_c_string_terminated(text, st.storage.skip(n + 1));
            assert(overwrite(st.storage, text.push(0)) =~= text.push(0) + st.storage.skip(n + 1));
        },
    }
}

} // verus!
