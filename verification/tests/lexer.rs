use bcompiler::stb::{LexError, LexToken, LexTokenInner, Lexer};
use bcompiler::stb_c_lexer::{
    stb_c_lexer_get_location, stb_c_lexer_get_token, StbLexer, CLEX_charlit, CLEX_eof,
    CLEX_floatlit, CLEX_id, CLEX_intlit, CLEX_parse_error,
};


fn lex(src: &str) -> Lexer {
    Lexer::new(src, "t.b")
}

fn tokens(src: &str) -> Vec<LexToken> {
    let mut l = lex(src);
    let mut v = Vec::new();
    while let Some(t) = l.get_token() {
        v.push(t);
    }
    v
}

fn raw(src: &str) -> StbLexer {
    StbLexer::new(src.as_bytes().to_vec(), vec![0u8; 64])
}

#[test]
fn function_header_tokens() {
    let mut l = lex("main() { }");
    assert_eq!(l.get_token(), Some(LexToken::Lex(LexTokenInner::ClexId)));
    assert_eq!(l.expect_ident(), Ok("main".to_string()));
    assert_eq!(l.get_token(), Some(LexToken::Char('(')));
    assert_eq!(l.get_token(), Some(LexToken::Char(')')));
    assert_eq!(l.get_token(), Some(LexToken::Char('{')));
    assert_eq!(l.get_token(), Some(LexToken::Char('}')));
    assert_eq!(l.get_token(), None);
    assert_eq!(l.get_token(), None);
}

#[test]
fn operators_take_the_longest_match() {
    assert_eq!(
        tokens("a += b << 2 <<= 3 -> x >>= >> >= == != && || ++ -- -= *= /= %= &= |= ^="),
        vec![
            LexToken::Lex(LexTokenInner::ClexId),
            LexToken::Lex(LexTokenInner::ClexPluseq),
            LexToken::Lex(LexTokenInner::ClexId),
            LexToken::Lex(LexTokenInner::ClexShl),
            LexToken::Lex(LexTokenInner::ClexIntlit),
            LexToken::Lex(LexTokenInner::ClexShleq),
            LexToken::Lex(LexTokenInner::ClexIntlit),
            LexToken::Lex(LexTokenInner::ClexArrow),
            LexToken::Lex(LexTokenInner::ClexId),
            LexToken::Lex(LexTokenInner::ClexShreq),
            LexToken::Lex(LexTokenInner::ClexShr),
            LexToken::Lex(LexTokenInner::ClexGreatereq),
            LexToken::Lex(LexTokenInner::ClexEq),
            LexToken::Lex(LexTokenInner::ClexNoteq),
            LexToken::Lex(LexTokenInner::ClexAndand),
            LexToken::Lex(LexTokenInner::ClexOror),
            LexToken::Lex(LexTokenInner::ClexPlusplus),
            LexToken::Lex(LexTokenInner::ClexMinusminus),
            LexToken::Lex(LexTokenInner::ClexMinuseq),
            LexToken::Lex(LexTokenInner::ClexMuleq),
            LexToken::Lex(LexTokenInner::ClexDiveq),
            LexToken::Lex(LexTokenInner::ClexModeq),
            LexToken::Lex(LexTokenInner::ClexAndeq),
            LexToken::Lex(LexTokenInner::ClexOreq),
            LexToken::Lex(LexTokenInner::ClexXoreq),
        ]
    );
}

#[test]
fn single_characters_at_the_end() {
    assert_eq!(
        tokens("+ - < > = !"),
        vec![
            LexToken::Char('+'),
            LexToken::Char('-'),
            LexToken::Char('<'),
            LexToken::Char('>'),
            LexToken::Char('='),
            LexToken::Char('!'),
        ]
    );
    assert_eq!(tokens("<"), vec![LexToken::Char('<')]);
}

fn int_of(src: &str) -> Option<i64> {
    let mut l = lex(src);
    l.get_token();
    l.read_int()
}

#[test]
fn integer_literals() {
    assert_eq!(int_of("42"), Some(42));
    assert_eq!(int_of("0x1F"), Some(31));
    assert_eq!(int_of("0XfF"), Some(255));
    assert_eq!(int_of("017"), Some(15));
    assert_eq!(int_of("0"), Some(0));
    assert_eq!(int_of("99999999999999999999"), Some(i64::MAX));
    assert_eq!(int_of("0x8000000000000000"), Some(i64::MAX));
    assert_eq!(int_of("abc"), None);
}

#[test]
fn octal_stops_at_eight() {
    let mut l = lex("09");
    assert_eq!(l.get_token(), Some(LexToken::Lex(LexTokenInner::ClexIntlit)));
    assert_eq!(l.read_int(), Some(0));
    assert_eq!(l.get_token(), Some(LexToken::Lex(LexTokenInner::ClexIntlit)));
    assert_eq!(l.read_int(), Some(9));
    assert_eq!(l.get_token(), None);
}

#[test]
fn hex_prefix_without_digits_reads_zero() {
    let mut l = lex("0xg");
    assert_eq!(l.get_token(), Some(LexToken::Lex(LexTokenInner::ClexIntlit)));
    assert_eq!(l.read_int(), Some(0));
    assert_eq!(l.get_ident(), Ok("xg".to_string()));
}

#[test]
fn floating_literals() {
    assert_eq!(
        tokens("3.14 1e5 2.5e-3 7."),
        vec![
            LexToken::Lex(LexTokenInner::ClexFloatlit),
            LexToken::Lex(LexTokenInner::ClexFloatlit),
            LexToken::Lex(LexTokenInner::ClexFloatlit),
            LexToken::Lex(LexTokenInner::ClexFloatlit),
        ]
    );
    let mut l = lex("1e;");
    assert_eq!(l.get_token(), Some(LexToken::Lex(LexTokenInner::ClexFloatlit)));
    assert_eq!(l.read_int(), None);
    assert_eq!(l.get_ident(), Ok("e".to_string()));
    assert_eq!(l.get_token(), Some(LexToken::Char(';')));
}

#[test]
fn comments_and_directives_are_skipped() {
    assert_eq!(
        tokens("// one\n/* two\n three */ # define x\n  a /**/ b"),
        vec![LexToken::Lex(LexTokenInner::ClexId), LexToken::Lex(LexTokenInner::ClexId)]
    );
}

#[test]
fn unterminated_comment_is_a_parse_error() {
    let mut l = lex("a /* never");
    assert_eq!(l.get_token(), Some(LexToken::Lex(LexTokenInner::ClexId)));
    assert_eq!(l.get_token(), Some(LexToken::Lex(LexTokenInner::ClexParseError)));
    assert_eq!(l.get_token(), None);
}

#[test]
fn strings_and_characters() {
    assert_eq!(
        tokens("\"hi\\n\" 'a' x"),
        vec![
            LexToken::Lex(LexTokenInner::ClexDqstring),
            LexToken::Lex(LexTokenInner::ClexCharlit),
            LexToken::Lex(LexTokenInner::ClexId),
        ]
    );
    // The character after a character literal's closing quote is passed over.
    assert_eq!(tokens("'a'b"), vec![LexToken::Lex(LexTokenInner::ClexCharlit)]);
    // An unsupported escape ends the token at its quote; the lexer resumes after it.
    assert_eq!(
        tokens("'\\x'"),
        vec![
            LexToken::Lex(LexTokenInner::ClexParseError),
            LexToken::Char('\\'),
            LexToken::Lex(LexTokenInner::ClexId),
            LexToken::Lex(LexTokenInner::ClexParseError),
        ]
    );
    assert_eq!(tokens("\"open"), vec![LexToken::Lex(LexTokenInner::ClexParseError)]);
    // The error token ends at the closing quote, which is passed over.
    assert_eq!(tokens("\"bad \\u\""), vec![LexToken::Lex(LexTokenInner::ClexParseError)]);
}

#[test]
fn character_literal_value() {
    let mut l = StbLexer::new(b"'\\n' ".to_vec(), vec![0u8; 8]);
    assert_eq!(stb_c_lexer_get_token(&mut l), 1);
    assert_eq!(l.token, CLEX_charlit);
    assert_eq!(l.int_number, 10);
}

#[test]
fn string_contents_are_decoded_into_storage() {
    let mut l = StbLexer::new(b"\"a\\tb\"".to_vec(), vec![7u8; 8]);
    assert_eq!(stb_c_lexer_get_token(&mut l), 1);
    assert_eq!(l.token, bcompiler::stb_c_lexer::CLEX_dqstring);
    assert!(l.string);
    assert_eq!(l.string_len, 3);
    assert_eq!(l.string_storage, vec![b'a', 9, b'b', 0, 7, 7, 7, 7]);
}

#[test]
fn string_too_long_for_storage() {
    let mut l = StbLexer::new(b"\"abcd\"".to_vec(), vec![0u8; 4]);
    assert_eq!(stb_c_lexer_get_token(&mut l), 1);
    assert_eq!(l.token, CLEX_parse_error);
    assert!(!l.string);
}

#[test]
fn identifiers_fill_the_storage() {
    let mut l = StbLexer::new(b"abc de".to_vec(), vec![9u8; 5]);
    assert_eq!(stb_c_lexer_get_token(&mut l), 1);
    assert_eq!(l.token, CLEX_id);
    assert_eq!(l.string_len, 3);
    assert_eq!(l.string_storage, vec![b'a', b'b', b'c', 0, 9]);
    assert_eq!((l.where_firstchar, l.where_lastchar, l.parse_point), (0, 2, 3));
    assert_eq!(stb_c_lexer_get_token(&mut l), 1);
    assert_eq!(l.token, CLEX_id);
    assert_eq!(l.string_storage, vec![b'd', b'e', 0, 0, 9]);
    assert_eq!(stb_c_lexer_get_token(&mut l), 0);
    assert_eq!(l.token, CLEX_eof);
}

#[test]
fn identifier_longer_than_storage_is_a_parse_error() {
    let mut l = StbLexer::new(b"abcdef".to_vec(), vec![0u8; 4]);
    assert_eq!(stb_c_lexer_get_token(&mut l), 1);
    assert_eq!(l.token, CLEX_parse_error);
    assert_eq!((l.where_firstchar, l.where_lastchar), (0, 3));
    assert_eq!(l.string_storage, vec![b'a', b'b', b'c', 0]);
    let long = "x".repeat(5000);
    let mut lx = lex(&long);
    assert_eq!(lx.get_token(), Some(LexToken::Lex(LexTokenInner::ClexParseError)));
}

#[test]
fn int_number_of_literals() {
    let mut l = raw("0x10 12");
    assert_eq!(stb_c_lexer_get_token(&mut l), 1);
    assert_eq!((l.token, l.int_number), (CLEX_intlit, 16));
    assert_eq!(stb_c_lexer_get_token(&mut l), 1);
    assert_eq!((l.token, l.int_number), (CLEX_intlit, 12));
    assert_eq!(stb_c_lexer_get_token(&mut l), 0);
}

#[test]
fn locations_count_lines_and_columns() {
    let l = raw("ab\ncd\r\nef\n\rg");
    let at = |w: usize| {
        let loc = stb_c_lexer_get_location(&l, w);
        (loc.line_number, loc.line_offset)
    };
    assert_eq!(at(0), (1, 0));
    assert_eq!(at(1), (1, 1));
    assert_eq!(at(3), (2, 0));
    assert_eq!(at(4), (2, 1));
    assert_eq!(at(7), (3, 0));
    assert_eq!(at(11), (4, 0));
    assert_eq!(at(100), (4, 1));
}

#[test]
fn diagnostics_point_at_the_current_token() {
    let mut l = Lexer::new("\n\n  foo", "dir/f.b");
    assert_eq!(l.diag("before"), "dir/f.b:1:1: before");
    l.get_token();
    assert_eq!(l.diag("here"), "dir/f.b:3:3: here");
}

#[test]
fn expect_reports_both_tokens() {
    let mut l = lex("a");
    l.get_token();
    assert_eq!(l.expect(LexToken::Lex(LexTokenInner::ClexId)), Ok(()));
    assert_eq!(
        l.expect(LexToken::Char('(')),
        Err(LexError::Fatal("t.b:1:1: ERROR: expected `(`, but got ClexId".to_string()))
    );
}

#[test]
fn get_char_and_get_and_expect() {
    let mut l = lex("( ;");
    assert_eq!(l.get_char('('), Ok(()));
    assert_eq!(
        l.get_and_expect(LexToken::Char(')')),
        Err(LexError::Fatal("t.b:1:3: ERROR: expected `)`, but got `;`".to_string()))
    );
    assert_eq!(
        l.get_char('x'),
        Err(LexError::Fatal("t.b:1:3: ERROR: expected `x`, but got ClexEof".to_string()))
    );
}

#[test]
fn has_token_looks_ahead_without_reading() {
    let mut l = lex(" a // end");
    assert!(l.has_token());
    assert!(l.has_token());
    assert_eq!(l.get_ident(), Ok("a".to_string()));
    assert!(!l.has_token());
    assert_eq!(l.get_token(), None);
    let mut u = lex("/* open");
    assert!(u.has_token());
    assert_eq!(u.get_token(), Some(LexToken::Lex(LexTokenInner::ClexParseError)));
    assert!(!u.has_token());
}

#[test]
fn parse_suffixes_records_the_token_before_cur() {
    let mut l = raw("12345");
    assert_eq!(bcompiler::stb_c_lexer::stb__clex_parse_suffixes(&mut l, CLEX_intlit, 1, 4), 1);
    assert_eq!((l.token, l.where_firstchar, l.where_lastchar, l.parse_point), (CLEX_intlit, 1, 3, 4));
}

#[test]
fn token_bounds_and_parse_point() {
    let mut l = raw("  abc  'x' 9");
    let before = l.parse_point;
    assert_eq!(stb_c_lexer_get_token(&mut l), 1);
    assert!(before <= l.where_firstchar && l.where_firstchar <= l.where_lastchar);
    assert_eq!(l.parse_point, l.where_lastchar + 1);
    assert_eq!((l.where_firstchar, l.where_lastchar), (2, 4));
    assert_eq!(stb_c_lexer_get_token(&mut l), 1);
    assert_eq!((l.token, l.where_firstchar, l.where_lastchar), (CLEX_charlit, 7, 10));
    // A character literal at the end of input leaves the parse point past the end.
    let mut c = raw("'x'");
    assert_eq!(stb_c_lexer_get_token(&mut c), 1);
    assert_eq!(c.parse_point, 4);
    assert_eq!(c.string_storage.len(), 64);
    assert_eq!(stb_c_lexer_get_token(&mut c), 0);
}

#[test]
fn identifier_that_is_not_utf8_cannot_be_read() {
    // The character literal takes the first byte of `€`; the next token is
    // made of the remaining continuation byte.
    let mut l = lex("'€");
    assert_eq!(l.get_token(), Some(LexToken::Lex(LexTokenInner::ClexParseError)));
    assert_eq!(l.get_ident(), Err(LexError::Panic));
}

#[test]
fn non_ascii_identifiers() {
    let mut l = lex("héllo $x_1");
    assert_eq!(l.get_ident(), Ok("héllo".to_string()));
    assert_eq!(l.get_ident(), Ok("$x_1".to_string()));
}

#[test]
fn is_char_and_text() {
    assert!(LexToken::Char('}').is_char('}'));
    assert!(!LexToken::Char('}').is_char('{'));
    assert!(!LexToken::Lex(LexTokenInner::ClexId).is_char('}'));
    assert_eq!(LexToken::Char('+').to_text(), "`+`");
    assert_eq!(LexToken::Lex(LexTokenInner::ClexFirstUnusedToken).to_text(), "ClexFirstUnusedToken");
    assert_eq!(LexTokenInner::ClexShreq.name(), "ClexShreq");
}

#[test]
fn fresh_lexer_has_no_token() {
    let l = raw("x");
    assert_eq!((l.token, l.parse_point, l.string), (0, 0, false));
}

#[test]
fn every_token_moves_the_parse_point_forward() {
    let mut l = raw("a+=1 'c' \"s\" 2.5 /* c */ x");
    let mut last = l.parse_point;
    let mut count = 0;
    while stb_c_lexer_get_token(&mut l) == 1 {
        assert!(l.parse_point > last);
        assert!(l.where_firstchar >= last);
        last = l.parse_point;
        count += 1;
    }
    assert_eq!(count, 7);
}

#[test]
fn end_of_input_is_stable() {
    let mut l = raw("x  // trailing");
    assert_eq!(stb_c_lexer_get_token(&mut l), 1);
    assert_eq!(stb_c_lexer_get_token(&mut l), 0);
    let snapshot = (l.parse_point, l.where_firstchar, l.where_lastchar, l.token, l.string_storage.clone());
    assert_eq!(stb_c_lexer_get_token(&mut l), 0);
    assert_eq!(
        (l.parse_point, l.where_firstchar, l.where_lastchar, l.token, l.string_storage.clone()),
        snapshot
    );
}
