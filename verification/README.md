# bcompiler

A small compiler for a subset of the B language, written and proved in Verus.
It reads functions of the form

    main() {
        extrn putchar;
        auto x;
        x = 69;
        putchar(x);
    }

and writes x86-64 assembly text for the flat assembler.

Layout:

- `src/stb_c_lexer.rs` — a C-like tokenizer over a byte buffer: the abstract
  state, the specification of one step (`lex_next`), the executable
  `stb_c_lexer_get_token` and `stb_c_lexer_get_location` proved against it,
  and laws about progress, the end of input and literal values.
- `src/stb.rs` — `Lexer`, the interface a parser uses: tokens as values,
  expected tokens, identifiers, integer literals and diagnostics.
- `src/compiler.rs` — `compile`, specified by `compile_spec`, with the laws on
  what a compilation can end in.
- `src/text.rs` — decimal text of numbers.
- `app/main.rs` — the command-line driver: arguments, files, messages, exit status.
- `tests/` — scenarios for the lexer and the compiler.
