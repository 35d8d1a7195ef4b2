use bcompiler::compiler::{compile, CompileError};

const HEADER: &str = "format ELF64\nsection \".text\" executable\n";

fn out(body: &str) -> String {
    format!("{HEADER}{body}")
}

fn exit(lines: &[&str], code: i32) -> Result<String, CompileError> {
    Err(CompileError::Exit(lines.iter().map(|l| l.to_string()).collect(), code))
}

#[test]
fn empty_program_is_only_the_header() {
    assert_eq!(compile("", "t.b"), Ok(out("")));
    assert_eq!(compile("  // nothing\n/* here */\n# line\n", "t.b"), Ok(out("")));
}

#[test]
fn hello_program() {
    let src = "main() {\n    extrn putchar;\n    auto x;\n    x = 69;\n    putchar(x);\n}\n";
    let expected = out(&[
        "public main\n",
        "main:\n",
        "    push rbp\n",
        "    mov rbp, rsp\n",
        "    extrn putchar\n",
        "    sub rsp, 8\n",
        "    mov QWORD [rbp-8], 69\n",
        "    mov rdi, [rbp-8]\n",
        "    call putchar\n",
        "    add rsp, 8\n",
        "    pop rbp\n",
        "    mov rax, 0\n",
        "    ret\n",
    ].concat());
    assert_eq!(compile(src, "hello.b"), Ok(expected));
}

#[test]
fn two_variables_and_two_functions() {
    let src = "f() { auto a; auto b; b = 0x10; a = 017; g(b); }\ng() { f(); }";
    let expected = out(&[
        "public f\nf:\n    push rbp\n    mov rbp, rsp\n",
        "    sub rsp, 8\n",
        "    sub rsp, 8\n",
        "    mov QWORD [rbp-16], 16\n",
        "    mov QWORD [rbp-8], 15\n",
        "    mov rdi, [rbp-16]\n",
        "    call g\n",
        "    add rsp, 16\n    pop rbp\n    mov rax, 0\n    ret\n",
        "public g\ng:\n    push rbp\n    mov rbp, rsp\n",
        "    call f\n",
        "    add rsp, 0\n    pop rbp\n    mov rax, 0\n    ret\n",
    ].concat());
    assert_eq!(compile(src, "t.b"), Ok(expected));
}

#[test]
fn end_of_input_inside_a_body_ends_the_program() {
    let expected = out("public main\nmain:\n    push rbp\n    mov rbp, rsp\n    sub rsp, 8\n");
    assert_eq!(compile("main() { auto x;", "t.b"), Ok(expected));
}

#[test]
fn large_literal_saturates() {
    let src = "m() { auto v; v = 99999999999999999999; }";
    let expected = out(&[
        "public m\nm:\n    push rbp\n    mov rbp, rsp\n",
        "    sub rsp, 8\n",
        "    mov QWORD [rbp-8], 9223372036854775807\n",
        "    add rsp, 8\n    pop rbp\n    mov rax, 0\n    ret\n",
    ].concat());
    assert_eq!(compile(src, "t.b"), Ok(expected));
}

#[test]
fn redefinition_is_reported_twice_at_the_second_name() {
    assert_eq!(
        compile("main() { auto x; auto x; }", "t.b"),
        exit(
            &[
                "t.b:1:23: ERROR: redefinition of variable `x`",
                "t.b:1:23: NOTE: the first declaration is located here",
            ],
            69
        )
    );
}

#[test]
fn assignment_to_unknown_variable() {
    assert_eq!(
        compile("main() { y = 1; }", "t.b"),
        exit(&["t.b:1:12: ERROR: could not find variable `y`"], 69)
    );
}

#[test]
fn assignment_of_a_non_integer() {
    assert_eq!(
        compile("main() { auto x; x = y; }", "t.b"),
        exit(&["t.b:1:22: ERROR: Non-integer type detected"], 69)
    );
}

#[test]
fn call_with_unknown_argument_names_the_function() {
    assert_eq!(
        compile("main() { f(z); }", "t.b"),
        exit(&["t.b:1:12: ERROR: could not find variable `f`"], 69)
    );
}

#[test]
fn unexpected_token_after_a_name() {
    assert_eq!(
        compile("main() { x + 1; }", "t.b"),
        exit(&["t.b:1:12: ERROR: unexpected token ``+``\n"], 69)
    );
}

#[test]
fn missing_parenthesis_exits_with_status_one() {
    assert_eq!(
        compile("main( { }", "t.b"),
        exit(&["t.b:1:7: ERROR: expected `)`, but got `{`"], 1)
    );
}

#[test]
fn function_name_must_be_an_identifier() {
    assert_eq!(
        compile("\n  42() {}", "src/x.b"),
        exit(&["src/x.b:2:3: ERROR: expected ClexId, but got ClexIntlit"], 1)
    );
}

#[test]
fn missing_semicolon_after_extrn() {
    assert_eq!(
        compile("main() { extrn f }", "t.b"),
        exit(&["t.b:1:18: ERROR: expected `;`, but got `}`"], 1)
    );
}

#[test]
fn end_of_input_where_a_token_is_required_panics() {
    assert_eq!(compile("main() { x", "t.b"), Err(CompileError::Panic));
    assert_eq!(compile("main() { extrn", "t.b"), Err(CompileError::Panic));
    assert_eq!(compile("main() { f(", "t.b"), Err(CompileError::Panic));
}

#[test]
fn nul_byte_in_the_input_panics() {
    assert_eq!(compile("main() {}\0", "t.b"), Err(CompileError::Panic));
}
