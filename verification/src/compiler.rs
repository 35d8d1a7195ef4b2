//! Compilation of a B program into x86-64 assembly text (flat assembler syntax).
//!
//! A program is a sequence of functions `name() { ... }`.  Inside a function
//! the statements are `extrn f;`, `auto x;`, `x = <integer>;`, `f();` and
//! `f(x);`.  Each `auto` variable takes 8 bytes of the stack frame.

use vstd::prelude::*;

use crate::stb::{
    current_token, diag_text, expect_ident_spec, fresh_state, get_and_expect_spec,
    get_ident_spec, next_token, read_int_spec, token_text, Fail, LexError, LexToken, Lexer,
};
use crate::stb_c_lexer::{lemma_lex_next_progress, lex_next, remaining, LexState};
use crate::text::{decimal, push_decimal, push_signed_decimal, signed_decimal};
use vstd::string::StringSliceAdditionalSpecFns;

verus! {

/// A local variable and its offset below the frame pointer.
pub struct AutoVar {
    pub name: String,
    pub offset: usize,
}

/// The abstract form of a variable table: names and offsets.
pub open spec fn vars_view(vars: Seq<AutoVar>) -> Seq<(Seq<char>, nat)> {
    vars.map_values(|v: AutoVar| (v.name@, v.offset as nat))
}

/// Why a compilation stopped.
#[derive(Debug, PartialEq, Eq)]
pub enum CompileError {
    /// The program stops with a panic.
    Panic,
    /// Diagnostic lines to print before the program exits with the given status.
    Exit(Vec<String>, i32),
}

/// What a compilation comes to: the assembly text, a panic, or diagnostics
/// and an exit status.
pub enum Outcome {
    Output(Seq<char>),
    Panic,
    Exit(Seq<Seq<char>>, int),
}

pub open spec fn err_outcome(e: CompileError) -> Outcome {
    match e {
        CompileError::Panic => Outcome::Panic,
        CompileError::Exit(lines, code) => Outcome::Exit(
            lines@.map_values(|l: String| l@),
            code as int,
        ),
    }
}

pub open spec fn outcome_of(r: Result<String, CompileError>) -> Outcome {
    match r {
        Ok(s) => Outcome::Output(s@),
        Err(e) => err_outcome(e),
    }
}

/// A lexer failure as an outcome: a panic, or one diagnostic and status 1.
pub open spec fn fail_outcome(e: Fail) -> Outcome {
    match e {
        Fail::Panic => Outcome::Panic,
        Fail::Fatal(m) => Outcome::Exit(seq![m], 1),
    }
}

/// The offset of the first variable called `name`.
pub open spec fn find_var(vars: Seq<(Seq<char>, nat)>, name: Seq<char>) -> Option<nat>
    decreases vars.len(),
{
    if vars.len() == 0 {
        None
    } else if vars[0].0 == name {
        Some(vars[0].1)
    } else {
        find_var(vars.drop_first(), name)
    }
}

/// The start of the output.
pub open spec fn header() -> Seq<char> {
    "format ELF64\n"@ + "section \".text\" executable\n"@
}

/// The end of a function whose frame holds `offset` bytes of variables.
pub open spec fn epilogue(offset: nat) -> Seq<char> {
    "    add rsp, "@ + decimal(offset) + "\n"@ + "    pop rbp\n"@ + "    mov rax, 0\n"@
        + "    ret\n"@
}

/// One diagnostic line and exit status 69.
pub open spec fn error69(st: LexState, path: Seq<char>, msg: Seq<char>) -> Outcome {
    Outcome::Exit(seq![diag_text(st, path, msg)], 69)
}

/// The start of a function: reached the end of input, entered the body, or stopped.
pub enum Start {
    Done(Seq<char>),
    Body(LexState, Seq<char>),
    Stop(Outcome),
}

/// Reads `name() {` and writes the function's label and prologue.
pub open spec fn function_start(st: LexState, path: Seq<char>, out: Seq<char>) -> Start {
    let (t, st1) = next_token(st);
    if t is None {
        Start::Done(out)
    } else {
        match expect_ident_spec(st1, path) {
            Err(e) => Start::Stop(fail_outcome(e)),
            Ok(f) => {
                let out1 = out + "public "@ + f + "\n"@ + f + ":\n"@;
                let (r1, st2) = get_and_expect_spec(st1, path, LexToken::Char('('));
                let (r2, st3) = get_and_expect_spec(st2, path, LexToken::Char(')'));
                let (r3, st4) = get_and_expect_spec(st3, path, LexToken::Char('{'));
                if let Err(e) = r1 {
                    Start::Stop(fail_outcome(e))
                } else if let Err(e) = r2 {
                    Start::Stop(fail_outcome(e))
                } else if let Err(e) = r3 {
                    Start::Stop(fail_outcome(e))
                } else {
                    Start::Body(st4, out1 + "    push rbp\n"@ + "    mov rbp, rsp\n"@)
                }
            },
        }
    }
}

/// A statement: the body goes on, the function has ended (at `}` or at the
/// end of input), or compilation stopped.
pub enum Stmt {
    Continue(LexState, Seq<(Seq<char>, nat)>, nat, Seq<char>),
    Close(LexState, Seq<char>),
    Stop(Outcome),
}

/// `extrn f;` once `extrn` has been read.
pub open spec fn extrn_statement(
    st: LexState,
    path: Seq<char>,
    vars: Seq<(Seq<char>, nat)>,
    offset: nat,
    out: Seq<char>,
) -> Stmt {
    let (r, st2) = get_ident_spec(st, path);
    match r {
        Err(e) => Stmt::Stop(fail_outcome(e)),
        Ok(f) => {
            let (r2, st3) = get_and_expect_spec(st2, path, LexToken::Char(';'));
            match r2 {
                Err(e) => Stmt::Stop(fail_outcome(e)),
                Ok(()) => Stmt::Continue(st3, vars, offset, out + "    extrn "@ + f + "\n"@),
            }
        },
    }
}

/// `auto x;` once `auto` has been read: a new variable 8 bytes further down.
pub open spec fn auto_statement(
    st: LexState,
    path: Seq<char>,
    vars: Seq<(Seq<char>, nat)>,
    offset: nat,
    out: Seq<char>,
) -> Stmt {
    let (r, st2) = get_ident_spec(st, path);
    match r {
        Err(e) => Stmt::Stop(fail_outcome(e)),
        Ok(v) => {
            let off = offset + 8;
            if off > usize::MAX {
                Stmt::Stop(Outcome::Panic)
            } else if find_var(vars, v) is Some {
                Stmt::Stop(
                    Outcome::Exit(
                        seq![
                            diag_text(st2, path, "ERROR: redefinition of variable `"@ + v + "`"@),
                            diag_text(st2, path, "NOTE: the first declaration is located here"@),
                        ],
                        69,
                    ),
                )
            } else {
                let (r2, st3) = get_and_expect_spec(st2, path, LexToken::Char(';'));
                match r2 {
                    Err(e) => Stmt::Stop(fail_outcome(e)),
                    Ok(()) => Stmt::Continue(
                        st3,
                        vars.push((v, off)),
                        off,
                        out + "    sub rsp, 8\n"@,
                    ),
                }
            }
        },
    }
}

/// `x = <integer>;` once `=` has been read after `x`.
pub open spec fn assign_statement(
    st: LexState,
    path: Seq<char>,
    name: Seq<char>,
    vars: Seq<(Seq<char>, nat)>,
    offset: nat,
    out: Seq<char>,
) -> Stmt {
    match find_var(vars, name) {
        None => Stmt::Stop(
            error69(st, path, "ERROR: could not find variable `"@ + name + "`"@),
        ),
        Some(off) => {
            let st3 = lex_next(st).1;
            match read_int_spec(st3) {
                None => Stmt::Stop(error69(st3, path, "ERROR: Non-integer type detected"@)),
                Some(num) => {
                    let (r, st4) = get_and_expect_spec(st3, path, LexToken::Char(';'));
                    match r {
                        Err(e) => Stmt::Stop(fail_outcome(e)),
                        Ok(()) => Stmt::Continue(
                            st4,
                            vars,
                            offset,
                            out + "    mov QWORD [rbp-"@ + decimal(off) + "], "@ + signed_decimal(
                                num as int,
                            ) + "\n"@,
                        ),
                    }
                },
            }
        },
    }
}

/// `f();` or `f(x);` once `(` has been read after `f`.
pub open spec fn call_statement(
    st: LexState,
    path: Seq<char>,
    name: Seq<char>,
    vars: Seq<(Seq<char>, nat)>,
    offset: nat,
    out: Seq<char>,
) -> Stmt {
    let (t3, st3) = next_token(st);
    match t3 {
        None => Stmt::Stop(Outcome::Panic),
        Some(t3) => if t3 == LexToken::Char(')') {
            let (r, st4) = get_and_expect_spec(st3, path, LexToken::Char(';'));
            match r {
                Err(e) => Stmt::Stop(fail_outcome(e)),
                Ok(()) => Stmt::Continue(st4, vars, offset, out + "    call "@ + name + "\n"@),
            }
        } else {
            match expect_ident_spec(st3, path) {
                Err(e) => Stmt::Stop(fail_outcome(e)),
                Ok(arg) => match find_var(vars, arg) {
                    None => Stmt::Stop(
                        error69(st3, path, "ERROR: could not find variable `"@ + name + "`"@),
                    ),
                    Some(off) => {
                        let (r, st4) = get_and_expect_spec(st3, path, LexToken::Char(')'));
                        let (r2, st5) = get_and_expect_spec(st4, path, LexToken::Char(';'));
                        if let Err(e) = r {
                            Stmt::Stop(fail_outcome(e))
                        } else if let Err(e) = r2 {
                            Stmt::Stop(fail_outcome(e))
                        } else {
                            Stmt::Continue(
                                st5,
                                vars,
                                offset,
                                out + "    mov rdi, [rbp-"@ + decimal(off) + "]\n"@ + "    call "@
                                    + name + "\n"@,
                            )
                        }
                    },
                },
            }
        },
    }
}

/// A statement that starts with the name `name` (neither `extrn` nor `auto`).
pub open spec fn name_statement(
    st: LexState,
    path: Seq<char>,
    name: Seq<char>,
    vars: Seq<(Seq<char>, nat)>,
    offset: nat,
    out: Seq<char>,
) -> Stmt {
    let (t2, st2) = next_token(st);
    match t2 {
        None => Stmt::Stop(Outcome::Panic),
        Some(t2) => if t2 == LexToken::Char('=') {
            assign_statement(st2, path, name, vars, offset, out)
        } else if t2 == LexToken::Char('(') {
            call_statement(st2, path, name, vars, offset, out)
        } else {
            Stmt::Stop(
                error69(st2, path, "ERROR: unexpected token `"@ + token_text(t2) + "`\n"@),
            )
        },
    }
}

/// One step of a function body.
pub open spec fn statement(
    st: LexState,
    path: Seq<char>,
    vars: Seq<(Seq<char>, nat)>,
    offset: nat,
    out: Seq<char>,
) -> Stmt {
    let (t, st1) = next_token(st);
    match t {
        None => Stmt::Close(st1, out),
        Some(tk) => if tk == LexToken::Char('}') {
            Stmt::Close(st1, out + epilogue(offset))
        } else {
            match expect_ident_spec(st1, path) {
                Err(e) => Stmt::Stop(fail_outcome(e)),
                Ok(name) => if name == "extrn"@ {
                    extrn_statement(st1, path, vars, offset, out)
                } else if name == "auto"@ {
                    auto_statement(st1, path, vars, offset, out)
                } else {
                    name_statement(st1, path, name, vars, offset, out)
                },
            }
        },
    }
}

/// Reading a token never leaves more input than before, and leaves less when
/// it reads one.
pub proof fn lemma_progress()
    ensures
        forall|st: LexState|
            0 <= st.parse_point ==> {
                &&& (#[trigger] lex_next(st)).1.input == st.input
                &&& lex_next(st).1.parse_point >= st.parse_point
                &&& remaining(lex_next(st).1) <= remaining(st)
                &&& lex_next(st).0 ==> remaining(lex_next(st).1) < remaining(st)
            },
{
    assert forall|st: LexState| 0 <= st.parse_point implies {
        &&& (#[trigger] lex_next(st)).1.input == st.input
        &&& lex_next(st).1.parse_point >= st.parse_point
        &&& remaining(lex_next(st).1) <= remaining(st)
        &&& lex_next(st).0 ==> remaining(lex_next(st).1) < remaining(st)
    } by {
        lemma_lex_next_progress(st);
    }
}

/// A statement that goes on consumes input; one that ends the function
/// consumes no more than it has.
pub proof fn lemma_statement_progress(
    st: LexState,
    path: Seq<char>,
    vars: Seq<(Seq<char>, nat)>,
    offset: nat,
    out: Seq<char>,
)
    requires
        0 <= st.parse_point,
    ensures
        match statement(st, path, vars, offset, out) {
            Stmt::Continue(st2, _, _, _) => remaining(st2) < remaining(st) && st2.input == st.input
                && st2.parse_point >= 0,
            Stmt::Close(st2, _) => remaining(st2) <= remaining(st) && st2.input == st.input
                && st2.parse_point >= 0,
            Stmt::Stop(_) => true,
        },
{
    lemma_progress();
}

/// The start of a function that enters its body consumes input.
pub proof fn lemma_function_start_progress(st: LexState, path: Seq<char>, out: Seq<char>)
    requires
        0 <= st.parse_point,
    ensures
        match function_start(st, path, out) {
            Start::Body(st2, _) => remaining(st2) < remaining(st) && st2.input == st.input
                && st2.parse_point >= 0,
            _ => true,
        },
{
    lemma_progress();
}

/// The rest of a program from the start of a function.
pub open spec fn program(st: LexState, path: Seq<char>, out: Seq<char>) -> Outcome
    decreases remaining(st), 0int,
{
    if st.parse_point < 0 {
        Outcome::Panic
    } else {
        proof {
            lemma_function_start_progress(st, path, out);
        }
        match function_start(st, path, out) {
            Start::Done(o) => Outcome::Output(o),
            Start::Stop(o) => o,
            Start::Body(st2, o) => body(st2, path, Seq::empty(), 0, o),
        }
    }
}

/// The rest of a program from a statement in a function body.
pub open spec fn body(
    st: LexState,
    path: Seq<char>,
    vars: Seq<(Seq<char>, nat)>,
    offset: nat,
    out: Seq<char>,
) -> Outcome
    decreases remaining(st), 1int,
{
    if st.parse_point < 0 {
        Outcome::Panic
    } else {
        proof {
            lemma_statement_progress(st, path, vars, offset, out);
        }
        match statement(st, path, vars, offset, out) {
            Stmt::Continue(st2, vars2, offset2, o) => body(st2, path, vars2, offset2, o),
            Stmt::Close(st2, o) => program(st2, path, o),
            Stmt::Stop(o) => o,
        }
    }
}

/// What compiling `input` (read from `path`) comes to.  A text with a NUL
/// byte cannot be lexed and stops with a panic.
pub open spec fn compile_spec(input: Seq<u8>, path: Seq<char>) -> Outcome {
    if input.contains(0u8) {
        Outcome::Panic
    } else {
        program(fresh_state(input), path, header())
    }
}


// ---------------------------------------------------------------------------
// The compiler
// ---------------------------------------------------------------------------

/// Whether an executed step agrees with the step `s` of the specification:
/// `Ok(true)` to go on, `Ok(false)` at the end of a function, an error to stop;
/// `st`, `vars`, `offset` and `out` are the state after the step.
pub open spec fn step_agrees(
    s: Stmt,
    r: Result<bool, CompileError>,
    st: LexState,
    vars: Seq<(Seq<char>, nat)>,
    offset: nat,
    out: Seq<char>,
) -> bool {
    match s {
        Stmt::Continue(st2, vars2, offset2, out2) => r == Ok::<bool, CompileError>(true) && st
            == st2 && vars == vars2 && offset == offset2 && out == out2,
        Stmt::Close(st2, out2) => r == Ok::<bool, CompileError>(false) && st == st2 && out == out2,
        Stmt::Stop(o) => r is Err && err_outcome(r->Err_0) == o,
    }
}

fn fail(e: LexError) -> (r: CompileError)
    ensures
        err_outcome(r) == fail_outcome(e@),
{
    match e {
        LexError::Panic => CompileError::Panic,
        LexError::Fatal(m) => {
            let ghost mv = m@;
            let mut lines: Vec<String> = Vec::new();
            lines.push(m);
            assert(lines@.map_values(|l: String| l@) =~= seq![mv]);
            CompileError::Exit(lines, 1)
        },
    }
}

/// One diagnostic for the current token, and exit status 69.
fn error_69(l: &Lexer, msg: &str) -> (r: CompileError)
    requires
        l.wf(),
    ensures
        err_outcome(r) == error69(l.state(), l.path(), msg@),
{
    let d = l.diag(msg);
    let ghost dv = d@;
    let mut lines: Vec<String> = Vec::new();
    lines.push(d);
    assert(lines@.map_values(|l: String| l@) =~= seq![dv]);
    CompileError::Exit(lines, 69)
}

/// The offset of the first variable called `name`.
fn lookup(vars: &Vec<AutoVar>, name: &String) -> (r: Option<usize>)
    ensures
        match r {
            Some(o) => find_var(vars_view(vars@), name@) == Some(o as nat),
            None => find_var(vars_view(vars@), name@) is None,
        },
{
    let ghost vv = vars_view(vars@);
    let mut i: usize = 0;
    assert(vv.skip(0) =~= vv);
    while i < vars.len()
        invariant
            i <= vars.len(),
            vv == vars_view(vars@),
            find_var(vv.skip(i as int), name@) == find_var(vv, name@),
        decreases vars.len() - i,
    {
        assert(vv.skip(i as int)[0] == vv[i as int]);
        assert(vv.skip(i as int).drop_first() =~= vv.skip(i + 1));
        if vars[i].name == *name {
            return Some(vars[i].offset);
        }
        i = i + 1;
    }
    assert(vv.skip(i as int).len() == 0);
    None
}

/// Reads `name() {` and writes the label and the prologue: `Ok(false)` at
/// the end of input, `Ok(true)` in the body.
fn start_function(l: &mut Lexer, out: &mut String) -> (r: Result<bool, CompileError>)
    requires
        old(l).wf(),
    ensures
        final(l).wf(),
        final(l).path() == old(l).path(),
        match function_start(old(l).state(), old(l).path(), old(out)@) {
            Start::Done(o) => r == Ok::<bool, CompileError>(false) && final(out)@ == o,
            Start::Body(st, o) => r == Ok::<bool, CompileError>(true) && final(l).state() == st
                && final(out)@ == o,
            Start::Stop(oc) => r is Err && err_outcome(r->Err_0) == oc,
        },
{
    let ghost out0 = out@;
    if l.get_token().is_none() {
        return Ok(false);
    }
    let func_name = match l.expect_ident() {
        Ok(n) => n,
        Err(e) => return Err(fail(e)),
    };
    out.append("public ");
    out.append(func_name.as_str());
    out.append("\n");
    out.append(func_name.as_str());
    out.append(":\n");
    let ghost out1 = out@;
    assert(out1 =~= out0 + "public "@ + func_name@ + "\n"@ + func_name@ + ":\n"@);
    if let Err(e) = l.get_char('(') {
        return Err(fail(e));
    }
    if let Err(e) = l.get_char(')') {
        return Err(fail(e));
    }
    if let Err(e) = l.get_char('{') {
        return Err(fail(e));
    }
    out.append("    push rbp\n");
    out.append("    mov rbp, rsp\n");
    assert(out@ =~= out1 + "    push rbp\n"@ + "    mov rbp, rsp\n"@);
    Ok(true)
}

/// `extrn f;` once `extrn` has been read.
fn extrn_step(l: &mut Lexer, vars: &mut Vec<AutoVar>, offset: &mut usize, out: &mut String) -> (r:
    Result<bool, CompileError>)
    requires
        old(l).wf(),
    ensures
        final(l).wf(),
        final(l).path() == old(l).path(),
        step_agrees(
            extrn_statement(
                old(l).state(),
                old(l).path(),
                vars_view(old(vars)@),
                *old(offset) as nat,
                old(out)@,
            ),
            r,
            final(l).state(),
            vars_view(final(vars)@),
            *final(offset) as nat,
            final(out)@,
        ),
{
    if !l.has_token() {
        return Err(CompileError::Panic);
    }
    let extern_fn = match l.get_ident() {
        Ok(f) => f,
        Err(e) => return Err(fail(e)),
    };
    let ghost out0 = out@;
    out.append("    extrn ");
    out.append(extern_fn.as_str());
    out.append("\n");
    assert(out@ =~= out0 + "    extrn "@ + extern_fn@ + "\n"@);
    if let Err(e) = l.get_char(';') {
        return Err(fail(e));
    }
    Ok(true)
}

/// `auto x;` once `auto` has been read.
fn auto_step(l: &mut Lexer, vars: &mut Vec<AutoVar>, offset: &mut usize, out: &mut String) -> (r:
    Result<bool, CompileError>)
    requires
        old(l).wf(),
    ensures
        final(l).wf(),
        final(l).path() == old(l).path(),
        step_agrees(
            auto_statement(
                old(l).state(),
                old(l).path(),
                vars_view(old(vars)@),
                *old(offset) as nat,
                old(out)@,
            ),
            r,
            final(l).state(),
            vars_view(final(vars)@),
            *final(offset) as nat,
            final(out)@,
        ),
{
    if !l.has_token() {
        return Err(CompileError::Panic);
    }
    let name = match l.get_ident() {
        Ok(v) => v,
        Err(e) => return Err(fail(e)),
    };
    if *offset > usize::MAX - 8 {
        return Err(CompileError::Panic);
    }
    *offset = *offset + 8;
    if lookup(vars, &name).is_some() {
        let mut msg = String::from_str("ERROR: redefinition of variable `");
        msg.append(name.as_str());
        msg.append("`");
        let first = l.diag(msg.as_str());
        let second = l.diag("NOTE: the first declaration is located here");
        let ghost lines_view = seq![first@, second@];
        let mut lines: Vec<String> = Vec::new();
        lines.push(first);
        lines.push(second);
        assert(lines@.map_values(|l: String| l@) =~= lines_view);
        return Err(CompileError::Exit(lines, 69));
    }
    let ghost vars0 = vars@;
    vars.push(AutoVar { name, offset: *offset });
    assert(vars_view(vars@) =~= vars_view(vars0).push((name@, *offset as nat)));
    out.append("    sub rsp, 8\n");
    if let Err(e) = l.get_char(';') {
        return Err(fail(e));
    }
    Ok(true)
}

/// `x = <integer>;` once `=` has been read after `x`.
fn assign_step(
    l: &mut Lexer,
    name: &String,
    vars: &mut Vec<AutoVar>,
    offset: &mut usize,
    out: &mut String,
) -> (r: Result<bool, CompileError>)
    requires
        old(l).wf(),
    ensures
        final(l).wf(),
        final(l).path() == old(l).path(),
        step_agrees(
            assign_statement(
                old(l).state(),
                old(l).path(),
                name@,
                vars_view(old(vars)@),
                *old(offset) as nat,
                old(out)@,
            ),
            r,
            final(l).state(),
            vars_view(final(vars)@),
            *final(offset) as nat,
            final(out)@,
        ),
{
    let var_offset = match lookup(vars, name) {
        Some(o) => o,
        None => {
            let mut msg = String::from_str("ERROR: could not find variable `");
            msg.append(name.as_str());
            msg.append("`");
            return Err(error_69(l, msg.as_str()));
        },
    };
    let _ = l.get_token();
    let num = match l.read_int() {
        Some(n) => n,
        None => return Err(error_69(l, "ERROR: Non-integer type detected")),
    };
    let ghost out0 = out@;
    out.append("    mov QWORD [rbp-");
    push_decimal(out, var_offset as u64);
    out.append("], ");
    push_signed_decimal(out, num);
    out.append("\n");
    assert(out@ =~= out0 + "    mov QWORD [rbp-"@ + decimal(var_offset as nat) + "], "@
        + signed_decimal(num as int) + "\n"@);
    if let Err(e) = l.get_char(';') {
        return Err(fail(e));
    }
    Ok(true)
}

/// `f();` or `f(x);` once `(` has been read after `f`.
fn call_step(
    l: &mut Lexer,
    name: &String,
    vars: &mut Vec<AutoVar>,
    offset: &mut usize,
    out: &mut String,
) -> (r: Result<bool, CompileError>)
    requires
        old(l).wf(),
    ensures
        final(l).wf(),
        final(l).path() == old(l).path(),
        step_agrees(
            call_statement(
                old(l).state(),
                old(l).path(),
                name@,
                vars_view(old(vars)@),
                *old(offset) as nat,
                old(out)@,
            ),
            r,
            final(l).state(),
            vars_view(final(vars)@),
            *final(offset) as nat,
            final(out)@,
        ),
{
    let token = match l.get_token() {
        Some(t) => t,
        None => return Err(CompileError::Panic),
    };
    let ghost out0 = out@;
    if token.is_char(')') {
        out.append("    call ");
        out.append(name.as_str());
        out.append("\n");
        assert(out@ =~= out0 + "    call "@ + name@ + "\n"@);
        if let Err(e) = l.get_char(';') {
            return Err(fail(e));
        }
        return Ok(true);
    }
    let l_string = match l.expect_ident() {
        Ok(s) => s,
        Err(e) => return Err(fail(e)),
    };
    let var_offset = match lookup(vars, &l_string) {
        Some(o) => o,
        None => {
            let mut msg = String::from_str("ERROR: could not find variable `");
            msg.append(name.as_str());
            msg.append("`");
            return Err(error_69(l, msg.as_str()));
        },
    };
    out.append("    mov rdi, [rbp-");
    push_decimal(out, var_offset as u64);
    out.append("]\n");
    out.append("    call ");
    out.append(name.as_str());
    out.append("\n");
    assert(out@ =~= out0 + "    mov rdi, [rbp-"@ + decimal(var_offset as nat) + "]\n"@ + "    call "@
        + name@ + "\n"@);
    if let Err(e) = l.get_char(')') {
        return Err(fail(e));
    }
    if let Err(e) = l.get_char(';') {
        return Err(fail(e));
    }
    Ok(true)
}

/// A statement that starts with the name `name`, neither `extrn` nor `auto`.
fn name_step(
    l: &mut Lexer,
    name: &String,
    vars: &mut Vec<AutoVar>,
    offset: &mut usize,
    out: &mut String,
) -> (r: Result<bool, CompileError>)
    requires
        old(l).wf(),
    ensures
        final(l).wf(),
        final(l).path() == old(l).path(),
        step_agrees(
            name_statement(
                old(l).state(),
                old(l).path(),
                name@,
                vars_view(old(vars)@),
                *old(offset) as nat,
                old(out)@,
            ),
            r,
            final(l).state(),
            vars_view(final(vars)@),
            *final(offset) as nat,
            final(out)@,
        ),
{
    let token = match l.get_token() {
        Some(t) => t,
        None => return Err(CompileError::Panic),
    };
    if token.is_char('=') {
        assign_step(l, name, vars, offset, out)
    } else if token.is_char('(') {
        call_step(l, name, vars, offset, out)
    } else {
        let mut msg = String::from_str("ERROR: unexpected token `");
        let text = token.to_text();
        msg.append(text.as_str());
        msg.append("`\n");
        Err(error_69(l, msg.as_str()))
    }
}

/// One statement of a function body: `Ok(true)` to go on, `Ok(false)` when
/// the function has ended.
fn statement_step(l: &mut Lexer, vars: &mut Vec<AutoVar>, offset: &mut usize, out: &mut String) -> (r:
    Result<bool, CompileError>)
    requires
        old(l).wf(),
    ensures
        final(l).wf(),
        final(l).path() == old(l).path(),
        step_agrees(
            statement(
                old(l).state(),
                old(l).path(),
                vars_view(old(vars)@),
                *old(offset) as nat,
                old(out)@,
            ),
            r,
            final(l).state(),
            vars_view(final(vars)@),
            *final(offset) as nat,
            final(out)@,
        ),
{
    let token = match l.get_token() {
        Some(t) => t,
        None => return Ok(false),
    };
    if token.is_char('}') {
        let ghost out0 = out@;
        out.append("    add rsp, ");
        push_decimal(out, *offset as u64);
        out.append("\n");
        out.append("    pop rbp\n");
        out.append("    mov rax, 0\n");
        out.append("    ret\n");
        assert(out@ =~= out0 + epilogue(*offset as nat));
        return Ok(false);
    }
    let name = match l.expect_ident() {
        Ok(n) => n,
        Err(e) => return Err(fail(e)),
    };
    if name == String::from_str("extrn") {
        extrn_step(l, vars, offset, out)
    } else if name == String::from_str("auto") {
        auto_step(l, vars, offset, out)
    } else {
        name_step(l, &name, vars, offset, out)
    }
}

/// Does `bytes` hold a NUL byte?
fn has_nul(bytes: &[u8]) -> (r: bool)
    ensures
        r == bytes@.contains(0u8),
{
    let mut i: usize = 0;
    while i < bytes.len()
        invariant
            i <= bytes@.len(),
            forall|j: int| 0 <= j < i ==> bytes@[j] != 0u8,
        decreases bytes@.len() - i,
    {
        if bytes[i] == 0 {
            return true;
        }
        i = i + 1;
    }
    false
}

/// Compiles the B program `input`, read from `input_path`, into assembly text.
pub fn compile(input: &str, input_path: &str) -> (r: Result<String, CompileError>)
    requires
        input.spec_bytes().len() + 8 <= usize::MAX,
    ensures
        outcome_of(r) == compile_spec(input.spec_bytes(), input_path@),
{
    if has_nul(input.as_bytes()) {
        return Err(CompileError::Panic);
    }
    let mut l = Lexer::new(input, input_path);
    let mut output = String::new();
    output.append("format ELF64\n");
    output.append("section \".text\" executable\n");
    assert(output@ =~= header());
    loop
        invariant
            l.wf(),
            l.path() == input_path@,
            l.state().parse_point >= 0,
            program(l.state(), l.path(), output@) == compile_spec(
                input.spec_bytes(),
                input_path@,
            ),
        decreases remaining(l.state()),
    {
        let ghost outer = remaining(l.state());
        let mut vars: Vec<AutoVar> = Vec::new();
        let mut vars_offset: usize = 0;
        proof {
            lemma_function_start_progress(l.state(), l.path(), output@);
        }
        match start_function(&mut l, &mut output) {
            Err(e) => return Err(e),
            Ok(false) => return Ok(output),
            Ok(true) => {},
        }
        assert(vars_view(vars@) =~= Seq::empty());
        loop
            invariant_except_break
                body(l.state(), l.path(), vars_view(vars@), vars_offset as nat, output@)
                    == compile_spec(input.spec_bytes(), input_path@),
            invariant
                l.wf(),
                l.path() == input_path@,
                l.state().parse_point >= 0,
                remaining(l.state()) < outer,
            ensures
                l.wf(),
                l.path() == input_path@,
                l.state().parse_point >= 0,
                remaining(l.state()) < outer,
                program(l.state(), l.path(), output@) == compile_spec(
                    input.spec_bytes(),
                    input_path@,
                ),
            decreases remaining(l.state()),
        {
            proof {
                lemma_statement_progress(
                    l.state(),
                    l.path(),
                    vars_view(vars@),
                    vars_offset as nat,
                    output@,
                );
            }
            match statement_step(&mut l, &mut vars, &mut vars_offset, &mut output) {
                Err(e) => return Err(e),
                Ok(true) => {},
                Ok(false) => break,
            }
        }
    }
}


// ---------------------------------------------------------------------------
// Laws
// ---------------------------------------------------------------------------

/// How a compilation ends, given the output written before: a successful
/// compilation keeps what was written and appends to it; a failed one
/// reports at least one diagnostic and exits with status 1 or 69, or panics.
pub open spec fn well_formed_outcome(o: Outcome, before: Seq<char>) -> bool {
    match o {
        Outcome::Output(text) => before.is_prefix_of(text),
        Outcome::Panic => true,
        Outcome::Exit(lines, code) => lines.len() >= 1 && (code == 1 || code == 69),
    }
}

/// What a statement's step may be: the output only grows, and a stop is a
/// panic or diagnostics with status 1 or 69.
pub open spec fn step_shape(s: Stmt, out: Seq<char>) -> bool {
    match s {
        Stmt::Continue(_, _, _, o) => out.is_prefix_of(o),
        Stmt::Close(_, o) => out.is_prefix_of(o),
        Stmt::Stop(oc) => oc !is Output && well_formed_outcome(oc, out),
    }
}

proof fn lemma_prefix_of_sum(a: Seq<char>, b: Seq<char>)
    ensures
        a.is_prefix_of(a + b),
{
    assert((a + b).subrange(0, a.len() as int) =~= a);
}

proof fn lemma_prefix_trans(a: Seq<char>, b: Seq<char>, c: Seq<char>)
    requires
        a.is_prefix_of(b),
        b.is_prefix_of(c),
    ensures
        a.is_prefix_of(c),
{
    assert(c.subrange(0, a.len() as int) =~= b.subrange(0, a.len() as int));
}

proof fn lemma_function_start_shape(st: LexState, path: Seq<char>, out: Seq<char>)
    ensures
        match function_start(st, path, out) {
            Start::Done(o) => o == out,
            Start::Body(_, o) => out.is_prefix_of(o),
            Start::Stop(oc) => oc !is Output && well_formed_outcome(oc, out),
        },
{
    let (t, st1) = next_token(st);
    if t is Some {
        if let Ok(f) = expect_ident_spec(st1, path) {
            let o = out + "public "@ + f + "\n"@ + f + ":\n"@ + "    push rbp\n"@
                + "    mov rbp, rsp\n"@;
            assert(o.subrange(0, out.len() as int) =~= out);
        }
    }
}

proof fn lemma_extrn_shape(
    st: LexState,
    path: Seq<char>,
    vars: Seq<(Seq<char>, nat)>,
    offset: nat,
    out: Seq<char>,
)
    ensures
        step_shape(extrn_statement(st, path, vars, offset, out), out),
{
    let (r, st2) = get_ident_spec(st, path);
    if let Ok(f) = r {
        let o = out + "    extrn "@ + f + "\n"@;
        assert(o.subrange(0, out.len() as int) =~= out);
    }
}

proof fn lemma_auto_shape(
    st: LexState,
    path: Seq<char>,
    vars: Seq<(Seq<char>, nat)>,
    offset: nat,
    out: Seq<char>,
)
    ensures
        step_shape(auto_statement(st, path, vars, offset, out), out),
{
    lemma_prefix_of_sum(out, "    sub rsp, 8\n"@);
}

proof fn lemma_assign_shape(
    st: LexState,
    path: Seq<char>,
    name: Seq<char>,
    vars: Seq<(Seq<char>, nat)>,
    offset: nat,
    out: Seq<char>,
)
    ensures
        step_shape(assign_statement(st, path, name, vars, offset, out), out),
{
    if let Some(off) = find_var(vars, name) {
        let st3 = lex_next(st).1;
        if let Some(num) = read_int_spec(st3) {
            let o = out + "    mov QWORD [rbp-"@ + decimal(off) + "], "@ + signed_decimal(num as int)
                + "\n"@;
            assert(o.subrange(0, out.len() as int) =~= out);
        }
    }
}

proof fn lemma_call_shape(
    st: LexState,
    path: Seq<char>,
    name: Seq<char>,
    vars: Seq<(Seq<char>, nat)>,
    offset: nat,
    out: Seq<char>,
)
    ensures
        step_shape(call_statement(st, path, name, vars, offset, out), out),
{
    let o1 = out + "    call "@ + name + "\n"@;
    assert(o1.subrange(0, out.len() as int) =~= out);
    let (t3, st3) = next_token(st);
    if let Ok(arg) = expect_ident_spec(st3, path) {
        if let Some(off) = find_var(vars, arg) {
            let o = out + "    mov rdi, [rbp-"@ + decimal(off) + "]\n"@ + "    call "@ + name
                + "\n"@;
            assert(o.subrange(0, out.len() as int) =~= out);
        }
    }
}

proof fn lemma_statement_shape(
    st: LexState,
    path: Seq<char>,
    vars: Seq<(Seq<char>, nat)>,
    offset: nat,
    out: Seq<char>,
)
    ensures
        step_shape(statement(st, path, vars, offset, out), out),
{
    lemma_prefix_of_sum(out, epilogue(offset));
    let (t, st1) = next_token(st);
    if let Ok(name) = expect_ident_spec(st1, path) {
        lemma_extrn_shape(st1, path, vars, offset, out);
        lemma_auto_shape(st1, path, vars, offset, out);
        let (t2, st2) = next_token(st1);
        lemma_assign_shape(st2, path, name, vars, offset, out);
        lemma_call_shape(st2, path, name, vars, offset, out);
    }
}

/// A successful compilation from the start of a function keeps what was
/// written before; a failed one gives at least one diagnostic and status 1
/// or 69, or a panic.
pub proof fn law_program_outcome(st: LexState, path: Seq<char>, out: Seq<char>)
    ensures
        well_formed_outcome(program(st, path, out), out),
    decreases remaining(st), 0int,
{
    if st.parse_point >= 0 {
        lemma_function_start_progress(st, path, out);
        lemma_function_start_shape(st, path, out);
        match function_start(st, path, out) {
            Start::Done(o) => {
                assert(out.subrange(0, out.len() as int) =~= out);
            },
            Start::Stop(o) => {},
            Start::Body(st2, o) => {
                law_body_outcome(st2, path, Seq::empty(), 0, o);
                if let Outcome::Output(text) = body(st2, path, Seq::empty(), 0, o) {
                    lemma_prefix_trans(out, o, text);
                }
            },
        }
    }
}

/// The same for the rest of a program from a statement in a function body.
pub proof fn law_body_outcome(
    st: LexState,
    path: Seq<char>,
    vars: Seq<(Seq<char>, nat)>,
    offset: nat,
    out: Seq<char>,
)
    ensures
        well_formed_outcome(body(st, path, vars, offset, out), out),
    decreases remaining(st), 1int,
{
    if st.parse_point >= 0 {
        lemma_statement_progress(st, path, vars, offset, out);
        lemma_statement_shape(st, path, vars, offset, out);
        match statement(st, path, vars, offset, out) {
            Stmt::Continue(st2, vars2, offset2, o) => {
                law_body_outcome(st2, path, vars2, offset2, o);
                if let Outcome::Output(text) = body(st2, path, vars2, offset2, o) {
                    lemma_prefix_trans(out, o, text);
                }
            },
            Stmt::Close(st2, o) => {
                law_program_outcome(st2, path, o);
                if let Outcome::Output(text) = program(st2, path, o) {
                    lemma_prefix_trans(out, o, text);
                }
            },
            Stmt::Stop(o) => {},
        }
    }
}

/// The assembly text of a successful compilation starts with the header;
/// a failed compilation reports at least one diagnostic and exits with
/// status 1 (an expected token is missing) or 69 (any other error), unless
/// it panics.
pub proof fn law_compile_outcome(input: Seq<u8>, path: Seq<char>)
    ensures
        well_formed_outcome(compile_spec(input, path), header()),
{
    if !input.contains(0u8) {
        law_program_outcome(fresh_state(input), path, header());
    }
}


/// The names in a variable table are pairwise different.
pub open spec fn names_distinct(vars: Seq<(Seq<char>, nat)>) -> bool {
    forall|i: int, j: int| 0 <= i < j < vars.len() ==> vars[i].0 != vars[j].0
}

proof fn lemma_find_var(vars: Seq<(Seq<char>, nat)>, name: Seq<char>)
    ensures
        find_var(vars, name) is Some <==> exists|i: int| 0 <= i < vars.len() && vars[i].0 == name,
    decreases vars.len(),
{
    if vars.len() > 0 {
        lemma_find_var(vars.drop_first(), name);
        if vars[0].0 != name {
            if exists|i: int| 0 <= i < vars.len() && vars[i].0 == name {
                let i = choose|i: int| 0 <= i < vars.len() && vars[i].0 == name;
                assert(vars.drop_first()[i - 1].0 == name);
            }
            if exists|i: int| 0 <= i < vars.drop_first().len() && vars.drop_first()[i].0 == name {
                let i = choose|i: int|
                    0 <= i < vars.drop_first().len() && vars.drop_first()[i].0 == name;
                assert(vars[i + 1].0 == name);
            }
        }
    }
}

/// `auto v;`, where `v` is the name of any variable declared earlier in the
/// function (not only the latest), stops compilation with the two
/// redefinition diagnostics, at `v`, and exit status 69.
pub proof fn law_redeclaration_stops(
    st: LexState,
    path: Seq<char>,
    vars: Seq<(Seq<char>, nat)>,
    offset: nat,
    out: Seq<char>,
    i: int,
)
    requires
        0 <= i < vars.len(),
        offset + 8 <= usize::MAX,
        next_token(st).0 is Some,
        next_token(st).0 != Some(LexToken::Char('}')),
        expect_ident_spec(next_token(st).1, path) == Ok::<Seq<char>, Fail>("auto"@),
        get_ident_spec(next_token(st).1, path).0 == Ok::<Seq<char>, Fail>(vars[i].0),
    ensures
        ({
            let st2 = get_ident_spec(next_token(st).1, path).1;
            let v = vars[i].0;
            statement(st, path, vars, offset, out) == Stmt::Stop(
                Outcome::Exit(
                    seq![
                        diag_text(st2, path, "ERROR: redefinition of variable `"@ + v + "`"@),
                        diag_text(st2, path, "NOTE: the first declaration is located here"@),
                    ],
                    69,
                ),
            )
        }),
{
    reveal_strlit("auto");
    reveal_strlit("extrn");
    assert("auto"@ != "extrn"@) by {
        assert("auto"@.len() != "extrn"@.len());
    }
    lemma_find_var(vars, vars[i].0);
}

/// A statement that goes on never declares a name twice: if the names of a
/// function's variables are different before it, they are after it.
pub proof fn law_statement_keeps_names_distinct(
    st: LexState,
    path: Seq<char>,
    vars: Seq<(Seq<char>, nat)>,
    offset: nat,
    out: Seq<char>,
)
    requires
        names_distinct(vars),
    ensures
        statement(st, path, vars, offset, out) matches Stmt::Continue(_, vars2, _, _)
            ==> names_distinct(vars2),
{
    let (t, st1) = next_token(st);
    if let Ok(name) = expect_ident_spec(st1, path) {
        let (r, st2) = get_ident_spec(st1, path);
        if let Ok(v) = r {
            lemma_find_var(vars, v);
            let vars2 = vars.push((v, offset + 8));
            if find_var(vars, v) is None {
                assert forall|a: int, b: int| 0 <= a < b < vars2.len() implies vars2[a].0
                    != vars2[b].0 by {
                    if b == vars.len() {
                        assert(vars2[a] == vars[a]);
                    }
                }
            }
        }
    }
}


/// The frame of a function: the `i`-th variable declared sits `8 * (i + 1)`
/// bytes below the frame pointer, and the frame holds `8` bytes per variable.
pub open spec fn frame_layout(vars: Seq<(Seq<char>, nat)>, offset: nat) -> bool {
    &&& offset == 8 * vars.len()
    &&& forall|i: int| 0 <= i < vars.len() ==> #[trigger] vars[i].1 == 8 * (i + 1)
}

/// Each statement keeps the frame layout: every `auto` gives the next 8
/// bytes below the frame pointer to the new variable, and no other
/// statement changes the variables or the frame size.
pub proof fn law_statement_keeps_frame(
    st: LexState,
    path: Seq<char>,
    vars: Seq<(Seq<char>, nat)>,
    offset: nat,
    out: Seq<char>,
)
    requires
        frame_layout(vars, offset),
    ensures
        statement(st, path, vars, offset, out) matches Stmt::Continue(_, vars2, offset2, _)
            ==> frame_layout(vars2, offset2),
{
    let (t, st1) = next_token(st);
    if let Ok(name) = expect_ident_spec(st1, path) {
        let (r, st2) = get_ident_spec(st1, path);
        if let Ok(v) = r {
            let vars2 = vars.push((v, offset + 8));
            assert forall|i: int| 0 <= i < vars2.len() implies #[trigger] vars2[i].1 == 8 * (i
                + 1) by {
                if i < vars.len() {
                    assert(vars2[i] == vars[i]);
                }
            }
        }
    }
}

} // verus!
