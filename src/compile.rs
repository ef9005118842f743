//! The whole pipeline: source text to instructions, or the first error
//! with its position in the source text.

use vstd::prelude::*;
use crate::token::{
    Lexeme, LexError, lex, tokens_of, tokenize_with_positions, token_views, lemma_lex_len,
};
use crate::parse::{
    NodeView, ParseError, MAX_TOKENS, parse_program, program, are_stmts, if_count_seq,
    lemma_program_wf,
};
use crate::codegen::{
    Instr, Label, gen_program, gen_program_code, label_count, lemma_program_labels_distinct,
};
use crate::machine::{
    MachineState, Stop, exec_program, frame, values_i32, main_result, steps, lemma_program_returns,
};

verus! {

/// Why a compilation failed.
#[derive(Clone, Copy, Debug, PartialEq, Eq, Structural)]
pub enum CompileError {
    /// A lexical error; it carries its own character position.
    Lex(LexError),
    /// A parse error, with the character position where the offending
    /// token starts (the length of the source at the end of input).
    Parse { error: ParseError, pos: usize },
}

/// The character position of a parse error: that of the token it names.
pub open spec fn error_pos(ls: Seq<Lexeme>, e: ParseError, len: int) -> int {
    match e {
        ParseError::UnexpectedToken { pos } => ls[pos as int].1,
        ParseError::UnmatchedDelimiter { pos } => ls[pos as int].1,
        ParseError::UnexpectedEndOfInput => len,
    }
}

/// Lexing, then parsing, then code generation; the first error stops it.
pub open spec fn compile_spec(s: Seq<char>) -> Result<Seq<Instr>, CompileError> {
    match lex(s) {
        Err(e) => Err(CompileError::Lex(e)),
        Ok(ls) => match parse_program(tokens_of(ls), 0, seq![]) {
            Err(e) => Err(CompileError::Parse { error: e, pos: error_pos(ls, e, s.len() as int) as usize }),
            Ok((stmts, _)) => Ok(gen_program_code(stmts, 0)),
        },
    }
}

/// Compiles `source` to the instructions of the body of `main`: the code of
/// each statement, followed by a discard of its value.
pub fn compile(source: &str) -> (r: Result<Vec<Instr>, CompileError>)
    requires
        source@.len() <= MAX_TOKENS,
    ensures
        match r {
            Ok(code) => compile_spec(source@) == Ok::<Seq<Instr>, CompileError>(code@),
            Err(e) => compile_spec(source@) == Err::<Seq<Instr>, CompileError>(e),
        },
{
    let (tokens, positions) = match tokenize_with_positions(source) {
        Ok(x) => x,
        Err(e) => {
            return Err(CompileError::Lex(e));
        },
    };
    let ghost ls = lex(source@)->Ok_0;
    assert(token_views(tokens@) =~= tokens_of(ls));
    match program(&tokens) {
        Ok(stmts) => Ok(gen_program(&stmts)),
        Err(e) => {
            let pos = match e {
                ParseError::UnexpectedToken { pos } => positions[pos],
                ParseError::UnmatchedDelimiter { pos } => positions[pos],
                ParseError::UnexpectedEndOfInput => source.unicode_len(),
            };
            Err(CompileError::Parse { error: e, pos })
        },
    }
}

/// The statements that a source text that compiles parses to.
pub open spec fn parsed_program(src: Seq<char>) -> Seq<NodeView> {
    parse_program(tokens_of(lex(src)->Ok_0), 0, seq![])->Ok_0.0
}

/// A source text that compiles parses to well-formed statements, with at
/// most one `if` per character, and compiles to their code.
pub proof fn lemma_compiled_wf(src: Seq<char>)
    requires
        src.len() <= MAX_TOKENS,
        compile_spec(src) is Ok,
    ensures
        are_stmts(parsed_program(src)),
        if_count_seq(parsed_program(src)) <= src.len(),
        compile_spec(src)->Ok_0 == gen_program_code(parsed_program(src), 0),
{
    let ls = lex(src)->Ok_0;
    lemma_lex_len(src, 0);
    let t = tokens_of(ls);
    assert(t.len() == ls.len());
    lemma_program_wf(t, 0, seq![]);
}

/// No two `if` statements of a program share a label: the code compiled
/// from any source text defines each label at most once.
pub proof fn lemma_compiled_labels_distinct(src: Seq<char>, l: Label)
    requires
        src.len() <= MAX_TOKENS,
        compile_spec(src) is Ok,
    ensures
        label_count(compile_spec(src)->Ok_0, l) <= 1,
{
    lemma_compiled_wf(src);
    lemma_program_labels_distinct(parsed_program(src), l);
}

/// Running the code compiled from a source text, with the variables of
/// `env` in the frame, stops with what its program returns.
pub proof fn lemma_compiled_program_returns(src: Seq<char>, s: MachineState, env: Map<int, int>) -> (k: nat)
    requires
        src.len() <= MAX_TOKENS,
        compile_spec(src) is Ok,
        s.mem == frame(env, s.rbp),
        values_i32(env),
        exec_program(parsed_program(src), env, s.rax) is Some,
    ensures
        steps(compile_spec(src)->Ok_0, 0, s, k) == Err::<(int, MachineState), Stop>(
            Stop::Halt(main_result(exec_program(parsed_program(src), env, s.rax)->0)),
        ),
{
    lemma_compiled_wf(src);
    lemma_program_returns(parsed_program(src), s, env)
}

} // verus!
