use super::lexer::{inert_char, lex_spec, Lexer};
use super::parser::{
    exec_spec, lemma_exec_spec_safe, lemma_parse_output_no_parens, parse_spec, plan_safe_from,
    EvalOp, Op, PError, ParseError, Parser,
};
use vstd::prelude::*;

verus! {

/// What interpreting a text yields: an empty text is refused before anything
/// is scanned; otherwise the text is lexed, transformed to postfix order, and
/// checked into an evaluation plan.
pub open spec fn interpret_spec(s: Seq<char>) -> Result<Seq<Op>, PError> {
    if s.len() == 0 {
        Err(PError::ExpressionEmpty)
    } else {
        match parse_spec(lex_spec(s)) {
            Result::Err(e) => Err(e),
            Result::Ok(postfix) => exec_spec(postfix),
        }
    }
}

/// The front of the pipeline: owns the lexer and the parser and runs one text
/// through both.
pub struct Interpreter {
    lexer: Lexer,
    parser: Parser,
}

impl Interpreter {
    pub fn new() -> (r: Self) {
        Self { lexer: Lexer::new(), parser: Parser::new() }
    }

    /// Runs the whole pipeline on one expression and returns its checked
    /// evaluation plan, or the error that stopped it.
    pub fn interpret(&mut self, expression: &str) -> (r: Result<Vec<EvalOp>, ParseError>)
        ensures
            match interpret_spec(expression@) {
                Result::Ok(o) => r is Ok && r->Ok_0.deep_view() == o,
                Result::Err(e) => r is Err && r->Err_0@ == e,
            },
    {
        if expression.is_empty() {
            return Err(ParseError::ExpressionEmpty);
        }
        let token_stream = self.lexer.lex(expression);
        let token_queue = match self.parser.parse(token_stream) {
            Result::Ok(q) => q,
            Result::Err(e) => {
                return Err(e);
            },
        };
        let ghost postfix = parse_spec(lex_spec(expression@))->Ok_0;
        proof {
            assert(token_queue.deep_view().reverse() =~= postfix);
        }
        self.parser.execute(token_queue)
    }
}

/// A successful interpretation yields a stack-safe plan: folded in order
/// against an empty stack of numbers, every step finds the operands it pops.
pub proof fn lemma_plan_is_stack_safe(s: Seq<char>)
    requires
        interpret_spec(s) is Ok,
    ensures
        plan_safe_from(interpret_spec(s)->Ok_0, 0),
{
    lemma_parse_output_no_parens(lex_spec(s));
    lemma_exec_spec_safe(parse_spec(lex_spec(s))->Ok_0);
}

/// A sequence made only of carriage-return and newline characters.
pub open spec fn crlf_only(t: Seq<char>) -> bool {
    forall|k: int| 0 <= k < t.len() ==> #[trigger] t[k] == '\r' || t[k] == '\n'
}

/// Trailing carriage-return and newline characters never affect the result of
/// interpretation of a non-empty expression: stripping them before the call
/// is immaterial.
pub proof fn lemma_trailing_newlines_ignored(s: Seq<char>, t: Seq<char>)
    requires
        s.len() > 0,
        crlf_only(t),
    ensures
        interpret_spec(s + t) == interpret_spec(s),
{
    assert forall|k: int| 0 <= k < t.len() implies inert_char(#[trigger] t[k]) by {
        assert(t[k] == '\r' || t[k] == '\n');
    }
    super::lexer::lemma_lex_append_inert(s, t);
    assert((s + t).len() > 0);
}

} // verus!

