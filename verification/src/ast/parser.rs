use super::lexer::{spec_is_operator, spec_precedence, Tok, Token, TokenKind};
use std::collections::VecDeque;
use vstd::prelude::*;
use vstd::string::StringExecFns;

verus! {

/// Spec-level image of a parse error.
pub enum PError {
    MissingExpression,
    ParensMismatch,
    ExpressionEmpty,
    DivisionByZero,
    UnexpectedOperator(Tok),
}

/// An error surfaced by parsing or evaluation.
#[derive(Debug, PartialEq)]
pub enum ParseError {
    MissingExpression,
    ParensMismatch,
    ExpressionEmpty,
    DivisionByZero,
    UnexpectedOperator(TokenKind),
}

impl View for ParseError {
    type V = PError;

    open spec fn view(&self) -> PError {
        match self {
            ParseError::MissingExpression => PError::MissingExpression,
            ParseError::ParensMismatch => PError::ParensMismatch,
            ParseError::ExpressionEmpty => PError::ExpressionEmpty,
            ParseError::DivisionByZero => PError::DivisionByZero,
            ParseError::UnexpectedOperator(k) => PError::UnexpectedOperator(k@),
        }
    }
}

/// The name a token kind is reported under in error messages.
pub open spec fn spec_kind_name(t: Tok) -> Seq<char> {
    match t {
        Tok::Number(s) => ("Number(\""@ + s) + "\")"@,
        Tok::Plus => "Plus"@,
        Tok::Asterix => "Asterix"@,
        Tok::Minus => "Minus"@,
        Tok::Slash => "Slash"@,
        Tok::Power => "Power"@,
        Tok::Sin => "Sin"@,
        Tok::Cos => "Cos"@,
        Tok::Tan => "Tan"@,
        Tok::Pi => "Pi"@,
        Tok::Log => "Log"@,
        Tok::Identifier(s) => ("Identifier(\""@ + s) + "\")"@,
        Tok::OpenParen => "OpenParen"@,
        Tok::CloseParen => "CloseParen"@,
    }
}

/// The human-readable message of each error.
pub open spec fn spec_message(e: PError) -> Seq<char> {
    match e {
        PError::MissingExpression => "Expression is incomplete!"@,
        PError::ParensMismatch => "Parenthesis not closed or never opened!"@,
        PError::ExpressionEmpty => "Expression can not be empty"@,
        PError::DivisionByZero => "Can not divide by 0"@,
        PError::UnexpectedOperator(t) => ("Unexpected operator: `"@ + spec_kind_name(t)) + "`"@,
    }
}

fn kind_name(k: &TokenKind) -> (r: String)
    ensures
        r@ == spec_kind_name(k@),
{
    match k {
        TokenKind::Number(s) => String::from_str("Number(\"").concat(s.as_str()).concat("\")"),
        TokenKind::Plus => String::from_str("Plus"),
        TokenKind::Asterix => String::from_str("Asterix"),
        TokenKind::Minus => String::from_str("Minus"),
        TokenKind::Slash => String::from_str("Slash"),
        TokenKind::Power => String::from_str("Power"),
        TokenKind::Sin => String::from_str("Sin"),
        TokenKind::Cos => String::from_str("Cos"),
        TokenKind::Tan => String::from_str("Tan"),
        TokenKind::Pi => String::from_str("Pi"),
        TokenKind::Log => String::from_str("Log"),
        TokenKind::Identifier(s) => String::from_str("Identifier(\"").concat(s.as_str()).concat(
            "\")",
        ),
        TokenKind::OpenParen => String::from_str("OpenParen"),
        TokenKind::CloseParen => String::from_str("CloseParen"),
    }
}

impl ParseError {
    pub fn message(&self) -> (r: String)
        ensures
            r@ == spec_message(self@),
    {
        match self {
            ParseError::MissingExpression => String::from_str("Expression is incomplete!"),
            ParseError::ParensMismatch => String::from_str(
                "Parenthesis not closed or never opened!",
            ),
            ParseError::ExpressionEmpty => String::from_str("Expression can not be empty"),
            ParseError::DivisionByZero => String::from_str("Can not divide by 0"),
            ParseError::UnexpectedOperator(op) => String::from_str("Unexpected operator: `")
                .concat(kind_name(op).as_str()).concat("`"),
        }
    }
}

/// The grouping rewrite: each unary function is wrapped with its following
/// token as `( f arg )`, and each power expression re-emits the token before
/// it as `( base ^ exponent )`; a function, or a power sign, without the
/// tokens it needs is a missing expression.
pub open spec fn group_rec(ts: Seq<Tok>, i: int, out: Seq<Tok>) -> Result<Seq<Tok>, PError>
    decreases ts.len() - i,
{
    if i >= ts.len() {
        Ok(out)
    } else {
        match ts[i] {
            Tok::Sin | Tok::Cos | Tok::Tan | Tok::Log => if i + 1 >= ts.len() {
                Err(PError::MissingExpression)
            } else {
                group_rec(
                    ts,
                    i + 2,
                    out + seq![Tok::OpenParen, ts[i], ts[i + 1], Tok::CloseParen],
                )
            },
            Tok::Power => if out.len() == 0 || i + 1 >= ts.len() {
                Err(PError::MissingExpression)
            } else {
                group_rec(
                    ts,
                    i + 2,
                    out.drop_last() + seq![
                        Tok::OpenParen,
                        out.last(),
                        Tok::Power,
                        ts[i + 1],
                        Tok::CloseParen,
                    ],
                )
            },
            _ => group_rec(ts, i + 1, out.push(ts[i])),
        }
    }
}

pub open spec fn group_spec(ts: Seq<Tok>) -> Result<Seq<Tok>, PError> {
    group_rec(ts, 0, Seq::empty())
}

/// The sign normalization: `- -` collapses to `+`, `+ -` to `-`, a sign
/// followed by `+` is an unexpected operator, and a sign with nothing after
/// it is a missing expression.
pub open spec fn sign_rec(ts: Seq<Tok>, i: int, out: Seq<Tok>) -> Result<Seq<Tok>, PError>
    decreases ts.len() - i,
{
    if i >= ts.len() {
        Ok(out)
    } else {
        match ts[i] {
            Tok::Minus => if i + 1 >= ts.len() {
                Err(PError::MissingExpression)
            } else if ts[i + 1] is Minus {
                sign_rec(ts, i + 2, out.push(Tok::Plus))
            } else if ts[i + 1] is Plus {
                Err(PError::UnexpectedOperator(Tok::Plus))
            } else {
                sign_rec(ts, i + 1, out.push(Tok::Minus))
            },
            Tok::Plus => if i + 1 >= ts.len() {
                Err(PError::MissingExpression)
            } else if ts[i + 1] is Minus {
                sign_rec(ts, i + 2, out.push(Tok::Minus))
            } else if ts[i + 1] is Plus {
                Err(PError::UnexpectedOperator(Tok::Plus))
            } else {
                sign_rec(ts, i + 1, out.push(Tok::Plus))
            },
            _ => sign_rec(ts, i + 1, out.push(ts[i])),
        }
    }
}

pub open spec fn sign_spec(ts: Seq<Tok>) -> Result<Seq<Tok>, PError> {
    sign_rec(ts, 0, Seq::empty())
}

/// Pops operators with precedence at least `p` off the stack into the output,
/// stopping at an open parenthesis.
pub open spec fn pop_ge(stack: Seq<Tok>, out: Seq<Tok>, p: nat) -> (Seq<Tok>, Seq<Tok>)
    decreases stack.len(),
{
    if stack.len() == 0 || stack.last() is OpenParen || spec_precedence(stack.last()) < p {
        (stack, out)
    } else {
        pop_ge(stack.drop_last(), out.push(stack.last()), p)
    }
}

/// Pops operators into the output until an open parenthesis is found and
/// discarded; `None` when the stack runs out first.
pub open spec fn pop_to_open(stack: Seq<Tok>, out: Seq<Tok>) -> Option<(Seq<Tok>, Seq<Tok>)>
    decreases stack.len(),
{
    if stack.len() == 0 {
        None
    } else if stack.last() is OpenParen {
        Some((stack.drop_last(), out))
    } else {
        pop_to_open(stack.drop_last(), out.push(stack.last()))
    }
}

/// Drains the stack into the output at the end of the input; an open
/// parenthesis still on the stack was never closed.
pub open spec fn drain_stack(stack: Seq<Tok>, out: Seq<Tok>) -> Result<Seq<Tok>, PError>
    decreases stack.len(),
{
    if stack.len() == 0 {
        Ok(out)
    } else if stack.last() is OpenParen {
        Err(PError::ParensMismatch)
    } else {
        drain_stack(stack.drop_last(), out.push(stack.last()))
    }
}

/// The shunting-yard conversion itself, with the output kept in emission
/// order: the position in which a token is emitted is the position in which
/// the evaluator consumes it.
pub open spec fn sy_rec(ts: Seq<Tok>, i: int, stack: Seq<Tok>, out: Seq<Tok>) -> Result<
    Seq<Tok>,
    PError,
>
    decreases ts.len() - i,
{
    if i >= ts.len() {
        drain_stack(stack, out)
    } else {
        let t = ts[i];
        if t is Number {
            sy_rec(ts, i + 1, stack, out.push(t))
        } else if spec_is_operator(t) {
            let so = pop_ge(stack, out, spec_precedence(t));
            sy_rec(ts, i + 1, so.0.push(t), so.1)
        } else if t is OpenParen {
            sy_rec(ts, i + 1, stack.push(t), out)
        } else if t is CloseParen {
            match pop_to_open(stack, out) {
                Option::None => Err(PError::ParensMismatch),
                Option::Some(so) => sy_rec(ts, i + 1, so.0, so.1),
            }
        } else {
            sy_rec(ts, i + 1, stack, out)
        }
    }
}

pub open spec fn shunting_spec(ts: Seq<Tok>) -> Result<Seq<Tok>, PError> {
    sy_rec(ts, 0, Seq::empty(), Seq::empty())
}

/// The whole transformer: grouping rewrite, then sign normalization, then the
/// shunting-yard conversion.
pub open spec fn parse_spec(ts: Seq<Tok>) -> Result<Seq<Tok>, PError> {
    match group_spec(ts) {
        Result::Err(e) => Err(e),
        Result::Ok(g) => match sign_spec(g) {
            Result::Err(e) => Err(e),
            Result::Ok(b) => shunting_spec(b),
        },
    }
}

/// Spec-level image of an evaluation step.
pub enum Op {
    PushNumber(Seq<char>),
    PushPi,
    Sin,
    Cos,
    Tan,
    Log,
    Add,
    Sub,
    Mul,
    Div,
    Pow,
}

/// One step of the checked evaluation plan, consumed in order against a stack
/// of numbers. `PushNumber` pushes the value its literal text denotes and
/// `PushPi` pushes the circle constant. The four unary steps replace the top
/// of the stack with the sine, cosine, tangent, or base-10 logarithm of it.
/// A binary step pops `x`, then pops `y`, and pushes: for `Add` the sum
/// `y + x`; for `Sub` the difference `y - x`; for `Mul` the product `y * x`;
/// for `Div` the quotient `y / x`, which is a division-by-zero error when `x`
/// equals exactly zero; for `Pow` the power `y` raised to `x`. The plan is
/// checked: every step finds the operands it pops, and the final result is
/// the value left on top, or zero when the plan is empty and leaves none.
#[derive(Debug, Clone, PartialEq)]
pub enum EvalOp {
    PushNumber(String),
    PushPi,
    Sin,
    Cos,
    Tan,
    Log,
    Add,
    Sub,
    Mul,
    Div,
    Pow,
}

impl View for EvalOp {
    type V = Op;

    open spec fn view(&self) -> Op {
        match self {
            EvalOp::PushNumber(s) => Op::PushNumber(s@),
            EvalOp::PushPi => Op::PushPi,
            EvalOp::Sin => Op::Sin,
            EvalOp::Cos => Op::Cos,
            EvalOp::Tan => Op::Tan,
            EvalOp::Log => Op::Log,
            EvalOp::Add => Op::Add,
            EvalOp::Sub => Op::Sub,
            EvalOp::Mul => Op::Mul,
            EvalOp::Div => Op::Div,
            EvalOp::Pow => Op::Pow,
        }
    }
}

impl DeepView for EvalOp {
    type V = Op;

    open spec fn deep_view(&self) -> Op {
        self.view()
    }
}

/// Walks a postfix sequence in evaluation order, tracking the depth of the
/// number stack: numbers and `pi` push one value, a unary function keeps the
/// depth, a binary operator needs two operands and leaves one, and an
/// identifier is skipped. A step that would pop from an empty stack is a
/// missing expression. Parentheses never reach evaluation.
pub open spec fn exec_rec(ts: Seq<Tok>, i: int, depth: nat, ops: Seq<Op>) -> Result<
    Seq<Op>,
    PError,
>
    decreases ts.len() - i,
{
    if i >= ts.len() {
        Ok(ops)
    } else {
        match ts[i] {
            Tok::Pi => exec_rec(ts, i + 1, depth + 1, ops.push(Op::PushPi)),
            Tok::Number(s) => exec_rec(ts, i + 1, depth + 1, ops.push(Op::PushNumber(s))),
            Tok::Sin => if depth == 0 {
                Err(PError::MissingExpression)
            } else {
                exec_rec(ts, i + 1, depth, ops.push(Op::Sin))
            },
            Tok::Cos => if depth == 0 {
                Err(PError::MissingExpression)
            } else {
                exec_rec(ts, i + 1, depth, ops.push(Op::Cos))
            },
            Tok::Tan => if depth == 0 {
                Err(PError::MissingExpression)
            } else {
                exec_rec(ts, i + 1, depth, ops.push(Op::Tan))
            },
            Tok::Log => if depth == 0 {
                Err(PError::MissingExpression)
            } else {
                exec_rec(ts, i + 1, depth, ops.push(Op::Log))
            },
            Tok::Plus => if depth < 2 {
                Err(PError::MissingExpression)
            } else {
                exec_rec(ts, i + 1, (depth - 1) as nat, ops.push(Op::Add))
            },
            Tok::Minus => if depth < 2 {
                Err(PError::MissingExpression)
            } else {
                exec_rec(ts, i + 1, (depth - 1) as nat, ops.push(Op::Sub))
            },
            Tok::Asterix => if depth < 2 {
                Err(PError::MissingExpression)
            } else {
                exec_rec(ts, i + 1, (depth - 1) as nat, ops.push(Op::Mul))
            },
            Tok::Slash => if depth < 2 {
                Err(PError::MissingExpression)
            } else {
                exec_rec(ts, i + 1, (depth - 1) as nat, ops.push(Op::Div))
            },
            Tok::Power => if depth < 2 {
                Err(PError::MissingExpression)
            } else {
                exec_rec(ts, i + 1, (depth - 1) as nat, ops.push(Op::Pow))
            },
            Tok::Identifier(_) => exec_rec(ts, i + 1, depth, ops),
            Tok::OpenParen | Tok::CloseParen => arbitrary(),
        }
    }
}

pub open spec fn exec_spec(ts: Seq<Tok>) -> Result<Seq<Op>, PError> {
    exec_rec(ts, 0, 0, Seq::empty())
}

/// No token of the sequence is a parenthesis.
pub open spec fn no_parens(ts: Seq<Tok>) -> bool {
    forall|k: int| 0 <= k < ts.len() ==> !(#[trigger] ts[k] is OpenParen) && !(ts[k] is CloseParen)
}

/// Every token of the sequence is an operator or an open parenthesis: the
/// shape of the shunting-yard operator stack.
pub open spec fn ops_or_opens(ts: Seq<Tok>) -> bool {
    forall|k: int| 0 <= k < ts.len() ==> spec_is_operator(#[trigger] ts[k]) || ts[k] is OpenParen
}

proof fn lemma_pop_ge_wf(stack: Seq<Tok>, out: Seq<Tok>, p: nat)
    requires
        ops_or_opens(stack),
        no_parens(out),
    ensures
        ops_or_opens(pop_ge(stack, out, p).0),
        no_parens(pop_ge(stack, out, p).1),
    decreases stack.len(),
{
    if !(stack.len() == 0 || stack.last() is OpenParen || spec_precedence(stack.last()) < p) {
        assert(no_parens(out.push(stack.last())));
        lemma_pop_ge_wf(stack.drop_last(), out.push(stack.last()), p);
    }
}

proof fn lemma_pop_to_open_wf(stack: Seq<Tok>, out: Seq<Tok>)
    requires
        ops_or_opens(stack),
        no_parens(out),
    ensures
        pop_to_open(stack, out) matches Some(so) ==> ops_or_opens(so.0) && no_parens(so.1),
    decreases stack.len(),
{
    if stack.len() > 0 && !(stack.last() is OpenParen) {
        assert(no_parens(out.push(stack.last())));
        lemma_pop_to_open_wf(stack.drop_last(), out.push(stack.last()));
    }
}

proof fn lemma_drain_wf(stack: Seq<Tok>, out: Seq<Tok>)
    requires
        ops_or_opens(stack),
        no_parens(out),
    ensures
        drain_stack(stack, out) matches Ok(o) ==> no_parens(o),
    decreases stack.len(),
{
    if stack.len() > 0 && !(stack.last() is OpenParen) {
        assert(no_parens(out.push(stack.last())));
        lemma_drain_wf(stack.drop_last(), out.push(stack.last()));
    }
}

proof fn lemma_sy_rec_no_parens(ts: Seq<Tok>, i: int, stack: Seq<Tok>, out: Seq<Tok>)
    requires
        ops_or_opens(stack),
        no_parens(out),
    ensures
        sy_rec(ts, i, stack, out) matches Ok(o) ==> no_parens(o),
    decreases ts.len() - i,
{
    if i >= ts.len() {
        lemma_drain_wf(stack, out);
    } else {
        let t = ts[i];
        if t is Number {
            assert(no_parens(out.push(t)));
            lemma_sy_rec_no_parens(ts, i + 1, stack, out.push(t));
        } else if spec_is_operator(t) {
            let so = pop_ge(stack, out, spec_precedence(t));
            lemma_pop_ge_wf(stack, out, spec_precedence(t));
            assert(ops_or_opens(so.0.push(t)));
            lemma_sy_rec_no_parens(ts, i + 1, so.0.push(t), so.1);
        } else if t is OpenParen {
            assert(ops_or_opens(stack.push(t)));
            lemma_sy_rec_no_parens(ts, i + 1, stack.push(t), out);
        } else if t is CloseParen {
            lemma_pop_to_open_wf(stack, out);
            match pop_to_open(stack, out) {
                Option::None => {},
                Option::Some(so) => {
                    lemma_sy_rec_no_parens(ts, i + 1, so.0, so.1);
                },
            }
        } else {
            lemma_sy_rec_no_parens(ts, i + 1, stack, out);
        }
    }
}

/// The transformer's output invariant: a postfix sequence it returns never
/// holds a parenthesis, whatever the token sequence it was given.
pub proof fn lemma_parse_output_no_parens(ts: Seq<Tok>)
    ensures
        parse_spec(ts) matches Ok(o) ==> no_parens(o),
{
    if parse_spec(ts) is Ok {
        let b = sign_spec(group_spec(ts)->Ok_0)->Ok_0;
        lemma_sy_rec_no_parens(b, 0, Seq::empty(), Seq::empty());
    }
}

/// A plan is stack-safe from a starting depth: walked in order against a
/// stack that holds that many values, every step finds the operands it pops.
pub open spec fn plan_safe_from(ops: Seq<Op>, d: nat) -> bool
    decreases ops.len(),
{
    if ops.len() == 0 {
        true
    } else {
        match ops[0] {
            Op::PushNumber(_) | Op::PushPi => plan_safe_from(ops.skip(1), d + 1),
            Op::Sin | Op::Cos | Op::Tan | Op::Log => d >= 1 && plan_safe_from(ops.skip(1), d),
            Op::Add | Op::Sub | Op::Mul | Op::Div | Op::Pow => d >= 2 && plan_safe_from(
                ops.skip(1),
                (d - 1) as nat,
            ),
        }
    }
}

proof fn lemma_plan_prefix_step(r: Seq<Op>, ops: Seq<Op>, op: Op, d: nat, d2: nat)
    requires
        r.len() >= ops.len() + 1,
        r.take(ops.len() + 1 as int) == ops.push(op),
        plan_safe_from(r.skip(ops.len() + 1 as int), d2),
        match op {
            Op::PushNumber(_) | Op::PushPi => d2 == d + 1,
            Op::Sin | Op::Cos | Op::Tan | Op::Log => d >= 1 && d2 == d,
            Op::Add | Op::Sub | Op::Mul | Op::Div | Op::Pow => d >= 2 && d2 == (d - 1) as nat,
        },
    ensures
        r.take(ops.len() as int) == ops,
        plan_safe_from(r.skip(ops.len() as int), d),
{
    let n = ops.len() as int;
    assert(r.take(n) =~= ops);
    assert(r.skip(n)[0] == r[n]);
    assert(r[n] == ops.push(op)[n]);
    assert(r.skip(n).skip(1) =~= r.skip(n + 1));
    assert(plan_safe_from(r.skip(n), d));
}

proof fn lemma_exec_rec_safe(ts: Seq<Tok>, i: int, d: nat, ops: Seq<Op>)
    requires
        0 <= i <= ts.len(),
        forall|k: int|
            i <= k < ts.len() ==> !(#[trigger] ts[k] is OpenParen) && !(ts[k] is CloseParen),
        exec_rec(ts, i, d, ops) is Ok,
    ensures
        ({
            let r = exec_rec(ts, i, d, ops)->Ok_0;
            &&& r.len() >= ops.len()
            &&& r.take(ops.len() as int) == ops
            &&& plan_safe_from(r.skip(ops.len() as int), d)
        }),
    decreases ts.len() - i,
{
    let r = exec_rec(ts, i, d, ops)->Ok_0;
    if i >= ts.len() {
        assert(r.take(ops.len() as int) =~= ops);
        assert(r.skip(ops.len() as int) =~= Seq::<Op>::empty());
    } else {
        match ts[i] {
            Tok::Pi => {
                lemma_exec_rec_safe(ts, i + 1, d + 1, ops.push(Op::PushPi));
                lemma_plan_prefix_step(r, ops, Op::PushPi, d, d + 1);
            },
            Tok::Number(s) => {
                lemma_exec_rec_safe(ts, i + 1, d + 1, ops.push(Op::PushNumber(s)));
                lemma_plan_prefix_step(r, ops, Op::PushNumber(s), d, d + 1);
            },
            Tok::Sin => {
                lemma_exec_rec_safe(ts, i + 1, d, ops.push(Op::Sin));
                lemma_plan_prefix_step(r, ops, Op::Sin, d, d);
            },
            Tok::Cos => {
                lemma_exec_rec_safe(ts, i + 1, d, ops.push(Op::Cos));
                lemma_plan_prefix_step(r, ops, Op::Cos, d, d);
            },
            Tok::Tan => {
                lemma_exec_rec_safe(ts, i + 1, d, ops.push(Op::Tan));
                lemma_plan_prefix_step(r, ops, Op::Tan, d, d);
            },
            Tok::Log => {
                lemma_exec_rec_safe(ts, i + 1, d, ops.push(Op::Log));
                lemma_plan_prefix_step(r, ops, Op::Log, d, d);
            },
            Tok::Plus => {
                lemma_exec_rec_safe(ts, i + 1, (d - 1) as nat, ops.push(Op::Add));
                lemma_plan_prefix_step(r, ops, Op::Add, d, (d - 1) as nat);
            },
            Tok::Minus => {
                lemma_exec_rec_safe(ts, i + 1, (d - 1) as nat, ops.push(Op::Sub));
                lemma_plan_prefix_step(r, ops, Op::Sub, d, (d - 1) as nat);
            },
            Tok::Asterix => {
                lemma_exec_rec_safe(ts, i + 1, (d - 1) as nat, ops.push(Op::Mul));
                lemma_plan_prefix_step(r, ops, Op::Mul, d, (d - 1) as nat);
            },
            Tok::Slash => {
                lemma_exec_rec_safe(ts, i + 1, (d - 1) as nat, ops.push(Op::Div));
                lemma_plan_prefix_step(r, ops, Op::Div, d, (d - 1) as nat);
            },
            Tok::Power => {
                lemma_exec_rec_safe(ts, i + 1, (d - 1) as nat, ops.push(Op::Pow));
                lemma_plan_prefix_step(r, ops, Op::Pow, d, (d - 1) as nat);
            },
            Tok::Identifier(_) => {
                lemma_exec_rec_safe(ts, i + 1, d, ops);
            },
            Tok::OpenParen | Tok::CloseParen => {
                assert(false);
            },
        }
    }
}

/// The evaluator's output invariant: a plan it accepts is stack-safe from an
/// empty stack, so a consumer that folds it pops no operand that is not
/// there.
pub proof fn lemma_exec_spec_safe(ts: Seq<Tok>)
    requires
        no_parens(ts),
        exec_spec(ts) is Ok,
    ensures
        plan_safe_from(exec_spec(ts)->Ok_0, 0),
{
    lemma_exec_rec_safe(ts, 0, 0, Seq::empty());
    assert(exec_spec(ts)->Ok_0.skip(0) =~= exec_spec(ts)->Ok_0);
}

/// The parser: rewrites the token sequence and converts it to postfix order.
pub struct Parser;

impl Parser {
    pub fn new() -> (r: Self)
        ensures
            r == (Parser {}),
    {
        Self
    }

    /// The grouping rewrite over a token vector; see `group_spec`.
    fn insert_parenthesis(&mut self, tokens: Vec<Token>) -> (r: Result<Vec<Token>, ParseError>)
        ensures
            match group_spec(tokens.deep_view()) {
                Result::Ok(o) => r is Ok && r->Ok_0.deep_view() == o,
                Result::Err(e) => r is Err && r->Err_0@ == e,
            },
    {
        let ghost ts = tokens.deep_view();
        let mut out: Vec<Token> = Vec::new();
        let mut i: usize = 0;
        proof {
            assert(out.deep_view() =~= Seq::<Tok>::empty());
        }
        while i < tokens.len()
            invariant
                ts == tokens.deep_view(),
                i <= tokens.len(),
                group_rec(ts, i as int, out.deep_view()) == group_spec(ts),
            decreases tokens.len() - i,
        {
            let ghost dv0 = out.deep_view();
            let token = &tokens[i];
            match token.kind() {
                TokenKind::Cos | TokenKind::Sin | TokenKind::Tan | TokenKind::Log => {
                    if i + 1 >= tokens.len() {
                        return Err(ParseError::MissingExpression);
                    }
                    out.push(Token::new(TokenKind::OpenParen));
                    out.push(token.dup());
                    out.push(tokens[i + 1].dup());
                    out.push(Token::new(TokenKind::CloseParen));
                    proof {
                        assert(out.deep_view() =~= dv0 + seq![
                            Tok::OpenParen,
                            ts[i as int],
                            ts[i + 1],
                            Tok::CloseParen,
                        ]);
                    }
                    i = i + 2;
                },
                TokenKind::Power => {
                    let base = match out.pop() {
                        Option::Some(b) => b,
                        Option::None => {
                            return Err(ParseError::MissingExpression);
                        },
                    };
                    if i + 1 >= tokens.len() {
                        return Err(ParseError::MissingExpression);
                    }
                    out.push(Token::new(TokenKind::OpenParen));
                    out.push(base);
                    out.push(token.dup());
                    out.push(tokens[i + 1].dup());
                    out.push(Token::new(TokenKind::CloseParen));
                    proof {
                        assert(out.deep_view() =~= dv0.drop_last() + seq![
                            Tok::OpenParen,
                            dv0.last(),
                            Tok::Power,
                            ts[i + 1],
                            Tok::CloseParen,
                        ]);
                    }
                    i = i + 2;
                },
                _ => {
                    out.push(token.dup());
                    proof {
                        assert(out.deep_view() =~= dv0.push(ts[i as int]));
                    }
                    i = i + 1;
                },
            }
        }
        Ok(out)
    }

    /// The sign normalization over a token vector; see `sign_spec`.
    fn balance_operators(&mut self, tokens: Vec<Token>) -> (r: Result<Vec<Token>, ParseError>)
        ensures
            match sign_spec(tokens.deep_view()) {
                Result::Ok(o) => r is Ok && r->Ok_0.deep_view() == o,
                Result::Err(e) => r is Err && r->Err_0@ == e,
            },
    {
        let ghost ts = tokens.deep_view();
        let mut out: Vec<Token> = Vec::new();
        let mut i: usize = 0;
        proof {
            assert(out.deep_view() =~= Seq::<Tok>::empty());
        }
        while i < tokens.len()
            invariant
                ts == tokens.deep_view(),
                i <= tokens.len(),
                sign_rec(ts, i as int, out.deep_view()) == sign_spec(ts),
            decreases tokens.len() - i,
        {
            let ghost dv0 = out.deep_view();
            let token = &tokens[i];
            match token.kind() {
                TokenKind::Minus => {
                    if i + 1 >= tokens.len() {
                        return Err(ParseError::MissingExpression);
                    }
                    let next = tokens[i + 1].kind();
                    if matches!(next, TokenKind::Minus) {
                        out.push(Token::new(TokenKind::Plus));
                        proof {
                            assert(out.deep_view() =~= dv0.push(Tok::Plus));
                        }
                        i = i + 2;
                    } else if matches!(next, TokenKind::Plus) {
                        return Err(ParseError::UnexpectedOperator(TokenKind::Plus));
                    } else {
                        out.push(token.dup());
                        proof {
                            assert(out.deep_view() =~= dv0.push(Tok::Minus));
                        }
                        i = i + 1;
                    }
                },
                TokenKind::Plus => {
                    if i + 1 >= tokens.len() {
                        return Err(ParseError::MissingExpression);
                    }
                    let next = tokens[i + 1].kind();
                    if matches!(next, TokenKind::Minus) {
                        out.push(Token::new(TokenKind::Minus));
                        proof {
                            assert(out.deep_view() =~= dv0.push(Tok::Minus));
                        }
                        i = i + 2;
                    } else if matches!(next, TokenKind::Plus) {
                        return Err(ParseError::UnexpectedOperator(TokenKind::Plus));
                    } else {
                        out.push(token.dup());
                        proof {
                            assert(out.deep_view() =~= dv0.push(Tok::Plus));
                        }
                        i = i + 1;
                    }
                },
                _ => {
                    out.push(token.dup());
                    proof {
                        assert(out.deep_view() =~= dv0.push(ts[i as int]));
                    }
                    i = i + 1;
                },
            }
        }
        Ok(out)
    }

    /// The whole transformer: the grouping rewrite, the sign normalization,
    /// and the shunting-yard conversion. The postfix result is returned as a
    /// queue whose back is evaluated first, so its front-to-back view is the
    /// reverse of the emission order; it never holds a parenthesis.
    pub fn parse(&mut self, stream: Vec<Token>) -> (r: Result<VecDeque<Token>, ParseError>)
        ensures
            match parse_spec(stream.deep_view()) {
                Result::Ok(o) => r is Ok && r->Ok_0.deep_view() == o.reverse() && no_parens(
                    r->Ok_0.deep_view(),
                ),
                Result::Err(e) => r is Err && r->Err_0@ == e,
            },
    {
        let with_parens = match self.insert_parenthesis(stream) {
            Result::Ok(v) => v,
            Result::Err(e) => {
                return Err(e);
            },
        };
        let balanced = match self.balance_operators(with_parens) {
            Result::Ok(v) => v,
            Result::Err(e) => {
                return Err(e);
            },
        };
        let ghost ts = balanced.deep_view();
        proof {
            assert(parse_spec(stream.deep_view()) == shunting_spec(ts));
        }
        let mut output_queue: VecDeque<Token> = VecDeque::new();
        let mut operator_stack: Vec<Token> = Vec::new();
        let mut i: usize = 0;
        proof {
            assert(output_queue.deep_view().reverse() =~= Seq::<Tok>::empty());
            assert(operator_stack.deep_view() =~= Seq::<Tok>::empty());
        }
        while i < balanced.len()
            invariant
                ts == balanced.deep_view(),
                parse_spec(stream.deep_view()) == shunting_spec(ts),
                i <= balanced.len(),
                sy_rec(ts, i as int, operator_stack.deep_view(), output_queue.deep_view().reverse())
                    == shunting_spec(ts),
                forall|k: int| 0 <= k < operator_stack.deep_view().len() ==> spec_is_operator(
                    #[trigger] operator_stack.deep_view()[k],
                ) || operator_stack.deep_view()[k] is OpenParen,
                no_parens(output_queue.deep_view().reverse()),
            decreases balanced.len() - i,
        {
            let token = &balanced[i];
            let ghost em0 = output_queue.deep_view().reverse();
            let ghost st0 = operator_stack.deep_view();
            if token.kind().is_number() {
                output_queue.push_front(token.dup());
                proof {
                    assert(output_queue.deep_view().reverse() =~= em0.push(ts[i as int]));
                }
            } else if token.kind().is_operator() {
                let p = token.kind().precedence();
                while operator_stack.len() > 0
                    invariant
                        ts == balanced.deep_view(),
                        i < balanced.len(),
                        p == spec_precedence(ts[i as int]),
                        pop_ge(
                            operator_stack.deep_view(),
                            output_queue.deep_view().reverse(),
                            p as nat,
                        ) == pop_ge(st0, em0, p as nat),
                        forall|k: int|
                            0 <= k < operator_stack.deep_view().len() ==> spec_is_operator(
                                #[trigger] operator_stack.deep_view()[k],
                            ) || operator_stack.deep_view()[k] is OpenParen,
                        no_parens(output_queue.deep_view().reverse()),
                    ensures
                        ts == balanced.deep_view(),
                        (operator_stack.deep_view(), output_queue.deep_view().reverse())
                            == pop_ge(st0, em0, p as nat),
                        forall|k: int|
                            0 <= k < operator_stack.deep_view().len() ==> spec_is_operator(
                                #[trigger] operator_stack.deep_view()[k],
                            ) || operator_stack.deep_view()[k] is OpenParen,
                        no_parens(output_queue.deep_view().reverse()),
                    decreases operator_stack.len(),
                {
                    let ghost st1 = operator_stack.deep_view();
                    let ghost em1 = output_queue.deep_view().reverse();
                    let top = &operator_stack[operator_stack.len() - 1];
                    if top.kind().is_open_paren() {
                        break;
                    }
                    if top.kind().precedence() >= p {
                        let t = operator_stack.pop().unwrap();
                        output_queue.push_front(t);
                        proof {
                            assert(operator_stack.deep_view() =~= st1.drop_last());
                            assert(output_queue.deep_view().reverse() =~= em1.push(st1.last()));
                        }
                    } else {
                        break;
                    }
                }
                operator_stack.push(token.dup());
                proof {
                    assert(operator_stack.deep_view() =~= pop_ge(st0, em0, p as nat).0.push(
                        ts[i as int],
                    ));
                }
            } else if token.kind().is_open_paren() {
                operator_stack.push(token.dup());
                proof {
                    assert(operator_stack.deep_view() =~= st0.push(ts[i as int]));
                }
            } else if token.kind().is_close_paren() {
                loop
                    invariant_except_break
                        pop_to_open(operator_stack.deep_view(), output_queue.deep_view().reverse())
                            == pop_to_open(st0, em0),
                    invariant
                        ts == balanced.deep_view(),
                        parse_spec(stream.deep_view()) == shunting_spec(ts),
                        i < balanced.len(),
                        ts[i as int] is CloseParen,
                        sy_rec(ts, i as int, st0, em0) == shunting_spec(ts),
                        forall|k: int|
                            0 <= k < operator_stack.deep_view().len() ==> spec_is_operator(
                                #[trigger] operator_stack.deep_view()[k],
                            ) || operator_stack.deep_view()[k] is OpenParen,
                        no_parens(output_queue.deep_view().reverse()),
                    ensures
                        ts == balanced.deep_view(),
                        pop_to_open(st0, em0) == Some(
                            (operator_stack.deep_view(), output_queue.deep_view().reverse()),
                        ),
                        forall|k: int|
                            0 <= k < operator_stack.deep_view().len() ==> spec_is_operator(
                                #[trigger] operator_stack.deep_view()[k],
                            ) || operator_stack.deep_view()[k] is OpenParen,
                        no_parens(output_queue.deep_view().reverse()),
                    decreases operator_stack.len(),
                {
                    let ghost st1 = operator_stack.deep_view();
                    let ghost em1 = output_queue.deep_view().reverse();
                    match operator_stack.pop() {
                        Option::None => {
                            return Err(ParseError::ParensMismatch);
                        },
                        Option::Some(t) => {
                            proof {
                                assert(operator_stack.deep_view() =~= st1.drop_last());
                            }
                            if t.kind().is_open_paren() {
                                break;
                            }
                            output_queue.push_front(t);
                            proof {
                                assert(output_queue.deep_view().reverse() =~= em1.push(
                                    st1.last(),
                                ));
                            }
                        },
                    }
                }
            } else {
                // identifiers reach neither the stack nor the output
            }
            i = i + 1;
        }
        loop
            invariant
                ts == balanced.deep_view(),
                parse_spec(stream.deep_view()) == shunting_spec(ts),
                drain_stack(operator_stack.deep_view(), output_queue.deep_view().reverse())
                    == shunting_spec(ts),
                forall|k: int| 0 <= k < operator_stack.deep_view().len() ==> spec_is_operator(
                    #[trigger] operator_stack.deep_view()[k],
                ) || operator_stack.deep_view()[k] is OpenParen,
                no_parens(output_queue.deep_view().reverse()),
            ensures
                shunting_spec(ts) == Ok::<Seq<Tok>, PError>(output_queue.deep_view().reverse()),
                no_parens(output_queue.deep_view().reverse()),
            decreases operator_stack.len(),
        {
            let ghost st1 = operator_stack.deep_view();
            let ghost em1 = output_queue.deep_view().reverse();
            match operator_stack.pop() {
                Option::None => {
                    break;
                },
                Option::Some(t) => {
                    if t.kind().is_open_paren() {
                        return Err(ParseError::ParensMismatch);
                    }
                    output_queue.push_front(t);
                    proof {
                        assert(operator_stack.deep_view() =~= st1.drop_last());
                        assert(output_queue.deep_view().reverse() =~= em1.push(st1.last()));
                    }
                },
            }
        }
        proof {
            let em = output_queue.deep_view().reverse();
            assert(output_queue.deep_view() =~= em.reverse());
            assert forall|k: int| 0 <= k < output_queue.deep_view().len() implies !(
            #[trigger] output_queue.deep_view()[k] is OpenParen) && !(output_queue.deep_view()[k]
                is CloseParen) by {
                assert(output_queue.deep_view()[k] == em[em.len() - 1 - k]);
            }
        }
        Ok(output_queue)
    }

    /// Checks a postfix queue into an evaluation plan, consuming tokens from
    /// the back of the queue, which is the evaluation order; see `exec_spec`
    /// over the queue's back-to-front view.
    #[verifier::loop_isolation(false)]
    pub fn execute(&self, tokens: VecDeque<Token>) -> (r: Result<Vec<EvalOp>, ParseError>)
        requires
            no_parens(tokens.deep_view()),
        ensures
            match exec_spec(tokens.deep_view().reverse()) {
                Result::Ok(o) => r is Ok && r->Ok_0.deep_view() == o,
                Result::Err(e) => r is Err && r->Err_0@ == e,
            },
    {
        let mut tokens = tokens;
        let ghost full = tokens.deep_view().reverse();
        let n = tokens.len();
        let mut ops: Vec<EvalOp> = Vec::new();
        let mut depth: usize = 0;
        let ghost mut i: int = 0;
        proof {
            assert(ops.deep_view() =~= Seq::<Op>::empty());
            assert(tokens.deep_view().reverse() =~= full.skip(0));
        }
        while tokens.len() > 0
            invariant
                full.len() == n,
                0 <= i <= full.len(),
                tokens.deep_view().reverse() == full.skip(i),
                depth as int <= i,
                no_parens(tokens.deep_view()),
                exec_rec(full, i, depth as nat, ops.deep_view()) == exec_spec(full),
            decreases tokens.len(),
        {
            let ghost q0 = tokens@;
            let ghost d0 = tokens.deep_view();
            let ghost ops0 = ops.deep_view();
            match tokens.pop_back() {
                Option::None => {
                    proof {
                        assert(false);
                    }
                },
                Option::Some(token) => {
                    proof {
                        assert(token.deep_view() == d0[d0.len() - 1]);
                        assert(tokens.deep_view() =~= d0.drop_last());
                        assert(d0.reverse()[0] == d0.last());
                        assert(d0.len() == q0.len());
                        assert(d0.reverse().len() == d0.len());
                        assert(full.skip(i).len() == full.len() - i);
                        assert(i < full.len());
                        assert(full.skip(i)[0] == full[i]);
                        assert(full[i] == token.deep_view());
                        let dnew = tokens.deep_view().reverse();
                        assert(dnew.len() == d0.len() - 1);
                        assert forall|k: int| 0 <= k < dnew.len() implies #[trigger] dnew[k]
                            == full.skip(i + 1)[k] by {
                            assert(dnew[k] == d0[d0.len() - 2 - k]);
                            assert(d0.reverse()[k + 1] == d0[d0.len() - 2 - k]);
                            assert(full.skip(i)[k + 1] == d0.reverse()[k + 1]);
                            assert(full.skip(i)[k + 1] == full[i + (k + 1)]);
                            assert(full.skip(i + 1)[k] == full[(i + 1) + k]);
                        }
                        assert(tokens.deep_view().reverse() =~= full.skip(i + 1));
                    }
                    match token.kind() {
                        TokenKind::Pi => {
                            depth = depth + 1;
                            ops.push(EvalOp::PushPi);
                            proof {
                                assert(ops.deep_view() =~= ops0.push(Op::PushPi));
                                i = i + 1;
                            }
                        },
                        TokenKind::Number(s) => {
                            depth = depth + 1;
                            ops.push(EvalOp::PushNumber(s.clone()));
                            proof {
                                assert(ops.deep_view() =~= ops0.push(Op::PushNumber(s@)));
                                i = i + 1;
                            }
                        },
                        TokenKind::Sin => {
                            if depth == 0 {
                                return Err(ParseError::MissingExpression);
                            }
                            ops.push(EvalOp::Sin);
                            proof {
                                assert(ops.deep_view() =~= ops0.push(Op::Sin));
                                i = i + 1;
                            }
                        },
                        TokenKind::Cos => {
                            if depth == 0 {
                                return Err(ParseError::MissingExpression);
                            }
                            ops.push(EvalOp::Cos);
                            proof {
                                assert(ops.deep_view() =~= ops0.push(Op::Cos));
                                i = i + 1;
                            }
                        },
                        TokenKind::Tan => {
                            if depth == 0 {
                                return Err(ParseError::MissingExpression);
                            }
                            ops.push(EvalOp::Tan);
                            proof {
                                assert(ops.deep_view() =~= ops0.push(Op::Tan));
                                i = i + 1;
                            }
                        },
                        TokenKind::Log => {
                            if depth == 0 {
                                return Err(ParseError::MissingExpression);
                            }
                            ops.push(EvalOp::Log);
                            proof {
                                assert(ops.deep_view() =~= ops0.push(Op::Log));
                                i = i + 1;
                            }
                        },
                        TokenKind::Plus => {
                            if depth < 2 {
                                return Err(ParseError::MissingExpression);
                            }
                            depth = depth - 1;
                            ops.push(EvalOp::Add);
                            proof {
                                assert(ops.deep_view() =~= ops0.push(Op::Add));
                                i = i + 1;
                            }
                        },
                        TokenKind::Minus => {
                            if depth < 2 {
                                return Err(ParseError::MissingExpression);
                            }
                            depth = depth - 1;
                            ops.push(EvalOp::Sub);
                            proof {
                                assert(ops.deep_view() =~= ops0.push(Op::Sub));
                                i = i + 1;
                            }
                        },
                        TokenKind::Asterix => {
                            if depth < 2 {
                                return Err(ParseError::MissingExpression);
                            }
                            depth = depth - 1;
                            ops.push(EvalOp::Mul);
                            proof {
                                assert(ops.deep_view() =~= ops0.push(Op::Mul));
                                i = i + 1;
                            }
                        },
                        TokenKind::Slash => {
                            if depth < 2 {
                                return Err(ParseError::MissingExpression);
                            }
                            depth = depth - 1;
                            ops.push(EvalOp::Div);
                            proof {
                                assert(ops.deep_view() =~= ops0.push(Op::Div));
                                i = i + 1;
                            }
                        },
                        TokenKind::Power => {
                            if depth < 2 {
                                return Err(ParseError::MissingExpression);
                            }
                            depth = depth - 1;
                            ops.push(EvalOp::Pow);
                            proof {
                                assert(ops.deep_view() =~= ops0.push(Op::Pow));
                                i = i + 1;
                            }
                        },
                        TokenKind::Identifier(_) => {
                            proof {
                                i = i + 1;
                            }
                        },
                        TokenKind::OpenParen | TokenKind::CloseParen => {
                            proof {
                                assert(false);
                            }
                            return Err(ParseError::MissingExpression);
                        },
                    }
                },
            }
        }
        proof {
            assert(full.skip(i).len() == 0);
            assert(exec_rec(full, i, depth as nat, ops.deep_view()) == Ok::<Seq<Op>, PError>(
                ops.deep_view(),
            ));
        }
        Ok(ops)
    }
}

} // verus!
