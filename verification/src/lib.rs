//! A small arithmetic interpreter: text is lexed into tokens, rewritten and
//! converted to postfix order by a shunting-yard pass, and checked into a
//! stack-safe evaluation plan.

pub mod ast;
