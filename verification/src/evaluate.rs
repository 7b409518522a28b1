//! The one-call entry point: lex, parse and evaluate an expression string.
use vstd::prelude::*;

use crate::ast::{rolled_wf, spec_trace, spec_value, RolledExpr};
use crate::parser::{spec_expr, DiceParser};
use crate::token::{lex_fail_text, spec_tokenize};

verus! {

/// What evaluating an expression string yields: the value with its roll
/// trace; a fatal lexing failure; or the parse errors, in the order they
/// were recorded (never empty).
pub enum EvaluationOutcome {
    Success { value: i64, trace: String },
    LexError { message: String },
    ParseErrors { messages: Vec<String> },
}

/// Evaluate an expression string end to end.
///
/// An unlexable input (or one holding no token at all) fails fast with one
/// message and never reaches the parser.  A lexable input always parses to
/// a tree; if any parse error was recorded the errors come back instead of
/// a value.  Otherwise the tree is evaluated with fresh die rolls, giving
/// the exact value and trace of some in-range annotation of the tree.
pub fn evaluate(input: &str) -> (r: EvaluationOutcome)
    ensures
        match r {
            EvaluationOutcome::LexError { message } => (spec_tokenize(input@) is Fail && message@
                == lex_fail_text(spec_tokenize(input@)->Fail_0, spec_tokenize(input@)->Fail_1)) || (
            spec_tokenize(input@) is Toks && spec_tokenize(input@)->Toks_0.len() == 0 && message@
                == "Expression is empty"@),
            EvaluationOutcome::ParseErrors { messages } => {
                &&& spec_tokenize(input@) is Toks
                &&& spec_tokenize(input@)->Toks_0.len() >= 1
                &&& spec_expr(spec_tokenize(input@)->Toks_0, 0).errs.len() >= 1
                &&& messages@.map_values(|m: String| m@) == spec_expr(
                    spec_tokenize(input@)->Toks_0,
                    0,
                ).errs
            },
            EvaluationOutcome::Success { value, trace } => {
                &&& spec_tokenize(input@) is Toks
                &&& spec_tokenize(input@)->Toks_0.len() >= 1
                &&& spec_expr(spec_tokenize(input@)->Toks_0, 0).errs.len() == 0
                &&& exists|re: RolledExpr|
                    rolled_wf(spec_expr(spec_tokenize(input@)->Toks_0, 0).node, re) && value as int
                        == spec_value(re) && trace@ == spec_trace(re)
            },
        },
{
    match DiceParser::new(input) {
        Err(message) => EvaluationOutcome::LexError { message },
        Ok(mut p) => {
            let ghost toks = spec_tokenize(input@)->Toks_0;
            let root = p.expr();
            proof {
                let st = spec_expr(toks, 0);
                assert(Seq::<Seq<char>>::empty() + st.errs =~= st.errs);
            }
            let errs = p.errors();
            let n = errs.len();
            if n > 0 {
                let mut messages: Vec<String> = Vec::new();
                let mut i: usize = 0;
                while i < n
                    invariant
                        0 <= i <= n,
                        n == errs@.len(),
                        messages@ == errs@.take(i as int),
                    decreases n - i,
                {
                    messages.push(errs[i].clone());
                    proof {
                        assert(errs@.take(i as int + 1) =~= errs@.take(i as int).push(
                            errs@[i as int],
                        ));
                    }
                    i = i + 1;
                }
                proof {
                    assert(errs@.take(n as int) == errs@);
                    assert(messages@.map_values(|m: String| m@) == spec_expr(toks, 0).errs);
                }
                EvaluationOutcome::ParseErrors { messages }
            } else {
                proof {
                    assert(spec_expr(toks, 0).errs.len() == 0);
                }
                let out = root.eval();
                EvaluationOutcome::Success { value: out.0, trace: out.1 }
            }
        },
    }
}

} // verus!
