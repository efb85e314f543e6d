//! The pipeline from resolved tokens to an evaluation plan, and what it
//! guarantees on degenerate input.

use vstd::prelude::*;

use crate::lexer::LexError;
use crate::parser::{sp_parse, Ast, ParseError, ParseExpr};
use crate::plan::{sp_plan, EvalError, Step, StepModel, step_models};
use crate::resolver::ResolveError;
use crate::token::{lexemes, Token};

verus! {

/// A failure of any stage, carried upward without recovery.
#[derive(Clone, Copy, Debug, PartialEq, Eq, Structural)]
pub enum Error {
    Lex(LexError),
    Resolve(ResolveError),
    Parse(ParseError),
    Eval(EvalError),
}

/// The plan of a resolved token sequence: parse, then flatten.
pub open spec fn sp_plan_of(t: Seq<crate::token::Lexeme>) -> Result<Seq<StepModel>, Error> {
    match sp_parse(t) {
        Ok(a) => match sp_plan(a) {
            Ok(p) => Ok(p),
            Err(e) => Err(Error::Eval(e)),
        },
        Err(e) => Err(Error::Parse(e)),
    }
}

/// Parses the resolved tokens and flattens the tree into its evaluation
/// plan, exactly as `sp_plan_of` says of the tokens' model.
pub fn plan_tokens(toks: &Vec<Token>) -> (r: Result<Vec<Step>, Error>)
    ensures
        match r {
            Ok(v) => sp_plan_of(lexemes(toks@)) == Ok::<_, Error>(step_models(v@)),
            Err(e) => sp_plan_of(lexemes(toks@)) == Err::<Seq<StepModel>, _>(e),
        },
{
    let tree = match ParseExpr::expr(toks) {
        Ok(t) => t,
        Err(e) => {
            return Err(Error::Parse(e));
        },
    };
    match tree.plan() {
        Ok(p) => Ok(p),
        Err(e) => Err(Error::Eval(e)),
    }
}

/// From well-formed tokens — every number carries a float text, as the
/// lexer guarantees (`lemma_lex_wf`) and the resolver preserves — the whole
/// pipeline yields a well-formed plan: the embedding program reads every
/// pushed text as a number without failure.
pub proof fn lemma_pipeline_wf(t: Seq<crate::token::Lexeme>)
    requires
        crate::numeral::wf_lexemes(t),
    ensures
        sp_plan_of(t) matches Ok(p) ==> crate::plan::wf_plan(p),
{
    crate::parser::lemma_parse_wf(t);
    if sp_parse(t) is Ok {
        crate::plan::lemma_plan_wf(sp_parse(t)->Ok_0);
    }
}

/// An empty token sequence never parses: there is no production for it, so
/// the parser reports failure rather than yielding any tree.
pub proof fn lemma_empty_input_fails()
    ensures
        sp_parse(Seq::<crate::token::Lexeme>::empty()) == Err::<Ast, ParseError>(
            ParseError::Failed,
        ),
{
    let t = Seq::<crate::token::Lexeme>::empty();
    assert(crate::parser::sp_primary(t, 0) == Err::<(Ast, int), ParseError>(ParseError::Failed));
    assert(crate::parser::sp_unary(t, 0) == Err::<(Ast, int), ParseError>(ParseError::Failed));
    assert(crate::parser::sp_power(t, 0) == Err::<(Ast, int), ParseError>(ParseError::Failed));
    assert(crate::parser::sp_factor(t, 0) == Err::<(Ast, int), ParseError>(ParseError::Failed));
    assert(crate::parser::sp_term(t, 0) == Err::<(Ast, int), ParseError>(ParseError::Failed));
    assert(crate::parser::sp_expr(t, 0) == Err::<(Ast, int), ParseError>(ParseError::Failed));
}

} // verus!
