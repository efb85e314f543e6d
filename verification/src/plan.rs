//! Flattening a tree into its evaluation plan.
//!
//! Evaluation is a post-order walk: the left operand before the right, both
//! before their operator. The plan states that walk as a sequence of stack
//! steps; the embedding program, which owns the floating-point arithmetic,
//! carries them out with a value stack. `lemma_plan_executable` shows that a
//! plan built here never underflows that stack and leaves exactly one value
//! on it.

use vstd::prelude::*;

use crate::parser::{Ast, ParseExpr};
use crate::token::{Lexeme, Token};

verus! {

/// Why a tree has no evaluation plan. Each case is a structurally invalid
/// node, which no parsed tree holds; the checks are defensive.
#[derive(Clone, Copy, Debug, PartialEq, Eq, Structural)]
pub enum EvalError {
    /// A binary node whose operator token is not one of the five arithmetic
    /// operators.
    InvalidBinary,
    /// A unary node whose operator token is neither a sign nor a function.
    InvalidUnary,
    /// A value node holding anything but a number token.
    InvalidValue,
}

impl EvalError {
    /// A human-readable account of the failure.
    pub fn message(&self) -> (m: &'static str)
        ensures
            m@ == match self {
                EvalError::InvalidBinary => "invalid binary operand"@,
                EvalError::InvalidUnary => "invalid unary operand"@,
                EvalError::InvalidValue => "invalid value"@,
            },
    {
        match self {
            EvalError::InvalidBinary => "invalid binary operand",
            EvalError::InvalidUnary => "invalid unary operand",
            EvalError::InvalidValue => "invalid value",
        }
    }
}

/// A binary arithmetic operation.
#[derive(Clone, Copy, Debug, PartialEq, Eq, Structural)]
pub enum BinaryOp {
    Add,
    Sub,
    Mul,
    Div,
    Pow,
}

/// A unary operation: a sign or a named function.
#[derive(Clone, Copy, Debug, PartialEq, Eq, Structural)]
pub enum UnaryOp {
    Negate,
    Identity,
    Sin,
    Cos,
    Tan,
    Ln,
    Log10,
}

/// One step of an evaluation plan. `Push` carries numeral text; the
/// embedding program reads it as a number and pushes it. The operation
/// steps pop their operands and push the operation's outcome.
#[derive(Debug, PartialEq)]
pub enum Step {
    Push(String),
    Unary(UnaryOp),
    Binary(BinaryOp),
}

/// The ghost model of a step.
#[verifier::ext_equal]
pub enum StepModel {
    Push(Seq<char>),
    Unary(UnaryOp),
    Binary(BinaryOp),
}

impl View for Step {
    type V = StepModel;

    open spec fn view(&self) -> StepModel {
        match self {
            Step::Push(s) => StepModel::Push(s@),
            Step::Unary(u) => StepModel::Unary(*u),
            Step::Binary(b) => StepModel::Binary(*b),
        }
    }
}

/// The ghost model of a plan.
pub open spec fn step_models(s: Seq<Step>) -> Seq<StepModel> {
    s.map_values(|st: Step| st@)
}

/// The operation of a binary operator token, if it is one.
pub open spec fn binary_op_of(l: Lexeme) -> Option<BinaryOp> {
    match l {
        Lexeme::Plus => Some(BinaryOp::Add),
        Lexeme::Minus => Some(BinaryOp::Sub),
        Lexeme::Star => Some(BinaryOp::Mul),
        Lexeme::Slash => Some(BinaryOp::Div),
        Lexeme::Power => Some(BinaryOp::Pow),
        _ => None,
    }
}

/// The operation of a unary operator token, if it is one.
pub open spec fn unary_op_of(l: Lexeme) -> Option<UnaryOp> {
    match l {
        Lexeme::Minus => Some(UnaryOp::Negate),
        Lexeme::Plus => Some(UnaryOp::Identity),
        Lexeme::Sin => Some(UnaryOp::Sin),
        Lexeme::Cos => Some(UnaryOp::Cos),
        Lexeme::Tan => Some(UnaryOp::Tan),
        Lexeme::Ln => Some(UnaryOp::Ln),
        Lexeme::Log => Some(UnaryOp::Log10),
        _ => None,
    }
}

/// The plan of a tree: its post-order walk, or the first structural fault.
/// Operators are checked before operands, and the left operand before the
/// right one.
pub open spec fn sp_plan(a: Ast) -> Result<Seq<StepModel>, EvalError>
    decreases a,
{
    match a {
        Ast::Binary(l, op, r) => match binary_op_of(op) {
            Some(b) => match sp_plan(*l) {
                Ok(sl) => match sp_plan(*r) {
                    Ok(sr) => Ok(sl + sr + seq![StepModel::Binary(b)]),
                    Err(e) => Err(e),
                },
                Err(e) => Err(e),
            },
            None => Err(EvalError::InvalidBinary),
        },
        Ast::Unary(op, c) => match unary_op_of(op) {
            Some(u) => match sp_plan(*c) {
                Ok(sc) => Ok(sc + seq![StepModel::Unary(u)]),
                Err(e) => Err(e),
            },
            None => Err(EvalError::InvalidUnary),
        },
        Ast::Value(l) => match l {
            Lexeme::Number(num) => Ok(seq![StepModel::Push(num)]),
            _ => Err(EvalError::InvalidValue),
        },
    }
}

/// How many stack values a step consumes.
pub open spec fn step_needs(s: StepModel) -> int {
    match s {
        StepModel::Push(_) => 0,
        StepModel::Unary(_) => 1,
        StepModel::Binary(_) => 2,
    }
}

/// The step's net effect on the stack's height.
pub open spec fn step_net(s: StepModel) -> int {
    match s {
        StepModel::Push(_) => 1,
        StepModel::Unary(_) => 0,
        StepModel::Binary(_) => -1,
    }
}

/// The stack height after carrying out a plan on an empty stack.
pub open spec fn plan_height(p: Seq<StepModel>) -> int
    decreases p.len(),
{
    if p.len() == 0 {
        0
    } else {
        plan_height(p.drop_last()) + step_net(p.last())
    }
}

/// A plan a stack machine can carry out: before every step the stack holds
/// the values the step consumes, and at the end exactly one value is left.
pub open spec fn executable_plan(p: Seq<StepModel>) -> bool {
    &&& forall|i: int|
        0 <= i < p.len() ==> plan_height(p.subrange(0, i)) >= step_needs(p[i])
    &&& plan_height(p) == 1
}

/// Every push step of the plan carries a float text.
pub open spec fn wf_plan(p: Seq<StepModel>) -> bool {
    forall|k: int|
        0 <= k < p.len() ==> (p[k] is Push ==> crate::numeral::is_float_literal(p[k]->Push_0))
}

/// The plan of a well-formed tree is well formed: the embedding program
/// reads every pushed text as a number without failure.
pub proof fn lemma_plan_wf(a: Ast)
    requires
        crate::parser::wf_ast(a),
    ensures
        sp_plan(a) matches Ok(p) ==> wf_plan(p),
    decreases a,
{
    match a {
        Ast::Binary(l, op, r) => {
            lemma_plan_wf(*l);
            lemma_plan_wf(*r);
            if binary_op_of(op) is Some && sp_plan(*l) is Ok && sp_plan(*r) is Ok {
                let b = binary_op_of(op)->Some_0;
                let sl = sp_plan(*l)->Ok_0;
                let sr = sp_plan(*r)->Ok_0;
                let whole = sl + sr + seq![StepModel::Binary(b)];
                assert forall|k: int|
                    0 <= k < whole.len() && whole[k] is Push implies crate::numeral::is_float_literal(
                    whole[k]->Push_0,
                ) by {
                    if k < sl.len() {
                        assert(whole[k] == sl[k]);
                    } else if k < sl.len() + sr.len() {
                        assert(whole[k] == sr[k - sl.len()]);
                    }
                }
            }
        },
        Ast::Unary(op, c) => {
            lemma_plan_wf(*c);
            if unary_op_of(op) is Some && sp_plan(*c) is Ok {
                let u = unary_op_of(op)->Some_0;
                let sc = sp_plan(*c)->Ok_0;
                let whole = sc + seq![StepModel::Unary(u)];
                assert forall|k: int|
                    0 <= k < whole.len() && whole[k] is Push implies crate::numeral::is_float_literal(
                    whole[k]->Push_0,
                ) by {
                    if k < sc.len() {
                        assert(whole[k] == sc[k]);
                    }
                }
            }
        },
        Ast::Value(l) => {},
    }
}

pub proof fn lemma_height_concat(a: Seq<StepModel>, b: Seq<StepModel>)
    ensures
        plan_height(a + b) == plan_height(a) + plan_height(b),
    decreases b.len(),
{
    if b.len() == 0 {
        assert(a + b =~= a);
    } else {
        assert((a + b).drop_last() =~= a + b.drop_last());
        lemma_height_concat(a, b.drop_last());
    }
}

/// The law of the planner: every plan it yields can be carried out by a
/// stack machine, with no underflow and one final value.
pub proof fn lemma_plan_executable(a: Ast)
    ensures
        sp_plan(a) matches Ok(p) ==> executable_plan(p),
    decreases a,
{
    match a {
        Ast::Binary(l, op, r) => {
            lemma_plan_executable(*l);
            lemma_plan_executable(*r);
            if binary_op_of(op) is Some && sp_plan(*l) is Ok && sp_plan(*r) is Ok {
                let b = binary_op_of(op)->Some_0;
                let sl = sp_plan(*l)->Ok_0;
                let sr = sp_plan(*r)->Ok_0;
                let whole = sl + sr + seq![StepModel::Binary(b)];
                lemma_height_concat(sl + sr, seq![StepModel::Binary(b)]);
                lemma_height_concat(sl, sr);
                assert(plan_height(seq![StepModel::Binary(b)].drop_last()) == 0);
                assert(plan_height(whole) == 1);
                assert forall|i: int| 0 <= i < whole.len() implies plan_height(
                    whole.subrange(0, i),
                ) >= step_needs(whole[i]) by {
                    if i < sl.len() {
                        assert(whole.subrange(0, i) =~= sl.subrange(0, i));
                        assert(whole[i] == sl[i]);
                    } else if i < sl.len() + sr.len() {
                        let j = i - sl.len();
                        assert(whole.subrange(0, i) =~= sl + sr.subrange(0, j));
                        lemma_height_concat(sl, sr.subrange(0, j));
                        assert(whole[i] == sr[j]);
                    } else {
                        assert(whole.subrange(0, i) =~= sl + sr);
                    }
                }
            }
        },
        Ast::Unary(op, c) => {
            lemma_plan_executable(*c);
            if unary_op_of(op) is Some && sp_plan(*c) is Ok {
                let u = unary_op_of(op)->Some_0;
                let sc = sp_plan(*c)->Ok_0;
                let whole = sc + seq![StepModel::Unary(u)];
                lemma_height_concat(sc, seq![StepModel::Unary(u)]);
                assert(plan_height(seq![StepModel::Unary(u)].drop_last()) == 0);
                assert forall|i: int| 0 <= i < whole.len() implies plan_height(
                    whole.subrange(0, i),
                ) >= step_needs(whole[i]) by {
                    if i < sc.len() {
                        assert(whole.subrange(0, i) =~= sc.subrange(0, i));
                        assert(whole[i] == sc[i]);
                    } else {
                        assert(whole.subrange(0, i) =~= sc);
                    }
                }
            }
        },
        Ast::Value(l) => {
            if l is Number {
                let whole = seq![StepModel::Push(l->Number_0)];
                assert(plan_height(whole.drop_last()) == 0);
                assert forall|i: int| 0 <= i < whole.len() implies plan_height(
                    whole.subrange(0, i),
                ) >= step_needs(whole[i]) by {
                    assert(i == 0);
                }
            }
        },
    }
}

impl ParseExpr {
    /// The evaluation plan of this tree: its post-order walk, exactly as
    /// `sp_plan` says of the tree's model. The failures are defensive: a
    /// tree the parser built always has a plan.
    pub fn plan(&self) -> (r: Result<Vec<Step>, EvalError>)
        ensures
            match r {
                Ok(v) => sp_plan(self@) == Ok::<_, EvalError>(step_models(v@)),
                Err(e) => sp_plan(self@) == Err::<Seq<StepModel>, _>(e),
            },
        decreases self,
    {
        match self {
            ParseExpr::Binary(l, op, r) => {
                let b = match op {
                    Token::Plus => BinaryOp::Add,
                    Token::Minus => BinaryOp::Sub,
                    Token::Star => BinaryOp::Mul,
                    Token::Slash => BinaryOp::Div,
                    Token::Power => BinaryOp::Pow,
                    _ => {
                        return Err(EvalError::InvalidBinary);
                    },
                };
                let mut sl = match l.plan() {
                    Ok(v) => v,
                    Err(e) => {
                        return Err(e);
                    },
                };
                let mut sr = match r.plan() {
                    Ok(v) => v,
                    Err(e) => {
                        return Err(e);
                    },
                };
                let ghost vl = step_models(sl@);
                let ghost vr = step_models(sr@);
                sl.append(&mut sr);
                sl.push(Step::Binary(b));
                proof {
                    assert(step_models(sl@) =~= vl + vr + seq![StepModel::Binary(b)]);
                }
                Ok(sl)
            },
            ParseExpr::Unary(op, c) => {
                let u = match op {
                    Token::Minus => UnaryOp::Negate,
                    Token::Plus => UnaryOp::Identity,
                    Token::Sin => UnaryOp::Sin,
                    Token::Cos => UnaryOp::Cos,
                    Token::Tan => UnaryOp::Tan,
                    Token::Ln => UnaryOp::Ln,
                    Token::Log => UnaryOp::Log10,
                    _ => {
                        return Err(EvalError::InvalidUnary);
                    },
                };
                let mut sc = match c.plan() {
                    Ok(v) => v,
                    Err(e) => {
                        return Err(e);
                    },
                };
                let ghost vc = step_models(sc@);
                sc.push(Step::Unary(u));
                proof {
                    assert(step_models(sc@) =~= vc + seq![StepModel::Unary(u)]);
                }
                Ok(sc)
            },
            ParseExpr::Value(t) => {
                match t {
                    Token::Number(num) => {
                        let v = vec![Step::Push(num.clone())];
                        proof {
                            assert(step_models(v@) =~= seq![StepModel::Push(num@)]);
                        }
                        Ok(v)
                    },
                    _ => Err(EvalError::InvalidValue),
                }
            },
        }
    }
}

} // verus!
