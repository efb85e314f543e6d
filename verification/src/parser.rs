//! The parser: recursive descent over a fixed operator-precedence grammar.
//!
//! ```text
//! expression := term
//! term       := factor (("+"|"-") factor)*      left-associative
//! factor     := power  (("*"|"/") power)*       left-associative
//! power      := unary  ("^" unary)*             left-associative
//! unary      := ("-"|"+"|"ln"|"log"|"sin"|"cos"|"tan") unary | primary
//! primary    := Number | "(" expression ")"
//! ```
//!
//! Trailing tokens after a complete top-level expression are not rejected;
//! a caller that wants full consumption must check the input itself.

use vstd::prelude::*;

use crate::token::{lexemes, Lexeme, Token};

verus! {

/// Why parsing failed.
#[derive(Clone, Copy, Debug, PartialEq, Eq, Structural)]
pub enum ParseError {
    /// A bracketed group without its closing bracket.
    UnclosedBracket,
    /// No production matches at the current position.
    Failed,
}

impl ParseError {
    /// A human-readable account of the failure.
    pub fn message(&self) -> (m: &'static str)
        ensures
            m@ == match self {
                ParseError::UnclosedBracket => "unclosed bracket"@,
                ParseError::Failed => "parser failed"@,
            },
    {
        match self {
            ParseError::UnclosedBracket => "unclosed bracket",
            ParseError::Failed => "parser failed",
        }
    }
}

/// An abstract syntax tree node. The operator of a `Binary` node is one of
/// the five arithmetic tokens, and the operator of a `Unary` node a sign or
/// function token; the defensive checks in `plan` reject anything else. A
/// `Value` node holds a `Number` token only: the resolver runs before the
/// parser, so no `Variable` token reaches a tree.
#[derive(Debug, PartialEq)]
pub enum ParseExpr {
    Binary(Box<ParseExpr>, Token, Box<ParseExpr>),
    Unary(Token, Box<ParseExpr>),
    Value(Token),
}

/// The ghost model of a tree.
#[verifier::ext_equal]
pub enum Ast {
    Binary(Box<Ast>, Lexeme, Box<Ast>),
    Unary(Lexeme, Box<Ast>),
    Value(Lexeme),
}

/// The ghost model of a tree node.
pub open spec fn ast_of(e: ParseExpr) -> Ast
    decreases e,
{
    match e {
        ParseExpr::Binary(l, op, r) => Ast::Binary(Box::new(ast_of(*l)), op@, Box::new(ast_of(*r))),
        ParseExpr::Unary(op, c) => Ast::Unary(op@, Box::new(ast_of(*c))),
        ParseExpr::Value(t) => Ast::Value(t@),
    }
}

impl View for ParseExpr {
    type V = Ast;

    open spec fn view(&self) -> Ast {
        ast_of(*self)
    }
}

/// The lexemes that open a unary production.
pub open spec fn is_unary_lexeme(l: Lexeme) -> bool {
    l is Minus || l is Plus || l is Ln || l is Log || l is Sin || l is Cos || l is Tan
}

// The spec parser. Each function takes the position where its production
// starts and yields the tree it builds together with the position after it,
// or the failure. The bound checks on returned positions always hold (each
// production consumes at least one token, as the executable parser's
// contracts state); they only serve the termination measure.

pub open spec fn sp_expr(t: Seq<Lexeme>, p: int) -> Result<(Ast, int), ParseError>
    decreases t.len() - p, 5int when 0 <= p <= t.len()
{
    sp_term(t, p)
}

pub open spec fn sp_term(t: Seq<Lexeme>, p: int) -> Result<(Ast, int), ParseError>
    decreases t.len() - p, 4int when 0 <= p <= t.len()
{
    match sp_factor(t, p) {
        Ok((e, q)) => if p < q <= t.len() {
            sp_term_rest(t, e, q)
        } else {
            Err(ParseError::Failed)
        },
        Err(e) => Err(e),
    }
}

pub open spec fn sp_term_rest(t: Seq<Lexeme>, acc: Ast, p: int) -> Result<(Ast, int), ParseError>
    decreases t.len() - p, 9int when 0 <= p <= t.len()
{
    if p < t.len() && (t[p] is Plus || t[p] is Minus) {
        match sp_factor(t, p + 1) {
            Ok((rhs, q)) => if p < q <= t.len() {
                sp_term_rest(t, Ast::Binary(Box::new(acc), t[p], Box::new(rhs)), q)
            } else {
                Err(ParseError::Failed)
            },
            Err(e) => Err(e),
        }
    } else {
        Ok((acc, p))
    }
}

pub open spec fn sp_factor(t: Seq<Lexeme>, p: int) -> Result<(Ast, int), ParseError>
    decreases t.len() - p, 3int when 0 <= p <= t.len()
{
    match sp_power(t, p) {
        Ok((e, q)) => if p < q <= t.len() {
            sp_factor_rest(t, e, q)
        } else {
            Err(ParseError::Failed)
        },
        Err(e) => Err(e),
    }
}

pub open spec fn sp_factor_rest(t: Seq<Lexeme>, acc: Ast, p: int) -> Result<(Ast, int), ParseError>
    decreases t.len() - p, 9int when 0 <= p <= t.len()
{
    if p < t.len() && (t[p] is Star || t[p] is Slash) {
        match sp_power(t, p + 1) {
            Ok((rhs, q)) => if p < q <= t.len() {
                sp_factor_rest(t, Ast::Binary(Box::new(acc), t[p], Box::new(rhs)), q)
            } else {
                Err(ParseError::Failed)
            },
            Err(e) => Err(e),
        }
    } else {
        Ok((acc, p))
    }
}

pub open spec fn sp_power(t: Seq<Lexeme>, p: int) -> Result<(Ast, int), ParseError>
    decreases t.len() - p, 2int when 0 <= p <= t.len()
{
    match sp_unary(t, p) {
        Ok((e, q)) => if p < q <= t.len() {
            sp_power_rest(t, e, q)
        } else {
            Err(ParseError::Failed)
        },
        Err(e) => Err(e),
    }
}

pub open spec fn sp_power_rest(t: Seq<Lexeme>, acc: Ast, p: int) -> Result<(Ast, int), ParseError>
    decreases t.len() - p, 9int when 0 <= p <= t.len()
{
    if p < t.len() && t[p] is Power {
        match sp_unary(t, p + 1) {
            Ok((rhs, q)) => if p < q <= t.len() {
                sp_power_rest(t, Ast::Binary(Box::new(acc), t[p], Box::new(rhs)), q)
            } else {
                Err(ParseError::Failed)
            },
            Err(e) => Err(e),
        }
    } else {
        Ok((acc, p))
    }
}

pub open spec fn sp_unary(t: Seq<Lexeme>, p: int) -> Result<(Ast, int), ParseError>
    decreases t.len() - p, 1int when 0 <= p <= t.len()
{
    if p < t.len() && is_unary_lexeme(t[p]) {
        match sp_unary(t, p + 1) {
            Ok((e, q)) => Ok((Ast::Unary(t[p], Box::new(e)), q)),
            Err(e) => Err(e),
        }
    } else {
        sp_primary(t, p)
    }
}

pub open spec fn sp_primary(t: Seq<Lexeme>, p: int) -> Result<(Ast, int), ParseError>
    decreases t.len() - p, 0int when 0 <= p <= t.len()
{
    if p < t.len() {
        if t[p] is Number {
            Ok((Ast::Value(t[p]), p + 1))
        } else if t[p] is LeftParen {
            match sp_expr(t, p + 1) {
                Ok((e, q)) => if 0 <= q < t.len() && t[q] is RightParen {
                    Ok((e, q + 1))
                } else {
                    Err(ParseError::UnclosedBracket)
                },
                Err(e) => Err(e),
            }
        } else {
            Err(ParseError::Failed)
        }
    } else {
        Err(ParseError::Failed)
    }
}

/// The meaning of a whole token sequence: the tree of the expression that
/// starts at its beginning. Trailing tokens are ignored.
pub open spec fn sp_parse(t: Seq<Lexeme>) -> Result<Ast, ParseError> {
    match sp_expr(t, 0) {
        Ok((e, _)) => Ok(e),
        Err(e) => Err(e),
    }
}

/// Every value node of the tree carries a float text.
pub open spec fn wf_ast(a: Ast) -> bool
    decreases a,
{
    match a {
        Ast::Binary(l, _op, r) => wf_ast(*l) && wf_ast(*r),
        Ast::Unary(_op, c) => wf_ast(*c),
        Ast::Value(l) => crate::numeral::wf_lexeme(l),
    }
}

// Parsing well-formed tokens yields well-formed trees: the proofs mirror
// the spec parser, one per production.

proof fn lemma_sp_primary_wf(t: Seq<Lexeme>, p: int)
    requires
        crate::numeral::wf_lexemes(t),
        0 <= p <= t.len(),
    ensures
        sp_primary(t, p) matches Ok(r) ==> wf_ast(r.0),
    decreases t.len() - p, 0int,
{
    if p < t.len() && !(t[p] is Number) && t[p] is LeftParen {
        lemma_sp_expr_wf(t, p + 1);
    }
}

proof fn lemma_sp_unary_wf(t: Seq<Lexeme>, p: int)
    requires
        crate::numeral::wf_lexemes(t),
        0 <= p <= t.len(),
    ensures
        sp_unary(t, p) matches Ok(r) ==> wf_ast(r.0),
    decreases t.len() - p, 1int,
{
    if p < t.len() && is_unary_lexeme(t[p]) {
        lemma_sp_unary_wf(t, p + 1);
    } else {
        lemma_sp_primary_wf(t, p);
    }
}

proof fn lemma_sp_power_rest_wf(t: Seq<Lexeme>, acc: Ast, p: int)
    requires
        crate::numeral::wf_lexemes(t),
        wf_ast(acc),
        0 <= p <= t.len(),
    ensures
        sp_power_rest(t, acc, p) matches Ok(r) ==> wf_ast(r.0),
    decreases t.len() - p, 9int,
{
    if p < t.len() && t[p] is Power {
        lemma_sp_unary_wf(t, p + 1);
        if sp_unary(t, p + 1) is Ok {
            let (rhs, q) = sp_unary(t, p + 1)->Ok_0;
            if p < q <= t.len() {
                lemma_sp_power_rest_wf(t, Ast::Binary(Box::new(acc), t[p], Box::new(rhs)), q);
            }
        }
    }
}

proof fn lemma_sp_power_wf(t: Seq<Lexeme>, p: int)
    requires
        crate::numeral::wf_lexemes(t),
        0 <= p <= t.len(),
    ensures
        sp_power(t, p) matches Ok(r) ==> wf_ast(r.0),
    decreases t.len() - p, 2int,
{
    lemma_sp_unary_wf(t, p);
    if sp_unary(t, p) is Ok {
        let (e, q) = sp_unary(t, p)->Ok_0;
        if p < q <= t.len() {
            lemma_sp_power_rest_wf(t, e, q);
        }
    }
}

proof fn lemma_sp_factor_rest_wf(t: Seq<Lexeme>, acc: Ast, p: int)
    requires
        crate::numeral::wf_lexemes(t),
        wf_ast(acc),
        0 <= p <= t.len(),
    ensures
        sp_factor_rest(t, acc, p) matches Ok(r) ==> wf_ast(r.0),
    decreases t.len() - p, 9int,
{
    if p < t.len() && (t[p] is Star || t[p] is Slash) {
        lemma_sp_power_wf(t, p + 1);
        if sp_power(t, p + 1) is Ok {
            let (rhs, q) = sp_power(t, p + 1)->Ok_0;
            if p < q <= t.len() {
                lemma_sp_factor_rest_wf(t, Ast::Binary(Box::new(acc), t[p], Box::new(rhs)), q);
            }
        }
    }
}

proof fn lemma_sp_factor_wf(t: Seq<Lexeme>, p: int)
    requires
        crate::numeral::wf_lexemes(t),
        0 <= p <= t.len(),
    ensures
        sp_factor(t, p) matches Ok(r) ==> wf_ast(r.0),
    decreases t.len() - p, 3int,
{
    lemma_sp_power_wf(t, p);
    if sp_power(t, p) is Ok {
        let (e, q) = sp_power(t, p)->Ok_0;
        if p < q <= t.len() {
            lemma_sp_factor_rest_wf(t, e, q);
        }
    }
}

proof fn lemma_sp_term_rest_wf(t: Seq<Lexeme>, acc: Ast, p: int)
    requires
        crate::numeral::wf_lexemes(t),
        wf_ast(acc),
        0 <= p <= t.len(),
    ensures
        sp_term_rest(t, acc, p) matches Ok(r) ==> wf_ast(r.0),
    decreases t.len() - p, 9int,
{
    if p < t.len() && (t[p] is Plus || t[p] is Minus) {
        lemma_sp_factor_wf(t, p + 1);
        if sp_factor(t, p + 1) is Ok {
            let (rhs, q) = sp_factor(t, p + 1)->Ok_0;
            if p < q <= t.len() {
                lemma_sp_term_rest_wf(t, Ast::Binary(Box::new(acc), t[p], Box::new(rhs)), q);
            }
        }
    }
}

proof fn lemma_sp_term_wf(t: Seq<Lexeme>, p: int)
    requires
        crate::numeral::wf_lexemes(t),
        0 <= p <= t.len(),
    ensures
        sp_term(t, p) matches Ok(r) ==> wf_ast(r.0),
    decreases t.len() - p, 4int,
{
    lemma_sp_factor_wf(t, p);
    if sp_factor(t, p) is Ok {
        let (e, q) = sp_factor(t, p)->Ok_0;
        if p < q <= t.len() {
            lemma_sp_term_rest_wf(t, e, q);
        }
    }
}

proof fn lemma_sp_expr_wf(t: Seq<Lexeme>, p: int)
    requires
        crate::numeral::wf_lexemes(t),
        0 <= p <= t.len(),
    ensures
        sp_expr(t, p) matches Ok(r) ==> wf_ast(r.0),
    decreases t.len() - p, 5int,
{
    lemma_sp_term_wf(t, p);
}

/// A tree parsed from well-formed tokens is well formed: every value node
/// carries a float text.
pub proof fn lemma_parse_wf(t: Seq<Lexeme>)
    requires
        crate::numeral::wf_lexemes(t),
    ensures
        sp_parse(t) matches Ok(a) ==> wf_ast(a),
{
    lemma_sp_expr_wf(t, 0);
}

fn is_add_op(t: &Token) -> (b: bool)
    ensures
        b == (t@ is Plus || t@ is Minus),
{
    match t {
        Token::Plus | Token::Minus => true,
        _ => false,
    }
}

fn is_mul_op(t: &Token) -> (b: bool)
    ensures
        b == (t@ is Star || t@ is Slash),
{
    match t {
        Token::Star | Token::Slash => true,
        _ => false,
    }
}

fn is_unary_op(t: &Token) -> (b: bool)
    ensures
        b == is_unary_lexeme(t@),
{
    match t {
        Token::Minus | Token::Plus | Token::Ln | Token::Log | Token::Sin | Token::Cos
            | Token::Tan => true,
        _ => false,
    }
}

impl ParseExpr {
    /// Parses the expression that starts the token sequence; trailing tokens
    /// are ignored. The result is exactly what `sp_parse` says of the
    /// tokens' model.
    pub fn expr(toks: &Vec<Token>) -> (r: Result<ParseExpr, ParseError>)
        ensures
            match r {
                Ok(e) => sp_parse(lexemes(toks@)) == Ok::<Ast, ParseError>(e@),
                Err(pe) => sp_parse(lexemes(toks@)) == Err::<Ast, ParseError>(pe),
            },
    {
        match Self::expr_at(toks, 0) {
            Ok((e, _)) => Ok(e),
            Err(pe) => Err(pe),
        }
    }

    fn expr_at(toks: &Vec<Token>, pos: usize) -> (r: Result<(ParseExpr, usize), ParseError>)
        requires
            pos <= toks@.len(),
        ensures
            match r {
                Ok((e, q)) => sp_expr(lexemes(toks@), pos as int) == Ok::<(Ast, int), ParseError>(
                    (e@, q as int),
                ) && pos < q <= toks@.len(),
                Err(pe) => sp_expr(lexemes(toks@), pos as int) == Err::<(Ast, int), ParseError>(pe),
            },
        decreases toks@.len() - pos, 5int,
    {
        Self::term_at(toks, pos)
    }

    fn term_at(toks: &Vec<Token>, pos: usize) -> (r: Result<(ParseExpr, usize), ParseError>)
        requires
            pos <= toks@.len(),
        ensures
            match r {
                Ok((e, q)) => sp_term(lexemes(toks@), pos as int) == Ok::<(Ast, int), ParseError>(
                    (e@, q as int),
                ) && pos < q <= toks@.len(),
                Err(pe) => sp_term(lexemes(toks@), pos as int) == Err::<(Ast, int), ParseError>(pe),
            },
        decreases toks@.len() - pos, 4int,
    {
        let ghost t = lexemes(toks@);
        let (mut e, mut p) = match Self::factor_at(toks, pos) {
            Ok(ep) => ep,
            Err(pe) => {
                return Err(pe);
            },
        };
        while p < toks.len() && is_add_op(&toks[p])
            invariant
                pos < p <= toks@.len(),
                t == lexemes(toks@),
                sp_term(t, pos as int) == sp_term_rest(t, e@, p as int),
            decreases toks@.len() - p,
        {
            let op = toks[p].dup();
            let ghost acc = e@;
            match Self::factor_at(toks, p + 1) {
                Ok((rhs, q)) => {
                    e = ParseExpr::Binary(Box::new(e), op, Box::new(rhs));
                    proof {
                        assert(e@ == Ast::Binary(Box::new(acc), t[p as int], Box::new(rhs@)));
                    }
                    p = q;
                },
                Err(pe) => {
                    return Err(pe);
                },
            }
        }
        Ok((e, p))
    }

    fn factor_at(toks: &Vec<Token>, pos: usize) -> (r: Result<(ParseExpr, usize), ParseError>)
        requires
            pos <= toks@.len(),
        ensures
            match r {
                Ok((e, q)) => sp_factor(lexemes(toks@), pos as int) == Ok::<(Ast, int), ParseError>(
                    (e@, q as int),
                ) && pos < q <= toks@.len(),
                Err(pe) => sp_factor(lexemes(toks@), pos as int) == Err::<
                    (Ast, int),
                    ParseError,
                >(pe),
            },
        decreases toks@.len() - pos, 3int,
    {
        let ghost t = lexemes(toks@);
        let (mut e, mut p) = match Self::power_at(toks, pos) {
            Ok(ep) => ep,
            Err(pe) => {
                return Err(pe);
            },
        };
        while p < toks.len() && is_mul_op(&toks[p])
            invariant
                pos < p <= toks@.len(),
                t == lexemes(toks@),
                sp_factor(t, pos as int) == sp_factor_rest(t, e@, p as int),
            decreases toks@.len() - p,
        {
            let op = toks[p].dup();
            let ghost acc = e@;
            match Self::power_at(toks, p + 1) {
                Ok((rhs, q)) => {
                    e = ParseExpr::Binary(Box::new(e), op, Box::new(rhs));
                    proof {
                        assert(e@ == Ast::Binary(Box::new(acc), t[p as int], Box::new(rhs@)));
                    }
                    p = q;
                },
                Err(pe) => {
                    return Err(pe);
                },
            }
        }
        Ok((e, p))
    }

    fn power_at(toks: &Vec<Token>, pos: usize) -> (r: Result<(ParseExpr, usize), ParseError>)
        requires
            pos <= toks@.len(),
        ensures
            match r {
                Ok((e, q)) => sp_power(lexemes(toks@), pos as int) == Ok::<(Ast, int), ParseError>(
                    (e@, q as int),
                ) && pos < q <= toks@.len(),
                Err(pe) => sp_power(lexemes(toks@), pos as int) == Err::<(Ast, int), ParseError>(
                    pe,
                ),
            },
        decreases toks@.len() - pos, 2int,
    {
        let ghost t = lexemes(toks@);
        let (mut e, mut p) = match Self::unary_at(toks, pos) {
            Ok(ep) => ep,
            Err(pe) => {
                return Err(pe);
            },
        };
        while p < toks.len() && matches!(&toks[p], Token::Power)
            invariant
                pos < p <= toks@.len(),
                t == lexemes(toks@),
                sp_power(t, pos as int) == sp_power_rest(t, e@, p as int),
            decreases toks@.len() - p,
        {
            let op = toks[p].dup();
            let ghost acc = e@;
            match Self::unary_at(toks, p + 1) {
                Ok((rhs, q)) => {
                    e = ParseExpr::Binary(Box::new(e), op, Box::new(rhs));
                    proof {
                        assert(e@ == Ast::Binary(Box::new(acc), t[p as int], Box::new(rhs@)));
                    }
                    p = q;
                },
                Err(pe) => {
                    return Err(pe);
                },
            }
        }
        Ok((e, p))
    }

    fn unary_at(toks: &Vec<Token>, pos: usize) -> (r: Result<(ParseExpr, usize), ParseError>)
        requires
            pos <= toks@.len(),
        ensures
            match r {
                Ok((e, q)) => sp_unary(lexemes(toks@), pos as int) == Ok::<(Ast, int), ParseError>(
                    (e@, q as int),
                ) && pos < q <= toks@.len(),
                Err(pe) => sp_unary(lexemes(toks@), pos as int) == Err::<(Ast, int), ParseError>(
                    pe,
                ),
            },
        decreases toks@.len() - pos, 1int,
    {
        if pos < toks.len() && is_unary_op(&toks[pos]) {
            let op = toks[pos].dup();
            match Self::unary_at(toks, pos + 1) {
                Ok((e, q)) => Ok((ParseExpr::Unary(op, Box::new(e)), q)),
                Err(pe) => Err(pe),
            }
        } else {
            Self::primary_at(toks, pos)
        }
    }

    fn primary_at(toks: &Vec<Token>, pos: usize) -> (r: Result<(ParseExpr, usize), ParseError>)
        requires
            pos <= toks@.len(),
        ensures
            match r {
                Ok((e, q)) => sp_primary(lexemes(toks@), pos as int) == Ok::<
                    (Ast, int),
                    ParseError,
                >((e@, q as int)) && pos < q <= toks@.len(),
                Err(pe) => sp_primary(lexemes(toks@), pos as int) == Err::<(Ast, int), ParseError>(
                    pe,
                ),
            },
        decreases toks@.len() - pos, 0int,
    {
        if pos < toks.len() {
            match &toks[pos] {
                Token::Number(_) => Ok((ParseExpr::Value(toks[pos].dup()), pos + 1)),
                Token::LeftParen => {
                    match Self::expr_at(toks, pos + 1) {
                        Ok((e, q)) => {
                            if q < toks.len() && matches!(&toks[q], Token::RightParen) {
                                Ok((e, q + 1))
                            } else {
                                Err(ParseError::UnclosedBracket)
                            }
                        },
                        Err(pe) => Err(pe),
                    }
                },
                _ => Err(ParseError::Failed),
            }
        } else {
            Err(ParseError::Failed)
        }
    }
}

} // verus!
