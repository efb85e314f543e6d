//! The variable resolver: replaces variable tokens by number tokens.
//!
//! A variable's value comes from an outside provider (in practice an
//! interactive prompt), so the resolver is a small state machine that the
//! embedding program drives: `advance` works through the tokens until it
//! needs a value or finishes, and `supply` hands one variable's value text
//! in. A value is requested only for an identifier with no binding yet, and
//! a binding, once made, is never changed: a variable used twice is asked
//! for once, and later uses reuse the cached value.

use vstd::prelude::*;

use crate::numeral::{is_float_literal, is_float_text, trim_text, trimmed, wf_lexemes};
use crate::token::{lexemes, Lexeme, Token};

verus! {

/// Why resolution failed.
#[derive(Clone, Copy, Debug, PartialEq, Eq, Structural)]
pub enum ResolveError {
    /// The provided value text is not a float text.
    NotNumeric,
}

impl ResolveError {
    /// A human-readable account of the failure.
    pub fn message(&self) -> (m: &'static str)
        ensures
            m@ == "variable value is not a number"@,
    {
        match self {
            ResolveError::NotNumeric => "variable value is not a number",
        }
    }
}

/// What `advance` reports: the resolver is done, or it needs a value for
/// the named identifier before it can go on.
#[derive(Clone, Copy, Debug, PartialEq, Eq, Structural)]
pub enum ResolveStep {
    Finished,
    NeedValue(char),
}

/// One variable binding: an identifier and the value text it resolved to.
struct Binding {
    id: char,
    text: String,
}

/// The value text bound to `id`, searching from the front.
spec fn lookup_in(bs: Seq<Binding>, id: char) -> Option<Seq<char>>
    decreases bs.len(),
{
    if bs.len() == 0 {
        None
    } else if bs[0].id == id {
        Some(bs[0].text@)
    } else {
        lookup_in(bs.drop_first(), id)
    }
}

proof fn lemma_lookup_push(bs: Seq<Binding>, b: Binding, id: char)
    ensures
        lookup_in(bs.push(b), id) == if lookup_in(bs, id) is Some {
            lookup_in(bs, id)
        } else if b.id == id {
            Some(b.text@)
        } else {
            None
        },
    decreases bs.len(),
{
    if bs.len() == 0 {
        assert(bs.push(b)[0] == b);
        assert(bs.push(b).drop_first() =~= Seq::<Binding>::empty());
        assert(lookup_in(Seq::<Binding>::empty(), id) is None);
        assert(lookup_in(bs, id) is None);
    } else {
        assert(bs.push(b)[0] == bs[0]);
        assert(bs.push(b).drop_first() =~= bs.drop_first().push(b));
        lemma_lookup_push(bs.drop_first(), b, id);
        assert(lookup_in(bs, id) == if bs[0].id == id {
            Some(bs[0].text@)
        } else {
            lookup_in(bs.drop_first(), id)
        });
        assert(lookup_in(bs.push(b), id) == if bs[0].id == id {
            Some(bs[0].text@)
        } else {
            lookup_in(bs.drop_first().push(b), id)
        });
    }
}

fn lookup_text(bs: &Vec<Binding>, id: char) -> (r: Option<String>)
    ensures
        match r {
            Some(s) => lookup_in(bs@, id) == Some(s@),
            None => lookup_in(bs@, id) is None,
        },
{
    let mut k: usize = 0;
    proof {
        assert(bs@.subrange(0, bs@.len() as int) =~= bs@);
    }
    while k < bs.len()
        invariant
            k <= bs@.len(),
            lookup_in(bs@, id) == lookup_in(bs@.subrange(k as int, bs@.len() as int), id),
        decreases bs@.len() - k,
    {
        let ghost rest = bs@.subrange(k as int, bs@.len() as int);
        proof {
            assert(rest[0] == bs@[k as int]);
            assert(rest.drop_first() =~= bs@.subrange(k + 1, bs@.len() as int));
        }
        if bs[k].id == id {
            return Some(bs[k].text.clone());
        }
        k = k + 1;
    }
    proof {
        assert(bs@.subrange(bs@.len() as int, bs@.len() as int) =~= Seq::<Binding>::empty());
    }
    None
}

/// The resolver's state: the tokens it reads, how far it has come, the
/// resolved tokens it has written, and the bindings made so far.
pub struct Resolver {
    input: Vec<Token>,
    pos: usize,
    output: Vec<Token>,
    bindings: Vec<Binding>,
}

impl Resolver {
    /// The tokens being resolved.
    pub closed spec fn source(self) -> Seq<Lexeme> {
        lexemes(self.input@)
    }

    /// How many tokens are resolved already.
    pub closed spec fn at(self) -> int {
        self.pos as int
    }

    /// The resolved tokens written so far.
    pub closed spec fn resolved(self) -> Seq<Lexeme> {
        lexemes(self.output@)
    }

    /// The value text the identifier is bound to, if any.
    pub closed spec fn binding(self, id: char) -> Option<Seq<char>> {
        lookup_in(self.bindings@, id)
    }

    /// Whether the identifier has a binding.
    pub open spec fn bound(self, id: char) -> bool {
        self.binding(id) is Some
    }

    /// What a token resolves to: a bound variable becomes its value as a
    /// number token, everything else stays as it is.
    pub open spec fn subst(self, l: Lexeme) -> Lexeme {
        match l {
            Lexeme::Variable(id) => match self.binding(id) {
                Some(v) => Lexeme::Number(v),
                None => l,
            },
            _ => l,
        }
    }

    /// The state invariant: the written tokens are exactly the resolved
    /// prefix of the source, every variable in that prefix is bound, and
    /// every bound value is a float text.
    pub open spec fn wf(self) -> bool {
        &&& 0 <= self.at() <= self.source().len()
        &&& self.resolved() == self.source().subrange(0, self.at()).map_values(
            |l: Lexeme| self.subst(l),
        )
        &&& forall|k: int|
            0 <= k < self.at() ==> (self.source()[k] is Variable ==> self.bound(
                self.source()[k]->Variable_0,
            ))
        &&& forall|id: char|
            self.binding(id) is Some ==> is_float_literal(self.binding(id)->Some_0)
    }

    /// A fresh resolver over the given tokens: nothing resolved, nothing
    /// bound.
    pub fn new(input: Vec<Token>) -> (r: Resolver)
        ensures
            r.wf(),
            r.source() == lexemes(input@),
            r.at() == 0,
            r.resolved() == Seq::<Lexeme>::empty(),
            forall|id: char| !r.bound(id),
    {
        let r = Resolver { input, pos: 0, output: Vec::new(), bindings: Vec::new() };
        proof {
            assert(r.source().subrange(0, 0).map_values(|l: Lexeme| r.subst(l)) =~= Seq::<
                Lexeme,
            >::empty());
            assert(lexemes(r.output@) =~= Seq::<Lexeme>::empty());
        }
        r
    }

    /// Works through the tokens, substituting bound variables, until it
    /// either finishes or stands before a variable without a binding. A
    /// value is requested only for an unbound identifier, and the bindings
    /// are left exactly as they were.
    pub fn advance(&mut self) -> (st: ResolveStep)
        requires
            old(self).wf(),
        ensures
            final(self).wf(),
            final(self).source() == old(self).source(),
            forall|id: char| final(self).binding(id) == old(self).binding(id),
            old(self).at() <= final(self).at(),
            match st {
                ResolveStep::Finished => final(self).at() == final(self).source().len(),
                ResolveStep::NeedValue(id) => {
                    &&& final(self).at() < final(self).source().len()
                    &&& final(self).source()[final(self).at()] == Lexeme::Variable(id)
                    &&& !final(self).bound(id)
                },
            },
    {
        while self.pos < self.input.len()
            invariant
                self.wf(),
                self.source() == old(self).source(),
                self.bindings@ == old(self).bindings@,
                old(self).at() <= self.at(),
            decreases self.source().len() - self.at(),
        {
            let ghost pre = *self;
            let cur = self.input[self.pos].dup();
            match cur {
                Token::Variable(id) => {
                    match lookup_text(&self.bindings, id) {
                        Some(text) => {
                            self.output.push(Token::Number(text));
                            self.pos = self.pos + 1;
                            proof {
                                assert(self.resolved() =~= pre.resolved().push(
                                    self.subst(self.source()[pre.at()]),
                                ));
                                assert(self.source().subrange(0, self.at()).map_values(
                                    |l: Lexeme| self.subst(l),
                                ) =~= pre.source().subrange(0, pre.at()).map_values(
                                    |l: Lexeme| pre.subst(l),
                                ).push(self.subst(self.source()[pre.at()])));
                                assert forall|i: char| self.binding(i) is Some implies
                                    is_float_literal(self.binding(i)->Some_0) by {
                                    assert(self.binding(i) == pre.binding(i));
                                }
                            }
                        },
                        None => {
                            return ResolveStep::NeedValue(id);
                        },
                    }
                },
                _ => {
                    self.output.push(cur);
                    self.pos = self.pos + 1;
                    proof {
                        assert(self.resolved() =~= pre.resolved().push(
                            self.subst(self.source()[pre.at()]),
                        ));
                        assert(self.source().subrange(0, self.at()).map_values(
                            |l: Lexeme| self.subst(l),
                        ) =~= pre.source().subrange(0, pre.at()).map_values(
                            |l: Lexeme| pre.subst(l),
                        ).push(self.subst(self.source()[pre.at()])));
                        assert forall|i: char| self.binding(i) is Some implies
                            is_float_literal(self.binding(i)->Some_0) by {
                            assert(self.binding(i) == pre.binding(i));
                        }
                    }
                },
            }
        }
        ResolveStep::Finished
    }

    /// Takes one variable's value text: strips whitespace at both ends,
    /// refuses anything the float grammar refuses, and binds the identifier
    /// unless it is bound already — the first value a variable resolves to
    /// is the one every later use reuses.
    pub fn supply(&mut self, id: char, text: &str) -> (r: Result<(), ResolveError>)
        requires
            old(self).wf(),
        ensures
            final(self).wf(),
            final(self).source() == old(self).source(),
            final(self).at() == old(self).at(),
            final(self).resolved() == old(self).resolved(),
            forall|i: char|
                old(self).bound(i) ==> final(self).binding(i) == old(self).binding(i),
            match r {
                Ok(()) => {
                    &&& is_float_literal(trimmed(text@))
                    &&& final(self).bound(id)
                    &&& (!old(self).bound(id) ==> final(self).binding(id) == Some(trimmed(text@)))
                    &&& forall|i: char|
                        i != id ==> final(self).binding(i) == old(self).binding(i)
                },
                Err(e) => {
                    &&& e == ResolveError::NotNumeric
                    &&& !is_float_literal(trimmed(text@))
                    &&& *final(self) == *old(self)
                },
            },
    {
        let t = trim_text(text);
        if !is_float_text(t.as_str()) {
            return Err(ResolveError::NotNumeric);
        }
        match lookup_text(&self.bindings, id) {
            Some(_) => Ok(()),
            None => {
                let ghost pre = *self;
                self.bindings.push(Binding { id, text: t });
                proof {
                    let b = self.bindings@.last();
                    assert(self.bindings@ =~= pre.bindings@.push(b));
                    assert forall|i: char| true implies self.binding(i) == if pre.bound(i) {
                        pre.binding(i)
                    } else if i == id {
                        Some(trimmed(text@))
                    } else {
                        None::<Seq<char>>
                    } by {
                        lemma_lookup_push(pre.bindings@, b, i);
                    }
                    assert(self.source().subrange(0, self.at()).map_values(
                        |l: Lexeme| self.subst(l),
                    ) =~= pre.source().subrange(0, pre.at()).map_values(|l: Lexeme| pre.subst(l)));
                }
                Ok(())
            },
        }
    }

    /// The resolved tokens, once everything is resolved. No variable token
    /// is left among them.
    pub fn into_tokens(self) -> (out: Vec<Token>)
        requires
            self.wf(),
            self.at() == self.source().len(),
        ensures
            lexemes(out@) == self.source().map_values(|l: Lexeme| self.subst(l)),
            forall|k: int| 0 <= k < out@.len() ==> !(lexemes(out@)[k] is Variable),
            wf_lexemes(self.source()) ==> wf_lexemes(lexemes(out@)),
    {
        proof {
            assert(self.source().subrange(0, self.source().len() as int) =~= self.source());
            assert forall|k: int| 0 <= k < self.resolved().len() implies !(self.resolved()[k]
                is Variable) by {
                assert(self.resolved()[k] == self.subst(self.source()[k]));
            }
            if wf_lexemes(self.source()) {
                assert forall|k: int|
                    0 <= k < self.resolved().len() implies crate::numeral::wf_lexeme(
                    self.resolved()[k],
                ) by {
                    assert(self.resolved()[k] == self.subst(self.source()[k]));
                    assert(crate::numeral::wf_lexeme(self.source()[k]));
                }
            }
        }
        self.output
    }
}

} // verus!
