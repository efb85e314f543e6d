//! The lexer: a single left-to-right pass from text to tokens.

use vstd::prelude::*;

use crate::token::{lexemes, Lexeme, Token};

verus! {

/// Why lexing failed.
#[derive(Clone, Copy, Debug, PartialEq, Eq, Structural)]
pub enum LexError {
    /// A character outside the language's alphabet.
    UnrecognizedChar,
    /// A numeral with more than one decimal point.
    MalformedNumber,
    /// An identifier of several characters that is not a function keyword.
    VariableTooLong,
}

impl LexError {
    /// A human-readable account of the failure.
    pub fn message(&self) -> (m: &'static str)
        ensures
            m@ == match self {
                LexError::UnrecognizedChar => "unrecognized character"@,
                LexError::MalformedNumber => "malformed numeric literal"@,
                LexError::VariableTooLong => "variable identifier must be exactly one character"@,
            },
    {
        match self {
            LexError::UnrecognizedChar => "unrecognized character",
            LexError::MalformedNumber => "malformed numeric literal",
            LexError::VariableTooLong => "variable identifier must be exactly one character",
        }
    }
}

/// An ASCII decimal digit.
pub open spec fn is_digit(c: char) -> bool {
    '0' as u32 <= c as u32 && c as u32 <= '9' as u32
}

/// An ASCII letter.
pub open spec fn is_letter(c: char) -> bool {
    ('a' as u32 <= c as u32 && c as u32 <= 'z' as u32) || ('A' as u32 <= c as u32 && c as u32
        <= 'Z' as u32)
}

/// The characters the lexer skips: space, carriage return, line feed.
pub open spec fn is_space(c: char) -> bool {
    c == ' ' || c == '\n' || c == '\r'
}

fn digit(c: char) -> (b: bool)
    ensures
        b == is_digit(c),
{
    '0' as u32 <= c as u32 && c as u32 <= '9' as u32
}

fn letter(c: char) -> (b: bool)
    ensures
        b == is_letter(c),
{
    ('a' as u32 <= c as u32 && c as u32 <= 'z' as u32) || ('A' as u32 <= c as u32 && c as u32
        <= 'Z' as u32)
}

/// Where the numeral starting at `i` ends: the first position holding
/// neither a digit nor a decimal point.
pub open spec fn numeral_end(t: Seq<char>, i: int) -> int
    decreases t.len() - i when 0 <= i <= t.len()
{
    if i < t.len() && (is_digit(t[i]) || t[i] == '.') {
        numeral_end(t, i + 1)
    } else {
        i
    }
}

/// Where the identifier starting at `i` ends: the first position holding no
/// letter and no digit.
pub open spec fn ident_end(t: Seq<char>, i: int) -> int
    decreases t.len() - i when 0 <= i <= t.len()
{
    if i < t.len() && (is_letter(t[i]) || is_digit(t[i])) {
        ident_end(t, i + 1)
    } else {
        i
    }
}

/// The position bound that lets `lex_from` recurse past a numeral: when a
/// digit stands at `i`, the numeral's end lies strictly beyond `i` and
/// within the text, so the guard in `lex_from` never fails.
pub proof fn lemma_numeral_end_bounds(t: Seq<char>, i: int)
    requires
        0 <= i <= t.len(),
    ensures
        i <= numeral_end(t, i) <= t.len(),
        i < t.len() && (is_digit(t[i]) || t[i] == '.') ==> i < numeral_end(t, i),
    decreases t.len() - i,
{
    if i < t.len() && (is_digit(t[i]) || t[i] == '.') {
        lemma_numeral_end_bounds(t, i + 1);
    }
}

/// As `lemma_numeral_end_bounds`, for identifiers.
pub proof fn lemma_ident_end_bounds(t: Seq<char>, i: int)
    requires
        0 <= i <= t.len(),
    ensures
        i <= ident_end(t, i) <= t.len(),
        i < t.len() && (is_letter(t[i]) || is_digit(t[i])) ==> i < ident_end(t, i),
    decreases t.len() - i,
{
    if i < t.len() && (is_letter(t[i]) || is_digit(t[i])) {
        lemma_ident_end_bounds(t, i + 1);
    }
}

/// How many decimal points a numeral holds.
pub open spec fn dot_count(s: Seq<char>) -> int
    decreases s.len(),
{
    if s.len() == 0 {
        0
    } else {
        dot_count(s.drop_last()) + if s.last() == '.' {
            1int
        } else {
            0int
        }
    }
}

/// What the single-character tokens mean.
pub open spec fn single_char_lexeme(c: char) -> Option<Lexeme> {
    if c == '+' {
        Some(Lexeme::Plus)
    } else if c == '-' {
        Some(Lexeme::Minus)
    } else if c == '*' {
        Some(Lexeme::Star)
    } else if c == '/' {
        Some(Lexeme::Slash)
    } else if c == '^' {
        Some(Lexeme::Power)
    } else if c == '(' || c == '[' {
        Some(Lexeme::LeftParen)
    } else if c == ')' || c == ']' {
        Some(Lexeme::RightParen)
    } else {
        None
    }
}

/// What an identifier means: one of the five function keywords, a
/// single-letter variable, or a lexing failure.
pub open spec fn ident_lexeme(w: Seq<char>) -> Result<Lexeme, LexError> {
    if w =~= seq!['l', 'n'] {
        Ok(Lexeme::Ln)
    } else if w =~= seq!['s', 'i', 'n'] {
        Ok(Lexeme::Sin)
    } else if w =~= seq!['c', 'o', 's'] {
        Ok(Lexeme::Cos)
    } else if w =~= seq!['t', 'a', 'n'] {
        Ok(Lexeme::Tan)
    } else if w =~= seq!['l', 'o', 'g'] {
        Ok(Lexeme::Log)
    } else if w.len() == 1 {
        Ok(Lexeme::Variable(w[0]))
    } else {
        Err(LexError::VariableTooLong)
    }
}

/// Prepends a lexeme to the outcome of lexing the rest of the text.
pub open spec fn lex_cons(l: Lexeme, rest: Result<Seq<Lexeme>, LexError>) -> Result<
    Seq<Lexeme>,
    LexError,
> {
    match rest {
        Ok(s) => Ok(seq![l] + s),
        Err(e) => Err(e),
    }
}

/// The meaning of the text from position `i` on: the token sequence it
/// lexes to, or the first failure.
pub open spec fn lex_from(t: Seq<char>, i: int) -> Result<Seq<Lexeme>, LexError>
    decreases t.len() - i when 0 <= i <= t.len()
{
    if i == t.len() {
        Ok(Seq::empty())
    } else {
        let c = t[i];
        if is_space(c) {
            lex_from(t, i + 1)
        } else if single_char_lexeme(c) is Some {
            lex_cons(single_char_lexeme(c)->Some_0, lex_from(t, i + 1))
        } else if is_digit(c) {
            let j = numeral_end(t, i);
            // The bounds on j always hold (`lemma_numeral_end_bounds`); the
            // check only serves the termination measure.
            if i < j <= t.len() {
                let num = t.subrange(i, j);
                if dot_count(num) <= 1 {
                    lex_cons(Lexeme::Number(num), lex_from(t, j))
                } else {
                    Err(LexError::MalformedNumber)
                }
            } else {
                Err(LexError::MalformedNumber)
            }
        } else if is_letter(c) {
            let j = ident_end(t, i);
            // As above: the check only serves the termination measure.
            if i < j <= t.len() {
                match ident_lexeme(t.subrange(i, j)) {
                    Ok(l) => lex_cons(l, lex_from(t, j)),
                    Err(e) => Err(e),
                }
            } else {
                Err(LexError::VariableTooLong)
            }
        } else {
            Err(LexError::UnrecognizedChar)
        }
    }
}

/// The meaning of a whole text.
pub open spec fn lex(t: Seq<char>) -> Result<Seq<Lexeme>, LexError> {
    lex_from(t, 0)
}

/// The loop invariant of `produce_tokens`: the tokens read so far, followed
/// by the meaning of the rest, make the meaning of the whole text.
spec fn lex_prefix_ok(t: Seq<char>, i: int, acc: Seq<Lexeme>) -> bool {
    match lex_from(t, i) {
        Ok(rest) => lex(t) == Ok::<_, LexError>(acc + rest),
        Err(e) => lex(t) == Err::<Seq<Lexeme>, _>(e),
    }
}

proof fn lemma_lex_step(t: Seq<char>, i: int, acc: Seq<Lexeme>, l: Lexeme, j: int)
    requires
        0 <= i <= t.len(),
        lex_prefix_ok(t, i, acc),
        lex_from(t, i) == lex_cons(l, lex_from(t, j)),
    ensures
        lex_prefix_ok(t, j, acc.push(l)),
{
    match lex_from(t, j) {
        Ok(rest) => {
            assert(acc + (seq![l] + rest) =~= acc.push(l) + rest);
        },
        Err(_) => {},
    }
}

/// Turns expression text into tokens, left to right in a single pass.
/// Digits open a numeral (digits and at most one decimal point), letters
/// open an identifier (letters and digits), and space, carriage return and
/// line feed are skipped. The result is exactly what `lex` says.
pub fn produce_tokens(expr: String) -> (r: Result<Vec<Token>, LexError>)
    ensures
        match r {
            Ok(v) => lex(expr@) == Ok::<_, LexError>(lexemes(v@)),
            Err(e) => lex(expr@) == Err::<Seq<Lexeme>, _>(e),
        },
{
    let s = expr.as_str();
    let n = s.unicode_len();
    let mut toks: Vec<Token> = Vec::new();
    let mut i: usize = 0;
    while i < n
        invariant
            n == s@.len(),
            i <= n,
            s@ == expr@,
            lex_prefix_ok(s@, i as int, lexemes(toks@)),
        decreases n - i,
    {
        let ghost pre = lexemes(toks@);
        let c = s.get_char(i);
        if c == ' ' || c == '\n' || c == '\r' {
            i = i + 1;
        } else if c == '+' || c == '-' || c == '*' || c == '/' || c == '^' || c == '(' || c == '['
            || c == ')' || c == ']' {
            let tk = if c == '+' {
                Token::Plus
            } else if c == '-' {
                Token::Minus
            } else if c == '*' {
                Token::Star
            } else if c == '/' {
                Token::Slash
            } else if c == '^' {
                Token::Power
            } else if c == '(' || c == '[' {
                Token::LeftParen
            } else {
                Token::RightParen
            };
            proof {
                lemma_lex_step(s@, i as int, pre, tk@, i + 1);
            }
            toks.push(tk);
            proof {
                assert(lexemes(toks@) =~= pre.push(tk@));
            }
            i = i + 1;
        } else if digit(c) {
            let mut j = i + 1;
            let mut dots: usize = 0;
            proof {
                let first = s@.subrange(i as int, i + 1);
                let empty = s@.subrange(i as int, i as int);
                assert(first.drop_last() =~= empty);
                assert(empty.len() == 0);
                assert(dot_count(empty) == 0);
                assert(first.last() == s@[i as int]);
                assert(!is_digit('.'));
                assert(dot_count(first) == dot_count(empty));
            }
            while j < n && (digit(s.get_char(j)) || s.get_char(j) == '.')
                invariant
                    n == s@.len(),
                    i < j <= n,
                    dots < j,
                    numeral_end(s@, i as int) == numeral_end(s@, j as int),
                    dots == dot_count(s@.subrange(i as int, j as int)),
                decreases n - j,
            {
                if s.get_char(j) == '.' {
                    dots = dots + 1;
                }
                proof {
                    assert(s@.subrange(i as int, j + 1).drop_last() =~= s@.subrange(
                        i as int,
                        j as int,
                    ));
                }
                j = j + 1;
            }
            proof {
                assert(numeral_end(s@, j as int) == j);
            }
            let ghost num = s@.subrange(i as int, j as int);
            if dots > 1 {
                return Err(LexError::MalformedNumber);
            }
            let text = s.substring_char(i, j);
            let tk = Token::Number(String::from_str(text));
            proof {
                assert(lex_from(s@, i as int) == lex_cons(
                    Lexeme::Number(num),
                    lex_from(s@, j as int),
                ));
                lemma_lex_step(s@, i as int, pre, tk@, j as int);
            }
            toks.push(tk);
            proof {
                assert(lexemes(toks@) =~= pre.push(Lexeme::Number(num)));
            }
            i = j;
        } else if letter(c) {
            let mut j = i + 1;
            while j < n && (letter(s.get_char(j)) || digit(s.get_char(j)))
                invariant
                    n == s@.len(),
                    i < j <= n,
                    ident_end(s@, i as int) == ident_end(s@, j as int),
                decreases n - j,
            {
                j = j + 1;
            }
            proof {
                assert(ident_end(s@, j as int) == j);
            }
            let ghost word = s@.subrange(i as int, j as int);
            let len = j - i;
            let tk = if len == 2 && s.get_char(i) == 'l' && s.get_char(i + 1) == 'n' {
                Token::Ln
            } else if len == 3 && s.get_char(i) == 's' && s.get_char(i + 1) == 'i' && s.get_char(
                i + 2,
            ) == 'n' {
                Token::Sin
            } else if len == 3 && s.get_char(i) == 'c' && s.get_char(i + 1) == 'o' && s.get_char(
                i + 2,
            ) == 's' {
                Token::Cos
            } else if len == 3 && s.get_char(i) == 't' && s.get_char(i + 1) == 'a' && s.get_char(
                i + 2,
            ) == 'n' {
                Token::Tan
            } else if len == 3 && s.get_char(i) == 'l' && s.get_char(i + 1) == 'o' && s.get_char(
                i + 2,
            ) == 'g' {
                Token::Log
            } else if len == 1 {
                Token::Variable(s.get_char(i))
            } else {
                proof {
                    assert(!(word =~= seq!['l', 'n']));
                    assert(!(word =~= seq!['s', 'i', 'n']));
                    assert(!(word =~= seq!['c', 'o', 's']));
                    assert(!(word =~= seq!['t', 'a', 'n']));
                    assert(!(word =~= seq!['l', 'o', 'g']));
                }
                return Err(LexError::VariableTooLong);
            };
            proof {
                if word =~= seq!['l', 'n'] || word =~= seq!['s', 'i', 'n'] || word =~= seq![
                    'c',
                    'o',
                    's',
                ] || word =~= seq!['t', 'a', 'n'] || word =~= seq!['l', 'o', 'g'] {
                } else {
                    assert(word.len() == 1);
                }
                assert(ident_lexeme(word) == Ok::<_, LexError>(tk@));
                lemma_lex_step(s@, i as int, pre, tk@, j as int);
            }
            toks.push(tk);
            proof {
                assert(lexemes(toks@) =~= pre.push(tk@));
            }
            i = j;
        } else {
            return Err(LexError::UnrecognizedChar);
        }
    }
    proof {
        assert(lexemes(toks@) + Seq::<Lexeme>::empty() =~= lexemes(toks@));
    }
    Ok(toks)
}

} // verus!
