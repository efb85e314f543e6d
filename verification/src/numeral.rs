//! The texts that stand for numbers.
//!
//! A variable's value arrives as text and is kept as text; the embedding
//! program reads it as a floating-point number when it carries out the
//! evaluation plan. The resolver therefore accepts exactly the texts that
//! the standard float grammar accepts: an optional sign, then `inf`,
//! `infinity` or `nan` in any letter case, or digits with at most one
//! decimal point and an optional exponent.

use vstd::prelude::*;

use crate::lexer::{
    dot_count, ident_end, ident_lexeme, is_digit, is_letter, is_space, lemma_ident_end_bounds,
    lemma_numeral_end_bounds, lex_from, numeral_end, single_char_lexeme,
};
use crate::token::Lexeme;

verus! {

/// A number lexeme's text is a float text; other lexemes carry none.
pub open spec fn wf_lexeme(l: Lexeme) -> bool {
    l is Number ==> is_float_literal(l->Number_0)
}

/// Every number among the lexemes carries a float text.
pub open spec fn wf_lexemes(s: Seq<Lexeme>) -> bool {
    forall|k: int| 0 <= k < s.len() ==> wf_lexeme(s[k])
}

/// The whitespace the resolver strips from a value text before reading it:
/// space, tab, carriage return, line feed.
pub open spec fn is_blank(c: char) -> bool {
    c == ' ' || c == '\t' || c == '\n' || c == '\r'
}

/// The text with its leading whitespace stripped.
pub open spec fn ltrim(s: Seq<char>) -> Seq<char>
    decreases s.len(),
{
    if s.len() > 0 && is_blank(s[0]) {
        ltrim(s.drop_first())
    } else {
        s
    }
}

/// The text with its trailing whitespace stripped.
pub open spec fn rtrim(s: Seq<char>) -> Seq<char>
    decreases s.len(),
{
    if s.len() > 0 && is_blank(s.last()) {
        rtrim(s.drop_last())
    } else {
        s
    }
}

/// The text with whitespace stripped at both ends.
pub open spec fn trimmed(s: Seq<char>) -> Seq<char> {
    rtrim(ltrim(s))
}

/// Case-insensitive match of an ASCII letter.
pub open spec fn letter_ci(c: char, lower: char) -> bool {
    c == lower || c as u32 + 32 == lower as u32
}

/// `inf` in any letter case.
pub open spec fn is_inf(s: Seq<char>) -> bool {
    s.len() == 3 && letter_ci(s[0], 'i') && letter_ci(s[1], 'n') && letter_ci(s[2], 'f')
}

/// `infinity` in any letter case.
pub open spec fn is_infinity(s: Seq<char>) -> bool {
    s.len() == 8 && letter_ci(s[0], 'i') && letter_ci(s[1], 'n') && letter_ci(s[2], 'f')
        && letter_ci(s[3], 'i') && letter_ci(s[4], 'n') && letter_ci(s[5], 'i') && letter_ci(
        s[6],
        't',
    ) && letter_ci(s[7], 'y')
}

/// `nan` in any letter case.
pub open spec fn is_nan_text(s: Seq<char>) -> bool {
    s.len() == 3 && letter_ci(s[0], 'n') && letter_ci(s[1], 'a') && letter_ci(s[2], 'n')
}

/// A sign character.
pub open spec fn is_sign(c: char) -> bool {
    c == '+' || c == '-'
}

/// Digits and at most one decimal point, with at least one digit.
pub open spec fn is_mantissa(s: Seq<char>) -> bool {
    &&& s.len() > 0
    &&& forall|k: int| 0 <= k < s.len() ==> is_digit(s[k]) || s[k] == '.'
    &&& dot_count(s) <= 1
    &&& exists|k: int| 0 <= k < s.len() && is_digit(s[k])
}

/// Nothing but digits.
pub open spec fn all_digits(s: Seq<char>) -> bool {
    forall|k: int| 0 <= k < s.len() ==> is_digit(s[k])
}

/// An exponent's tail: an optional sign, then at least one digit.
pub open spec fn is_exp_tail(s: Seq<char>) -> bool {
    if s.len() > 0 && is_sign(s[0]) {
        s.len() > 1 && all_digits(s.drop_first())
    } else {
        s.len() > 0 && all_digits(s)
    }
}

/// An unsigned number: a mantissa, optionally followed by `e` or `E` and an
/// exponent.
pub open spec fn is_number(s: Seq<char>) -> bool {
    let m = numeral_end(s, 0);
    &&& is_mantissa(s.subrange(0, m))
    &&& (m == s.len() || (0 <= m < s.len() && (s[m] == 'e' || s[m] == 'E') && is_exp_tail(
        s.subrange(m + 1, s.len() as int),
    )))
}

/// A text the standard float grammar accepts.
pub open spec fn is_float_literal(s: Seq<char>) -> bool {
    let b = if s.len() > 0 && is_sign(s[0]) {
        s.subrange(1, s.len() as int)
    } else {
        s
    };
    is_inf(b) || is_infinity(b) || is_nan_text(b) || is_number(b)
}

proof fn lemma_numeral_end_chars(t: Seq<char>, i: int)
    requires
        0 <= i <= t.len(),
    ensures
        forall|p: int| i <= p < numeral_end(t, i) ==> is_digit(t[p]) || t[p] == '.',
    decreases t.len() - i,
{
    if i < t.len() && (is_digit(t[i]) || t[i] == '.') {
        lemma_numeral_end_chars(t, i + 1);
        lemma_numeral_end_bounds(t, i + 1);
    }
}

proof fn lemma_numeral_end_saturated(s: Seq<char>, j: int)
    requires
        0 <= j <= s.len(),
        forall|k: int| j <= k < s.len() ==> is_digit(s[k]) || s[k] == '.',
    ensures
        numeral_end(s, j) == s.len(),
    decreases s.len() - j,
{
    if j < s.len() {
        lemma_numeral_end_saturated(s, j + 1);
    }
}

/// The text of a numeral the lexer accepts — digits around at most one
/// decimal point, opened by a digit — is a float text.
pub proof fn lemma_numeral_is_float(num: Seq<char>)
    requires
        num.len() > 0,
        is_digit(num[0]),
        forall|k: int| 0 <= k < num.len() ==> is_digit(num[k]) || num[k] == '.',
        dot_count(num) <= 1,
    ensures
        is_float_literal(num),
{
    lemma_numeral_end_saturated(num, 0);
    assert(num.subrange(0, num.len() as int) =~= num);
    assert(is_mantissa(num));
    assert(is_number(num));
    assert(!is_sign(num[0]));
}

/// Everything the lexer yields is well formed: every number token carries a
/// float text.
pub proof fn lemma_lex_wf(t: Seq<char>, i: int)
    requires
        0 <= i <= t.len(),
    ensures
        lex_from(t, i) matches Ok(s) ==> wf_lexemes(s),
    decreases t.len() - i,
{
    if i == t.len() {
    } else {
        let c = t[i];
        if is_space(c) {
            lemma_lex_wf(t, i + 1);
        } else if single_char_lexeme(c) is Some {
            lemma_lex_wf(t, i + 1);
            if lex_from(t, i) is Ok {
                let s = lex_from(t, i)->Ok_0;
                let rest = lex_from(t, i + 1)->Ok_0;
                assert(s == seq![single_char_lexeme(c)->Some_0] + rest);
                assert(forall|k: int| 0 <= k < rest.len() ==> s[k + 1] == rest[k]);
                assert(wf_lexeme(s[0]));
            }
        } else if is_digit(c) {
            let j = numeral_end(t, i);
            lemma_numeral_end_bounds(t, i);
            let num = t.subrange(i, j);
            if dot_count(num) <= 1 {
                lemma_lex_wf(t, j);
                lemma_numeral_end_chars(t, i);
                assert(num[0] == t[i]);
                assert(forall|k: int| 0 <= k < num.len() ==> is_digit(num[k]) || num[k] == '.');
                lemma_numeral_is_float(num);
                if lex_from(t, i) is Ok {
                    let s = lex_from(t, i)->Ok_0;
                    let rest = lex_from(t, j)->Ok_0;
                    assert(s == seq![Lexeme::Number(num)] + rest);
                    assert(forall|k: int| 0 <= k < rest.len() ==> s[k + 1] == rest[k]);
                    assert(wf_lexeme(s[0]));
                }
            }
        } else if is_letter(c) {
            let j = ident_end(t, i);
            lemma_ident_end_bounds(t, i);
            if ident_lexeme(t.subrange(i, j)) is Ok {
                let l = ident_lexeme(t.subrange(i, j))->Ok_0;
                lemma_lex_wf(t, j);
                if lex_from(t, i) is Ok {
                    let s = lex_from(t, i)->Ok_0;
                    let rest = lex_from(t, j)->Ok_0;
                    assert(s == seq![l] + rest);
                    assert(forall|k: int| 0 <= k < rest.len() ==> s[k + 1] == rest[k]);
                    assert(wf_lexeme(s[0]));
                }
            }
        }
    }
}

fn blank(c: char) -> (b: bool)
    ensures
        b == is_blank(c),
{
    c == ' ' || c == '\t' || c == '\n' || c == '\r'
}

fn digit(c: char) -> (b: bool)
    ensures
        b == is_digit(c),
{
    '0' as u32 <= c as u32 && c as u32 <= '9' as u32
}

fn ci(c: char, lower: char) -> (b: bool)
    requires
        'a' as u32 <= lower as u32 <= 'z' as u32,
    ensures
        b == letter_ci(c, lower),
{
    c == lower || c as u32 + 32 == lower as u32
}

proof fn lemma_ltrim_at(s: Seq<char>, k: int)
    requires
        0 <= k <= s.len(),
        forall|j: int| 0 <= j < k ==> is_blank(s[j]),
        k == s.len() || !is_blank(s[k]),
    ensures
        ltrim(s) == s.subrange(k, s.len() as int),
    decreases k,
{
    if k == 0 {
        assert(s.subrange(0, s.len() as int) =~= s);
    } else {
        let d = s.drop_first();
        assert(d =~= s.subrange(1, s.len() as int));
        lemma_ltrim_at(d, k - 1);
        assert(d.subrange(k - 1, d.len() as int) =~= s.subrange(k, s.len() as int));
    }
}

proof fn lemma_rtrim_at(s: Seq<char>, k: int)
    requires
        0 <= k <= s.len(),
        forall|j: int| k <= j < s.len() ==> is_blank(s[j]),
        k == 0 || !is_blank(s[k - 1]),
    ensures
        rtrim(s) == s.subrange(0, k),
    decreases s.len() - k,
{
    if k == s.len() {
        assert(s.subrange(0, k) =~= s);
    } else {
        let d = s.drop_last();
        assert(d =~= s.subrange(0, s.len() - 1));
        lemma_rtrim_at(d, k);
        assert(d.subrange(0, k) =~= s.subrange(0, k));
    }
}

/// Strips whitespace at both ends, exactly as `trimmed` says.
pub fn trim_text(s: &str) -> (t: String)
    ensures
        t@ == trimmed(s@),
{
    let n = s.unicode_len();
    let mut lo: usize = 0;
    while lo < n && blank(s.get_char(lo))
        invariant
            lo <= n,
            n == s@.len(),
            forall|j: int| 0 <= j < lo ==> is_blank(s@[j]),
        decreases n - lo,
    {
        lo = lo + 1;
    }
    proof {
        lemma_ltrim_at(s@, lo as int);
    }
    let mut hi: usize = n;
    while hi > lo && blank(s.get_char(hi - 1))
        invariant
            lo <= hi <= n,
            n == s@.len(),
            forall|j: int| hi <= j < n ==> is_blank(s@[j]),
        decreases hi,
    {
        hi = hi - 1;
    }
    let ghost body = s@.subrange(lo as int, n as int);
    proof {
        assert(forall|j: int| hi - lo <= j < body.len() ==> is_blank(body[j]));
        assert(hi == lo || !is_blank(body[hi - lo - 1]));
        lemma_rtrim_at(body, hi - lo);
        assert(body.subrange(0, hi - lo) =~= s@.subrange(lo as int, hi as int));
    }
    String::from_str(s.substring_char(lo, hi))
}

/// Decides membership in the standard float grammar, exactly as
/// `is_float_literal` says.
#[verifier::rlimit(100)]
pub fn is_float_text(s: &str) -> (b: bool)
    ensures
        b == is_float_literal(s@),
{
    let n = s.unicode_len();
    let start: usize = if n > 0 && (s.get_char(0) == '+' || s.get_char(0) == '-') {
        1
    } else {
        0
    };
    let ghost body = if s@.len() > 0 && is_sign(s@[0]) {
        s@.subrange(1, s@.len() as int)
    } else {
        s@
    };
    proof {
        if start == 0 {
            assert(body =~= s@.subrange(0, s@.len() as int));
        }
    }
    // The three keyword forms.
    if n - start == 3 && ci(s.get_char(start), 'i') && ci(s.get_char(start + 1), 'n') && ci(
        s.get_char(start + 2),
        'f',
    ) {
        return true;
    }
    if n - start == 8 && ci(s.get_char(start), 'i') && ci(s.get_char(start + 1), 'n') && ci(
        s.get_char(start + 2),
        'f',
    ) && ci(s.get_char(start + 3), 'i') && ci(s.get_char(start + 4), 'n') && ci(
        s.get_char(start + 5),
        'i',
    ) && ci(s.get_char(start + 6), 't') && ci(s.get_char(start + 7), 'y') {
        return true;
    }
    if n - start == 3 && ci(s.get_char(start), 'n') && ci(s.get_char(start + 1), 'a') && ci(
        s.get_char(start + 2),
        'n',
    ) {
        return true;
    }
    proof {
        assert(!is_inf(body) && !is_infinity(body) && !is_nan_text(body));
    }
    // The mantissa scan.
    let mut j = start;
    let mut dots: usize = 0;
    let mut seen_digit = false;
    proof {
        assert(body.subrange(0, 0) =~= Seq::<char>::empty());
    }
    while j < n && (digit(s.get_char(j)) || s.get_char(j) == '.')
        invariant
            start <= j <= n,
            n == s@.len(),
            start == 0 || (start == 1 && is_sign(s@[0])),
            body == s@.subrange(start as int, n as int),
            dots <= j,
            numeral_end(body, 0) == numeral_end(body, j - start),
            dots == dot_count(body.subrange(0, j - start)),
            seen_digit <==> exists|k: int| 0 <= k < j - start && is_digit(body[k]),
            forall|k: int| 0 <= k < j - start ==> is_digit(body[k]) || body[k] == '.',
        decreases n - j,
    {
        let c = s.get_char(j);
        proof {
            assert(body[j - start] == s@[j as int]);
        }
        if c == '.' {
            dots = dots + 1;
        }
        if digit(c) {
            seen_digit = true;
            proof {
                assert(is_digit(body[j - start]));
            }
        }
        proof {
            assert(body.subrange(0, j - start + 1).drop_last() =~= body.subrange(0, j - start));
            assert(body.subrange(0, j - start + 1).last() == body[j - start]);
        }
        j = j + 1;
    }
    let ghost m = numeral_end(body, 0);
    proof {
        assert(numeral_end(body, j - start) == j - start);
        assert(m == j - start);
    }
    let ghost mant = body.subrange(0, j - start);
    let mant_ok = j > start && dots <= 1 && seen_digit;
    proof {
        assert(mant.len() == j - start);
        assert(forall|k: int| 0 <= k < mant.len() ==> mant[k] == body[k]);
        assert(dot_count(mant) == dots);
        if seen_digit {
            let k0 = choose|k: int| 0 <= k < j - start && is_digit(body[k]);
            assert(mant[k0] == body[k0]);
            assert(exists|k: int| 0 <= k < mant.len() && is_digit(mant[k]));
        } else {
            assert(forall|k: int| 0 <= k < mant.len() ==> !is_digit(mant[k]));
        }
        assert(mant_ok == is_mantissa(mant));
    }
    if j == n {
        proof {
            assert(is_float_literal(s@) == (mant_ok && m == body.len()));
        }
        return mant_ok;
    }
    let e = s.get_char(j);
    if !(e == 'e' || e == 'E') {
        proof {
            assert(body[m] == s@[j as int]);
            assert(!is_number(body));
        }
        return false;
    }
    // The exponent's tail.
    let ghost tail = body.subrange(m + 1, body.len() as int);
    proof {
        assert(tail.len() == n - j - 1);
        if j + 1 < n {
            assert(tail[0] == body[m + 1]);
            assert(body[m + 1] == s@[j + 1]);
        }
    }
    let mut k = j + 1;
    if k < n && (s.get_char(k) == '+' || s.get_char(k) == '-') {
        k = k + 1;
    }
    let ghost d = if tail.len() > 0 && is_sign(tail[0]) {
        tail.drop_first()
    } else {
        tail
    };
    proof {
        if k == j + 1 {
            assert(d =~= s@.subrange(k as int, n as int));
        } else {
            assert(tail[0] == s@[j + 1]);
            assert(tail.drop_first() =~= s@.subrange(k as int, n as int));
        }
    }
    if k == n {
        proof {
            assert(d.len() == 0);
            assert(!is_exp_tail(tail));
        }
        return false;
    }
    let mut all = true;
    let mut i = k;
    while i < n
        invariant
            k <= i <= n,
            n == s@.len(),
            d == s@.subrange(k as int, n as int),
            all <==> forall|q: int| 0 <= q < i - k ==> is_digit(d[q]),
        decreases n - i,
    {
        if !digit(s.get_char(i)) {
            proof {
                assert(d[i - k] == s@[i as int]);
            }
            all = false;
        }
        i = i + 1;
    }
    proof {
        assert(d.len() == n - k);
        assert(d.len() > 0);
        assert(all_digits(d) == all);
        if k == j + 1 {
            assert(tail == d);
            assert(is_exp_tail(tail) == (tail.len() > 0 && all_digits(tail)));
        } else {
            assert(is_sign(tail[0]));
            assert(tail.drop_first() == d);
            assert(is_exp_tail(tail) == (tail.len() > 1 && all_digits(tail.drop_first())));
        }
        assert(is_exp_tail(tail) == all);
        assert(body[m] == s@[j as int]);
        assert(is_number(body) == (mant_ok && all));
        assert((mant_ok && all) == is_float_literal(s@));
    }
    mant_ok && all
}

} // verus!
