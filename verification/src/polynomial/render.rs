use super::monomial::Monomial;
use super::poly::Polynomial;
use crate::algebra::fp::Fp;
use vstd::prelude::*;

verus! {

/// The character for a single decimal digit.
pub open spec fn digit(d: int) -> char {
    if d == 0 {
        '0'
    } else if d == 1 {
        '1'
    } else if d == 2 {
        '2'
    } else if d == 3 {
        '3'
    } else if d == 4 {
        '4'
    } else if d == 5 {
        '5'
    } else if d == 6 {
        '6'
    } else if d == 7 {
        '7'
    } else if d == 8 {
        '8'
    } else {
        '9'
    }
}

/// The decimal digits of `n`, without leading zeros.
pub open spec fn decimal(n: nat) -> Seq<char>
    decreases n,
{
    if n < 10 {
        seq![digit(n as int)]
    } else {
        decimal(n / 10).push(digit((n % 10) as int))
    }
}

/// The text of one variable factor: nothing for the exponent zero, `x_i`
/// for the exponent one, and `x_i^d` for any other, with `i` counted from
/// one.
pub open spec fn factor_text(i: int, d: int) -> Seq<char> {
    if d == 0 {
        Seq::empty()
    } else if d == 1 {
        seq!['x', '_'] + decimal((i + 1) as nat)
    } else {
        seq!['x', '_'] + decimal((i + 1) as nat) + seq!['^'] + decimal(d as nat)
    }
}

/// The text of the first `upto` variable factors, one after the other.
pub open spec fn factors_text(exps: Seq<int>, upto: int) -> Seq<char>
    decreases upto,
{
    if upto <= 0 {
        Seq::empty()
    } else {
        factors_text(exps, upto - 1) + factor_text(upto - 1, exps[upto - 1])
    }
}

/// The text of a term with the coefficient `coef`: the coefficient and the
/// variable factors, the coefficient left out where it is one and there is
/// at least one factor.
pub open spec fn term_text(coef: int, exps: Seq<int>) -> Seq<char> {
    let factors = factors_text(exps, exps.len() as int);
    if factors.len() > 0 && coef == 1 {
        factors
    } else {
        decimal(coef as nat) + factors
    }
}

/// The text of the first `upto` terms, joined by ` + `.
pub open spec fn terms_text(texts: Seq<Seq<char>>, upto: int) -> Seq<char>
    decreases upto,
{
    if upto <= 0 {
        Seq::empty()
    } else if upto == 1 {
        texts[0]
    } else {
        terms_text(texts, upto - 1) + seq![' ', '+', ' '] + texts[upto - 1]
    }
}

/// Appends one character to the text.
///
/// Trusted: the body is `String::push` of the standard library, which
/// appends the character at the end and changes nothing else.
#[verifier::external_body]
pub(crate) fn push_char(text: &mut String, c: char)
    ensures
        final(text)@ == old(text)@.push(c),
{
    text.push(c)
}

/// The character for a digit.
pub fn digit_char(d: u32) -> (c: char)
    requires
        d < 10,
    ensures
        c == digit(d as int),
{
    if d == 0 {
        '0'
    } else if d == 1 {
        '1'
    } else if d == 2 {
        '2'
    } else if d == 3 {
        '3'
    } else if d == 4 {
        '4'
    } else if d == 5 {
        '5'
    } else if d == 6 {
        '6'
    } else if d == 7 {
        '7'
    } else if d == 8 {
        '8'
    } else {
        '9'
    }
}

/// Appends the decimal digits of `n` to the text.
pub fn push_decimal(text: &mut String, n: u32)
    ensures
        final(text)@ == old(text)@ + decimal(n as nat),
    decreases n,
{
    if n >= 10 {
        push_decimal(text, n / 10);
    }
    let ghost before = text@;
    push_char(text, digit_char(n % 10));
    proof {
        if n >= 10 {
            assert(text@ =~= old(text)@ + decimal(n as nat));
        } else {
            assert(text@ =~= old(text)@ + decimal(n as nat));
        }
    }
}

impl<const P: u32, const N: usize> Monomial<Fp<P>, N> {
    /// The monomial as text: the coefficient, then `x_i^d` for every
    /// variable with an exponent other than zero. The exponent one is not
    /// written, and neither is the coefficient one before a variable.
    pub fn render(&self) -> (r: String)
        requires
            N < 0xffff_ffff,
        ensures
            r@ == term_text(self.coef.val as int, self@.exps),
    {
        let mut factors = String::new();
        let mut i: usize = 0;
        while i < N
            invariant
                0 <= i <= N,
                N < 0xffff_ffff,
                factors@ == factors_text(self@.exps, i as int),
            decreases N - i,
        {
            let d = self.degree[i];
            let ghost before = factors@;
            if d != 0 {
                push_char(&mut factors, 'x');
                push_char(&mut factors, '_');
                push_decimal(&mut factors, (i + 1) as u32);
                if d != 1 {
                    push_char(&mut factors, '^');
                    push_decimal(&mut factors, d);
                }
            }
            assert(factors@ =~= before + factor_text(i as int, self@.exps[i as int]));
            i += 1;
        }
        if factors.as_str().unicode_len() > 0 && self.coef.val == 1 {
            factors
        } else {
            let mut text = String::new();
            push_decimal(&mut text, self.coef.val);
            text.append(factors.as_str());
            assert(text@ =~= decimal(self.coef.val as nat) + factors@);
            text
        }
    }
}

impl<const P: u32, const N: usize> Polynomial<Fp<P>, N> {
    /// The text of every term, in order.
    pub open spec fn texts(&self) -> Seq<Seq<char>> {
        Seq::new(
            self.monos@.len(),
            |k: int| term_text(self.monos@[k].coef.val as int, self.monos@[k]@.exps),
        )
    }

    /// The polynomial as text: its terms from the largest down, joined by
    /// ` + `. The zero polynomial gives the empty text.
    pub fn render(&self) -> (r: String)
        requires
            N < 0xffff_ffff,
        ensures
            r@ == terms_text(self.texts(), self.monos@.len() as int),
    {
        let mut text = String::new();
        let mut k: usize = 0;
        while k < self.monos.len()
            invariant
                0 <= k <= self.monos.len(),
                N < 0xffff_ffff,
                text@ == terms_text(self.texts(), k as int),
            decreases self.monos.len() - k,
        {
            let ghost before = text@;
            if k > 0 {
                push_char(&mut text, ' ');
                push_char(&mut text, '+');
                push_char(&mut text, ' ');
            }
            let one = self.monos[k].render();
            text.append(one.as_str());
            proof {
                assert(one@ == self.texts()[k as int]);
                if k > 0 {
                    assert(text@ =~= before + seq![' ', '+', ' '] + one@);
                } else {
                    assert(text@ =~= one@);
                }
            }
            k += 1;
        }
        text
    }
}

} // verus!
