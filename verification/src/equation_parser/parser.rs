use super::grammar::{
    lemma_mono_advances, lemma_poly_advances, list_from, mono_from, peek, poly_from,
    pow_at, term_at, var_at, zeros, Parsed,
};
use super::lexer::{classify, clean, flush, readable, scan, Lexer};
use super::token::Token;
use crate::algebra::fp::{Fp, MAX_MODULUS};
use crate::polynomial::monomial::Monomial;
use crate::polynomial::poly::{views, Polynomial};
use crate::polynomial::term::Term;
use vstd::arithmetic::div_mod::lemma_small_mod;
use vstd::prelude::*;

verus! {

/// Reads polynomials from tokens, by recursive descent.
pub struct Parser {
    pub tokens: Vec<Token>,
    pub now: usize,
}

/// The exponents that an array holds, as integers.
pub open spec fn exps_of<const N: usize>(degree: [u32; N]) -> Seq<int> {
    Seq::new(N as nat, |j: int| degree@[j] as int)
}

/// The terms that a list of monomials stands for.
pub open spec fn terms_of<const P: u32, const N: usize>(monos: Seq<Monomial<Fp<P>, N>>) -> Seq<
    Term<Fp<P>>,
> {
    Seq::new(monos.len(), |i: int| monos[i]@)
}

/// Whether every exponent is zero.
pub fn all_zero<const N: usize>(degree: &[u32; N]) -> (r: bool)
    ensures
        r == (exps_of(*degree) == zeros(N as nat)),
{
    let mut j: usize = 0;
    while j < N
        invariant
            0 <= j <= N,
            forall|k: int| 0 <= k < j ==> degree@[k] == 0,
        decreases N - j,
    {
        if degree[j] != 0 {
            assert(exps_of(*degree)[j as int] != zeros(N as nat)[j as int]);
            return false;
        }
        j += 1;
    }
    assert(exps_of(*degree) =~= zeros(N as nat));
    true
}

impl Parser {
    pub fn new(tokens: Vec<Token>) -> (r: Parser)
        ensures
            r.tokens == tokens,
            r.now == 0,
    {
        Parser { tokens, now: 0 }
    }

    /// The token at the current position, if there is one.
    pub fn read(&self) -> (r: Option<Token>)
        ensures
            r == peek(self.tokens@, self.now as int),
    {
        if self.now < self.tokens.len() {
            Some(self.tokens[self.now])
        } else {
            None
        }
    }

    /// Whether the current token is the symbol `c`.
    pub fn at_symbol(&self, c: char) -> (r: bool)
        ensures
            r == (peek(self.tokens@, self.now as int) == Some(Token::Symb(c))),
    {
        match self.read() {
            Some(Token::Symb(s)) => s == c,
            _ => false,
        }
    }

    /// Whether the current token is the variable letter.
    pub fn at_variable(&self) -> (r: bool)
        ensures
            r == (peek(self.tokens@, self.now as int) == Some(Token::Var('x'))),
    {
        match self.read() {
            Some(Token::Var(v)) => v == 'x',
            _ => false,
        }
    }

    /// The value of the current token, where it is a number.
    pub fn number(&self) -> (r: Option<u32>)
        ensures
            (match peek(self.tokens@, self.now as int) {
                Some(Token::Num(n)) => r == Some(n),
                _ => r is None,
            }),
    {
        match self.read() {
            Some(Token::Num(n)) => Some(n),
            _ => None,
        }
    }

    /// Moves on by one token.
    pub fn next(&mut self)
        requires
            old(self).now < old(self).tokens.len(),
        ensures
            final(self).tokens == old(self).tokens,
            final(self).now == old(self).now + 1,
    {
        self.now += 1;
    }

    /// Goes back to the position `prev_id` and fails with `msg`.
    pub fn err<T>(&mut self, prev_id: usize, msg: &'static str) -> (r: Result<T, &'static str>)
        ensures
            final(self).tokens == old(self).tokens,
            final(self).now == prev_id,
            r == Err::<T, &'static str>(msg),
    {
        self.now = prev_id;
        Err(msg)
    }

    /// A comma-separated list of polynomials in `N` variables with
    /// coefficients modulo `P`, from the current position on.
    pub fn parse<const P: u32, const N: usize>(&mut self) -> (r: Result<
        Vec<Polynomial<Fp<P>, N>>,
        &'static str,
    >)
        requires
            0 < P <= MAX_MODULUS,
        ensures
            final(self).tokens == old(self).tokens,
            final(self).now == list_from::<P>(
                old(self).tokens@,
                old(self).now as int,
                N as nat,
                Seq::empty(),
            ).next,
            (match list_from::<P>(
                old(self).tokens@,
                old(self).now as int,
                N as nat,
                Seq::empty(),
            ).value {
                Ok(ps) => r matches Ok(v) && views(v@) == ps && forall|k: int|
                    0 <= k < v@.len() ==> (#[trigger] v@[k]).valid(),
                Err(msg) => r == Err::<Vec<Polynomial<Fp<P>, N>>, &'static str>(msg),
            }),
    {
        let ghost t = self.tokens@;
        let ghost start = self.now as int;
        let mut ans: Vec<Polynomial<Fp<P>, N>> = Vec::new();
        let mut more = true;
        assert(views(ans@) =~= Seq::<Seq<Term<Fp<P>>>>::empty());
        while more
            invariant
                0 < P <= MAX_MODULUS,
                self.tokens@ == t,
                self.tokens == old(self).tokens,
                t == old(self).tokens@,
                start == old(self).now,
                forall|k: int| 0 <= k < ans@.len() ==> (#[trigger] ans@[k]).valid(),
                more ==> list_from::<P>(t, start, N as nat, Seq::empty()) == list_from::<P>(
                    t,
                    self.now as int,
                    N as nat,
                    views(ans@),
                ),
                !more ==> list_from::<P>(t, start, N as nat, Seq::empty()) == (Parsed {
                    value: Ok(views(ans@)),
                    next: self.now as int,
                }),
            decreases
                    if more && self.now <= t.len() {
                        t.len() - self.now + 2
                    } else if more {
                        1int
                    } else {
                        0int
                    },
        {
            let ghost p = self.now as int;
            let ghost before = views(ans@);
            proof {
                lemma_poly_advances::<P>(t, p, N as nat, Seq::empty());
            }
            match self.poly::<P, N>() {
                Ok(poly) => {
                    ans.push(poly);
                    assert(views(ans@) =~= before.push(poly@));
                },
                Err(msg) => {
                    return Err(msg);
                },
            }
            assert(self.now >= p);
            if self.at_symbol(',') {
                self.next();
            } else {
                more = false;
            }
        }
        Ok(ans)
    }

    /// A polynomial: terms separated by `+` or `-`.
    pub fn poly<const P: u32, const N: usize>(&mut self) -> (r: Result<
        Polynomial<Fp<P>, N>,
        &'static str,
    >)
        requires
            0 < P <= MAX_MODULUS,
        ensures
            final(self).tokens == old(self).tokens,
            final(self).now == poly_from::<P>(
                old(self).tokens@,
                old(self).now as int,
                N as nat,
                Seq::empty(),
            ).next,
            (match poly_from::<P>(
                old(self).tokens@,
                old(self).now as int,
                N as nat,
                Seq::empty(),
            ).value {
                Ok(ts) => r matches Ok(p) && p@ == ts && p.valid(),
                Err(msg) => r == Err::<Polynomial<Fp<P>, N>, &'static str>(msg),
            }),
    {
        let ghost t = self.tokens@;
        let ghost start = self.now as int;
        let mut monos: Vec<Monomial<Fp<P>, N>> = Vec::new();
        let mut more = true;
        assert(terms_of(monos@) =~= Seq::<Term<Fp<P>>>::empty());
        while more
            invariant
                0 < P <= MAX_MODULUS,
                self.tokens@ == t,
                self.tokens == old(self).tokens,
                t == old(self).tokens@,
                start == old(self).now,
                forall|k: int| 0 <= k < monos@.len() ==> (#[trigger] monos@[k]).wf(),
                more ==> poly_from::<P>(t, start, N as nat, Seq::empty()) == poly_from::<P>(
                    t,
                    self.now as int,
                    N as nat,
                    terms_of(monos@),
                ),
                !more ==> poly_from::<P>(t, start, N as nat, Seq::empty()) == (Parsed {
                    value: Ok(terms_of(monos@)),
                    next: self.now as int,
                }),
            decreases
                    if more && self.now <= t.len() {
                        t.len() - self.now + 2
                    } else if more {
                        1int
                    } else {
                        0int
                    },
        {
            let ghost p = self.now as int;
            let ghost before = terms_of(monos@);
            proof {
                lemma_mono_advances(t, p, zeros(N as nat));
                lemma_mono_advances(t, p + 1, zeros(N as nat));
            }
            match self.term::<P, N>() {
                Ok(ter) => {
                    monos.push(ter);
                    assert(terms_of(monos@) =~= before.push(ter@));
                },
                Err(msg) => {
                    return Err(msg);
                },
            }
            assert(self.now >= p);
            let plus = self.at_symbol('+');
            let minus = self.at_symbol('-');
            if plus || minus {
                self.next();
            } else {
                more = false;
            }
        }
        let r = Polynomial::new(monos);
        assert(r@ =~= terms_of(monos@));
        Ok(r)
    }

    /// A term: a coefficient, which is one where none is written, and
    /// variable factors. A term with neither is refused.
    pub fn term<const P: u32, const N: usize>(&mut self) -> (r: Result<
        Monomial<Fp<P>, N>,
        &'static str,
    >)
        requires
            0 < P <= MAX_MODULUS,
        ensures
            final(self).tokens == old(self).tokens,
            final(self).now == term_at::<P>(
                old(self).tokens@,
                old(self).now as int,
                N as nat,
            ).next,
            (match term_at::<P>(old(self).tokens@, old(self).now as int, N as nat).value {
                Ok(tm) => r matches Ok(m) && m@ == tm && m.wf(),
                Err(msg) => r == Err::<Monomial<Fp<P>, N>, &'static str>(msg),
            }),
    {
        let mut is_read = false;
        let num: u32 = match self.number() {
            Some(v) => {
                is_read = true;
                v
            },
            None => 1,
        };
        proof {
            lemma_small_mod((num % P) as nat, P as nat);
        }
        let coef = Fp::<P>::new((num % P) as i32);
        if is_read {
            self.next();
        }
        match self.mono::<N>() {
            Ok(degree) => {
                if all_zero(&degree) && !is_read {
                    Err("empty term")
                } else {
                    let m = Monomial::new(coef, degree);
                    assert(m@.exps =~= exps_of(degree));
                    Ok(m)
                }
            },
            Err(msg) => Err(msg),
        }
    }

    /// The exponents of a run of variable factors. A variable index outside
    /// `1..=N` is refused, and so is an exponent that exceeds 32 bits.
    pub fn mono<const N: usize>(&mut self) -> (r: Result<[u32; N], &'static str>)
        ensures
            final(self).tokens == old(self).tokens,
            final(self).now == mono_from(
                old(self).tokens@,
                old(self).now as int,
                zeros(N as nat),
            ).next,
            (match mono_from(old(self).tokens@, old(self).now as int, zeros(N as nat)).value {
                Ok(e) => r matches Ok(d) && exps_of(d) == e,
                Err(msg) => r == Err::<[u32; N], &'static str>(msg),
            }),
    {
        let ghost t = self.tokens@;
        let ghost start = self.now as int;
        let mut degree: [u32; N] = [0u32; N];
        assert(exps_of(degree) =~= zeros(N as nat));
        while self.at_variable()
            invariant
                self.tokens@ == t,
                self.tokens == old(self).tokens,
                t == old(self).tokens@,
                start == old(self).now,
                mono_from(t, start, zeros(N as nat)) == mono_from(
                    t,
                    self.now as int,
                    exps_of(degree),
                ),
            decreases t.len() - self.now,
        {
            let ghost acc = exps_of(degree);
            match self.var() {
                Ok((num, deg)) => {
                    if num == 0 || num as usize > N {
                        return Err("variable index out of range");
                    }
                    let idx: usize = (num - 1) as usize;
                    let sum: u64 = degree[idx] as u64 + deg as u64;
                    if sum > 0xffff_ffff {
                        return Err("exponent too large");
                    }
                    degree[idx] = sum as u32;
                    assert(exps_of(degree) =~= acc.update(num - 1, acc[num - 1] + deg));
                },
                Err(msg) => {
                    return Err(msg);
                },
            }
        }
        Ok(degree)
    }

    /// A variable factor: `x_` and the index, then an exponent where one is
    /// written. Returns the index and the exponent, which is one where none
    /// is written.
    pub fn var(&mut self) -> (r: Result<(u32, u32), &'static str>)
        ensures
            final(self).tokens == old(self).tokens,
            final(self).now == var_at(old(self).tokens@, old(self).now as int).next,
            r == var_at(old(self).tokens@, old(self).now as int).value,
    {
        let prev_id = self.now;
        if self.at_variable() {
            self.next();
            if self.at_symbol('_') {
                self.next();
                match self.number() {
                    Some(num) => {
                        self.next();
                        if self.at_symbol('^') {
                            match self.pow() {
                                Ok(deg) => Ok((num, deg)),
                                Err(msg) => Err(msg),
                            }
                        } else {
                            Ok((num, 1))
                        }
                    },
                    None => self.err(prev_id, "'x_' is invalid"),
                }
            } else {
                self.err(prev_id, "'x' is invalid")
            }
        } else {
            self.err(prev_id, "not variable")
        }
    }

    /// An exponent: `^` and a number.
    pub fn pow(&mut self) -> (r: Result<u32, &'static str>)
        ensures
            final(self).tokens == old(self).tokens,
            final(self).now == pow_at(old(self).tokens@, old(self).now as int).next,
            r == pow_at(old(self).tokens@, old(self).now as int).value,
    {
        let prev_id = self.now;
        if self.at_symbol('^') {
            self.next();
            match self.number() {
                Some(num) => {
                    self.next();
                    Ok(num)
                },
                None => self.err(prev_id, "'^' is invalid"),
            }
        } else {
            self.err(prev_id, "not pow")
        }
    }
}

/// The polynomials in `N` variables, with coefficients modulo `P`, that the
/// text `eq` denotes: the text is turned into tokens, and the tokens are
/// read as a list of polynomials. A text that cannot be turned into tokens
/// fails with the complaint about its first character that cannot be read.
pub fn parse<const P: u32, const N: usize>(eq: &str) -> (r: Result<
    Vec<Polynomial<Fp<P>, N>>,
    &'static str,
>)
    requires
        0 < P <= MAX_MODULUS,
    ensures
        !clean(eq@, eq@.len() as int) ==> (r matches Err(msg) && exists|k: int|
            0 <= k < eq@.len() && clean(eq@, k) && !#[trigger] readable(eq@, k) && msg == (
            if classify(eq@[k]) is None {
                "unexpected character"
            } else {
                "number too large"
            })),
        clean(eq@, eq@.len() as int) ==> (match list_from::<P>(
            flush(scan(eq@, eq@.len() as int)).push(Token::EOF),
            0,
            N as nat,
            Seq::empty(),
        ).value {
            Ok(ps) => r matches Ok(v) && views(v@) == ps && forall|k: int|
                0 <= k < v@.len() ==> (#[trigger] v@[k]).valid(),
            Err(msg) => r == Err::<Vec<Polynomial<Fp<P>, N>>, &'static str>(msg),
        }),
{
    let mut lexer = Lexer::new(eq);
    assert(lexer.rest() =~= eq@);
    match lexer.lex() {
        Ok(tokens) => {
            let mut parser = Parser::new(tokens);
            parser.parse::<P, N>()
        },
        Err(msg) => Err(msg),
    }
}

} // verus!
