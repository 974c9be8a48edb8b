use super::token::Token;
use crate::polynomial::render::push_char;
use vstd::prelude::*;

verus! {

/// The token that a single character stands for: a digit by its value, the
/// variable letter, an operator or the comma; `None` for any other
/// character.
pub open spec fn classify(c: char) -> Option<Token> {
    if '0' <= c && c <= '9' {
        Some(Token::Num((c as u32 - '0' as u32) as u32))
    } else if c == 'x' {
        Some(Token::Var('x'))
    } else if c == '_' || c == '^' || c == '+' || c == '-' {
        Some(Token::Op(c))
    } else if c == ',' {
        Some(Token::Symbol(','))
    } else {
        None
    }
}

/// What has been read so far: the tokens that are complete, and the value
/// of the digits read since the last of them.
pub struct Pending {
    pub tokens: Seq<Token>,
    pub num: nat,
}

/// The tokens once the pending number is added. A pending value of zero
/// adds nothing.
pub open spec fn flush(st: Pending) -> Seq<Token> {
    if st.num > 0 {
        st.tokens.push(Token::Num(st.num as u32))
    } else {
        st.tokens
    }
}

/// The state after one more character: a digit extends the pending number,
/// anything else ends it and becomes a token.
pub open spec fn feed(st: Pending, t: Token) -> Pending {
    match t {
        Token::Num(a) => Pending { tokens: st.tokens, num: (st.num * 10 + a) as nat },
        _ => Pending { tokens: flush(st).push(t), num: 0 },
    }
}

/// The state after the first `k` characters.
pub open spec fn scan(chars: Seq<char>, k: int) -> Pending
    decreases k,
{
    if k <= 0 {
        Pending { tokens: Seq::empty(), num: 0 }
    } else {
        match classify(chars[k - 1]) {
            Some(t) => feed(scan(chars, k - 1), t),
            None => scan(chars, k - 1),
        }
    }
}

/// The `i`-th character can be read: it is one of the notation, and the
/// number it extends still fits in 32 bits.
pub open spec fn readable(chars: Seq<char>, i: int) -> bool {
    classify(chars[i]) is Some && scan(chars, i + 1).num <= u32::MAX
}

/// Each of the first `k` characters can be read.
pub open spec fn clean(chars: Seq<char>, k: int) -> bool {
    forall|i: int| 0 <= i < k ==> #[trigger] readable(chars, i)
}

/// The complaint about a character that is not of the notation: it names
/// the character between quotes.
pub open spec fn complaint(c: char) -> Seq<char> {
    "unexpected character '"@.push(c).push('\'')
}

/// The complaint about a number that exceeds 32 bits.
pub open spec fn too_large() -> Seq<char> {
    "number too large"@
}

/// The text of the complaint about the character `c`.
pub fn unexpected(c: char) -> (r: String)
    ensures
        r@ == complaint(c),
{
    let mut text = String::from_str("unexpected character '");
    push_char(&mut text, c);
    push_char(&mut text, '\'');
    text
}

/// Turns text into tokens, character by character.
pub struct Lexer<'a> {
    pub sentence: &'a str,
    pub cursor: usize,
}

impl<'a> Lexer<'a> {
    /// The number of characters already read.
    pub open spec fn position(&self) -> int {
        self.cursor as int
    }

    /// The characters not yet read.
    pub open spec fn rest(&self) -> Seq<char> {
        self.sentence@.skip(self.position())
    }

    /// The position lies within the text.
    pub open spec fn wf(&self) -> bool {
        0 <= self.position() <= self.sentence@.len()
    }

    pub fn new(sentence: &'a str) -> (r: Lexer<'a>)
        ensures
            r.sentence == sentence,
            r.position() == 0,
            r.wf(),
    {
        Lexer { sentence, cursor: 0 }
    }

    /// The tokens of the text that is left, closed by `EOF`; digits at the
    /// very end of the text give no token. Fails at the first character
    /// that is not of the notation, or at the first digit with which a
    /// number exceeds 32 bits.
    pub fn lex(&mut self) -> (r: Result<Vec<Token>, String>)
        requires
            old(self).wf(),
        ensures
            final(self).sentence == old(self).sentence,
            final(self).wf(),
            clean(old(self).rest(), old(self).rest().len() as int) ==> r is Ok,
            r matches Ok(tokens) ==> clean(old(self).rest(), old(self).rest().len() as int)
                && tokens@ == scan(old(self).rest(), old(self).rest().len() as int).tokens.push(
                Token::EOF,
            ) && final(self).rest().len() == 0,
            r matches Err(msg) ==> exists|k: int|
                0 <= k < old(self).rest().len() && clean(old(self).rest(), k) && !#[trigger] readable(
                    old(self).rest(),
                    k,
                ) && final(self).position() == old(self).position() + k + 1 && msg@ == (
                if classify(old(self).rest()[k]) is None {
                    complaint(old(self).rest()[k])
                } else {
                    too_large()
                }),
    {
        let ghost chars = self.rest();
        let ghost start = self.position();
        let n = self.sentence.unicode_len();
        let mut ans: Vec<Token> = Vec::new();
        let mut num: u32 = 0;
        while self.cursor < n
            invariant
                self.sentence == old(self).sentence,
                n == self.sentence@.len(),
                chars == old(self).rest(),
                start == old(self).position(),
                0 <= start <= self.position() <= n,
                clean(chars, self.position() - start),
                ans@ == scan(chars, self.position() - start).tokens,
                num == scan(chars, self.position() - start).num,
            decreases n - self.cursor,
        {
            let ghost k = self.position() - start;
            let c = self.sentence.get_char(self.cursor);
            assert(chars[k] == c);
            self.cursor += 1;
            match self.lex_char(c) {
                Ok(tok) => {
                    match tok {
                        Token::Num(a) => {
                            let wide: u64 = num as u64 * 10 + a as u64;
                            if wide > 0xffff_ffff {
                                assert(!readable(chars, k));
                                return Err(String::from_str("number too large"));
                            }
                            num = wide as u32;
                        },
                        _ => {
                            self.add_num(&mut ans, &mut num);
                            ans.push(tok);
                        },
                    }
                    assert(readable(chars, k));
                },
                Err(msg) => {
                    self.add_num(&mut ans, &mut num);
                    assert(!readable(chars, k));
                    return Err(msg);
                },
            }
        }
        ans.push(Token::EOF);
        assert(self.rest().len() == 0);
        Ok(ans)
    }

    /// The token for one character.
    pub fn lex_char(&self, c: char) -> (r: Result<Token, String>)
        ensures
            (match classify(c) {
                Some(t) => r == Ok::<Token, String>(t),
                None => r matches Err(msg) && msg@ == complaint(c),
            }),
    {
        if '0' <= c && c <= '9' {
            Ok(Token::Num(c as u32 - '0' as u32))
        } else if c == 'x' {
            Ok(Token::Var('x'))
        } else if c == '_' || c == '^' || c == '+' || c == '-' {
            Ok(Token::Op(c))
        } else if c == ',' {
            Ok(Token::Symbol(','))
        } else {
            Err(unexpected(c))
        }
    }

    /// Ends the pending number: where it is not zero it becomes a token,
    /// and the pending value starts again at zero.
    pub fn add_num(&self, ans: &mut Vec<Token>, num: &mut u32)
        ensures
            final(ans)@ == flush((Pending { tokens: old(ans)@, num: *old(num) as nat })),
            *final(num) == 0,
    {
        if *num > 0 {
            ans.push(Token::Num(*num));
            *num = 0;
        }
    }
}

} // verus!
